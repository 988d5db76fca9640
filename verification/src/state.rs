//! The permutation state and its initialization.

use crate::context::{lemma_enforces_earlier, Context};
use crate::field::Fe;
use crate::gate::{limb_values, place, reads, Assignment, Error, Limb, Line};
use crate::rows::is_constant_row;
use vstd::prelude::*;

verus! {

/// The tag of a challenge among the values fed to the sponge.
pub const PREFIX_CHALLENGE: u64 = 0;

/// The tag of a curve point.
pub const PREFIX_POINT: u64 = 1;

/// The tag of a scalar.
pub const PREFIX_SCALAR: u64 = 2;

/// The first element of a fresh state: a full rate and nothing else, `2^64`.
pub const CAPACITY_MARKER: u128 = 0x1_0000_0000_0000_0000;

/// The values of a fresh state of width `t`: the capacity marker, then zeros.
pub open spec fn default_values(t: nat) -> Seq<nat> {
    Seq::new(
        t,
        |i: int|
            if i == 0 {
                CAPACITY_MARKER as nat
            } else {
                0nat
            },
    )
}

/// The state of the permutation: its cells, their values after a reset, and
/// the constants that mark the kind of a value fed to the sponge.
#[derive(Debug)]
pub struct PoseidonState {
    /// The state as the last call left it.
    pub state: Vec<Limb>,
    /// The state that a reset starts from.
    pub default: Vec<Limb>,
    /// The tags of a challenge, a point and a scalar, in this order. The
    /// permutation does not use them; they are kept for whoever drives the
    /// sponge.
    pub prefix: Vec<Limb>,
}

impl PoseidonState {
    /// The number of elements of the state.
    pub open spec fn width(&self) -> nat {
        self.state@.len()
    }

    /// The state has the width `t`, and so has its image after a reset.
    pub open spec fn wf(&self, t: nat) -> bool {
        &&& self.state@.len() == t
        &&& self.default@.len() == t
    }

    /// The state was initialized: its image after a reset is the capacity
    /// marker followed by zeros, each the cell of a constant, and the three
    /// tags are there.
    pub open spec fn initialized(&self, t: nat) -> bool {
        &&& self.wf(t)
        &&& limb_values(self.default@) == default_values(t)
        &&& forall|i: int|
            0 <= i < t ==> (#[trigger] self.default@[i]).cell == Some(
                place(
                    if i == 0 {
                        1
                    } else {
                        0
                    },
                    0,
                ),
            )
        &&& self.prefix@.len() == 3
        &&& limb_values(self.prefix@) == seq![
            PREFIX_CHALLENGE as nat,
            PREFIX_POINT as nat,
            PREFIX_SCALAR as nat,
        ]
        &&& forall|i: int|
            0 <= i < 3 ==> (#[trigger] self.prefix@[i]).cell == Some(place((i + 2) as usize, 0))
    }

    /// The state is fresh: initialized, and nothing was absorbed since.
    pub open spec fn fresh(&self, t: nat) -> bool {
        &&& self.initialized(t)
        &&& self.state@ == self.default@
    }
}

/// The five rows of an initialization, from index `from` of the rows on and
/// from the first row of the context: each fixes a constant. They are zero,
/// the capacity marker, and the tags of a challenge, a point and a scalar.
pub open spec fn is_initialization(lines: Seq<Line>, from: int) -> bool {
    &&& is_constant_row(lines[from], 0, Fe::spec_zero())
    &&& is_constant_row(lines[from + 1], 1, Fe::spec_from_u128(CAPACITY_MARKER))
    &&& is_constant_row(lines[from + 2], 2, Fe::spec_from_u64(PREFIX_CHALLENGE))
    &&& is_constant_row(lines[from + 3], 3, Fe::spec_from_u64(PREFIX_POINT))
    &&& is_constant_row(lines[from + 4], 4, Fe::spec_from_u64(PREFIX_SCALAR))
}

/// The five rows from index `from` fix the cells of a fresh state and of the
/// tags: under every assignment that satisfies them, the fresh state is the
/// capacity marker followed by zeros, and the tags are theirs.
pub open spec fn constants_bound(ctx: Context, from: int, state: PoseidonState) -> bool {
    forall|a: Assignment| #[trigger]
        ctx.enforces(a, from, from + 5) ==> reads(a, state.default@) == default_values(
            state.default@.len(),
        ) && reads(a, state.prefix@) == seq![
            PREFIX_CHALLENGE as nat,
            PREFIX_POINT as nat,
            PREFIX_SCALAR as nat,
        ]
}

impl PoseidonState {
    /// Starts the state afresh at the top of the context.
    ///
    /// The cursor goes back to the first row. Five constants are allocated
    /// from there: zero, the capacity marker, and the three tags. The state
    /// and its image after a reset become the marker followed by zeros.
    pub fn initialize(&mut self, ctx: &mut Context) -> (res: Result<(), Error>)
        requires
            old(self).width() >= 1,
        ensures
            final(ctx).extends(*old(ctx)),
            final(self).state@.len() == old(self).width(),
            res is Ok <==> 5 <= old(ctx).rows,
            res matches Err(e) ==> e == Error::ConstraintAllocation && *final(self) == *old(self),
            res is Err ==> final(ctx).offset == old(ctx).rows && final(ctx).lines@.len() == old(
                ctx,
            ).lines@.len() + old(ctx).rows,
            res is Ok ==> {
                &&& final(self).fresh(old(self).width())
                &&& final(ctx).offset == 5
                &&& final(ctx).lines@.len() == old(ctx).lines@.len() + 5
                &&& is_initialization(final(ctx).lines@, old(ctx).lines@.len() as int)
                &&& final(ctx).holds_from(old(ctx).lines@.len() as int)
                &&& constants_bound(*final(ctx), old(ctx).lines@.len() as int, *final(self))
            },
    {
        let n: usize = self.state.len();
        ctx.offset = 0;
        let ghost start = ctx.lines@.len() as int;
        let zero = ctx.assign_constant(&Fe::zero())?;
        let ghost c1 = *ctx;
        let marker = ctx.assign_constant(&Fe::from_u128(CAPACITY_MARKER))?;
        let ghost c2 = *ctx;
        let mut state: Vec<Limb> = Vec::new();
        state.push(marker);
        let mut i: usize = 1;
        while i < n
            invariant
                1 <= i <= n,
                state@.len() == i,
                state@[0] == marker,
                forall|j: int| 1 <= j < i ==> state@[j] == zero,
            decreases n - i,
        {
            state.push(zero);
            i = i + 1;
        }
        let challenge = ctx.assign_constant(&Fe::from_u64(PREFIX_CHALLENGE))?;
        let ghost c3 = *ctx;
        let point = ctx.assign_constant(&Fe::from_u64(PREFIX_POINT))?;
        let ghost c4 = *ctx;
        let scalar = ctx.assign_constant(&Fe::from_u64(PREFIX_SCALAR))?;
        proof {
            assert(c1.lines@.last() == ctx.lines@[start]);
            assert(c2.lines@.last() == ctx.lines@[start + 1]);
            assert(c3.lines@.last() == ctx.lines@[start + 2]);
            assert(c4.lines@.last() == ctx.lines@[start + 3]);
            assert(ctx.lines@.last() == ctx.lines@[start + 4]);
        }
        self.default = state.clone();
        self.state = state;
        self.prefix = vec![challenge, point, scalar];
        proof {
            assert(self.default@ =~= self.state@);
            assert(limb_values(self.default@) =~= default_values(n as nat));
            assert(limb_values(self.prefix@) =~= seq![
                PREFIX_CHALLENGE as nat,
                PREFIX_POINT as nat,
                PREFIX_SCALAR as nat,
            ]);
            assert forall|a: Assignment| #[trigger] ctx.enforces(a, start, start + 5) implies reads(
                a,
                self.default@,
            ) == default_values(self.default@.len()) && reads(a, self.prefix@) == seq![
                PREFIX_CHALLENGE as nat,
                PREFIX_POINT as nat,
                PREFIX_SCALAR as nat,
            ] by {
                lemma_enforces_earlier(*ctx, c1, a, start, start + 1, start + 5);
                lemma_enforces_earlier(*ctx, c2, a, start + 1, start + 2, start + 5);
                lemma_enforces_earlier(*ctx, c3, a, start + 2, start + 3, start + 5);
                lemma_enforces_earlier(*ctx, c4, a, start + 3, start + 4, start + 5);
                assert(ctx.enforces(a, start + 4, start + 5));
                assert(reads(a, self.default@) =~= default_values(self.default@.len()));
                assert(reads(a, self.prefix@) =~= seq![
                    PREFIX_CHALLENGE as nat,
                    PREFIX_POINT as nat,
                    PREFIX_SCALAR as nat,
                ]);
            }
        }
        Ok(())
    }
}

} // verus!
