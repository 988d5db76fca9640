//! The chip: a permutation state bound to its parameters, used as a sponge.

use crate::context::{lemma_enforces_earlier, Context};
use crate::field::Fe;
use crate::gate::{
    all_placed, limb_values, produced, read, reads, reads_upto, Assignment, Error, Limb, Line,
};
use crate::params::Spec;
use crate::permutation::{permutation, SpecView};
use crate::rounds::{
    after_full_round, is_permutation, last_round_start, mixed_cell, permute_cut, permute_rows,
};
use crate::rows::is_select_row;
use crate::state::{constants_bound, is_initialization, PoseidonState};
use vstd::prelude::*;

verus! {

/// The state that a call works on: the fresh one where the flag is set, the
/// accumulated one where it is not.
pub open spec fn selected(reset: nat, state: Seq<nat>, default: Seq<nat>) -> Seq<nat> {
    if reset != 0 {
        default
    } else {
        state
    }
}

/// The state that one call of the sponge leaves behind.
pub open spec fn next_state(
    spec: SpecView,
    state: Seq<nat>,
    default: Seq<nat>,
    inputs: Seq<nat>,
    reset: nat,
) -> Seq<nat> {
    permutation(spec, selected(reset, state, default), inputs)
}

/// What one call of the sponge squeezes out: the second element of the state
/// that it leaves behind.
pub open spec fn squeezed(
    spec: SpecView,
    state: Seq<nat>,
    default: Seq<nat>,
    inputs: Seq<nat>,
    reset: nat,
) -> nat {
    next_state(spec, state, default, inputs, reset)[1]
}

/// The rows from index `from` up to `to` make the cells of `after` the state
/// that one call of the sponge leaves behind: under every assignment that
/// satisfies them and gives the flag zero or one, they have the values of
/// that state.
pub open spec fn call_bound(
    ctx: Context,
    from: int,
    to: int,
    spec: SpecView,
    before: PoseidonState,
    values: Seq<Limb>,
    reset: Limb,
    after: Seq<Limb>,
) -> bool {
    forall|a: Assignment|
        #![trigger ctx.enforces(a, from, to)]
        ctx.enforces(a, from, to) && read(a, reset) <= 1 ==> reads(a, after) == next_state(
            spec,
            reads(a, before.state@),
            reads(a, before.default@),
            reads(a, values),
            read(a, reset),
        )
}

/// The rows from index `from` up to `to`, with the equalities asked for,
/// make the cell of `result` what one call of the sponge squeezes out: under
/// every assignment that satisfies them and gives the flag zero or one, it
/// has that value.
pub open spec fn result_bound(
    ctx: Context,
    from: int,
    to: int,
    spec: SpecView,
    before: PoseidonState,
    values: Seq<Limb>,
    reset: Limb,
    result: Limb,
) -> bool {
    forall|a: Assignment|
        #![trigger ctx.enforces(a, from, to)]
        ctx.enforces(a, from, to) && ctx.copies_enforced(a) && read(a, reset) <= 1 ==> read(
            a,
            result,
        ) == squeezed(
            spec,
            reads(a, before.state@),
            reads(a, before.default@),
            reads(a, values),
            read(a, reset),
        )
}

/// Every cell that a call reads has a place: those of the state, of the
/// fresh state, of the values and of the flag.
pub open spec fn call_placed(before: PoseidonState, values: Seq<Limb>, reset: Limb) -> bool {
    &&& all_placed(before.state@)
    &&& all_placed(before.default@)
    &&& all_placed(values)
    &&& reset.cell is Some
}

/// The row of the selection of the `i`-th element of the working state,
/// where the selections start at index `from` of the rows and at the offset
/// `offset`: a row that selects the element of the fresh state for a flag
/// that is set and that of the accumulated state for one that is clear, with
/// `hint` as its hint.
pub open spec fn is_select_at(
    lines: Seq<Line>,
    from: int,
    offset: int,
    reset: Limb,
    default: Seq<Limb>,
    state: Seq<Limb>,
    hint: u64,
    i: int,
) -> bool {
    is_select_row(lines[from + i], offset + i, reset, default[i], state[i], hint)
}

/// The rows that select the working state: one for each element, in order.
pub open spec fn is_selection(
    lines: Seq<Line>,
    from: int,
    offset: int,
    reset: Limb,
    default: Seq<Limb>,
    state: Seq<Limb>,
    hint: u64,
) -> bool {
    forall|i: int|
        0 <= i < state.len() ==> #[trigger] is_select_at(
            lines,
            from,
            offset,
            reset,
            default,
            state,
            hint,
            i,
        )
}

/// The working state that the selections from index `from` of the rows on
/// leave: each element is the `d` cell of its row.
pub open spec fn picked(lines: Seq<Line>, from: int, t: nat) -> Seq<Limb> {
    Seq::new(t, |i: int| produced(lines[from + i]))
}

/// The rows of one call of the sponge that starts at index `from` of the
/// rows and at the offset `offset`: the selections, then the permutation of
/// the selected state with the values absorbed.
pub open spec fn is_call(
    lines: Seq<Line>,
    from: int,
    offset: int,
    chip: PoseidonChip,
    values: Seq<Limb>,
    reset: Limb,
) -> bool {
    &&& is_selection(
        lines,
        from,
        offset,
        reset,
        chip.poseidon_state.default@,
        chip.poseidon_state.state@,
        chip.round,
    )
    &&& is_permutation(
        lines,
        from + chip.spec.t,
        offset + chip.spec.t,
        chip.spec,
        picked(lines, from, chip.spec.t as nat),
        values,
    )
}

/// The state that a call from index `from` of the rows on leaves: what the
/// last full round of its permutation leaves.
pub open spec fn after_call(lines: Seq<Line>, from: int, chip: PoseidonChip) -> Seq<Limb> {
    after_full_round(
        lines,
        last_round_start(from + chip.spec.t, chip.spec, chip.spec.t as nat),
        chip.spec.t as nat,
    )
}

/// The state that a call leaves when the rows run out with `left` rows left
/// at its start: the state as it was where not every selection fits, else
/// that of the permutation cut short on the selected state.
pub open spec fn call_cut(lines: Seq<Line>, from: int, chip: PoseidonChip, left: int) -> Seq<
    Limb,
> {
    if left < chip.spec.t {
        chip.poseidon_state.state@
    } else {
        permute_cut(
            lines,
            from + chip.spec.t,
            chip.spec,
            picked(lines, from, chip.spec.t as nat),
            left - chip.spec.t,
        )
    }
}

/// The first `i` selections are there, and `res` holds what they produced.
#[verifier::opaque]
pub open spec fn selection_upto(
    lines: Seq<Line>,
    from: int,
    offset: int,
    reset: Limb,
    default: Seq<Limb>,
    state: Seq<Limb>,
    hint: u64,
    res: Seq<Limb>,
    i: int,
) -> bool {
    &&& res.len() == i
    &&& lines.len() == from + i
    &&& forall|j: int|
        0 <= j < i ==> #[trigger] is_select_at(lines, from, offset, reset, default, state, hint, j)
    &&& forall|j: int| 0 <= j < i ==> (#[trigger] res[j]) == produced(lines[from + j])
}

/// One more selection keeps the selections before it.
proof fn lemma_selection_step(
    after: Seq<Line>,
    earlier: Seq<Line>,
    from: int,
    offset: int,
    reset: Limb,
    default: Seq<Limb>,
    state: Seq<Limb>,
    hint: u64,
    i: int,
    res: Seq<Limb>,
    res_earlier: Seq<Limb>,
)
    requires
        0 <= from,
        0 <= i,
        selection_upto(earlier, from, offset, reset, default, state, hint, res_earlier, i),
        after.len() == earlier.len() + 1,
        forall|k: int| 0 <= k < earlier.len() ==> after[k] == earlier[k],
        is_select_row(after.last(), offset + i, reset, default[i], state[i], hint),
        res == res_earlier.push(produced(after.last())),
    ensures
        selection_upto(after, from, offset, reset, default, state, hint, res, i + 1),
{
    reveal(selection_upto);
    assert(after.last() == after[from + i]);
    assert forall|j: int| 0 <= j < i + 1 implies #[trigger] is_select_at(
        after,
        from,
        offset,
        reset,
        default,
        state,
        hint,
        j,
    ) by {
        if j < i {
            assert(is_select_at(earlier, from, offset, reset, default, state, hint, j));
            assert(after[from + j] == earlier[from + j]);
        }
    }
    assert forall|j: int| 0 <= j < i + 1 implies (#[trigger] res[j]) == produced(
        after[from + j],
    ) by {
        if j < i {
            assert(res[j] == res_earlier[j]);
            assert(after[from + j] == earlier[from + j]);
        }
    }
}

/// The selections stay what they are when rows are added.
proof fn lemma_selection_kept(
    after: Seq<Line>,
    earlier: Seq<Line>,
    from: int,
    offset: int,
    reset: Limb,
    default: Seq<Limb>,
    state: Seq<Limb>,
    hint: u64,
    res: Seq<Limb>,
)
    requires
        0 <= from,
        selection_upto(earlier, from, offset, reset, default, state, hint, res, state.len() as int),
        earlier.len() <= after.len(),
        forall|k: int| 0 <= k < earlier.len() ==> after[k] == earlier[k],
    ensures
        is_selection(after, from, offset, reset, default, state, hint),
        res == picked(after, from, state.len()),
{
    reveal(selection_upto);
    assert forall|j: int| 0 <= j < state.len() implies #[trigger] is_select_at(
        after,
        from,
        offset,
        reset,
        default,
        state,
        hint,
        j,
    ) by {
        assert(is_select_at(earlier, from, offset, reset, default, state, hint, j));
        assert(after[from + j] == earlier[from + j]);
    }
    assert forall|j: int| 0 <= j < state.len() implies (#[trigger] res[j]) == produced(
        after[from + j],
    ) by {
        assert(after[from + j] == earlier[from + j]);
    }
    assert(res =~= picked(after, from, state.len()));
}

/// The rows of one call of the sponge: one to select each element of the
/// state, then the permutation.
pub open spec fn call_rows(t: nat, r_f: nat, r_p: nat) -> nat {
    t + permute_rows(t, r_f, r_p)
}

/// A permutation state together with the parameters it runs under.
#[derive(Debug)]
pub struct PoseidonChip {
    pub spec: Spec,
    pub poseidon_state: PoseidonState,
    /// Handed to every selection as its hint.
    pub round: u64,
}

impl PoseidonChip {
    /// The rows of one call of the sponge on this chip.
    pub open spec fn call_rows(&self) -> int {
        call_rows(self.spec.t as nat, self.spec.r_f as nat, self.spec.r_p as nat) as int
    }

    /// The parameters fit together and the state has their width.
    pub open spec fn wf(&self) -> bool {
        &&& self.spec.wf()
        &&& self.poseidon_state.wf(self.spec.t as nat)
    }

    /// A chip for the given parameters, with an all-zero state that has no
    /// cells yet. There is none where the parameters do not fit together.
    pub fn construct(spec: Spec) -> (res: Option<PoseidonChip>)
        ensures
            res is Some <==> spec.wf(),
            res matches Some(chip) ==> {
                &&& chip.wf()
                &&& chip.spec == spec
                &&& chip.round == 0
                &&& chip.poseidon_state.state@ == chip.poseidon_state.default@
                &&& chip.poseidon_state.prefix@.len() == 0
                &&& forall|i: int|
                    0 <= i < spec.t ==> (#[trigger] chip.poseidon_state.state@[i]).cell is None
                        && chip.poseidon_state.state@[i].value@ == 0
            },
    {
        if !spec.is_consistent() {
            return None;
        }
        let mut state: Vec<Limb> = Vec::new();
        let mut i: usize = 0;
        while i < spec.t
            invariant
                i <= spec.t,
                state@.len() == i,
                forall|j: int|
                    0 <= j < i ==> (#[trigger] state@[j]).cell is None && state@[j].value@ == 0,
            decreases spec.t - i,
        {
            state.push(Limb::new(None, Fe::zero()));
            i = i + 1;
        }
        let state = PoseidonState { default: state.clone(), state, prefix: Vec::new() };
        Some(PoseidonChip { round: 0, spec, poseidon_state: state })
    }

    /// Starts the sponge afresh at the top of the context.
    pub fn initialize(&mut self, ctx: &mut Context) -> (res: Result<(), Error>)
        requires
            old(self).wf(),
        ensures
            final(self).wf(),
            final(self).spec == old(self).spec,
            final(self).round == old(self).round,
            final(ctx).extends(*old(ctx)),
            res is Ok <==> 5 <= old(ctx).rows,
            res matches Err(e) ==> e == Error::ConstraintAllocation && *final(self) == *old(self),
            res is Err ==> final(ctx).offset == old(ctx).rows && final(ctx).lines@.len() == old(
                ctx,
            ).lines@.len() + old(ctx).rows,
            res is Ok ==> {
                &&& final(self).poseidon_state.fresh(old(self).spec.t as nat)
                &&& final(ctx).offset == 5
                &&& final(ctx).lines@.len() == old(ctx).lines@.len() + 5
                &&& is_initialization(final(ctx).lines@, old(ctx).lines@.len() as int)
                &&& final(ctx).holds_from(old(ctx).lines@.len() as int)
                &&& constants_bound(
                    *final(ctx),
                    old(ctx).lines@.len() as int,
                    final(self).poseidon_state,
                )
            },
    {
        self.poseidon_state.initialize(ctx)
    }

    /// A context with `rows` rows for the chip to write to.
    pub fn configure(rows: usize) -> (ctx: Context)
        ensures
            ctx.wf(),
            ctx.lines@.len() == 0,
            ctx.copies@.len() == 0,
            ctx.offset == 0,
            ctx.rows == rows,
    {
        Context::new(rows)
    }

    /// One call of the sponge: selects the state to work on, permutes it with
    /// `values` absorbed, and hands back the second element.
    ///
    /// Each element of the working state is selected, in one row, between the
    /// fresh state where `reset` is not zero and the accumulated one where it
    /// is zero. The select rows are satisfied for a flag that is zero or one.
    #[verifier::rlimit(50)]
    pub fn get_permute_result(
        &mut self,
        ctx: &mut Context,
        values: &Vec<Limb>,
        reset: &Limb,
    ) -> (res: Result<Limb, Error>)
        requires
            old(ctx).wf(),
            old(self).wf(),
            values@.len() == old(self).spec.rate,
        ensures
            final(ctx).extends(*old(ctx)),
            final(self).wf(),
            final(self).spec == old(self).spec,
            final(self).round == old(self).round,
            final(self).poseidon_state.default == old(self).poseidon_state.default,
            final(self).poseidon_state.prefix == old(self).poseidon_state.prefix,
            res is Ok <==> old(ctx).fits(old(self).call_rows()),
            res matches Err(e) ==> e == Error::ConstraintAllocation && final(ctx).ran_out(*old(ctx)),
            !old(ctx).fits(old(self).spec.t as int) ==> *final(self) == *old(self),
            res is Err ==> final(self).poseidon_state.state@ == call_cut(
                final(ctx).lines@,
                old(ctx).lines@.len() as int,
                *old(self),
                old(ctx).rows - old(ctx).offset,
            ),
            res matches Ok(r) ==> {
                &&& is_call(
                    final(ctx).lines@,
                    old(ctx).lines@.len() as int,
                    old(ctx).offset as int,
                    *old(self),
                    values@,
                    *reset,
                )
                &&& final(self).poseidon_state.state@ == after_call(
                    final(ctx).lines@,
                    old(ctx).lines@.len() as int,
                    *old(self),
                )
                &&& limb_values(final(self).poseidon_state.state@) == next_state(
                    old(self).spec@,
                    limb_values(old(self).poseidon_state.state@),
                    limb_values(old(self).poseidon_state.default@),
                    limb_values(values@),
                    reset.value@,
                )
                &&& r == final(self).poseidon_state.state@[1]
                &&& r.cell == Some(mixed_cell(final(ctx).offset as int, old(self).spec.t as nat, 1))
                &&& final(ctx).advanced(*old(ctx), old(self).call_rows())
                &&& final(ctx).holds_from(old(ctx).lines@.len() + old(self).spec.t)
                &&& reset.value@ <= 1 ==> final(ctx).holds_from(old(ctx).lines@.len() as int)
                &&& all_placed(final(self).poseidon_state.state@)
                &&& call_placed(old(self).poseidon_state, values@, *reset) ==> call_bound(
                    *final(ctx),
                    old(ctx).lines@.len() as int,
                    final(ctx).lines@.len() as int,
                    old(self).spec@,
                    old(self).poseidon_state,
                    values@,
                    *reset,
                    final(self).poseidon_state.state@,
                )
            },
    {
        let n: usize = self.poseidon_state.state.len();
        let mut new_state: Vec<Limb> = Vec::new();
        let mut i: usize = 0;
        proof {
            reveal(selection_upto);
        }
        while i < n
            invariant
                ctx.extends(*old(ctx)),
                *self == *old(self),
                self.wf(),
                n == self.spec.t,
                i <= n,
                new_state@.len() == i,
                selection_upto(
                    ctx.lines@,
                    old(ctx).lines@.len() as int,
                    old(ctx).offset as int,
                    *reset,
                    self.poseidon_state.default@,
                    self.poseidon_state.state@,
                    self.round,
                    new_state@,
                    i as int,
                ),
                ctx.offset == old(ctx).offset + i,
                ctx.lines@.len() == old(ctx).lines@.len() + i,
                reset.value@ <= 1 ==> ctx.holds_from(old(ctx).lines@.len() as int),
                forall|j: int|
                    0 <= j < i ==> (#[trigger] new_state@[j]).value@ == selected(
                        reset.value@,
                        limb_values(self.poseidon_state.state@),
                        limb_values(self.poseidon_state.default@),
                    )[j],
                all_placed(new_state@),
                call_placed(self.poseidon_state, values@, *reset) ==> forall|a: Assignment|
                    #![trigger ctx.enforces(
                        a,
                        old(ctx).lines@.len() as int,
                        ctx.lines@.len() as int,
                    )]
                    ctx.enforces(a, old(ctx).lines@.len() as int, ctx.lines@.len() as int) && read(
                        a,
                        *reset,
                    ) <= 1 ==> reads_upto(
                        a,
                        new_state@,
                        selected(
                            read(a, *reset),
                            reads(a, self.poseidon_state.state@),
                            reads(a, self.poseidon_state.default@),
                        ),
                        i as int,
                    ),
            decreases n - i,
        {
            let ghost before = *ctx;
            let ghost chosen_before = new_state@;
            let chosen = ctx.select(
                reset,
                &self.poseidon_state.default[i],
                &self.poseidon_state.state[i],
                self.round,
            )?;
            new_state.push(chosen);
            proof {
                lemma_selection_step(
                    ctx.lines@,
                    before.lines@,
                    old(ctx).lines@.len() as int,
                    old(ctx).offset as int,
                    *reset,
                    self.poseidon_state.default@,
                    self.poseidon_state.state@,
                    self.round,
                    i as int,
                    new_state@,
                    chosen_before,
                );
                if call_placed(self.poseidon_state, values@, *reset) {
                    let start = old(ctx).lines@.len() as int;
                    assert forall|a: Assignment|
                        #![trigger ctx.enforces(a, start, ctx.lines@.len() as int)]
                        ctx.enforces(a, start, ctx.lines@.len() as int) && read(a, *reset)
                            <= 1 implies reads_upto(
                        a,
                        new_state@,
                        selected(
                            read(a, *reset),
                            reads(a, self.poseidon_state.state@),
                            reads(a, self.poseidon_state.default@),
                        ),
                        i + 1,
                    ) by {
                        let expected = selected(
                            read(a, *reset),
                            reads(a, self.poseidon_state.state@),
                            reads(a, self.poseidon_state.default@),
                        );
                        lemma_enforces_earlier(
                            *ctx,
                            before,
                            a,
                            start,
                            before.lines@.len() as int,
                            ctx.lines@.len() as int,
                        );
                        assert(reads_upto(a, chosen_before, expected, i as int));
                        assert(ctx.enforces(
                            a,
                            before.lines@.len() as int,
                            before.lines@.len() as int + 1,
                        ));
                        assert(read(a, chosen) == expected[i as int]);
                        assert forall|j: int| 0 <= j < i + 1 implies read(
                            a,
                            #[trigger] new_state@[j],
                        ) == expected[j] by {
                            if j < i {
                                assert(new_state@[j] == chosen_before[j]);
                            }
                        }
                    }
                }
            }
            i = i + 1;
        }
        proof {
            assert(limb_values(new_state@) =~= selected(
                reset.value@,
                limb_values(self.poseidon_state.state@),
                limb_values(self.poseidon_state.default@),
            ));
        }
        let ghost selecting = *ctx;
        let ghost chosen_state = new_state@;
        self.poseidon_state.state = new_state;
        match self.poseidon_state.permute(ctx, &self.spec, values) {
            Ok(()) => {},
            Err(e) => {
                proof {
                    lemma_selection_kept(
                        ctx.lines@,
                        selecting.lines@,
                        old(ctx).lines@.len() as int,
                        old(ctx).offset as int,
                        *reset,
                        old(self).poseidon_state.default@,
                        old(self).poseidon_state.state@,
                        old(self).round,
                        chosen_state,
                    );
                }
                return Err(e);
            },
        }
        proof {
            lemma_selection_kept(
                ctx.lines@,
                selecting.lines@,
                old(ctx).lines@.len() as int,
                old(ctx).offset as int,
                *reset,
                old(self).poseidon_state.default@,
                old(self).poseidon_state.state@,
                old(self).round,
                chosen_state,
            );
            if call_placed(old(self).poseidon_state, values@, *reset) {
                let start = old(ctx).lines@.len() as int;
                let end = ctx.lines@.len() as int;
                assert forall|a: Assignment|
                    #![trigger ctx.enforces(a, start, end)]
                    ctx.enforces(a, start, end) && read(a, *reset) <= 1 implies reads(
                    a,
                    self.poseidon_state.state@,
                ) == next_state(
                    old(self).spec@,
                    reads(a, old(self).poseidon_state.state@),
                    reads(a, old(self).poseidon_state.default@),
                    reads(a, values@),
                    read(a, *reset),
                ) by {
                    let expected = selected(
                        read(a, *reset),
                        reads(a, old(self).poseidon_state.state@),
                        reads(a, old(self).poseidon_state.default@),
                    );
                    lemma_enforces_earlier(
                        *ctx,
                        selecting,
                        a,
                        start,
                        selecting.lines@.len() as int,
                        end,
                    );
                    assert(reads_upto(a, chosen_state, expected, chosen_state.len() as int));
                    assert(reads(a, chosen_state) =~= expected);
                    assert(ctx.enforces(a, selecting.lines@.len() as int, end));
                }
            }
        }
        Ok(self.poseidon_state.state[1])
    }

    /// Asks for the cell of a claimed result to be equal to the cell of the
    /// computed one. The two carry the same value: whoever calls has seen to
    /// it. A limb without a cell cannot be bound.
    pub fn bind_result(ctx: &mut Context, computed: &Limb, result: &Limb) -> (res: Result<
        (),
        Error,
    >)
        requires
            result.value@ == computed.value@,
        ensures
            res is Ok <==> result.cell is Some && computed.cell is Some,
            res matches Err(e) ==> e == Error::ConstraintAllocation && *final(ctx) == *old(ctx),
            res is Ok ==> {
                &&& final(ctx).copies@ == old(ctx).copies@.push((result.cell->0, computed.cell->0))
                &&& final(ctx).lines@ == old(ctx).lines@
                &&& final(ctx).offset == old(ctx).offset
                &&& final(ctx).rows == old(ctx).rows
            },
    {
        ctx.constrain_equal(result, computed)
    }

    /// One call of the sponge, with its result bound to the cell of a claimed
    /// result.
    ///
    /// The claimed value is the one that the call computes: a caller that
    /// cannot know this calls [`Self::get_permute_result`], compares with
    /// [`Limb::same_value`] and binds with [`Self::bind_result`]. A claimed
    /// result without a cell cannot be bound; the rows of the call were
    /// emitted by then.
    pub fn assign_permute(
        &mut self,
        ctx: &mut Context,
        values: &Vec<Limb>,
        reset: &Limb,
        result: &Limb,
    ) -> (res: Result<(), Error>)
        requires
            old(ctx).wf(),
            old(self).wf(),
            values@.len() == old(self).spec.rate,
            result.value@ == squeezed(
                old(self).spec@,
                limb_values(old(self).poseidon_state.state@),
                limb_values(old(self).poseidon_state.default@),
                limb_values(values@),
                reset.value@,
            ),
        ensures
            final(ctx).keeps(*old(ctx)),
            final(self).wf(),
            final(self).spec == old(self).spec,
            final(self).round == old(self).round,
            final(self).poseidon_state.default == old(self).poseidon_state.default,
            final(self).poseidon_state.prefix == old(self).poseidon_state.prefix,
            res is Ok <==> old(ctx).fits(old(self).call_rows()) && result.cell is Some,
            res matches Err(e) ==> e == Error::ConstraintAllocation,
            !old(ctx).fits(old(self).call_rows()) ==> final(ctx).ran_out(*old(ctx))
                && final(self).poseidon_state.state@ == call_cut(
                final(ctx).lines@,
                old(ctx).lines@.len() as int,
                *old(self),
                old(ctx).rows - old(ctx).offset,
            ),
            !old(ctx).fits(old(self).spec.t as int) ==> *final(self) == *old(self),
            old(ctx).fits(old(self).call_rows()) ==> {
                &&& is_call(
                    final(ctx).lines@,
                    old(ctx).lines@.len() as int,
                    old(ctx).offset as int,
                    *old(self),
                    values@,
                    *reset,
                )
                &&& final(self).poseidon_state.state@ == after_call(
                    final(ctx).lines@,
                    old(ctx).lines@.len() as int,
                    *old(self),
                )
                &&& limb_values(final(self).poseidon_state.state@) == next_state(
                    old(self).spec@,
                    limb_values(old(self).poseidon_state.state@),
                    limb_values(old(self).poseidon_state.default@),
                    limb_values(values@),
                    reset.value@,
                )
                &&& all_placed(final(self).poseidon_state.state@)
                &&& final(self).poseidon_state.state@[1].cell == Some(
                    mixed_cell(final(ctx).offset as int, old(self).spec.t as nat, 1),
                )
                &&& final(ctx).advanced(*old(ctx), old(self).call_rows())
                &&& final(ctx).holds_from(old(ctx).lines@.len() + old(self).spec.t)
                &&& reset.value@ <= 1 ==> final(ctx).holds_from(old(ctx).lines@.len() as int)
            },
            res is Ok ==> final(ctx).copies@ == old(ctx).copies@.push(
                (
                    result.cell->0,
                    mixed_cell(final(ctx).offset as int, old(self).spec.t as nat, 1),
                ),
            ),
            res is Err ==> final(ctx).copies@ == old(ctx).copies@,
            res is Ok && call_placed(old(self).poseidon_state, values@, *reset) ==> result_bound(
                *final(ctx),
                old(ctx).lines@.len() as int,
                final(ctx).lines@.len() as int,
                old(self).spec@,
                old(self).poseidon_state,
                values@,
                *reset,
                *result,
            ),
    {
        let r = self.get_permute_result(ctx, values, reset)?;
        let ghost computed = *ctx;
        Self::bind_result(ctx, &r, result)?;
        proof {
            if call_placed(old(self).poseidon_state, values@, *reset) {
                let start = old(ctx).lines@.len() as int;
                let end = ctx.lines@.len() as int;
                assert forall|a: Assignment|
                    #![trigger ctx.enforces(a, start, end)]
                    ctx.enforces(a, start, end) && ctx.copies_enforced(a) && read(a, *reset)
                        <= 1 implies read(a, *result) == squeezed(
                    old(self).spec@,
                    reads(a, old(self).poseidon_state.state@),
                    reads(a, old(self).poseidon_state.default@),
                    reads(a, values@),
                    read(a, *reset),
                ) by {
                    assert(computed.enforces(a, start, end));
                    let last = ctx.copies@[ctx.copies@.len() - 1];
                    assert(last == (result.cell->0, r.cell->0));
                    assert(read(a, r) == reads(a, self.poseidon_state.state@)[1]);
                }
            }
        }
        Ok(())
    }
}

} // verus!
