//! The S-box: the fifth power with the round constant folded in, as three
//! rows that multiply.

use crate::context::{lemma_enforces_earlier, Context};
use crate::field::{lemma_fadd_absorbs, modulus, Fe};
use crate::gate::{
    all_placed, limb_values, place, produced, read, reads, Assignment, Error, Limb, Line,
};
use crate::params::fe_values;
use crate::permutation::{lemma_sbox_by_squaring, sbox};
use crate::permutation;
use crate::rows::{is_product_row, lemma_product_row_binds, lemma_product_row_holds};
use crate::state::PoseidonState;
use vstd::arithmetic::div_mod::lemma_small_mod;
use vstd::arithmetic::mul::lemma_mul_is_commutative;
use vstd::prelude::*;

verus! {

/// The three rows of an S-box, from index `from` of the rows on and at the
/// offset `offset`: the square of `x`; the square of the `d` cell of the
/// first row; and the product of `x` and the `d` cell of the second row,
/// plus the constant.
pub open spec fn is_sbox(lines: Seq<Line>, from: int, offset: int, x: Limb, constant: Fe) -> bool {
    &&& is_product_row(lines[from], offset, x, x, None)
    &&& is_product_row(
        lines[from + 1],
        offset + 1,
        produced(lines[from]),
        produced(lines[from]),
        None,
    )
    &&& is_product_row(lines[from + 2], offset + 2, x, produced(lines[from + 1]), Some(constant))
}

/// The rows of the S-box of the `i`-th element of a state, where the S-boxes
/// of the whole state start at index `from` of the rows and at the offset
/// `offset`. Rows emitted later have no part in it.
pub open spec fn is_sbox_at(
    lines: Seq<Line>,
    from: int,
    offset: int,
    before: Seq<Limb>,
    constants: Seq<Fe>,
    i: int,
) -> bool {
    is_sbox(lines.take(from + 3 * i + 3), from + 3 * i, offset + 3 * i, before[i], constants[i])
}

/// The rows of the S-boxes of a whole state: three for each element, in
/// order, each with its constant.
pub open spec fn is_sbox_full(
    lines: Seq<Line>,
    from: int,
    offset: int,
    before: Seq<Limb>,
    constants: Seq<Fe>,
) -> bool {
    forall|i: int|
        0 <= i < before.len() ==> #[trigger] is_sbox_at(lines, from, offset, before, constants, i)
}

/// The state that the S-boxes from index `from` of the rows on leave: each
/// element is the `d` cell of the third row of its S-box.
pub open spec fn boxed(lines: Seq<Line>, from: int, t: nat) -> Seq<Limb> {
    Seq::new(t, |i: int| produced(lines[from + 3 * i + 2]))
}

/// The state that the S-boxes of a whole state leave when the rows run out
/// with `left` rows left at their start: the elements whose three rows fit
/// were replaced, the others are as they were.
pub open spec fn sbox_full_cut(lines: Seq<Line>, from: int, before: Seq<Limb>, left: int) -> Seq<
    Limb,
> {
    Seq::new(
        before.len(),
        |j: int|
            if j < left / 3 {
                produced(lines[from + 3 * j + 2])
            } else {
                before[j]
            },
    )
}

/// The S-boxes of the first `i` elements are there, and the state holds what
/// they produced.
#[verifier::opaque]
pub open spec fn sbox_upto(
    lines: Seq<Line>,
    from: int,
    offset: int,
    before: Seq<Limb>,
    constants: Seq<Fe>,
    now: Seq<Limb>,
    i: int,
) -> bool {
    &&& lines.len() == from + 3 * i
    &&& now.len() == before.len()
    &&& forall|j: int|
        0 <= j < i ==> #[trigger] is_sbox_at(lines, from, offset, before, constants, j)
    &&& forall|j: int| 0 <= j < i ==> (#[trigger] now[j]) == produced(lines[from + 3 * j + 2])
}

/// One more S-box keeps the S-boxes before it.
proof fn lemma_sbox_step(
    after: Seq<Line>,
    earlier: Seq<Line>,
    from: int,
    offset: int,
    before: Seq<Limb>,
    constants: Seq<Fe>,
    i: int,
    now: Seq<Limb>,
    now_earlier: Seq<Limb>,
)
    requires
        0 <= from,
        0 <= i < before.len(),
        sbox_upto(earlier, from, offset, before, constants, now_earlier, i),
        after.len() == earlier.len() + 3,
        forall|k: int| 0 <= k < earlier.len() ==> after[k] == earlier[k],
        is_sbox(after, earlier.len() as int, offset + 3 * i, before[i], constants[i]),
        now == now_earlier.update(i, produced(after.last())),
    ensures
        sbox_upto(after, from, offset, before, constants, now, i + 1),
{
    reveal(sbox_upto);
    assert(after.take(after.len() as int) =~= after);
    assert(is_sbox_at(after, from, offset, before, constants, i));
    assert forall|j: int| 0 <= j < i + 1 implies #[trigger] is_sbox_at(
        after,
        from,
        offset,
        before,
        constants,
        j,
    ) by {
        if j < i {
            assert(is_sbox_at(earlier, from, offset, before, constants, j));
            assert(after.take(from + 3 * j + 3) =~= earlier.take(from + 3 * j + 3));
        }
    }
    assert forall|j: int| 0 <= j < i + 1 implies (#[trigger] now[j]) == produced(
        after[from + 3 * j + 2],
    ) by {
        if j < i {
            assert(now[j] == now_earlier[j]);
            assert(after[from + 3 * j + 2] == earlier[from + 3 * j + 2]);
        } else {
            assert(after.last() == after[after.len() - 1]);
        }
    }
}

/// The S-boxes of a whole state, all there, leave the boxed state.
proof fn lemma_sbox_all(
    lines: Seq<Line>,
    from: int,
    offset: int,
    before: Seq<Limb>,
    constants: Seq<Fe>,
    now: Seq<Limb>,
)
    requires
        sbox_upto(lines, from, offset, before, constants, now, before.len() as int),
    ensures
        is_sbox_full(lines, from, offset, before, constants),
        now == boxed(lines, from, before.len()),
{
    reveal(sbox_upto);
    assert(now =~= boxed(lines, from, before.len()));
}

/// The rows from index `from` make the cell of `r` the S-box of the cell of
/// `x`: under every assignment that satisfies the three of them, it has that
/// value.
pub open spec fn sbox_bound(ctx: Context, from: int, x: Limb, c: nat, r: Limb) -> bool {
    forall|a: Assignment| #[trigger] ctx.enforces(a, from, from + 3) ==> read(a, r) == sbox(
        read(a, x),
        c,
    )
}

/// Up to index `i`, an assignment gives each cell of `after` the S-box of the
/// cell of `before` at the same place.
pub open spec fn sboxes_upto(
    a: Assignment,
    after: Seq<Limb>,
    before: Seq<Limb>,
    constants: Seq<Fe>,
    i: int,
) -> bool {
    forall|j: int|
        0 <= j < i ==> read(a, #[trigger] after[j]) == sbox(read(a, before[j]), constants[j]@)
}

impl PoseidonState {
    /// Constrains a new cell to `x^5 + constant`.
    ///
    /// Three rows, each a product of two cells: the square of `x`, the square
    /// of that, and the fourth power times `x` plus the constant. The result
    /// is the `d` cell of the third row.
    pub fn x_power5_with_constant(ctx: &mut Context, x: &Limb, constant: Fe) -> (res: Result<
        Limb,
        Error,
    >)
        requires
            old(ctx).wf(),
        ensures
            final(ctx).extends(*old(ctx)),
            res is Ok <==> old(ctx).fits(3),
            res matches Err(e) ==> e == Error::ConstraintAllocation && final(ctx).ran_out(*old(ctx)),
            res matches Ok(r) ==> {
                &&& r.value@ == sbox(x.value@, constant@)
                &&& r.cell == Some(place((old(ctx).offset + 2) as usize, 4))
                &&& final(ctx).advanced(*old(ctx), 3)
                &&& is_sbox(
                    final(ctx).lines@,
                    old(ctx).lines@.len() as int,
                    old(ctx).offset as int,
                    *x,
                    constant,
                )
                &&& r == produced(final(ctx).lines@.last())
                &&& final(ctx).holds_from(old(ctx).lines@.len() as int)
                &&& x.cell is Some ==> sbox_bound(
                    *final(ctx),
                    old(ctx).lines@.len() as int,
                    *x,
                    constant@,
                    r,
                )
            },
    {
        let one = Fe::one();
        let minus_one = one.neg();
        let ghost start = ctx.lines@.len() as int;
        let ghost offset = ctx.offset as int;
        let square = x.value.mul(&x.value);
        let xx = ctx.assign_line(
            [Some(*x), None, None, Some(*x), Some(Limb::new(None, square)), None],
            [None, None, None, None, Some(minus_one), None, Some(one), None, None],
            0,
        )?[2];
        let fourth = xx.value.mul(&xx.value);
        let x4 = ctx.assign_line(
            [Some(xx), None, None, Some(xx), Some(Limb::new(None, fourth)), None],
            [None, None, None, None, Some(minus_one), None, Some(one), None, None],
            0,
        )?[2];
        let fifth = x4.value.mul(&x.value).add(&constant);
        let x5 = ctx.assign_line(
            [Some(*x), None, None, Some(x4), Some(Limb::new(None, fifth)), None],
            [None, None, None, None, Some(minus_one), None, Some(one), None, Some(constant)],
            0,
        )?[2];
        proof {
            let first = ctx.lines@[start];
            let second = ctx.lines@[start + 1];
            let third = ctx.lines@[start + 2];
            lemma_fadd_absorbs(x4.value@ * x.value@, constant@);
            lemma_mul_is_commutative(x.value@ as int, x4.value@ as int);
            lemma_small_mod(0, modulus());
            assert(xx == produced(first) && x4 == produced(second) && x5 == produced(third));
            assert(is_product_row(first, offset, *x, *x, None)) by {
                reveal(is_product_row);
                lemma_fadd_absorbs(x.value@ * x.value@, 0);
            }
            assert(is_product_row(second, offset + 1, xx, xx, None)) by {
                reveal(is_product_row);
                lemma_fadd_absorbs(xx.value@ * xx.value@, 0);
            }
            assert(is_product_row(third, offset + 2, *x, x4, Some(constant))) by {
                reveal(is_product_row);
            }
            lemma_product_row_holds(first, offset, *x, *x, None);
            lemma_product_row_holds(second, offset + 1, xx, xx, None);
            lemma_product_row_holds(third, offset + 2, *x, x4, Some(constant));
            lemma_sbox_by_squaring(x.value@, constant@);
            if x.cell is Some {
                assert forall|a: Assignment| #[trigger]
                    ctx.enforces(a, start, start + 3) implies read(a, x5) == sbox(
                    read(a, *x),
                    constant@,
                ) by {
                    assert(first.enforced(a) && second.enforced(a) && third.enforced(a));
                    lemma_product_row_binds(first, offset, *x, *x, None, a);
                    lemma_product_row_binds(second, offset + 1, xx, xx, None, a);
                    lemma_product_row_binds(third, offset + 2, *x, x4, Some(constant), a);
                    let v = read(a, *x);
                    lemma_fadd_absorbs(v * v, 0);
                    lemma_fadd_absorbs(read(a, xx) * read(a, xx), 0);
                    lemma_fadd_absorbs(read(a, x4) * v, constant@);
                    lemma_mul_is_commutative(v as int, read(a, x4) as int);
                    lemma_sbox_by_squaring(v, constant@);
                }
            }
        }
        Ok(x5)
    }

    /// The S-box on every element of the state, each with its constant.
    #[verifier::rlimit(50)]
    pub fn sbox_full(&mut self, ctx: &mut Context, constants: &Vec<Fe>) -> (res: Result<(), Error>)
        requires
            old(ctx).wf(),
            constants@.len() == old(self).width(),
        ensures
            final(ctx).extends(*old(ctx)),
            final(self).state@.len() == old(self).width(),
            final(self).default == old(self).default,
            final(self).prefix == old(self).prefix,
            res is Ok <==> old(ctx).fits((3 * old(self).width()) as int),
            res matches Err(e) ==> e == Error::ConstraintAllocation && final(ctx).ran_out(*old(ctx)),
            res is Err ==> final(self).state@ == sbox_full_cut(
                final(ctx).lines@,
                old(ctx).lines@.len() as int,
                old(self).state@,
                old(ctx).rows - old(ctx).offset,
            ),
            res is Ok ==> {
                &&& limb_values(final(self).state@) == permutation::sbox_full(
                    limb_values(old(self).state@),
                    fe_values(constants@),
                )
                &&& forall|i: int|
                    0 <= i < final(self).state@.len() ==> (#[trigger] final(self).state@[i]).cell
                        == Some(place((old(ctx).offset + 3 * i + 2) as usize, 4))
                &&& final(ctx).advanced(*old(ctx), (3 * old(self).width()) as int)
                &&& is_sbox_full(
                    final(ctx).lines@,
                    old(ctx).lines@.len() as int,
                    old(ctx).offset as int,
                    old(self).state@,
                    constants@,
                )
                &&& final(self).state@ == boxed(
                    final(ctx).lines@,
                    old(ctx).lines@.len() as int,
                    old(self).width(),
                )
                &&& final(ctx).holds_from(old(ctx).lines@.len() as int)
                &&& all_placed(old(self).state@) ==> forall|a: Assignment| #[trigger]
                    final(ctx).enforces(
                        a,
                        old(ctx).lines@.len() as int,
                        final(ctx).lines@.len() as int,
                    ) ==> reads(a, final(self).state@) == permutation::sbox_full(
                        reads(a, old(self).state@),
                        fe_values(constants@),
                    )
            },
    {
        let n: usize = self.state.len();
        let mut i: usize = 0;
        proof {
            reveal(sbox_upto);
        }
        while i < n
            invariant
                ctx.extends(*old(ctx)),
                n == self.state@.len(),
                n == old(self).width(),
                n == constants@.len(),
                all_placed(old(self).state@) ==> forall|a: Assignment| #[trigger]
                    ctx.enforces(a, old(ctx).lines@.len() as int, ctx.lines@.len() as int)
                        ==> sboxes_upto(a, self.state@, old(self).state@, constants@, i as int),
                self.default == old(self).default,
                self.prefix == old(self).prefix,
                i <= n,
                sbox_upto(
                    ctx.lines@,
                    old(ctx).lines@.len() as int,
                    old(ctx).offset as int,
                    old(self).state@,
                    constants@,
                    self.state@,
                    i as int,
                ),
                forall|j: int|
                    0 <= j < i ==> (#[trigger] self.state@[j]) == produced(
                        ctx.lines@[old(ctx).lines@.len() + 3 * j + 2],
                    ),
                ctx.offset == old(ctx).offset + 3 * i,
                ctx.lines@.len() == old(ctx).lines@.len() + 3 * i,
                ctx.holds_from(old(ctx).lines@.len() as int),
                forall|j: int|
                    0 <= j < i ==> (#[trigger] self.state@[j]).value@ == sbox(
                        old(self).state@[j].value@,
                        constants@[j]@,
                    ) && self.state@[j].cell == Some(
                        place((old(ctx).offset + 3 * j + 2) as usize, 4),
                    ),
                forall|j: int| i <= j < n ==> self.state@[j] == old(self).state@[j],
            decreases n - i,
        {
            let ghost before = *ctx;
            let ghost state_before = self.state@;
            let x = self.state[i];
            let r = match Self::x_power5_with_constant(ctx, &x, constants[i]) {
                Ok(r) => r,
                Err(e) => {
                    proof {
                        assert(self.state@ =~= sbox_full_cut(
                            ctx.lines@,
                            old(ctx).lines@.len() as int,
                            old(self).state@,
                            old(ctx).rows - old(ctx).offset,
                        ));
                    }
                    return Err(e);
                },
            };
            self.state.set(i, r);
            proof {
                assert forall|j: int| 0 <= j < i + 1 implies (#[trigger] self.state@[j])
                    == produced(ctx.lines@[old(ctx).lines@.len() + 3 * j + 2]) by {
                    if j < i {
                        assert(self.state@[j] == state_before[j]);
                        assert(ctx.lines@[old(ctx).lines@.len() + 3 * j + 2]
                            == before.lines@[old(ctx).lines@.len() + 3 * j + 2]);
                    }
                }
                lemma_sbox_step(
                    ctx.lines@,
                    before.lines@,
                    old(ctx).lines@.len() as int,
                    old(ctx).offset as int,
                    old(self).state@,
                    constants@,
                    i as int,
                    self.state@,
                    state_before,
                );
                if all_placed(old(self).state@) {
                    let start = old(ctx).lines@.len() as int;
                    assert forall|a: Assignment| #[trigger]
                        ctx.enforces(a, start, ctx.lines@.len() as int) implies sboxes_upto(
                        a,
                        self.state@,
                        old(self).state@,
                        constants@,
                        i + 1,
                    ) by {
                        lemma_enforces_earlier(
                            *ctx,
                            before,
                            a,
                            start,
                            before.lines@.len() as int,
                            ctx.lines@.len() as int,
                        );
                        assert(sboxes_upto(
                            a,
                            state_before,
                            old(self).state@,
                            constants@,
                            i as int,
                        ));
                        assert(ctx.enforces(
                            a,
                            before.lines@.len() as int,
                            before.lines@.len() as int + 3,
                        ));
                        assert forall|j: int| 0 <= j < i + 1 implies read(
                            a,
                            #[trigger] self.state@[j],
                        ) == sbox(read(a, old(self).state@[j]), constants@[j]@) by {
                            if j < i {
                                assert(self.state@[j] == state_before[j]);
                            }
                        }
                    }
                }
            }
            i = i + 1;
        }
        proof {
            lemma_sbox_all(
                ctx.lines@,
                old(ctx).lines@.len() as int,
                old(ctx).offset as int,
                old(self).state@,
                constants@,
                self.state@,
            );
            assert(limb_values(self.state@) =~= permutation::sbox_full(
                limb_values(old(self).state@),
                fe_values(constants@),
            ));
            if all_placed(old(self).state@) {
                assert forall|a: Assignment| #[trigger]
                    ctx.enforces(
                        a,
                        old(ctx).lines@.len() as int,
                        ctx.lines@.len() as int,
                    ) implies reads(a, self.state@) == permutation::sbox_full(
                    reads(a, old(self).state@),
                    fe_values(constants@),
                ) by {
                    assert(sboxes_upto(a, self.state@, old(self).state@, constants@, n as int));
                    assert(reads(a, self.state@) =~= permutation::sbox_full(
                        reads(a, old(self).state@),
                        fe_values(constants@),
                    ));
                }
            }
        }
        Ok(())
    }

    /// The S-box on the first element of the state only.
    pub fn sbox_part(&mut self, ctx: &mut Context, constant: &Fe) -> (res: Result<(), Error>)
        requires
            old(ctx).wf(),
            old(self).width() >= 1,
        ensures
            final(ctx).extends(*old(ctx)),
            final(self).state@.len() == old(self).width(),
            final(self).default == old(self).default,
            final(self).prefix == old(self).prefix,
            res is Ok <==> old(ctx).fits(3),
            res matches Err(e) ==> e == Error::ConstraintAllocation && *final(self) == *old(self)
                && final(ctx).ran_out(*old(ctx)),
            res is Ok ==> {
                &&& limb_values(final(self).state@) == permutation::sbox_part(
                    limb_values(old(self).state@),
                    constant@,
                )
                &&& final(self).state@ == old(self).state@.update(0, final(self).state@[0])
                &&& final(self).state@[0].cell == Some(place((old(ctx).offset + 2) as usize, 4))
                &&& final(ctx).advanced(*old(ctx), 3)
                &&& is_sbox(
                    final(ctx).lines@,
                    old(ctx).lines@.len() as int,
                    old(ctx).offset as int,
                    old(self).state@[0],
                    *constant,
                )
                &&& final(self).state@[0] == produced(final(ctx).lines@.last())
                &&& final(ctx).holds_from(old(ctx).lines@.len() as int)
                &&& all_placed(old(self).state@) ==> forall|a: Assignment| #[trigger]
                    final(ctx).enforces(
                        a,
                        old(ctx).lines@.len() as int,
                        final(ctx).lines@.len() as int,
                    ) ==> reads(a, final(self).state@) == permutation::sbox_part(
                        reads(a, old(self).state@),
                        constant@,
                    )
            },
    {
        let x = self.state[0];
        let r = Self::x_power5_with_constant(ctx, &x, *constant)?;
        self.state.set(0, r);
        proof {
            assert(limb_values(self.state@) =~= permutation::sbox_part(
                limb_values(old(self).state@),
                constant@,
            ));
            if all_placed(old(self).state@) {
                let start = old(ctx).lines@.len() as int;
                assert forall|a: Assignment| #[trigger]
                    ctx.enforces(a, start, ctx.lines@.len() as int) implies reads(a, self.state@)
                    == permutation::sbox_part(reads(a, old(self).state@), constant@) by {
                    assert(ctx.enforces(a, start, start + 3));
                    assert(reads(a, self.state@) =~= permutation::sbox_part(
                        reads(a, old(self).state@),
                        constant@,
                    ));
                }
            }
        }
        Ok(())
    }
}

} // verus!
