//! The constraint-building context.
//!
//! A [`Context`] keeps the rows in the order in which they were emitted,
//! together with the write cursor and the equalities asked for between
//! cells. Whoever lays the rows out in a proof system reads them back from
//! there. Its operations are the ones that the permutation is built from:
//! a constant, a row as given, a weighted sum, a selection, an equality.

use crate::field::{fadd, lemma_accumulate, lemma_reduced, modulus, Fe};
use crate::gate::{
    assigned, assigned_slot, at, cell_value, coeff_value, in_field, line_height, place, produced,
    read, Assignment, CellRef, D_COLUMN, Error, Limb, Line,
};
use crate::permutation::{dot, dot_upto};
use crate::rows::{
    carried_read, carried_sum, is_constant_row, is_select_row, is_sum_row, lemma_constant_row_binds,
    lemma_constant_row_holds, lemma_select_row_binds, lemma_select_row_holds,
    lemma_sum_lines_reached, lemma_sum_of_three, lemma_sum_row_binds, lemma_sum_row_holds,
    product_at, sum_lines, term_reads, term_values, term_weights, terms_placed, weighted_sum,
};
use vstd::arithmetic::div_mod::lemma_small_mod;
use vstd::arithmetic::mul::lemma_mul_is_commutative;
use vstd::prelude::*;

verus! {

/// The constraint-building context: the rows emitted so far, the equalities
/// asked for, the write cursor, and the number of rows there are.
#[derive(Debug)]
pub struct Context {
    /// The rows, in the order in which they were emitted.
    pub lines: Vec<Line>,
    /// The pairs of cells that were asked to be equal.
    pub copies: Vec<(CellRef, CellRef)>,
    /// The write cursor: the row that the next line goes to.
    pub offset: usize,
    /// The number of rows there are.
    pub rows: usize,
}

impl Context {
    /// The cursor is within the rows.
    pub open spec fn wf(self) -> bool {
        self.offset <= self.rows
    }

    /// There are `k` rows left from the cursor on.
    pub open spec fn fits(self, k: int) -> bool {
        self.offset + k <= self.rows
    }

    /// Since `before`, `k` rows were emitted and the cursor went `k` rows
    /// down.
    pub open spec fn advanced(self, before: Context, k: int) -> bool {
        &&& self.offset == before.offset + k
        &&& self.lines@.len() == before.lines@.len() + k
    }

    /// The rows ran out: since `before`, a row was emitted at every row from
    /// the cursor of `before` on, and the cursor is past the last row.
    pub open spec fn ran_out(self, before: Context) -> bool {
        &&& self.offset == self.rows
        &&& self.lines@.len() == before.lines@.len() + (before.rows - before.offset)
    }

    /// No row and no equality recorded in `before` was lost or changed, and
    /// the cursor is within the rows.
    pub open spec fn keeps(self, before: Context) -> bool {
        &&& self.wf()
        &&& self.rows == before.rows
        &&& before.lines@.len() <= self.lines@.len()
        &&& forall|i: int| 0 <= i < before.lines@.len() ==> self.lines@[i] == before.lines@[i]
        &&& before.copies@.len() <= self.copies@.len()
        &&& forall|k: int| 0 <= k < before.copies@.len() ==> self.copies@[k] == before.copies@[k]
    }

    /// Nothing recorded in `before` was lost or changed, no equality was
    /// added, and the cursor is within the rows.
    pub open spec fn extends(self, before: Context) -> bool {
        &&& self.keeps(before)
        &&& self.copies@ == before.copies@
    }

    /// The witness of every row from index `start` on satisfies the row
    /// equation.
    pub open spec fn holds_from(self, start: int) -> bool {
        forall|i: int| start <= i < self.lines@.len() ==> (#[trigger] self.lines@[i]).holds()
    }

    /// The assignment is one of field elements and satisfies every row from
    /// index `from` up to `to`.
    pub open spec fn enforces(self, a: Assignment, from: int, to: int) -> bool {
        &&& in_field(a)
        &&& forall|i: int| from <= i < to ==> (#[trigger] self.lines@[i]).enforced(a)
    }

    /// The assignment gives the same value to both cells of every equality
    /// that was asked for.
    pub open spec fn copies_enforced(self, a: Assignment) -> bool {
        forall|k: int|
            0 <= k < self.copies@.len() ==> at(a, (#[trigger] self.copies@[k]).0) == at(
                a,
                self.copies@[k].1,
            )
    }
}

/// An assignment that satisfies rows of a context satisfies the same rows of
/// an earlier context that the later one kept.
pub proof fn lemma_enforces_earlier(
    later: Context,
    earlier: Context,
    a: Assignment,
    from: int,
    to: int,
    upto: int,
)
    requires
        later.keeps(earlier),
        later.enforces(a, from, upto),
        0 <= from,
        to <= upto,
        to <= earlier.lines@.len(),
    ensures
        earlier.enforces(a, from, to),
{
    assert forall|i: int| from <= i < to implies (#[trigger] earlier.lines@[i]).enforced(a) by {
        assert(later.lines@[i] == earlier.lines@[i]);
    }
}

/// The rows up to index `end` of a context are those of an earlier context
/// that the later one kept.
pub proof fn lemma_kept_prefix(later: Context, earlier: Context, end: int)
    requires
        later.keeps(earlier),
        0 <= end <= earlier.lines@.len(),
    ensures
        later.lines@.take(end) == earlier.lines@.take(end),
{
    assert(later.lines@.take(end) =~= earlier.lines@.take(end));
}

/// An assignment that respects the equalities of a context respects those of
/// an earlier context that the later one kept.
pub proof fn lemma_copies_earlier(later: Context, earlier: Context, a: Assignment)
    requires
        later.keeps(earlier),
        later.copies_enforced(a),
    ensures
        earlier.copies_enforced(a),
{
    assert forall|k: int| 0 <= k < earlier.copies@.len() implies at(
        a,
        (#[trigger] earlier.copies@[k]).0,
    ) == at(a, earlier.copies@[k].1) by {
        assert(later.copies@[k] == earlier.copies@[k]);
    }
}

/// The rows of a weighted sum, from index `from` of the rows on and at the
/// offset `offset`: each row takes the next three terms and carries the sum
/// so far from the `d` cell of the row before; the last row adds the
/// constant.
#[verifier::opaque]
pub open spec fn is_sum(
    lines: Seq<Line>,
    from: int,
    offset: int,
    terms: Seq<(Limb, Fe)>,
    constant: Option<Fe>,
) -> bool {
    forall|j: int|
        from <= j < from + sum_lines(terms.len()) ==> is_sum_row(
            #[trigger] lines[j],
            offset + (j - from),
            if j == from {
                None
            } else {
                Some(produced(lines[j - 1]))
            },
            terms,
            3 * (j - from),
            if j + 1 == from + sum_lines(terms.len()) {
                constant
            } else {
                None
            },
        )
}

/// The row at index `from` fixes the cell of `r` to `v`: every assignment
/// that satisfies the row gives it that value.
pub open spec fn constant_bound(ctx: Context, from: int, r: Limb, v: nat) -> bool {
    forall|a: Assignment| #[trigger] ctx.enforces(a, from, from + 1) ==> read(a, r) == v
}

/// The row at index `from` makes the cell of `r` the selection between two
/// cells: under every assignment that satisfies the row and gives the flag
/// zero or one, it has the value of `when_true` for one and of `when_false`
/// for zero.
pub open spec fn select_bound(
    ctx: Context,
    from: int,
    flag: Limb,
    when_true: Limb,
    when_false: Limb,
    r: Limb,
) -> bool {
    forall|a: Assignment|
        #![trigger ctx.enforces(a, from, from + 1)]
        ctx.enforces(a, from, from + 1) && read(a, flag) <= 1 ==> read(a, r) == if read(a, flag)
            != 0 {
            read(a, when_true)
        } else {
            read(a, when_false)
        }
}

/// The rows from index `from` up to `to` make the cell of `r` the weighted
/// sum of the cells of the terms plus the constant: under every assignment
/// that satisfies them, it has that value.
pub open spec fn sum_bound(
    ctx: Context,
    from: int,
    to: int,
    terms: Seq<(Limb, Fe)>,
    constant: nat,
    r: Limb,
) -> bool {
    forall|a: Assignment| #[trigger]
        ctx.enforces(a, from, to) ==> read(a, r) == (dot(
            term_reads(a, terms),
            term_weights(terms),
        ) + constant) % modulus()
}

/// The first `emitted` rows of a weighted sum are there, none of them with a
/// constant, and `carried` is what the last of them produced.
#[verifier::opaque]
pub open spec fn sum_rows_upto(
    lines: Seq<Line>,
    from: int,
    offset: int,
    terms: Seq<(Limb, Fe)>,
    carried: Option<Limb>,
    emitted: int,
) -> bool {
    &&& lines.len() == from + emitted
    &&& carried is Some <==> emitted > 0
    &&& emitted > 0 ==> carried == Some(produced(lines.last()))
    &&& forall|j: int|
        from <= j < from + emitted ==> is_sum_row(
            #[trigger] lines[j],
            offset + (j - from),
            if j == from {
                None
            } else {
                Some(produced(lines[j - 1]))
            },
            terms,
            3 * (j - from),
            None,
        )
}

/// One more row of a weighted sum keeps the rows before it; the last row
/// completes the sum.
proof fn lemma_sum_rows_step(
    after: Seq<Line>,
    earlier: Seq<Line>,
    from: int,
    offset: int,
    terms: Seq<(Limb, Fe)>,
    carried: Option<Limb>,
    emitted: int,
    closing: Option<Fe>,
    constant: Option<Fe>,
    d: Limb,
)
    requires
        0 <= from,
        0 <= emitted,
        sum_rows_upto(earlier, from, offset, terms, carried, emitted),
        after == earlier.push(after.last()),
        is_sum_row(after.last(), offset + emitted, carried, terms, 3 * emitted, closing),
        d == produced(after.last()),
        emitted + 1 <= sum_lines(terms.len()),
        closing == (if emitted + 1 == sum_lines(terms.len()) {
            constant
        } else {
            None
        }),
    ensures
        emitted + 1 < sum_lines(terms.len()) ==> sum_rows_upto(
            after,
            from,
            offset,
            terms,
            Some(d),
            emitted + 1,
        ),
        emitted + 1 == sum_lines(terms.len()) ==> is_sum(after, from, offset, terms, constant),
{
    reveal(sum_rows_upto);
    reveal(is_sum);
    assert(after.len() == earlier.len() + 1);
    assert forall|j: int| from <= j < from + emitted + 1 implies is_sum_row(
        #[trigger] after[j],
        offset + (j - from),
        if j == from {
            None
        } else {
            Some(produced(after[j - 1]))
        },
        terms,
        3 * (j - from),
        if j + 1 == from + sum_lines(terms.len()) {
            constant
        } else {
            None
        },
    ) by {
        if j < from + emitted {
            assert(after[j] == earlier[j]);
            if j > from {
                assert(after[j - 1] == earlier[j - 1]);
            }
        } else {
            assert(after[j] == after.last());
            if j > from {
                assert(after[j - 1] == earlier.last());
            }
        }
    }
}

/// One more row of a weighted sum binds its `d` cell to the sum of three
/// terms more, where the rows before it bound the cell they carried over.
proof fn lemma_sum_row_extends_bound(
    after: Context,
    before: Context,
    start: int,
    terms: Seq<(Limb, Fe)>,
    i: int,
    carried: Option<Limb>,
    closing: nat,
    d: Limb,
)
    requires
        0 <= start <= before.lines@.len(),
        0 <= i <= terms.len(),
        after.lines@ == before.lines@.push(after.lines@.last()),
        forall|a: Assignment| #[trigger]
            before.enforces(a, start, before.lines@.len() as int) ==> carried_read(a, carried)
                == dot_upto(term_reads(a, terms), term_weights(terms), i as nat) % modulus(),
        forall|a: Assignment|
            #![trigger after.lines@.last().enforced(a)]
            in_field(a) && after.lines@.last().enforced(a) ==> read(a, d) == (carried_read(
                a,
                carried,
            ) + product_at(term_reads(a, terms), term_weights(terms), i) + product_at(
                term_reads(a, terms),
                term_weights(terms),
                i + 1,
            ) + product_at(term_reads(a, terms), term_weights(terms), i + 2) + closing)
                % modulus(),
    ensures
        forall|a: Assignment| #[trigger]
            after.enforces(a, start, after.lines@.len() as int) ==> read(a, d) == (dot_upto(
                term_reads(a, terms),
                term_weights(terms),
                if i + 3 <= terms.len() {
                    (i + 3) as nat
                } else {
                    terms.len()
                },
            ) + closing) % modulus(),
{
    assert forall|a: Assignment| #[trigger]
        after.enforces(a, start, after.lines@.len() as int) implies read(a, d) == (dot_upto(
        term_reads(a, terms),
        term_weights(terms),
        if i + 3 <= terms.len() {
            (i + 3) as nat
        } else {
            terms.len()
        },
    ) + closing) % modulus() by {
        assert forall|k: int| start <= k < before.lines@.len() implies (
        #[trigger] before.lines@[k]).enforced(a) by {
            assert(after.lines@[k] == before.lines@[k]);
        }
        assert(before.enforces(a, start, before.lines@.len() as int));
        assert(after.lines@[after.lines@.len() - 1].enforced(a));
        lemma_sum_of_three(
            term_reads(a, terms),
            term_weights(terms),
            i,
            carried_read(a, carried),
            closing,
        );
    }
}

/// Hands back the limb of one slot of a row, at its new place, if the slot is
/// filled.
fn push_assigned(out: &mut Vec<Limb>, cells: &[Option<Limb>; 6], offset: usize, slot: usize)
    requires
        slot < 6,
        slot == 5 ==> offset < usize::MAX,
    ensures
        final(out)@ == old(out)@ + assigned_slot(*cells, offset, slot as int),
{
    match cells[slot] {
        Some(l) => {
            let cell = if slot == 5 {
                CellRef { row: offset + 1, column: D_COLUMN }
            } else {
                CellRef { row: offset, column: slot }
            };
            out.push(Limb { cell: Some(cell), value: l.value });
        },
        None => {},
    }
}

/// Puts the `k`-th term after `i` into a slot of a row, if there is one, and
/// adds it to the running sum.
fn take_term(inputs: &Vec<(Limb, Fe)>, i: usize, k: usize, sum: Fe) -> (r: (
    Option<Limb>,
    Option<Fe>,
    Fe,
))
    requires
        i <= inputs@.len(),
    ensures
        coeff_value(r.1) * cell_value(r.0) == product_at(
            term_values(inputs@),
            term_weights(inputs@),
            i + k,
        ),
        r.2@ == fadd(
            sum@,
            product_at(term_values(inputs@), term_weights(inputs@), i + k) % modulus(),
        ),
        i + k < inputs@.len() ==> r.0 == Some(inputs@[i + k].0) && r.1 == Some(inputs@[i + k].1),
        i + k >= inputs@.len() ==> r.0 is None && r.1 is None,
{
    if k < inputs.len() - i {
        let limb = inputs[i + k].0;
        let weight = inputs[i + k].1;
        let next = sum.add(&limb.value.mul(&weight));
        proof {
            lemma_mul_is_commutative(weight@ as int, limb.value@ as int);
        }
        (Some(limb), Some(weight), next)
    } else {
        proof {
            lemma_reduced(sum);
            lemma_small_mod(0, modulus());
        }
        (None, None, sum)
    }
}

impl Context {
    /// An empty context with `rows` rows and the cursor at its start.
    pub fn new(rows: usize) -> (ctx: Context)
        ensures
            ctx.lines@.len() == 0,
            ctx.copies@.len() == 0,
            ctx.offset == 0,
            ctx.rows == rows,
            ctx.wf(),
    {
        Context { lines: Vec::new(), copies: Vec::new(), offset: 0, rows }
    }

    /// Emits one row at the cursor and moves the cursor one row down.
    ///
    /// The witness is written as given: whether it satisfies the equation is for
    /// the caller to see to. The limbs come back in slot order, each at the
    /// place it was written to.
    pub fn assign_line(
        &mut self,
        cells: [Option<Limb>; 6],
        coeffs: [Option<Fe>; 9],
        hint: u64,
    ) -> (res: Result<Vec<Limb>, Error>)
        requires
            old(self).wf(),
        ensures
            final(self).extends(*old(self)),
            res is Ok <==> old(self).fits(line_height(cells)),
            res matches Err(e) ==> e == Error::ConstraintAllocation && *final(self) == *old(self),
            res matches Ok(limbs) ==> {
                &&& final(self).lines@ == old(self).lines@.push(
                    Line { offset: old(self).offset, cells, coeffs, hint },
                )
                &&& final(self).offset == old(self).offset + 1
                &&& final(self).rows == old(self).rows
                &&& final(self).copies@ == old(self).copies@
                &&& limbs@ == assigned(cells, old(self).offset)
            },
    {
        let need: usize = if cells[5].is_some() {
            2
        } else {
            1
        };
        if self.rows - self.offset < need {
            return Err(Error::ConstraintAllocation);
        }
        let offset = self.offset;
        let mut out: Vec<Limb> = Vec::new();
        push_assigned(&mut out, &cells, offset, 0);
        push_assigned(&mut out, &cells, offset, 1);
        push_assigned(&mut out, &cells, offset, 2);
        push_assigned(&mut out, &cells, offset, 3);
        push_assigned(&mut out, &cells, offset, 4);
        push_assigned(&mut out, &cells, offset, 5);
        self.lines.push(Line { offset, cells, coeffs, hint });
        self.offset = offset + 1;
        Ok(out)
    }

    /// Allocates a cell fixed to `value`: one row, `l0 - value = 0`.
    pub fn assign_constant(&mut self, value: &Fe) -> (res: Result<Limb, Error>)
        requires
            old(self).wf(),
        ensures
            final(self).extends(*old(self)),
            res is Ok <==> old(self).fits(1),
            res matches Err(e) ==> e == Error::ConstraintAllocation && *final(self) == *old(self),
            res matches Ok(r) ==> {
                &&& r == (Limb { cell: Some(place(old(self).offset, 0)), value: *value })
                &&& final(self).advanced(*old(self), 1)
                &&& is_constant_row(final(self).lines@.last(), old(self).offset as int, *value)
                &&& final(self).holds_from(old(self).lines@.len() as int)
                &&& constant_bound(*final(self), old(self).lines@.len() as int, r, value@)
            },
    {
        let limbs = self.assign_line(
            [Some(Limb::new(None, *value)), None, None, None, None, None],
            [Some(Fe::one()), None, None, None, None, None, None, None, Some(value.neg())],
            0,
        )?;
        proof {
            let line = self.lines@.last();
            let offset = old(self).offset as int;
            assert(is_constant_row(line, offset, *value)) by {
                reveal(is_constant_row);
            }
            lemma_constant_row_holds(line, offset, *value);
            assert forall|a: Assignment| #[trigger]
                self.enforces(a, old(self).lines@.len() as int, old(self).lines@.len() as int + 1)
                implies read(a, limbs@[0]) == value@ by {
                assert(line.enforced(a));
                lemma_constant_row_binds(line, offset, *value, a);
            }
        }
        Ok(limbs[0])
    }

    /// Emits one row of a weighted sum: the carried sum and up to three terms
    /// from the `i`-th on, closed by `closing`.
    fn sum_row(
        &mut self,
        inputs: &Vec<(Limb, Fe)>,
        i: usize,
        carried: Option<Limb>,
        carried_weight: Option<Fe>,
        sum: Fe,
        closing: Option<Fe>,
    ) -> (res: Result<Limb, Error>)
        requires
            old(self).wf(),
            i <= inputs@.len(),
            carried_sum(carried, carried_weight, sum@),
        ensures
            final(self).wf(),
            res is Ok <==> old(self).fits(1),
            res matches Err(e) ==> e == Error::ConstraintAllocation && *final(self) == *old(self),
            res matches Ok(d) ==> {
                &&& d.value@ == (sum@ + product_at(
                    term_values(inputs@),
                    term_weights(inputs@),
                    i as int,
                ) + product_at(term_values(inputs@), term_weights(inputs@), i + 1) + product_at(
                    term_values(inputs@),
                    term_weights(inputs@),
                    i + 2,
                ) + coeff_value(closing)) % modulus()
                &&& d.cell == Some(place(old(self).offset, 4))
                &&& final(self).lines@ == old(self).lines@.push(final(self).lines@.last())
                &&& final(self).lines@.last().holds()
                &&& is_sum_row(
                    final(self).lines@.last(),
                    old(self).offset as int,
                    carried,
                    inputs@,
                    i as int,
                    closing,
                )
                &&& d == produced(final(self).lines@.last())
                &&& terms_placed(inputs@) && (carried matches Some(l) ==> l.cell is Some)
                    ==> forall|a: Assignment|
                    #![trigger final(self).lines@.last().enforced(a)]
                    in_field(a) && final(self).lines@.last().enforced(a) ==> read(a, d) == (
                    carried_read(a, carried) + product_at(
                        term_reads(a, inputs@),
                        term_weights(inputs@),
                        i as int,
                    ) + product_at(term_reads(a, inputs@), term_weights(inputs@), i + 1)
                        + product_at(term_reads(a, inputs@), term_weights(inputs@), i + 2)
                        + coeff_value(closing)) % modulus()
                &&& final(self).offset == old(self).offset + 1
                &&& final(self).rows == old(self).rows
                &&& final(self).copies@ == old(self).copies@
            },
    {
        let minus_one = Fe::one().neg();
        let (l1, c1, s1) = take_term(inputs, i, 0, sum);
        let (l2, c2, s2) = take_term(inputs, i, 1, s1);
        let (l3, c3, s3) = take_term(inputs, i, 2, s2);
        let out = match closing {
            Some(c) => s3.add(&c),
            None => s3,
        };
        proof {
            let xs = term_values(inputs@);
            let ws = term_weights(inputs@);
            let t1 = product_at(xs, ws, i as int);
            let t2 = product_at(xs, ws, i + 1);
            let t3 = product_at(xs, ws, i + 2);
            lemma_reduced(sum);
            lemma_reduced(s3);
            lemma_accumulate(sum@, sum@, t1);
            lemma_accumulate(sum@ + t1, s1@, t2);
            lemma_accumulate(sum@ + t1 + t2, s2@, t3);
            lemma_accumulate(sum@ + t1 + t2 + t3, s3@, coeff_value(closing));
        }
        let limbs = self.assign_line(
            [carried, l1, l2, l3, Some(Limb::new(None, out)), None],
            [carried_weight, c1, c2, c3, Some(minus_one), None, None, None, closing],
            0,
        )?;
        proof {
            let line = self.lines@.last();
            let offset = old(self).offset as int;
            assert(is_sum_row(line, offset, carried, inputs@, i as int, closing)) by {
                reveal(is_sum_row);
            }
            lemma_sum_row_holds(line, offset, carried, inputs@, i as int, closing);
            if terms_placed(inputs@) && (carried matches Some(l) ==> l.cell is Some) {
                assert forall|a: Assignment|
                    #![trigger line.enforced(a)]
                    in_field(a) && line.enforced(a) implies read(a, limbs@[limbs@.len() - 1]) == (
                carried_read(a, carried) + product_at(
                    term_reads(a, inputs@),
                    term_weights(inputs@),
                    i as int,
                ) + product_at(term_reads(a, inputs@), term_weights(inputs@), i + 1) + product_at(
                    term_reads(a, inputs@),
                    term_weights(inputs@),
                    i + 2,
                ) + coeff_value(closing)) % modulus() by {
                    lemma_sum_row_binds(line, offset, carried, inputs@, i as int, closing, a);
                }
            }
        }
        Ok(limbs[limbs.len() - 1])
    }

    /// Constrains a new cell to the weighted sum of `inputs` plus `constant`.
    ///
    /// Three terms go to a row. Each row after the first takes the running
    /// sum of the row before it as a copy in `l0`; the constant is added in
    /// the last row, whose `d` cell is the result.
    #[verifier::rlimit(50)]
    pub fn sum_with_constant(&mut self, inputs: &Vec<(Limb, Fe)>, constant: Option<Fe>) -> (res:
        Result<Limb, Error>)
        requires
            old(self).wf(),
        ensures
            final(self).extends(*old(self)),
            res is Ok <==> old(self).fits(sum_lines(inputs@.len()) as int),
            res matches Err(e) ==> e == Error::ConstraintAllocation && final(self).ran_out(
                *old(self),
            ),
            res matches Ok(r) ==> {
                &&& r.value@ == (weighted_sum(inputs@) + coeff_value(constant)) % modulus()
                &&& r.cell == Some(place((final(self).offset - 1) as usize, 4))
                &&& final(self).advanced(*old(self), sum_lines(inputs@.len()) as int)
                &&& is_sum(
                    final(self).lines@,
                    old(self).lines@.len() as int,
                    old(self).offset as int,
                    inputs@,
                    constant,
                )
                &&& r == produced(final(self).lines@.last())
                &&& final(self).holds_from(old(self).lines@.len() as int)
                &&& terms_placed(inputs@) ==> sum_bound(
                    *final(self),
                    old(self).lines@.len() as int,
                    final(self).lines@.len() as int,
                    inputs@,
                    coeff_value(constant),
                    r,
                )
            },
    {
        let n: usize = inputs.len();
        let mut carried: Option<Limb> = None;
        let mut carried_weight: Option<Fe> = None;
        let mut sum = Fe::zero();
        let mut i: usize = 0;
        let ghost mut emitted: int = 0;
        proof {
            reveal(sum_rows_upto);
        }
        loop
            invariant
                self.extends(*old(self)),
                n == inputs@.len(),
                i <= n,
                i == 3 * emitted,
                i > 0 ==> n - i > 0,
                self.offset == old(self).offset + emitted,
                self.lines@.len() == old(self).lines@.len() + emitted,
                self.holds_from(old(self).lines@.len() as int),
                sum@ == dot_upto(term_values(inputs@), term_weights(inputs@), i as nat)
                    % modulus(),
                carried_sum(carried, carried_weight, sum@),
                carried matches Some(l) ==> l.cell is Some,
                sum_rows_upto(
                    self.lines@,
                    old(self).lines@.len() as int,
                    old(self).offset as int,
                    inputs@,
                    carried,
                    emitted,
                ),
                terms_placed(inputs@) ==> forall|a: Assignment| #[trigger]
                    self.enforces(a, old(self).lines@.len() as int, self.lines@.len() as int)
                        ==> carried_read(a, carried) == dot_upto(
                        term_reads(a, inputs@),
                        term_weights(inputs@),
                        i as nat,
                    ) % modulus(),
            decreases n - i,
        {
            let ghost before = *self;
            let last = n - i <= 3;
            let closing = if last {
                constant
            } else {
                None
            };
            proof {
                lemma_sum_lines_reached(n as nat, emitted);
            }
            let d = self.sum_row(inputs, i, carried, carried_weight, sum, closing)?;
            proof {
                lemma_sum_of_three(
                    term_values(inputs@),
                    term_weights(inputs@),
                    i as int,
                    sum@,
                    coeff_value(closing),
                );
                if terms_placed(inputs@) {
                    lemma_sum_row_extends_bound(
                        *self,
                        before,
                        old(self).lines@.len() as int,
                        inputs@,
                        i as int,
                        carried,
                        coeff_value(closing),
                        d,
                    );
                }
                lemma_sum_rows_step(
                    self.lines@,
                    before.lines@,
                    old(self).lines@.len() as int,
                    old(self).offset as int,
                    inputs@,
                    carried,
                    emitted,
                    closing,
                    constant,
                    d,
                );
                emitted = emitted + 1;
            }
            if last {
                return Ok(d);
            }
            carried = Some(d);
            carried_weight = Some(Fe::one());
            sum = d.value;
            i = i + 3;
        }
    }

    /// Constrains a new cell to `when_true` where the flag is not zero and to
    /// `when_false` where it is zero: one row. The row is satisfied for a
    /// flag that is zero or one.
    pub fn select(&mut self, flag: &Limb, when_true: &Limb, when_false: &Limb, hint: u64) -> (res:
        Result<Limb, Error>)
        requires
            old(self).wf(),
        ensures
            final(self).extends(*old(self)),
            res is Ok <==> old(self).fits(1),
            res matches Err(e) ==> e == Error::ConstraintAllocation && *final(self) == *old(self),
            res matches Ok(r) ==> {
                &&& r.value == if flag.value@ != 0 {
                    when_true.value
                } else {
                    when_false.value
                }
                &&& r.cell == Some(place(old(self).offset, 4))
                &&& final(self).advanced(*old(self), 1)
                &&& is_select_row(
                    final(self).lines@.last(),
                    old(self).offset as int,
                    *flag,
                    *when_true,
                    *when_false,
                    hint,
                )
                &&& r == produced(final(self).lines@.last())
                &&& flag.value@ <= 1 ==> final(self).holds_from(old(self).lines@.len() as int)
                &&& flag.cell is Some && when_true.cell is Some && when_false.cell is Some
                    ==> select_bound(
                    *final(self),
                    old(self).lines@.len() as int,
                    *flag,
                    *when_true,
                    *when_false,
                    r,
                )
            },
    {
        let one = Fe::one();
        let minus_one = one.neg();
        let chosen = if flag.value.equals(&Fe::zero()) {
            when_false.value
        } else {
            when_true.value
        };
        let limbs = self.assign_line(
            [
                Some(*flag),
                Some(*flag),
                Some(*when_false),
                Some(*when_true),
                Some(Limb::new(None, chosen)),
                None,
            ],
            [None, None, Some(one), None, Some(minus_one), None, Some(one), Some(minus_one), None],
            hint,
        )?;
        proof {
            let line = self.lines@.last();
            let offset = old(self).offset as int;
            let start = old(self).lines@.len() as int;
            assert(is_select_row(line, offset, *flag, *when_true, *when_false, hint)) by {
                reveal(is_select_row);
            }
            if flag.value@ <= 1 {
                lemma_select_row_holds(line, offset, *flag, *when_true, *when_false, hint);
            }
            if flag.cell is Some && when_true.cell is Some && when_false.cell is Some {
                assert forall|a: Assignment|
                    #![trigger self.enforces(a, start, start + 1)]
                    self.enforces(a, start, start + 1) && read(a, *flag) <= 1 implies read(
                    a,
                    limbs@[4],
                ) == if read(a, *flag) != 0 {
                    read(a, *when_true)
                } else {
                    read(a, *when_false)
                } by {
                    assert(line.enforced(a));
                    lemma_select_row_binds(
                        line,
                        offset,
                        *flag,
                        *when_true,
                        *when_false,
                        hint,
                        a,
                    );
                }
            }
        }
        Ok(limbs[4])
    }

    /// Asks for two cells to be equal. Both limbs must have a place.
    pub fn constrain_equal(&mut self, a: &Limb, b: &Limb) -> (res: Result<(), Error>)
        ensures
            res is Ok <==> a.cell is Some && b.cell is Some,
            res matches Err(e) ==> e == Error::ConstraintAllocation && *final(self) == *old(self),
            res is Ok ==> {
                &&& final(self).copies@ == old(self).copies@.push((a.cell->0, b.cell->0))
                &&& final(self).lines@ == old(self).lines@
                &&& final(self).offset == old(self).offset
                &&& final(self).rows == old(self).rows
            },
    {
        match (a.cell, b.cell) {
            (Some(left), Some(right)) => {
                self.copies.push((left, right));
                Ok(())
            },
            _ => Err(Error::ConstraintAllocation),
        }
    }
}

} // verus!
