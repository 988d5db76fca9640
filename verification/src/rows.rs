//! The four kinds of rows that the library emits: one that fixes a
//! constant, one that multiplies, one that selects and one that sums.
//!
//! Of each kind this module says what the row looks like, proves that its
//! recorded witness holds, and proves what an assignment that satisfies the
//! row must give to the cell it produces. The four shapes are opaque: a
//! proof that reads the slots of a row reveals the shape first.

use crate::field::{
    fneg, lemma_fadd_absorbs, lemma_minus_one, lemma_minus_one_closes, lemma_minus_one_determines,
    lemma_neg_cancels, lemma_neg_determines, lemma_reduced, modulus, Fe,
};
use crate::gate::{
    at, cell_value, coeff_value, gate_at, gate_sum, in_field, place, produced, read, Assignment,
    Limb, Line,
};
use crate::permutation::{dot, dot_upto};
use vstd::arithmetic::div_mod::{
    lemma_mod_multiples_basic, lemma_mod_multiples_vanish, lemma_small_mod,
};
use vstd::arithmetic::mul::lemma_mul_is_commutative;
use vstd::prelude::*;

verus! {

/// A row at `offset` that fixes a constant: `value` in a new cell in `l0`,
/// with weight one, and the inverse of the value as the constant term.
#[verifier::opaque]
pub open spec fn is_constant_row(line: Line, offset: int, value: Fe) -> bool {
    &&& line.offset == offset
    &&& line.hint == 0
    &&& line.cells[0] == Some(Limb { cell: None, value })
    &&& line.cells[1] is None && line.cells[2] is None && line.cells[3] is None
    &&& line.cells[4] is None && line.cells[5] is None
    &&& line.coeffs[0] is Some && coeff_value(line.coeffs[0]) == 1
    &&& line.coeffs[1] is None && line.coeffs[2] is None && line.coeffs[3] is None
    &&& line.coeffs[4] is None && line.coeffs[5] is None && line.coeffs[6] is None
    &&& line.coeffs[7] is None
    &&& line.coeffs[8] is Some && coeff_value(line.coeffs[8]) == fneg(value@)
}

/// The witness of a row that fixes a constant holds.
pub proof fn lemma_constant_row_holds(line: Line, offset: int, value: Fe)
    requires
        is_constant_row(line, offset, value),
    ensures
        line.holds(),
{
    reveal(is_constant_row);
    reveal(gate_sum);
    lemma_reduced(value);
    let v = cell_value(line.cells[0]);
    lemma_neg_cancels(v);
    assert(gate_sum(line.cells, line.coeffs) == v + fneg(v)) by (nonlinear_arith)
        requires
            gate_sum(line.cells, line.coeffs) == 1 * v + coeff_value(line.coeffs[1]) * 0
                + coeff_value(line.coeffs[2]) * 0 + coeff_value(line.coeffs[3]) * 0 + coeff_value(
                line.coeffs[4],
            ) * 0 + coeff_value(line.coeffs[5]) * 0 + coeff_value(line.coeffs[6]) * v * 0
                + coeff_value(line.coeffs[7]) * 0 * 0 + fneg(v),
    ;
}

/// An assignment that satisfies a row that fixes a constant gives the
/// constant to the cell in `l0`.
pub proof fn lemma_constant_row_binds(line: Line, offset: int, value: Fe, a: Assignment)
    requires
        is_constant_row(line, offset, value),
        in_field(a),
        line.enforced(a),
    ensures
        at(a, place(line.offset, 0)) == value@,
{
    reveal(is_constant_row);
    reveal(gate_at);
    lemma_reduced(value);
    let v = value@;
    let x = at(a, place(line.offset, 0));
    assert(gate_at(a, line) == x + fneg(v)) by (nonlinear_arith)
        requires
            gate_at(a, line) == 1 * x + 0 * at(a, place(line.offset, 1)) + 0 * at(
                a,
                place(line.offset, 2),
            ) + 0 * at(a, place(line.offset, 3)) + 0 * at(a, place(line.offset, 4)) + 0 * at(
                a,
                place(line.offset, 5),
            ) + 0 * x * at(a, place(line.offset, 3)) + 0 * at(a, place(line.offset, 1)) * at(
                a,
                place(line.offset, 2),
            ) + fneg(v),
    ;
    lemma_neg_determines(v, x);
}

/// A row at `offset` that multiplies: copies of `a` in `l0` and of `b` in
/// `l3` with weight one on their product, the constant, and in `d`, with
/// weight minus one, a new cell that carries the product plus the constant.
#[verifier::opaque]
pub open spec fn is_product_row(
    line: Line,
    offset: int,
    a: Limb,
    b: Limb,
    constant: Option<Fe>,
) -> bool {
    &&& line.offset == offset
    &&& line.hint == 0
    &&& line.cells[0] == Some(a)
    &&& line.cells[1] is None && line.cells[2] is None
    &&& line.cells[3] == Some(b)
    &&& line.cells[4] matches Some(d) && d.cell is None && d.value@ == (a.value@ * b.value@
        + coeff_value(constant)) % modulus()
    &&& line.cells[5] is None
    &&& line.coeffs[0] is None && line.coeffs[1] is None && line.coeffs[2] is None
    &&& line.coeffs[3] is None
    &&& line.coeffs[4] is Some && coeff_value(line.coeffs[4]) == fneg(1)
    &&& line.coeffs[5] is None
    &&& line.coeffs[6] is Some && coeff_value(line.coeffs[6]) == 1
    &&& line.coeffs[7] is None
    &&& line.coeffs[8] == constant
}

/// The witness of a row that multiplies holds.
pub proof fn lemma_product_row_holds(
    line: Line,
    offset: int,
    x: Limb,
    y: Limb,
    constant: Option<Fe>,
)
    requires
        is_product_row(line, offset, x, y, constant),
    ensures
        line.holds(),
{
    reveal(is_product_row);
    reveal(gate_sum);
    let a = cell_value(line.cells[0]);
    let b = cell_value(line.cells[3]);
    let c = coeff_value(line.coeffs[8]);
    let d = cell_value(line.cells[4]);
    lemma_minus_one_closes(a * b + c, d);
    assert(gate_sum(line.cells, line.coeffs) == a * b + c + fneg(1) * d) by (nonlinear_arith)
        requires
            gate_sum(line.cells, line.coeffs) == 0 * a + coeff_value(line.coeffs[1]) * 0
                + coeff_value(line.coeffs[2]) * 0 + 0 * b + fneg(1) * d + coeff_value(
                line.coeffs[5],
            ) * 0 + 1 * a * b + coeff_value(line.coeffs[7]) * 0 * 0 + c,
    ;
}

/// An assignment that satisfies a row that multiplies two cells gives the
/// cell in `d` their product plus the constant, reduced.
pub proof fn lemma_product_row_binds(
    line: Line,
    offset: int,
    x: Limb,
    y: Limb,
    constant: Option<Fe>,
    a: Assignment,
)
    requires
        is_product_row(line, offset, x, y, constant),
        x.cell is Some,
        y.cell is Some,
        in_field(a),
        line.enforced(a),
    ensures
        read(a, produced(line)) == (read(a, x) * read(a, y) + coeff_value(constant)) % modulus(),
{
    reveal(is_product_row);
    reveal(gate_at);
    assert(line.copy_holds(a, 0) && line.copy_holds(a, 3));
    let x = at(a, place(line.offset, 0));
    let y = at(a, place(line.offset, 3));
    let d = at(a, place(line.offset, 4));
    let c = coeff_value(line.coeffs[8]);
    assert(gate_at(a, line) == x * y + c + fneg(1) * d) by (nonlinear_arith)
        requires
            gate_at(a, line) == 0 * x + 0 * at(a, place(line.offset, 1)) + 0 * at(
                a,
                place(line.offset, 2),
            ) + 0 * y + fneg(1) * d + 0 * at(a, place(line.offset, 5)) + 1 * x * y + 0 * at(
                a,
                place(line.offset, 1),
            ) * at(a, place(line.offset, 2)) + c,
    ;
    lemma_minus_one_determines(x * y + c, d);
}

/// A row at `offset` that selects: copies of the flag in `l0` and `l1`, of
/// `when_false` in `l2` and of `when_true` in `l3`, and in `d` a new cell
/// that carries the value of `when_true` for a flag that is not zero and of
/// `when_false` for zero. The equation is `l0*l3 - l1*l2 + l2 - d = 0`.
#[verifier::opaque]
pub open spec fn is_select_row(
    line: Line,
    offset: int,
    flag: Limb,
    when_true: Limb,
    when_false: Limb,
    hint: u64,
) -> bool {
    &&& line.offset == offset
    &&& line.hint == hint
    &&& line.cells[0] == Some(flag)
    &&& line.cells[1] == Some(flag)
    &&& line.cells[2] == Some(when_false)
    &&& line.cells[3] == Some(when_true)
    &&& line.cells[4] == Some(
        Limb {
            cell: None,
            value: if flag.value@ != 0 {
                when_true.value
            } else {
                when_false.value
            },
        },
    )
    &&& line.cells[5] is None
    &&& line.coeffs[0] is None && line.coeffs[1] is None
    &&& line.coeffs[2] is Some && coeff_value(line.coeffs[2]) == 1
    &&& line.coeffs[3] is None
    &&& line.coeffs[4] is Some && coeff_value(line.coeffs[4]) == fneg(1)
    &&& line.coeffs[5] is None
    &&& line.coeffs[6] is Some && coeff_value(line.coeffs[6]) == 1
    &&& line.coeffs[7] is Some && coeff_value(line.coeffs[7]) == fneg(1)
    &&& line.coeffs[8] is None
}

/// The witness of a row that selects holds where the flag is zero or one.
pub proof fn lemma_select_row_holds(
    line: Line,
    offset: int,
    flag: Limb,
    when_true: Limb,
    when_false: Limb,
    hint: u64,
)
    requires
        is_select_row(line, offset, flag, when_true, when_false, hint),
        flag.value@ <= 1,
    ensures
        line.holds(),
{
    reveal(is_select_row);
    reveal(gate_sum);
    let p = modulus();
    let flag = cell_value(line.cells[0]);
    let f = cell_value(line.cells[2]);
    let t = cell_value(line.cells[3]);
    let d = cell_value(line.cells[4]);
    lemma_minus_one();
    let g = gate_sum(line.cells, line.coeffs);
    assert(g == 0 * flag + 0 * flag + 1 * f + 0 * t + (p - 1) * d + coeff_value(line.coeffs[5]) * 0
        + 1 * flag * t + (p - 1) * flag * f + 0);
    if flag == 0 {
        assert(g == f * p) by (nonlinear_arith)
            requires
                g == 0 * flag + 0 * flag + 1 * f + 0 * t + (p - 1) * d + coeff_value(
                    line.coeffs[5],
                ) * 0 + 1 * flag * t + (p - 1) * flag * f + 0,
                flag == 0,
                d == f,
        ;
        lemma_mod_multiples_basic(f as int, p as int);
    } else {
        assert(g == (f + t) * p) by (nonlinear_arith)
            requires
                g == 0 * flag + 0 * flag + 1 * f + 0 * t + (p - 1) * d + coeff_value(
                    line.coeffs[5],
                ) * 0 + 1 * flag * t + (p - 1) * flag * f + 0,
                flag == 1,
                d == t,
        ;
        lemma_mod_multiples_basic((f + t) as int, p as int);
    }
}

/// An assignment that satisfies a row that selects between two cells, and
/// gives the flag zero or one, gives the cell in `d` the value of
/// `when_true` for one and of `when_false` for zero.
pub proof fn lemma_select_row_binds(
    line: Line,
    offset: int,
    flag: Limb,
    when_true: Limb,
    when_false: Limb,
    hint: u64,
    a: Assignment,
)
    requires
        is_select_row(line, offset, flag, when_true, when_false, hint),
        flag.cell is Some,
        when_true.cell is Some,
        when_false.cell is Some,
        read(a, flag) <= 1,
        in_field(a),
        line.enforced(a),
    ensures
        read(a, produced(line)) == if read(a, flag) != 0 {
            read(a, when_true)
        } else {
            read(a, when_false)
        },
{
    reveal(is_select_row);
    reveal(gate_at);
    assert(line.copy_holds(a, 0) && line.copy_holds(a, 1) && line.copy_holds(a, 2)
        && line.copy_holds(a, 3));
    let p = modulus();
    let flag = at(a, place(line.offset, 0));
    let f = at(a, place(line.offset, 2));
    let t = at(a, place(line.offset, 3));
    let d = at(a, place(line.offset, 4));
    let g = gate_at(a, line);
    lemma_minus_one();
    assert(g == 0 * flag + 0 * flag + 1 * f + 0 * t + fneg(1) * d + 0 * at(
        a,
        place(line.offset, 5),
    ) + 1 * flag * t + fneg(1) * flag * f + 0);
    if flag == 0 {
        assert(g == f + fneg(1) * d) by (nonlinear_arith)
            requires
                g == 0 * flag + 0 * flag + 1 * f + 0 * t + fneg(1) * d + 0 * at(
                    a,
                    place(line.offset, 5),
                ) + 1 * flag * t + fneg(1) * flag * f + 0,
                flag == 0,
        ;
        lemma_minus_one_determines(f, d);
        lemma_small_mod(f, p);
    } else {
        assert(g == p * f + t + fneg(1) * d) by (nonlinear_arith)
            requires
                g == 0 * flag + 0 * flag + 1 * f + 0 * t + fneg(1) * d + 0 * at(
                    a,
                    place(line.offset, 5),
                ) + 1 * flag * t + fneg(1) * flag * f + 0,
                flag == 1,
                fneg(1) == p - 1,
        ;
        lemma_minus_one_determines(p * f + t, d);
        lemma_mod_multiples_vanish(f as int, t as int, p as int);
        lemma_small_mod(t, p);
    }
}

/// The values of the limbs of a list of weighted terms.
pub open spec fn term_values(terms: Seq<(Limb, Fe)>) -> Seq<nat> {
    Seq::new(terms.len(), |j: int| terms[j].0.value@)
}

/// The weights of a list of weighted terms.
pub open spec fn term_weights(terms: Seq<(Limb, Fe)>) -> Seq<nat> {
    Seq::new(terms.len(), |j: int| terms[j].1@)
}

/// The sum of the products of each limb's value and its weight.
pub open spec fn weighted_sum(terms: Seq<(Limb, Fe)>) -> nat {
    dot(term_values(terms), term_weights(terms))
}

/// The product of the `j`-th entries of two vectors; zero past the end.
pub open spec fn product_at(xs: Seq<nat>, ws: Seq<nat>, j: int) -> nat {
    if 0 <= j < xs.len() {
        xs[j] * ws[j]
    } else {
        0
    }
}

/// The values that an assignment gives to the cells of the limbs of a list
/// of weighted terms.
pub open spec fn term_reads(a: Assignment, terms: Seq<(Limb, Fe)>) -> Seq<nat> {
    Seq::new(terms.len(), |j: int| read(a, terms[j].0))
}

/// The limb of every term has a cell.
pub open spec fn terms_placed(terms: Seq<(Limb, Fe)>) -> bool {
    forall|j: int| 0 <= j < terms.len() ==> (#[trigger] terms[j]).0.cell is Some
}

/// What an assignment gives to the running sum that enters a row: nothing
/// where none enters.
pub open spec fn carried_read(a: Assignment, carried: Option<Limb>) -> nat {
    match carried {
        Some(l) => read(a, l),
        None => 0,
    }
}

/// How a running sum enters a row: not at all while it is zero and nothing
/// was emitted yet, else as a cell with weight one.
pub open spec fn carried_sum(carried: Option<Limb>, weight: Option<Fe>, sum: nat) -> bool {
    match carried {
        None => weight is None && sum == 0,
        Some(l) => l.value@ == sum && coeff_value(weight) == 1,
    }
}

/// The slot holds the `j`-th term as a copy with its weight; it is empty
/// past the last term.
pub open spec fn slot_holds_term(line: Line, slot: int, terms: Seq<(Limb, Fe)>, j: int) -> bool {
    if 0 <= j < terms.len() {
        line.cells[slot] == Some(terms[j].0) && line.coeffs[slot] == Some(terms[j].1)
    } else {
        line.cells[slot] is None && line.coeffs[slot] is None
    }
}

/// A row at `offset` of a weighted sum: the running sum, if one is carried,
/// as a copy in `l0` with weight one; the terms from the `i`-th on, three at
/// most, in `l1` to `l3`; the closing constant; and in `d`, with weight
/// minus one, a new cell that carries the sum of all of these.
#[verifier::opaque]
pub open spec fn is_sum_row(
    line: Line,
    offset: int,
    carried: Option<Limb>,
    terms: Seq<(Limb, Fe)>,
    i: int,
    closing: Option<Fe>,
) -> bool {
    &&& line.offset == offset
    &&& line.hint == 0
    &&& line.cells[0] == carried
    &&& line.coeffs[0] is Some <==> carried is Some
    &&& carried is Some ==> coeff_value(line.coeffs[0]) == 1
    &&& slot_holds_term(line, 1, terms, i)
    &&& slot_holds_term(line, 2, terms, i + 1)
    &&& slot_holds_term(line, 3, terms, i + 2)
    &&& line.cells[4] matches Some(d) && d.cell is None && d.value@ == (cell_value(carried)
        + product_at(term_values(terms), term_weights(terms), i) + product_at(
        term_values(terms),
        term_weights(terms),
        i + 1,
    ) + product_at(term_values(terms), term_weights(terms), i + 2) + coeff_value(closing))
        % modulus()
    &&& line.cells[5] is None
    &&& line.coeffs[4] is Some && coeff_value(line.coeffs[4]) == fneg(1)
    &&& line.coeffs[5] is None && line.coeffs[6] is None && line.coeffs[7] is None
    &&& line.coeffs[8] == closing
}

/// The witness of a row of a weighted sum holds.
pub proof fn lemma_sum_row_holds(
    line: Line,
    offset: int,
    carried: Option<Limb>,
    terms: Seq<(Limb, Fe)>,
    i: int,
    closing: Option<Fe>,
)
    requires
        is_sum_row(line, offset, carried, terms, i, closing),
        0 <= i,
    ensures
        line.holds(),
{
    reveal(is_sum_row);
    reveal(gate_sum);
    let t0 = coeff_value(line.coeffs[0]) * cell_value(line.cells[0]);
    let t1 = coeff_value(line.coeffs[1]) * cell_value(line.cells[1]);
    let t2 = coeff_value(line.coeffs[2]) * cell_value(line.cells[2]);
    let t3 = coeff_value(line.coeffs[3]) * cell_value(line.cells[3]);
    assert(t0 == cell_value(carried)) by (nonlinear_arith)
        requires
            t0 == coeff_value(line.coeffs[0]) * cell_value(carried),
            (coeff_value(line.coeffs[0]) == 0 && cell_value(carried) == 0) || coeff_value(
                line.coeffs[0],
            ) == 1,
    ;
    lemma_witness_in_slot(line, 1, terms, i);
    lemma_witness_in_slot(line, 2, terms, i + 1);
    lemma_witness_in_slot(line, 3, terms, i + 2);
    let c = coeff_value(line.coeffs[8]);
    let d = cell_value(line.cells[4]);
    lemma_minus_one_closes(t0 + t1 + t2 + t3 + c, d);
    assert(gate_sum(line.cells, line.coeffs) == t0 + t1 + t2 + t3 + c + fneg(1) * d)
        by (nonlinear_arith)
        requires
            gate_sum(line.cells, line.coeffs) == t0 + t1 + t2 + t3 + fneg(1) * d + coeff_value(
                line.coeffs[5],
            ) * 0 + 0 * cell_value(line.cells[0]) * cell_value(line.cells[3]) + 0 * cell_value(
                line.cells[1],
            ) * cell_value(line.cells[2]) + c,
    ;
}

/// An assignment that satisfies a row of a weighted sum gives the cell in
/// `d` the value of the cell carried over, plus the weighted values of the
/// cells of the three terms, plus the closing constant, reduced.
pub proof fn lemma_sum_row_binds(
    line: Line,
    offset: int,
    carried: Option<Limb>,
    terms: Seq<(Limb, Fe)>,
    i: int,
    closing: Option<Fe>,
    a: Assignment,
)
    requires
        is_sum_row(line, offset, carried, terms, i, closing),
        0 <= i,
        terms_placed(terms),
        carried matches Some(l) ==> l.cell is Some,
        in_field(a),
        line.enforced(a),
    ensures
        read(a, produced(line)) == (carried_read(a, carried) + product_at(
            term_reads(a, terms),
            term_weights(terms),
            i,
        ) + product_at(term_reads(a, terms), term_weights(terms), i + 1) + product_at(
            term_reads(a, terms),
            term_weights(terms),
            i + 2,
        ) + coeff_value(closing)) % modulus(),
{
    reveal(is_sum_row);
    reveal(gate_at);
    let t0 = coeff_value(line.coeffs[0]) * at(a, place(line.offset, 0));
    let t1 = coeff_value(line.coeffs[1]) * at(a, place(line.offset, 1));
    let t2 = coeff_value(line.coeffs[2]) * at(a, place(line.offset, 2));
    let t3 = coeff_value(line.coeffs[3]) * at(a, place(line.offset, 3));
    assert(line.copy_holds(a, 0) && line.copy_holds(a, 1) && line.copy_holds(a, 2)
        && line.copy_holds(a, 3));
    assert(t0 == carried_read(a, carried)) by (nonlinear_arith)
        requires
            t0 == coeff_value(line.coeffs[0]) * at(a, place(line.offset, 0)),
            (coeff_value(line.coeffs[0]) == 0 && carried_read(a, carried) == 0) || (coeff_value(
                line.coeffs[0],
            ) == 1 && at(a, place(line.offset, 0)) == carried_read(a, carried)),
    ;
    lemma_term_in_slot(line, a, 1, terms, i);
    lemma_term_in_slot(line, a, 2, terms, i + 1);
    lemma_term_in_slot(line, a, 3, terms, i + 2);
    let d = at(a, place(line.offset, 4));
    let c = coeff_value(line.coeffs[8]);
    assert(gate_at(a, line) == t0 + t1 + t2 + t3 + c + fneg(1) * d) by (nonlinear_arith)
        requires
            gate_at(a, line) == t0 + t1 + t2 + t3 + fneg(1) * d + 0 * at(
                a,
                place(line.offset, 5),
            ) + 0 * at(a, place(line.offset, 0)) * at(a, place(line.offset, 3)) + 0 * at(
                a,
                place(line.offset, 1),
            ) * at(a, place(line.offset, 2)) + c,
    ;
    lemma_minus_one_determines(t0 + t1 + t2 + t3 + c, d);
}

/// The term that a slot of a summing row holds counts, in the witness, with
/// the value of the term times its weight.
proof fn lemma_witness_in_slot(line: Line, slot: int, terms: Seq<(Limb, Fe)>, j: int)
    requires
        0 <= slot < 6,
        0 <= j,
        slot_holds_term(line, slot, terms, j),
    ensures
        coeff_value(line.coeffs[slot]) * cell_value(line.cells[slot]) == product_at(
            term_values(terms),
            term_weights(terms),
            j,
        ),
{
    if j < terms.len() {
        lemma_mul_is_commutative(terms[j].1@ as int, terms[j].0.value@ as int);
    } else {
        assert(0 * cell_value(line.cells[slot]) == 0);
    }
}

/// The term that a slot of a summing row holds counts, under an assignment
/// that satisfies the copy, with the value of the term's own cell times its
/// weight.
proof fn lemma_term_in_slot(line: Line, a: Assignment, slot: int, terms: Seq<(Limb, Fe)>, j: int)
    requires
        0 <= slot < 6,
        0 <= j,
        slot_holds_term(line, slot, terms, j),
        terms_placed(terms),
        line.copy_holds(a, slot),
    ensures
        coeff_value(line.coeffs[slot]) * at(a, place(line.offset, slot)) == product_at(
            term_reads(a, terms),
            term_weights(terms),
            j,
        ),
{
    let x = at(a, place(line.offset, slot));
    if j < terms.len() {
        lemma_mul_is_commutative(terms[j].1@ as int, x as int);
    } else {
        assert(0 * x == 0);
    }
}

/// Three more products and a constant on a reduced running sum give the
/// reduced sum of three products more, plus the constant.
pub proof fn lemma_sum_of_three(xs: Seq<nat>, ws: Seq<nat>, i: int, sum: nat, c: nat)
    requires
        0 <= i <= xs.len(),
        sum == dot_upto(xs, ws, i as nat) % modulus(),
    ensures
        (sum + product_at(xs, ws, i) + product_at(xs, ws, i + 1) + product_at(xs, ws, i + 2) + c)
            % modulus() == (dot_upto(
            xs,
            ws,
            if i + 3 <= xs.len() {
                (i + 3) as nat
            } else {
                xs.len()
            },
        ) + c) % modulus(),
{
    let base = dot_upto(xs, ws, i as nat);
    let t = product_at(xs, ws, i) + product_at(xs, ws, i + 1) + product_at(xs, ws, i + 2);
    reveal_with_fuel(dot_upto, 4);
    lemma_fadd_absorbs(base, t + c);
}

/// The rows that a weighted sum of `n` terms takes: three terms to a row, and
/// one row at least.
pub open spec fn sum_lines(n: nat) -> nat {
    if n <= 3 {
        1
    } else {
        (n + 2) / 3
    }
}

/// After `emitted` full rows there is a row still to come, and it is the last
/// one exactly when three terms or fewer are left.
pub proof fn lemma_sum_lines_reached(n: nat, emitted: int)
    requires
        0 <= emitted,
        3 * emitted <= n,
        emitted > 0 ==> 3 * emitted < n,
    ensures
        emitted + 1 <= sum_lines(n),
        n - 3 * emitted <= 3 <==> emitted + 1 == sum_lines(n),
{
}

} // verus!
