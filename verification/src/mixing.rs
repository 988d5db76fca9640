//! The linear steps: absorbing the inputs, and mixing by a dense or a sparse
//! matrix. Every new element is one weighted sum.

use crate::context::{is_sum, lemma_enforces_earlier, sum_bound, Context};
use crate::field::{lemma_constants, modulus, Fe};
use crate::gate::{
    all_placed, limb_values, place, produced, read, reads, reads_upto, Assignment, Error, Limb,
    Line,
};
use crate::params::{fe_values, matrix_values, rows_have_width, SparseMDSMatrix};
use crate::permutation::{dot, dot_upto, lemma_dot_one, lemma_dot_two};
use crate::permutation;
use crate::rows::{sum_lines, term_reads, term_values, term_weights, terms_placed, weighted_sum};
use crate::state::PoseidonState;
use vstd::arithmetic::mul::{lemma_mul_inequality, lemma_mul_is_distributive_add_other_way};
use vstd::prelude::*;

verus! {

/// The rows of a dense mixing of a state of width `t`: a weighted sum of `t`
/// terms for each new element.
pub open spec fn mix_rows(t: nat) -> nat {
    t * sum_lines(t)
}

/// The rows of a sparse mixing of a state of width `t`: a weighted sum of
/// `t` terms for the first element and one row for each of the others.
pub open spec fn sparse_mix_rows(t: nat) -> nat {
    (sum_lines(t) + t - 1) as nat
}

/// The rows of the `i`-th element of a dense mixing that starts at index
/// `from` of the rows and at the offset `offset`: a weighted sum of the whole
/// state `before` under the `i`-th row of the matrix, without a constant.
/// Rows emitted later have no part in it.
pub open spec fn is_mix_row(
    lines: Seq<Line>,
    from: int,
    offset: int,
    before: Seq<Limb>,
    mds: Seq<Vec<Fe>>,
    i: int,
) -> bool {
    is_sum(
        lines.take(from + (i + 1) * sum_lines(before.len())),
        from + i * sum_lines(before.len()),
        offset + i * sum_lines(before.len()),
        paired(before, mds[i]@),
        None,
    )
}

/// The rows of a dense mixing: one weighted sum for each row of the matrix,
/// in order.
pub open spec fn is_mix(
    lines: Seq<Line>,
    from: int,
    offset: int,
    before: Seq<Limb>,
    mds: Seq<Vec<Fe>>,
) -> bool {
    forall|i: int|
        0 <= i < before.len() ==> #[trigger] is_mix_row(lines, from, offset, before, mds, i)
}

/// The state that a dense mixing from index `from` of the rows on leaves:
/// each element is the `d` cell of the last row of its sum.
pub open spec fn mixed(lines: Seq<Line>, from: int, t: nat) -> Seq<Limb> {
    Seq::new(t, |i: int| produced(lines[from + (i + 1) * sum_lines(t) - 1]))
}

/// The first `i` sums of a dense mixing are there, and `res` holds what they
/// produced.
#[verifier::opaque]
pub open spec fn mixed_upto(
    lines: Seq<Line>,
    from: int,
    offset: int,
    before: Seq<Limb>,
    mds: Seq<Vec<Fe>>,
    res: Seq<Limb>,
    i: int,
) -> bool {
    &&& res.len() == i
    &&& lines.len() == from + i * sum_lines(before.len())
    &&& forall|j: int| 0 <= j < i ==> #[trigger] is_mix_row(lines, from, offset, before, mds, j)
    &&& forall|j: int|
        0 <= j < i ==> (#[trigger] res[j]) == produced(
            lines[from + (j + 1) * sum_lines(before.len()) - 1],
        )
}

/// One more sum of a dense mixing keeps the sums before it.
proof fn lemma_mix_step(
    after: Seq<Line>,
    earlier: Seq<Line>,
    from: int,
    offset: int,
    before: Seq<Limb>,
    mds: Seq<Vec<Fe>>,
    i: int,
    res: Seq<Limb>,
    res_earlier: Seq<Limb>,
)
    requires
        0 <= from,
        0 <= i,
        mixed_upto(earlier, from, offset, before, mds, res_earlier, i),
        after.len() == earlier.len() + sum_lines(before.len()),
        forall|k: int| 0 <= k < earlier.len() ==> after[k] == earlier[k],
        is_sum(
            after,
            earlier.len() as int,
            offset + i * sum_lines(before.len()),
            paired(before, mds[i]@),
            None,
        ),
        res == res_earlier.push(produced(after.last())),
    ensures
        mixed_upto(after, from, offset, before, mds, res, i + 1),
{
    reveal(mixed_upto);
    let l = sum_lines(before.len()) as int;
    assert((i + 1) * l == i * l + l) by (nonlinear_arith);
    assert(after.take(after.len() as int) =~= after);
    assert(is_mix_row(after, from, offset, before, mds, i));
    assert forall|j: int| 0 <= j < i + 1 implies #[trigger] is_mix_row(
        after,
        from,
        offset,
        before,
        mds,
        j,
    ) by {
        if j < i {
            assert((j + 1) * l <= i * l) by (nonlinear_arith)
                requires
                    0 <= j < i,
                    l >= 0,
            ;
            assert(after.take(from + (j + 1) * l) =~= earlier.take(from + (j + 1) * l));
            assert(is_mix_row(earlier, from, offset, before, mds, j));
        }
    }
    assert forall|j: int| 0 <= j < i + 1 implies (#[trigger] res[j]) == produced(
        after[from + (j + 1) * l - 1],
    ) by {
        if j < i {
            assert(l <= (j + 1) * l <= i * l) by (nonlinear_arith)
                requires
                    0 <= j < i,
                    l >= 1,
            ;
            let k = from + (j + 1) * l - 1;
            assert(0 <= k < earlier.len());
            assert(res[j] == res_earlier[j]);
            assert(after[k] == earlier[k]);
        } else {
            assert(res[j] == produced(after.last()));
            assert(after.last() == after[after.len() - 1]);
        }
    }
}

/// The sums of a dense mixing, all there, leave the mixed state.
proof fn lemma_mixed_all(
    lines: Seq<Line>,
    from: int,
    offset: int,
    before: Seq<Limb>,
    mds: Seq<Vec<Fe>>,
    res: Seq<Limb>,
)
    requires
        mixed_upto(lines, from, offset, before, mds, res, before.len() as int),
    ensures
        is_mix(lines, from, offset, before, mds),
        res == mixed(lines, from, before.len()),
{
    reveal(mixed_upto);
    assert(res =~= mixed(lines, from, before.len()));
}

/// The two terms of an element of a sparse mixing but the first: the first
/// element of the state with the element's factor, and the element itself
/// with weight one.
pub open spec fn sparse_terms(before: Seq<Limb>, col_hat: Seq<Fe>, i: int) -> Seq<(Limb, Fe)> {
    seq![(before[0], col_hat[i - 1]), (before[i], Fe::spec_one())]
}

/// The rows of the `i`-th element of a sparse mixing that starts at index
/// `from` of the rows and at the offset `offset`: for the first element a
/// weighted sum of the whole state `before` under `row`, for each other
/// element one row that sums its two terms; no constant. Rows emitted later
/// have no part in it.
pub open spec fn is_sparse_row(
    lines: Seq<Line>,
    from: int,
    offset: int,
    before: Seq<Limb>,
    m: SparseMDSMatrix,
    i: int,
) -> bool {
    if i == 0 {
        is_sum(
            lines.take(from + sum_lines(before.len())),
            from,
            offset,
            paired(before, m.row@),
            None,
        )
    } else {
        is_sum(
            lines.take(from + sum_lines(before.len()) + i),
            from + sum_lines(before.len()) + i - 1,
            offset + sum_lines(before.len()) + i - 1,
            sparse_terms(before, m.col_hat@, i),
            None,
        )
    }
}

/// The rows of a sparse mixing: the sum for the first element, then one row
/// for each other element, in order.
pub open spec fn is_sparse_mix(
    lines: Seq<Line>,
    from: int,
    offset: int,
    before: Seq<Limb>,
    m: SparseMDSMatrix,
) -> bool {
    forall|i: int|
        0 <= i < before.len() ==> #[trigger] is_sparse_row(lines, from, offset, before, m, i)
}

/// The state that a sparse mixing from index `from` of the rows on leaves:
/// each element is the `d` cell of the last row of its sum.
pub open spec fn sparse_mixed(lines: Seq<Line>, from: int, t: nat) -> Seq<Limb> {
    Seq::new(t, |i: int| produced(lines[from + sum_lines(t) + i - 1]))
}

/// The sums of the first `i` elements of a sparse mixing are there, and
/// `res` holds what they produced.
#[verifier::opaque]
pub open spec fn sparse_upto(
    lines: Seq<Line>,
    from: int,
    offset: int,
    before: Seq<Limb>,
    m: SparseMDSMatrix,
    res: Seq<Limb>,
    i: int,
) -> bool {
    &&& res.len() == i
    &&& lines.len() == from + sum_lines(before.len()) + i - 1
    &&& forall|j: int| 0 <= j < i ==> #[trigger] is_sparse_row(lines, from, offset, before, m, j)
    &&& forall|j: int|
        0 <= j < i ==> (#[trigger] res[j]) == produced(
            lines[from + sum_lines(before.len()) + j - 1],
        )
}

/// One more row of a sparse mixing keeps the rows before it.
proof fn lemma_sparse_step(
    after: Seq<Line>,
    earlier: Seq<Line>,
    from: int,
    offset: int,
    before: Seq<Limb>,
    m: SparseMDSMatrix,
    i: int,
    terms: Seq<(Limb, Fe)>,
    res: Seq<Limb>,
    res_earlier: Seq<Limb>,
)
    requires
        0 <= from,
        0 <= i,
        i == 0 ==> earlier.len() == from && res_earlier.len() == 0 && terms == paired(
            before,
            m.row@,
        ),
        i > 0 ==> sparse_upto(earlier, from, offset, before, m, res_earlier, i) && terms
            == sparse_terms(before, m.col_hat@, i),
        after.len() == earlier.len() + sum_lines(terms.len()),
        terms.len() == (if i == 0 {
            before.len()
        } else {
            2
        }),
        forall|k: int| 0 <= k < earlier.len() ==> after[k] == earlier[k],
        is_sum(
            after,
            earlier.len() as int,
            offset + (earlier.len() - from),
            terms,
            None,
        ),
        res == res_earlier.push(produced(after.last())),
    ensures
        sparse_upto(after, from, offset, before, m, res, i + 1),
{
    reveal(sparse_upto);
    let l = sum_lines(before.len()) as int;
    assert(after.take(after.len() as int) =~= after);
    assert(is_sparse_row(after, from, offset, before, m, i));
    assert forall|j: int| 0 <= j < i + 1 implies #[trigger] is_sparse_row(
        after,
        from,
        offset,
        before,
        m,
        j,
    ) by {
        if j < i {
            assert(is_sparse_row(earlier, from, offset, before, m, j));
            if j == 0 {
                assert(after.take(from + l) =~= earlier.take(from + l));
            } else {
                assert(after.take(from + l + j) =~= earlier.take(from + l + j));
            }
        }
    }
    assert forall|j: int| 0 <= j < i + 1 implies (#[trigger] res[j]) == produced(
        after[from + l + j - 1],
    ) by {
        if j < i {
            assert(res[j] == res_earlier[j]);
            assert(after[from + l + j - 1] == earlier[from + l + j - 1]);
        } else {
            assert(after.last() == after[after.len() - 1]);
        }
    }
}

/// The rows of a sparse mixing, all there, leave the mixed state.
proof fn lemma_sparse_all(
    lines: Seq<Line>,
    from: int,
    offset: int,
    before: Seq<Limb>,
    m: SparseMDSMatrix,
    res: Seq<Limb>,
)
    requires
        sparse_upto(lines, from, offset, before, m, res, before.len() as int),
    ensures
        is_sparse_mix(lines, from, offset, before, m),
        res == sparse_mixed(lines, from, before.len()),
{
    reveal(sparse_upto);
    assert(res =~= sparse_mixed(lines, from, before.len()));
}

/// The rows from index `start` on bind the first `i` elements of `res` to
/// the sparse mixing of the cells of `state`.
pub open spec fn sparse_bound_upto(
    ctx: Context,
    start: int,
    state: Seq<Limb>,
    m: SparseMDSMatrix,
    res: Seq<Limb>,
    i: int,
) -> bool {
    forall|a: Assignment| #[trigger]
        ctx.enforces(a, start, ctx.lines@.len() as int) ==> reads_upto(
            a,
            res,
            permutation::sparse_mix(reads(a, state), m@),
            i,
        )
}

/// The sum for the first element of a sparse mixing binds it.
proof fn lemma_sparse_bound_first(
    ctx: Context,
    start: int,
    state: Seq<Limb>,
    m: SparseMDSMatrix,
    terms: Seq<(Limb, Fe)>,
    sum: Limb,
    res: Seq<Limb>,
)
    requires
        state.len() >= 1,
        state.len() == m.row@.len(),
        terms == paired(state, m.row@),
        sum_bound(ctx, start, ctx.lines@.len() as int, terms, 0, sum),
        res.len() == 1,
        res[0] == sum,
    ensures
        sparse_bound_upto(ctx, start, state, m, res, 1),
{
    assert forall|a: Assignment| #[trigger]
        ctx.enforces(a, start, ctx.lines@.len() as int) implies reads_upto(
        a,
        res,
        permutation::sparse_mix(reads(a, state), m@),
        1,
    ) by {
        lemma_paired_reads(a, state, m.row@);
    }
}

/// One more row of a sparse mixing binds one more element.
proof fn lemma_sparse_bound_step(
    ctx: Context,
    before: Context,
    start: int,
    state: Seq<Limb>,
    m: SparseMDSMatrix,
    i: int,
    terms: Seq<(Limb, Fe)>,
    sum: Limb,
    res: Seq<Limb>,
    res_before: Seq<Limb>,
)
    requires
        ctx.keeps(before),
        0 <= start <= before.lines@.len(),
        1 <= i < state.len(),
        state.len() == m.col_hat@.len() + 1,
        sparse_bound_upto(before, start, state, m, res_before, i),
        res_before.len() == i,
        terms == sparse_terms(state, m.col_hat@, i),
        sum_bound(ctx, before.lines@.len() as int, ctx.lines@.len() as int, terms, 0, sum),
        res == res_before.push(sum),
    ensures
        sparse_bound_upto(ctx, start, state, m, res, i + 1),
{
    lemma_constants();
    assert forall|a: Assignment| #[trigger]
        ctx.enforces(a, start, ctx.lines@.len() as int) implies reads_upto(
        a,
        res,
        permutation::sparse_mix(reads(a, state), m@),
        i + 1,
    ) by {
        let expected = permutation::sparse_mix(reads(a, state), m@);
        lemma_enforces_earlier(
            ctx,
            before,
            a,
            start,
            before.lines@.len() as int,
            ctx.lines@.len() as int,
        );
        assert(reads_upto(a, res_before, expected, i));
        assert(ctx.enforces(a, before.lines@.len() as int, ctx.lines@.len() as int));
        lemma_dot_two(term_reads(a, terms), term_weights(terms));
        let x = read(a, state[i]);
        assert(x * 1 == x);
        assert(read(a, sum) == expected[i]);
        assert forall|j: int| 0 <= j < i + 1 implies read(a, #[trigger] res[j]) == expected[j] by {
            if j < i {
                assert(res[j] == res_before[j]);
            }
        }
    }
}

/// The rows of a sparse mixing, all there, bind the whole state.
proof fn lemma_sparse_bound_all(
    ctx: Context,
    start: int,
    state: Seq<Limb>,
    m: SparseMDSMatrix,
    res: Seq<Limb>,
)
    requires
        sparse_bound_upto(ctx, start, state, m, res, state.len() as int),
        res.len() == state.len(),
    ensures
        forall|a: Assignment| #[trigger]
            ctx.enforces(a, start, ctx.lines@.len() as int) ==> reads(a, res)
                == permutation::sparse_mix(reads(a, state), m@),
{
    assert forall|a: Assignment| #[trigger]
        ctx.enforces(a, start, ctx.lines@.len() as int) implies reads(a, res)
        == permutation::sparse_mix(reads(a, state), m@) by {
        let expected = permutation::sparse_mix(reads(a, state), m@);
        assert(reads_upto(a, res, expected, state.len() as int));
        assert(reads(a, res) =~= expected);
    }
}

/// The terms that the `i`-th element absorbs: itself with weight one, and,
/// but for the first element, the input one place before it with weight
/// one.
pub open spec fn absorb_terms(before: Seq<Limb>, inputs: Seq<Limb>, i: int) -> Seq<(Limb, Fe)> {
    if i == 0 {
        seq![(before[0], Fe::spec_one())]
    } else {
        seq![(before[i], Fe::spec_one()), (inputs[i - 1], Fe::spec_one())]
    }
}

/// The row of the `i`-th element of an absorption that starts at index
/// `from` of the rows and at the offset `offset`: one row that sums the
/// terms of the element and its constant. Rows emitted later have no part in
/// it.
pub open spec fn is_absorb_row(
    lines: Seq<Line>,
    from: int,
    offset: int,
    before: Seq<Limb>,
    inputs: Seq<Limb>,
    constants: Seq<Fe>,
    i: int,
) -> bool {
    is_sum(
        lines.take(from + i + 1),
        from + i,
        offset + i,
        absorb_terms(before, inputs, i),
        Some(constants[i]),
    )
}

/// The rows of an absorption: one for each element, in order.
pub open spec fn is_absorb(
    lines: Seq<Line>,
    from: int,
    offset: int,
    before: Seq<Limb>,
    inputs: Seq<Limb>,
    constants: Seq<Fe>,
) -> bool {
    forall|i: int|
        0 <= i < before.len() ==> #[trigger] is_absorb_row(
            lines,
            from,
            offset,
            before,
            inputs,
            constants,
            i,
        )
}

/// The state that an absorption from index `from` of the rows on leaves:
/// each element is the `d` cell of its row.
pub open spec fn absorbed(lines: Seq<Line>, from: int, t: nat) -> Seq<Limb> {
    Seq::new(t, |i: int| produced(lines[from + i]))
}

/// The state that an absorption leaves when the rows run out with `left`
/// rows left at its start: the elements whose row fits were replaced, the
/// others are as they were.
pub open spec fn absorb_cut(lines: Seq<Line>, from: int, before: Seq<Limb>, left: int) -> Seq<
    Limb,
> {
    Seq::new(
        before.len(),
        |j: int|
            if j < left {
                produced(lines[from + j])
            } else {
                before[j]
            },
    )
}

/// The rows of the first `i` elements of an absorption are there, and the
/// state holds what they produced.
#[verifier::opaque]
pub open spec fn absorb_upto(
    lines: Seq<Line>,
    from: int,
    offset: int,
    before: Seq<Limb>,
    inputs: Seq<Limb>,
    constants: Seq<Fe>,
    now: Seq<Limb>,
    i: int,
) -> bool {
    &&& lines.len() == from + i
    &&& now.len() == before.len()
    &&& forall|j: int|
        0 <= j < i ==> #[trigger] is_absorb_row(lines, from, offset, before, inputs, constants, j)
    &&& forall|j: int| 0 <= j < i ==> (#[trigger] now[j]) == produced(lines[from + j])
}

/// One more row of an absorption keeps the rows before it.
proof fn lemma_absorb_step(
    after: Seq<Line>,
    earlier: Seq<Line>,
    from: int,
    offset: int,
    before: Seq<Limb>,
    inputs: Seq<Limb>,
    constants: Seq<Fe>,
    i: int,
    now: Seq<Limb>,
    now_earlier: Seq<Limb>,
)
    requires
        0 <= from,
        0 <= i < before.len(),
        absorb_upto(earlier, from, offset, before, inputs, constants, now_earlier, i),
        after.len() == earlier.len() + 1,
        forall|k: int| 0 <= k < earlier.len() ==> after[k] == earlier[k],
        is_sum(
            after,
            earlier.len() as int,
            offset + i,
            absorb_terms(before, inputs, i),
            Some(constants[i]),
        ),
        now == now_earlier.update(i, produced(after.last())),
    ensures
        absorb_upto(after, from, offset, before, inputs, constants, now, i + 1),
{
    reveal(absorb_upto);
    assert(after.take(after.len() as int) =~= after);
    assert(is_absorb_row(after, from, offset, before, inputs, constants, i));
    assert forall|j: int| 0 <= j < i + 1 implies #[trigger] is_absorb_row(
        after,
        from,
        offset,
        before,
        inputs,
        constants,
        j,
    ) by {
        if j < i {
            assert(is_absorb_row(earlier, from, offset, before, inputs, constants, j));
            assert(after.take(from + j + 1) =~= earlier.take(from + j + 1));
        }
    }
    assert forall|j: int| 0 <= j < i + 1 implies (#[trigger] now[j]) == produced(
        after[from + j],
    ) by {
        if j < i {
            assert(now[j] == now_earlier[j]);
            assert(after[from + j] == earlier[from + j]);
        } else {
            assert(after.last() == after[after.len() - 1]);
        }
    }
}

/// The rows of an absorption, all there, leave the absorbed state.
proof fn lemma_absorb_all(
    lines: Seq<Line>,
    from: int,
    offset: int,
    before: Seq<Limb>,
    inputs: Seq<Limb>,
    constants: Seq<Fe>,
    now: Seq<Limb>,
)
    requires
        absorb_upto(lines, from, offset, before, inputs, constants, now, before.len() as int),
    ensures
        is_absorb(lines, from, offset, before, inputs, constants),
        now == absorbed(lines, from, before.len()),
{
    reveal(absorb_upto);
    assert(now =~= absorbed(lines, from, before.len()));
}

/// Each limb with the weight at the same place.
pub open spec fn paired(state: Seq<Limb>, weights: Seq<Fe>) -> Seq<(Limb, Fe)> {
    Seq::new(state.len(), |j: int| (state[j], weights[j]))
}

/// The weighted sum of limbs paired with weights is the product of the two
/// vectors, entry by entry.
pub proof fn lemma_weighted_sum_is_dot(state: Seq<Limb>, weights: Seq<Fe>)
    requires
        state.len() == weights.len(),
    ensures
        weighted_sum(paired(state, weights)) == dot(limb_values(state), fe_values(weights)),
{
    assert(term_values(paired(state, weights)) =~= limb_values(state));
    assert(term_weights(paired(state, weights)) =~= fe_values(weights));
}

/// Under an assignment, the cells of limbs paired with weights read as the
/// cells of the limbs, and the weights are the weights.
pub proof fn lemma_paired_reads(a: Assignment, state: Seq<Limb>, weights: Seq<Fe>)
    requires
        state.len() == weights.len(),
    ensures
        term_reads(a, paired(state, weights)) == reads(a, state),
        term_weights(paired(state, weights)) == fe_values(weights),
        all_placed(state) ==> terms_placed(paired(state, weights)),
{
    assert(term_reads(a, paired(state, weights)) =~= reads(a, state));
    assert(term_weights(paired(state, weights)) =~= fe_values(weights));
}

/// The weighted sum of one term.
pub proof fn lemma_weighted_sum_one(a: (Limb, Fe))
    ensures
        weighted_sum(seq![a]) == a.0.value@ * a.1@,
{
    reveal_with_fuel(dot_upto, 2);
}

/// The weighted sum of two terms.
pub proof fn lemma_weighted_sum_two(a: (Limb, Fe), b: (Limb, Fe))
    ensures
        weighted_sum(seq![a, b]) == a.0.value@ * a.1@ + b.0.value@ * b.1@,
{
    reveal_with_fuel(dot_upto, 3);
}

/// Pairs each limb of the state with the weight at the same place.
fn pair_up(state: &Vec<Limb>, weights: &Vec<Fe>) -> (terms: Vec<(Limb, Fe)>)
    requires
        state@.len() == weights@.len(),
    ensures
        terms@ == paired(state@, weights@),
{
    let mut terms: Vec<(Limb, Fe)> = Vec::new();
    let mut j: usize = 0;
    while j < state.len()
        invariant
            state@.len() == weights@.len(),
            j <= state@.len(),
            terms@.len() == j,
            forall|k: int| 0 <= k < j ==> terms@[k] == (state@[k], weights@[k]),
        decreases state@.len() - j,
    {
        terms.push((state[j], weights[j]));
        j = j + 1;
    }
    proof {
        assert(terms@ =~= paired(state@, weights@));
    }
    terms
}

impl PoseidonState {
    /// Adds the inputs and the first round constants to the state.
    ///
    /// The first element takes its constant only. Each other element takes
    /// the input that stands one place before it, and its constant. One row
    /// for each element.
    #[verifier::rlimit(50)]
    pub fn absorb_with_pre_constants(
        &mut self,
        ctx: &mut Context,
        inputs: &Vec<Limb>,
        pre_constants: &Vec<Fe>,
    ) -> (res: Result<(), Error>)
        requires
            old(ctx).wf(),
            old(self).width() >= 1,
            inputs@.len() + 1 == old(self).width(),
            pre_constants@.len() == old(self).width(),
        ensures
            final(ctx).extends(*old(ctx)),
            final(self).state@.len() == old(self).width(),
            final(self).default == old(self).default,
            final(self).prefix == old(self).prefix,
            res is Ok <==> old(ctx).fits(old(self).width() as int),
            res matches Err(e) ==> e == Error::ConstraintAllocation && final(ctx).ran_out(*old(ctx)),
            res is Err ==> final(self).state@ == absorb_cut(
                final(ctx).lines@,
                old(ctx).lines@.len() as int,
                old(self).state@,
                old(ctx).rows - old(ctx).offset,
            ),
            res is Ok ==> {
                &&& limb_values(final(self).state@) == permutation::absorb(
                    limb_values(old(self).state@),
                    limb_values(inputs@),
                    fe_values(pre_constants@),
                )
                &&& forall|i: int|
                    0 <= i < final(self).state@.len() ==> (#[trigger] final(self).state@[i]).cell
                        == Some(place((old(ctx).offset + i) as usize, 4))
                &&& final(ctx).advanced(*old(ctx), old(self).width() as int)
                &&& is_absorb(
                    final(ctx).lines@,
                    old(ctx).lines@.len() as int,
                    old(ctx).offset as int,
                    old(self).state@,
                    inputs@,
                    pre_constants@,
                )
                &&& final(self).state@ == absorbed(
                    final(ctx).lines@,
                    old(ctx).lines@.len() as int,
                    old(self).width(),
                )
                &&& final(ctx).holds_from(old(ctx).lines@.len() as int)
                &&& all_placed(old(self).state@) && all_placed(inputs@) ==> forall|a: Assignment|
                    #[trigger]
                    final(ctx).enforces(
                        a,
                        old(ctx).lines@.len() as int,
                        final(ctx).lines@.len() as int,
                    ) ==> reads(a, final(self).state@) == permutation::absorb(
                        reads(a, old(self).state@),
                        reads(a, inputs@),
                        fe_values(pre_constants@),
                    )
            },
    {
        let n: usize = self.state.len();
        let one = Fe::one();
        let s0: Vec<(Limb, Fe)> = vec![(self.state[0], one)];
        proof {
            assert(s0@ =~= seq![(self.state@[0], one)]);
            lemma_weighted_sum_one((self.state@[0], one));
        }
        let first = match ctx.sum_with_constant(&s0, Some(pre_constants[0])) {
            Ok(r) => r,
            Err(e) => {
                proof {
                    assert(self.state@ =~= absorb_cut(
                        ctx.lines@,
                        old(ctx).lines@.len() as int,
                        old(self).state@,
                        old(ctx).rows - old(ctx).offset,
                    ));
                }
                return Err(e);
            },
        };
        proof {
            let x = self.state@[0].value@;
            assert(x * one@ == x) by (nonlinear_arith)
                requires
                    one@ == 1,
            ;
            assert(first.value@ == permutation::absorb(
                limb_values(old(self).state@),
                limb_values(inputs@),
                fe_values(pre_constants@),
            )[0]);
        }
        self.state.set(0, first);
        proof {
            assert(absorb_upto(
                old(ctx).lines@,
                old(ctx).lines@.len() as int,
                old(ctx).offset as int,
                old(self).state@,
                inputs@,
                pre_constants@,
                old(self).state@,
                0,
            )) by {
                reveal(absorb_upto);
            }
            lemma_absorb_step(
                ctx.lines@,
                old(ctx).lines@,
                old(ctx).lines@.len() as int,
                old(ctx).offset as int,
                old(self).state@,
                inputs@,
                pre_constants@,
                0,
                self.state@,
                old(self).state@,
            );
            if all_placed(old(self).state@) && all_placed(inputs@) {
                let start = old(ctx).lines@.len() as int;
                assert forall|a: Assignment| #[trigger]
                    ctx.enforces(a, start, ctx.lines@.len() as int) implies reads_upto(
                    a,
                    self.state@,
                    permutation::absorb(
                        reads(a, old(self).state@),
                        reads(a, inputs@),
                        fe_values(pre_constants@),
                    ),
                    1,
                ) by {
                    lemma_dot_one(term_reads(a, s0@), term_weights(s0@));
                    let x = read(a, old(self).state@[0]);
                    assert(x * one@ == x) by (nonlinear_arith)
                        requires
                            one@ == 1,
                    ;
                }
            }
        }
        let mut i: usize = 1;
        while i < n
            invariant
                ctx.extends(*old(ctx)),
                n == self.state@.len(),
                n == old(self).width(),
                n == pre_constants@.len(),
                n == inputs@.len() + 1,
                self.default == old(self).default,
                self.prefix == old(self).prefix,
                1 <= i <= n,
                one@ == 1,
                one == Fe::spec_one(),
                absorb_upto(
                    ctx.lines@,
                    old(ctx).lines@.len() as int,
                    old(ctx).offset as int,
                    old(self).state@,
                    inputs@,
                    pre_constants@,
                    self.state@,
                    i as int,
                ),
                forall|j: int|
                    0 <= j < i ==> (#[trigger] self.state@[j]) == produced(
                        ctx.lines@[old(ctx).lines@.len() + j],
                    ),
                ctx.offset == old(ctx).offset + i,
                ctx.lines@.len() == old(ctx).lines@.len() + i,
                ctx.holds_from(old(ctx).lines@.len() as int),
                forall|j: int|
                    0 <= j < i ==> (#[trigger] self.state@[j]).value@ == permutation::absorb(
                        limb_values(old(self).state@),
                        limb_values(inputs@),
                        fe_values(pre_constants@),
                    )[j] && self.state@[j].cell == Some(place((old(ctx).offset + j) as usize, 4)),
                forall|j: int| i <= j < n ==> self.state@[j] == old(self).state@[j],
                all_placed(old(self).state@) && all_placed(inputs@) ==> forall|a: Assignment|
                    #[trigger]
                    ctx.enforces(a, old(ctx).lines@.len() as int, ctx.lines@.len() as int)
                        ==> reads_upto(
                        a,
                        self.state@,
                        permutation::absorb(
                            reads(a, old(self).state@),
                            reads(a, inputs@),
                            fe_values(pre_constants@),
                        ),
                        i as int,
                    ),
            decreases n - i,
        {
            let ghost before = *ctx;
            let ghost state_before = self.state@;
            let terms: Vec<(Limb, Fe)> = vec![(self.state[i], one), (inputs[i - 1], one)];
            proof {
                assert(terms@ =~= seq![(self.state@[i as int], one), (inputs@[i - 1], one)]);
                lemma_weighted_sum_two((self.state@[i as int], one), (inputs@[i - 1], one));
            }
            let sum = match ctx.sum_with_constant(&terms, Some(pre_constants[i])) {
                Ok(r) => r,
                Err(e) => {
                    proof {
                        assert(self.state@ =~= absorb_cut(
                            ctx.lines@,
                            old(ctx).lines@.len() as int,
                            old(self).state@,
                            old(ctx).rows - old(ctx).offset,
                        ));
                    }
                    return Err(e);
                },
            };
            proof {
                let x = self.state@[i as int].value@;
                let y = inputs@[i - 1].value@;
                assert(x * one@ + y * one@ == x + y) by (nonlinear_arith)
                    requires
                        one@ == 1,
                ;
                assert(sum.value@ == permutation::absorb(
                    limb_values(old(self).state@),
                    limb_values(inputs@),
                    fe_values(pre_constants@),
                )[i as int]);
            }
            self.state.set(i, sum);
            proof {
                assert forall|j: int| 0 <= j < i + 1 implies (#[trigger] self.state@[j])
                    == produced(ctx.lines@[old(ctx).lines@.len() + j]) by {
                    if j < i {
                        assert(self.state@[j] == state_before[j]);
                        assert(ctx.lines@[old(ctx).lines@.len() + j] == before.lines@[old(
                            ctx,
                        ).lines@.len() + j]);
                    }
                }
                lemma_absorb_step(
                    ctx.lines@,
                    before.lines@,
                    old(ctx).lines@.len() as int,
                    old(ctx).offset as int,
                    old(self).state@,
                    inputs@,
                    pre_constants@,
                    i as int,
                    self.state@,
                    state_before,
                );
                if all_placed(old(self).state@) && all_placed(inputs@) {
                    let start = old(ctx).lines@.len() as int;
                    assert forall|a: Assignment| #[trigger]
                        ctx.enforces(a, start, ctx.lines@.len() as int) implies reads_upto(
                        a,
                        self.state@,
                        permutation::absorb(
                            reads(a, old(self).state@),
                            reads(a, inputs@),
                            fe_values(pre_constants@),
                        ),
                        i + 1,
                    ) by {
                        let expected = permutation::absorb(
                            reads(a, old(self).state@),
                            reads(a, inputs@),
                            fe_values(pre_constants@),
                        );
                        lemma_enforces_earlier(
                            *ctx,
                            before,
                            a,
                            start,
                            before.lines@.len() as int,
                            ctx.lines@.len() as int,
                        );
                        assert(reads_upto(a, state_before, expected, i as int));
                        assert(ctx.enforces(
                            a,
                            before.lines@.len() as int,
                            ctx.lines@.len() as int,
                        ));
                        lemma_dot_two(term_reads(a, terms@), term_weights(terms@));
                        let x = read(a, old(self).state@[i as int]);
                        let y = read(a, inputs@[i - 1]);
                        assert(x * one@ + y * one@ == x + y) by (nonlinear_arith)
                            requires
                                one@ == 1,
                        ;
                        assert(read(a, sum) == expected[i as int]);
                        assert forall|j: int| 0 <= j < i + 1 implies read(
                            a,
                            #[trigger] self.state@[j],
                        ) == expected[j] by {
                            if j < i {
                                assert(self.state@[j] == state_before[j]);
                            }
                        }
                    }
                }
            }
            i = i + 1;
        }
        proof {
            lemma_absorb_all(
                ctx.lines@,
                old(ctx).lines@.len() as int,
                old(ctx).offset as int,
                old(self).state@,
                inputs@,
                pre_constants@,
                self.state@,
            );
            assert(limb_values(self.state@) =~= permutation::absorb(
                limb_values(old(self).state@),
                limb_values(inputs@),
                fe_values(pre_constants@),
            ));
            if all_placed(old(self).state@) && all_placed(inputs@) {
                assert forall|a: Assignment| #[trigger]
                    ctx.enforces(
                        a,
                        old(ctx).lines@.len() as int,
                        ctx.lines@.len() as int,
                    ) implies reads(a, self.state@) == permutation::absorb(
                    reads(a, old(self).state@),
                    reads(a, inputs@),
                    fe_values(pre_constants@),
                ) by {
                    let expected = permutation::absorb(
                        reads(a, old(self).state@),
                        reads(a, inputs@),
                        fe_values(pre_constants@),
                    );
                    assert(reads_upto(a, self.state@, expected, n as int));
                    assert(reads(a, self.state@) =~= expected);
                }
            }
        }
        Ok(())
    }

    /// Multiplies the state by a dense matrix: each new element is the
    /// weighted sum of the whole state under one row of the matrix.
    #[verifier::rlimit(50)]
    pub fn apply_mds(&mut self, ctx: &mut Context, mds: &Vec<Vec<Fe>>) -> (res: Result<(), Error>)
        requires
            old(ctx).wf(),
            mds@.len() == old(self).width(),
            rows_have_width(mds@, old(self).width()),
        ensures
            final(ctx).extends(*old(ctx)),
            final(self).state@.len() == old(self).width(),
            final(self).default == old(self).default,
            final(self).prefix == old(self).prefix,
            res is Ok <==> old(ctx).fits(mix_rows(old(self).width()) as int),
            res matches Err(e) ==> e == Error::ConstraintAllocation && *final(self) == *old(self)
                && final(ctx).ran_out(*old(ctx)),
            res is Ok ==> {
                &&& limb_values(final(self).state@) == permutation::mix(
                    limb_values(old(self).state@),
                    matrix_values(mds@),
                )
                &&& forall|i: int|
                    0 <= i < final(self).state@.len() ==> (#[trigger] final(self).state@[i]).cell
                        == Some(
                        place(
                            (old(ctx).offset + (i + 1) * sum_lines(old(self).width())
                                - 1) as usize,
                            4,
                        ),
                    )
                &&& final(ctx).advanced(*old(ctx), mix_rows(old(self).width()) as int)
                &&& is_mix(
                    final(ctx).lines@,
                    old(ctx).lines@.len() as int,
                    old(ctx).offset as int,
                    old(self).state@,
                    mds@,
                )
                &&& final(self).state@ == mixed(
                    final(ctx).lines@,
                    old(ctx).lines@.len() as int,
                    old(self).width(),
                )
                &&& final(ctx).holds_from(old(ctx).lines@.len() as int)
                &&& all_placed(old(self).state@) ==> forall|a: Assignment| #[trigger]
                    final(ctx).enforces(
                        a,
                        old(ctx).lines@.len() as int,
                        final(ctx).lines@.len() as int,
                    ) ==> reads(a, final(self).state@) == permutation::mix(
                        reads(a, old(self).state@),
                        matrix_values(mds@),
                    )
            },
    {
        let n: usize = self.state.len();
        let ghost l = sum_lines(n as nat) as int;
        let mut res: Vec<Limb> = Vec::new();
        let mut i: usize = 0;
        proof {
            reveal(mixed_upto);
        }
        while i < n
            invariant
                ctx.extends(*old(ctx)),
                *self == *old(self),
                n == self.state@.len(),
                n == mds@.len(),
                rows_have_width(mds@, n as nat),
                l == sum_lines(n as nat),
                i <= n,
                res@.len() == i,
                ctx.offset == old(ctx).offset + i * l,
                ctx.lines@.len() == old(ctx).lines@.len() + i * l,
                ctx.holds_from(old(ctx).lines@.len() as int),
                forall|j: int|
                    0 <= j < i ==> (#[trigger] res@[j]).value@ == dot(
                        limb_values(self.state@),
                        fe_values(mds@[j]@),
                    ) % modulus() && res@[j].cell == Some(
                        place((old(ctx).offset + (j + 1) * l - 1) as usize, 4),
                    ),
                mixed_upto(
                    ctx.lines@,
                    old(ctx).lines@.len() as int,
                    old(ctx).offset as int,
                    self.state@,
                    mds@,
                    res@,
                    i as int,
                ),
                all_placed(self.state@) ==> forall|a: Assignment| #[trigger]
                    ctx.enforces(a, old(ctx).lines@.len() as int, ctx.lines@.len() as int)
                        ==> reads_upto(
                        a,
                        res@,
                        permutation::mix(reads(a, self.state@), matrix_values(mds@)),
                        i as int,
                    ),
            decreases n - i,
        {
            let ghost before = *ctx;
            let ghost res_before = res@;
            let terms = pair_up(&self.state, &mds[i]);
            proof {
                lemma_weighted_sum_is_dot(self.state@, mds@[i as int]@);
                lemma_mul_is_distributive_add_other_way(l, i as int, 1);
                lemma_mul_inequality(i + 1, n as int, l);
            }
            let sum = ctx.sum_with_constant(&terms, None)?;
            res.push(sum);
            proof {
                let start = old(ctx).lines@.len() as int;
                let offset = old(ctx).offset as int;
                lemma_mix_step(
                    ctx.lines@,
                    before.lines@,
                    start,
                    offset,
                    self.state@,
                    mds@,
                    i as int,
                    res@,
                    res_before,
                );
                if all_placed(self.state@) {
                    assert forall|a: Assignment| #[trigger]
                        ctx.enforces(a, start, ctx.lines@.len() as int) implies reads_upto(
                        a,
                        res@,
                        permutation::mix(reads(a, self.state@), matrix_values(mds@)),
                        i + 1,
                    ) by {
                        let expected = permutation::mix(
                            reads(a, self.state@),
                            matrix_values(mds@),
                        );
                        lemma_enforces_earlier(
                            *ctx,
                            before,
                            a,
                            start,
                            before.lines@.len() as int,
                            ctx.lines@.len() as int,
                        );
                        assert(reads_upto(a, res_before, expected, i as int));
                        assert(ctx.enforces(
                            a,
                            before.lines@.len() as int,
                            ctx.lines@.len() as int,
                        ));
                        lemma_paired_reads(a, self.state@, mds@[i as int]@);
                        assert(read(a, sum) == expected[i as int]);
                        assert forall|j: int| 0 <= j < i + 1 implies read(a, #[trigger] res@[j])
                            == expected[j] by {
                            if j < i {
                                assert(res@[j] == res_before[j]);
                            }
                        }
                    }
                }
            }
            i = i + 1;
        }
        self.state = res;
        proof {
            assert(limb_values(self.state@) =~= permutation::mix(
                limb_values(old(self).state@),
                matrix_values(mds@),
            ));
            lemma_mixed_all(
                ctx.lines@,
                old(ctx).lines@.len() as int,
                old(ctx).offset as int,
                old(self).state@,
                mds@,
                self.state@,
            );
            if all_placed(old(self).state@) {
                assert forall|a: Assignment| #[trigger]
                    ctx.enforces(
                        a,
                        old(ctx).lines@.len() as int,
                        ctx.lines@.len() as int,
                    ) implies reads(a, self.state@) == permutation::mix(
                    reads(a, old(self).state@),
                    matrix_values(mds@),
                ) by {
                    let expected = permutation::mix(
                        reads(a, old(self).state@),
                        matrix_values(mds@),
                    );
                    assert(reads_upto(a, self.state@, expected, n as int));
                    assert(reads(a, self.state@) =~= expected);
                }
            }
        }
        Ok(())
    }

    /// Multiplies the state by a matrix in factored form.
    ///
    /// The new first element is the weighted sum of the whole state under
    /// `row`. Each other element adds to itself the old first element times
    /// its factor from `col_hat`: one row each.
    #[verifier::rlimit(50)]
    pub fn apply_sparse_mds(&mut self, ctx: &mut Context, mds: &SparseMDSMatrix) -> (res: Result<
        (),
        Error,
    >)
        requires
            old(ctx).wf(),
            mds.row@.len() == old(self).width(),
            mds.col_hat@.len() + 1 == old(self).width(),
        ensures
            final(ctx).extends(*old(ctx)),
            final(self).state@.len() == old(self).width(),
            final(self).default == old(self).default,
            final(self).prefix == old(self).prefix,
            res is Ok <==> old(ctx).fits(sparse_mix_rows(old(self).width()) as int),
            res matches Err(e) ==> e == Error::ConstraintAllocation && *final(self) == *old(self)
                && final(ctx).ran_out(*old(ctx)),
            res is Ok ==> {
                &&& limb_values(final(self).state@) == permutation::sparse_mix(
                    limb_values(old(self).state@),
                    mds@,
                )
                &&& forall|i: int|
                    0 <= i < final(self).state@.len() ==> (#[trigger] final(self).state@[i]).cell
                        == Some(
                        place(
                            (old(ctx).offset + sum_lines(old(self).width()) + i
                                - 1) as usize,
                            4,
                        ),
                    )
                &&& final(ctx).advanced(*old(ctx), sparse_mix_rows(old(self).width()) as int)
                &&& is_sparse_mix(
                    final(ctx).lines@,
                    old(ctx).lines@.len() as int,
                    old(ctx).offset as int,
                    old(self).state@,
                    *mds,
                )
                &&& final(self).state@ == sparse_mixed(
                    final(ctx).lines@,
                    old(ctx).lines@.len() as int,
                    old(self).width(),
                )
                &&& final(ctx).holds_from(old(ctx).lines@.len() as int)
                &&& all_placed(old(self).state@) ==> forall|a: Assignment| #[trigger]
                    final(ctx).enforces(
                        a,
                        old(ctx).lines@.len() as int,
                        final(ctx).lines@.len() as int,
                    ) ==> reads(a, final(self).state@) == permutation::sparse_mix(
                        reads(a, old(self).state@),
                        mds@,
                    )
            },
    {
        let n: usize = self.state.len();
        let ghost l = sum_lines(n as nat) as int;
        let one = Fe::one();
        let terms = pair_up(&self.state, &mds.row);
        proof {
            lemma_weighted_sum_is_dot(self.state@, mds.row@);
        }
        let sum = ctx.sum_with_constant(&terms, None)?;
        let mut res: Vec<Limb> = vec![sum];
        proof {
            assert(res@ =~= Seq::<Limb>::empty().push(sum));
            lemma_sparse_step(
                ctx.lines@,
                old(ctx).lines@,
                old(ctx).lines@.len() as int,
                old(ctx).offset as int,
                self.state@,
                *mds,
                0,
                terms@,
                res@,
                Seq::<Limb>::empty(),
            );
            if all_placed(self.state@) {
                lemma_sparse_bound_first(
                    *ctx,
                    old(ctx).lines@.len() as int,
                    self.state@,
                    *mds,
                    terms@,
                    sum,
                    res@,
                );
            }
        }
        let mut i: usize = 1;
        while i < n
            invariant
                ctx.extends(*old(ctx)),
                *self == *old(self),
                n == self.state@.len(),
                n == mds.row@.len(),
                n == mds.col_hat@.len() + 1,
                l == sum_lines(n as nat),
                1 <= i <= n,
                one@ == 1,
                one == Fe::spec_one(),
                res@.len() == i,
                sparse_upto(
                    ctx.lines@,
                    old(ctx).lines@.len() as int,
                    old(ctx).offset as int,
                    self.state@,
                    *mds,
                    res@,
                    i as int,
                ),
                ctx.offset == old(ctx).offset + l + i - 1,
                ctx.lines@.len() == old(ctx).lines@.len() + l + i - 1,
                ctx.holds_from(old(ctx).lines@.len() as int),
                forall|j: int|
                    0 <= j < i ==> (#[trigger] res@[j]).value@ == permutation::sparse_mix(
                        limb_values(self.state@),
                        mds@,
                    )[j] && res@[j].cell == Some(
                        place((old(ctx).offset + l + j - 1) as usize, 4),
                    ),
                all_placed(self.state@) ==> sparse_bound_upto(
                    *ctx,
                    old(ctx).lines@.len() as int,
                    self.state@,
                    *mds,
                    res@,
                    i as int,
                ),
            decreases n - i,
        {
            let ghost before = *ctx;
            let ghost res_before = res@;
            let terms: Vec<(Limb, Fe)> = vec![
                (self.state[0], mds.col_hat[i - 1]),
                (self.state[i], one),
            ];
            proof {
                assert(terms@ =~= seq![
                    (self.state@[0], mds.col_hat@[i - 1]),
                    (self.state@[i as int], one),
                ]);
                lemma_weighted_sum_two(
                    (self.state@[0], mds.col_hat@[i - 1]),
                    (self.state@[i as int], one),
                );
            }
            let sum = ctx.sum_with_constant(&terms, None)?;
            proof {
                let x = self.state@[i as int].value@;
                assert(x * one@ == x) by (nonlinear_arith)
                    requires
                        one@ == 1,
                ;
                assert(sum.value@ == permutation::sparse_mix(
                    limb_values(self.state@),
                    mds@,
                )[i as int]);
            }
            res.push(sum);
            proof {
                lemma_sparse_step(
                    ctx.lines@,
                    before.lines@,
                    old(ctx).lines@.len() as int,
                    old(ctx).offset as int,
                    self.state@,
                    *mds,
                    i as int,
                    terms@,
                    res@,
                    res_before,
                );
                if all_placed(self.state@) {
                    lemma_sparse_bound_step(
                        *ctx,
                        before,
                        old(ctx).lines@.len() as int,
                        self.state@,
                        *mds,
                        i as int,
                        terms@,
                        sum,
                        res@,
                        res_before,
                    );
                }
            }
            i = i + 1;
        }
        self.state = res;
        proof {
            lemma_sparse_all(
                ctx.lines@,
                old(ctx).lines@.len() as int,
                old(ctx).offset as int,
                old(self).state@,
                *mds,
                self.state@,
            );
            assert(limb_values(self.state@) =~= permutation::sparse_mix(
                limb_values(old(self).state@),
                mds@,
            ));
            if all_placed(old(self).state@) {
                lemma_sparse_bound_all(
                    *ctx,
                    old(ctx).lines@.len() as int,
                    old(self).state@,
                    *mds,
                    self.state@,
                );
            }
        }
        Ok(())
    }
}

} // verus!
