//! The rounds and their schedule: the permutation.

use crate::context::{lemma_enforces_earlier, lemma_kept_prefix, Context};
use crate::field::Fe;
use crate::gate::{
    all_placed, limb_values, place, produced, reads, Assignment, CellRef, Error, Limb, Line,
};
use crate::mixing::{
    absorb_cut, absorbed, is_absorb, is_mix, is_sparse_mix, mix_rows, mixed, sparse_mix_rows,
    sparse_mixed,
};
use crate::params::{
    fe_values, matrix_values, rows_have_width, sparse_have_width, sparse_values, SparseMDSMatrix,
    Spec,
};
use crate::permutation::{permutation, zeros};
use crate::permutation;
use crate::rows::sum_lines;
use crate::sbox::{boxed, is_sbox, is_sbox_full, sbox_full_cut};
use crate::state::PoseidonState;
use vstd::arithmetic::div_mod::lemma_fundamental_div_mod_converse;
use vstd::arithmetic::mul::{lemma_mul_inequality, lemma_mul_is_distributive_add_other_way};
use vstd::prelude::*;

verus! {

/// The rows of one full round on a state of width `t`: three for each S-box
/// and a weighted sum of `t` terms for each new element.
pub open spec fn full_round_rows(t: nat) -> nat {
    3 * t + mix_rows(t)
}

/// The rows of one partial round on a state of width `t`: one S-box, one
/// weighted sum of `t` terms, and one row for each element but the first.
pub open spec fn partial_round_rows(t: nat) -> nat {
    3 + sparse_mix_rows(t)
}

/// The rows of one permutation: one for each element to absorb, then the
/// rounds. They depend on the width and the round counts alone.
pub open spec fn permute_rows(t: nat, r_f: nat, r_p: nat) -> nat {
    t + 2 * (r_f / 2) * full_round_rows(t) + r_p * partial_round_rows(t)
}

impl Spec {
    /// The rows of one permutation under these parameters.
    pub open spec fn permute_rows(&self) -> int {
        permute_rows(self.t as nat, self.r_f as nat, self.r_p as nat) as int
    }
}

/// The rows of one full round that starts at index `from` of the rows and at
/// the offset `offset`: the S-boxes of the whole state `before`, each with
/// its constant, then the dense mixing of what they leave.
pub open spec fn is_full_round(
    lines: Seq<Line>,
    from: int,
    offset: int,
    before: Seq<Limb>,
    constants: Seq<Fe>,
    mds: Seq<Vec<Fe>>,
) -> bool {
    &&& is_sbox_full(lines.take(from + 3 * before.len()), from, offset, before, constants)
    &&& is_mix(
        lines,
        from + 3 * before.len(),
        offset + 3 * before.len(),
        boxed(lines, from, before.len()),
        mds,
    )
}

/// The state that a full round from index `from` of the rows on leaves.
pub open spec fn after_full_round(lines: Seq<Line>, from: int, t: nat) -> Seq<Limb> {
    mixed(lines, from + 3 * t, t)
}

/// The rows of one partial round that starts at index `from` of the rows and
/// at the offset `offset`: the S-box of the first element of `before` with
/// the constant, then the sparse mixing of the state with that element
/// replaced.
pub open spec fn is_partial_round(
    lines: Seq<Line>,
    from: int,
    offset: int,
    before: Seq<Limb>,
    constant: Fe,
    m: SparseMDSMatrix,
) -> bool {
    &&& is_sbox(lines.take(from + 3), from, offset, before[0], constant)
    &&& is_sparse_mix(
        lines,
        from + 3,
        offset + 3,
        before.update(0, produced(lines[from + 2])),
        m,
    )
}

/// The state that a partial round from index `from` of the rows on leaves.
pub open spec fn after_partial_round(lines: Seq<Line>, from: int, t: nat) -> Seq<Limb> {
    sparse_mixed(lines, from + 3, t)
}

/// The state that a full round leaves when the rows run out with `left` rows
/// left at its start: that of the S-boxes cut short, or, where they all fit,
/// what they left.
pub open spec fn full_round_cut(lines: Seq<Line>, from: int, before: Seq<Limb>, left: int) -> Seq<
    Limb,
> {
    if left < 3 * before.len() {
        sbox_full_cut(lines, from, before, left)
    } else {
        boxed(lines, from, before.len())
    }
}

/// The state that a partial round leaves when the rows run out with `left`
/// rows left at its start: the state as it was, or, where the S-box fits,
/// with its first element replaced.
pub open spec fn partial_round_cut(
    lines: Seq<Line>,
    from: int,
    before: Seq<Limb>,
    left: int,
) -> Seq<Limb> {
    if left < 3 {
        before
    } else {
        before.update(0, produced(lines[from + 2]))
    }
}

/// The state after the first `k` of a run of full rounds that starts at
/// index `from` of the rows with the state `before`.
pub open spec fn after_full_rounds(lines: Seq<Line>, from: int, before: Seq<Limb>, k: int) -> Seq<
    Limb,
> {
    if k <= 0 {
        before
    } else {
        after_full_round(lines, from + (k - 1) * full_round_rows(before.len()), before.len())
    }
}

/// The rows of the `k`-th of a run of full rounds that starts at index `from`
/// of the rows and at the offset `offset`: a full round on the state that
/// the rounds before it left, with the `k`-th vector of constants. Rows
/// emitted later have no part in it.
pub open spec fn is_full_round_at(
    lines: Seq<Line>,
    from: int,
    offset: int,
    before: Seq<Limb>,
    constants: Seq<Vec<Fe>>,
    mds: Seq<Vec<Fe>>,
    k: int,
) -> bool {
    is_full_round(
        lines.take(from + (k + 1) * full_round_rows(before.len())),
        from + k * full_round_rows(before.len()),
        offset + k * full_round_rows(before.len()),
        after_full_rounds(lines, from, before, k),
        constants[k]@,
        mds,
    )
}

/// The rows of a run of full rounds under one matrix: one round for each
/// vector of constants, in order.
pub open spec fn is_full_rounds(
    lines: Seq<Line>,
    from: int,
    offset: int,
    before: Seq<Limb>,
    constants: Seq<Vec<Fe>>,
    mds: Seq<Vec<Fe>>,
) -> bool {
    forall|k: int|
        0 <= k < constants.len() ==> #[trigger] is_full_round_at(
            lines,
            from,
            offset,
            before,
            constants,
            mds,
            k,
        )
}

/// The first `k` of a run of full rounds are there, and `now` is the state
/// they left.
#[verifier::opaque]
pub open spec fn full_rounds_upto(
    lines: Seq<Line>,
    from: int,
    offset: int,
    before: Seq<Limb>,
    constants: Seq<Vec<Fe>>,
    mds: Seq<Vec<Fe>>,
    now: Seq<Limb>,
    k: int,
) -> bool {
    &&& lines.len() == from + k * full_round_rows(before.len())
    &&& now.len() == before.len()
    &&& forall|j: int|
        0 <= j < k ==> #[trigger] is_full_round_at(lines, from, offset, before, constants, mds, j)
    &&& now == after_full_rounds(lines, from, before, k)
}

/// The state that a dense mixing left stays what it is when rows are added.
proof fn lemma_mixed_kept(after: Seq<Line>, earlier: Seq<Line>, from: int, t: nat)
    requires
        0 <= from,
        from + mix_rows(t) <= earlier.len() <= after.len(),
        forall|k: int| 0 <= k < earlier.len() ==> after[k] == earlier[k],
    ensures
        mixed(after, from, t) == mixed(earlier, from, t),
{
    let l = sum_lines(t) as int;
    assert forall|i: int| 0 <= i < t implies (#[trigger] mixed(after, from, t)[i]) == mixed(
        earlier,
        from,
        t,
    )[i] by {
        assert(l <= (i + 1) * l <= t * l) by (nonlinear_arith)
            requires
                0 <= i < t,
                l >= 1,
        ;
        assert(after[from + (i + 1) * l - 1] == earlier[from + (i + 1) * l - 1]);
    }
    assert(mixed(after, from, t) =~= mixed(earlier, from, t));
}

/// The state after some full rounds stays what it is when rows are added.
proof fn lemma_after_full_rounds_kept(
    after: Seq<Line>,
    earlier: Seq<Line>,
    from: int,
    before: Seq<Limb>,
    j: int,
)
    requires
        0 <= from,
        0 <= j,
        from + j * full_round_rows(before.len()) <= earlier.len() <= after.len(),
        forall|k: int| 0 <= k < earlier.len() ==> after[k] == earlier[k],
    ensures
        after_full_rounds(after, from, before, j) == after_full_rounds(earlier, from, before, j),
{
    if j > 0 {
        let t = before.len();
        let fr = full_round_rows(t) as int;
        assert((j - 1) * fr + fr == j * fr) by (nonlinear_arith);
        assert((j - 1) * fr >= 0) by (nonlinear_arith)
            requires
                j >= 1,
                fr >= 0,
        ;
        lemma_mixed_kept(after, earlier, from + (j - 1) * fr + 3 * t, t);
    }
}

/// One more full round keeps the rounds before it.
proof fn lemma_full_rounds_step(
    after: Seq<Line>,
    earlier: Seq<Line>,
    from: int,
    offset: int,
    before: Seq<Limb>,
    constants: Seq<Vec<Fe>>,
    mds: Seq<Vec<Fe>>,
    k: int,
    now: Seq<Limb>,
    now_earlier: Seq<Limb>,
)
    requires
        0 <= from,
        0 <= k < constants.len(),
        full_rounds_upto(earlier, from, offset, before, constants, mds, now_earlier, k),
        after.len() == earlier.len() + full_round_rows(before.len()),
        forall|i: int| 0 <= i < earlier.len() ==> after[i] == earlier[i],
        is_full_round(
            after,
            earlier.len() as int,
            offset + k * full_round_rows(before.len()),
            now_earlier,
            constants[k]@,
            mds,
        ),
        now == after_full_round(after, earlier.len() as int, before.len()),
        now.len() == before.len(),
    ensures
        full_rounds_upto(after, from, offset, before, constants, mds, now, k + 1),
{
    reveal(full_rounds_upto);
    let t = before.len();
    let fr = full_round_rows(t) as int;
    assert((k + 1) * fr == k * fr + fr) by (nonlinear_arith);
    assert(after.take(after.len() as int) =~= after);
    lemma_after_full_rounds_kept(after, earlier, from, before, k);
    assert(is_full_round_at(after, from, offset, before, constants, mds, k));
    assert forall|j: int| 0 <= j < k + 1 implies #[trigger] is_full_round_at(
        after,
        from,
        offset,
        before,
        constants,
        mds,
        j,
    ) by {
        if j < k {
            assert((j + 1) * fr <= k * fr && j * fr <= k * fr) by (nonlinear_arith)
                requires
                    0 <= j < k,
                    fr >= 0,
            ;
            assert(is_full_round_at(earlier, from, offset, before, constants, mds, j));
            assert(after.take(from + (j + 1) * fr) =~= earlier.take(from + (j + 1) * fr));
            lemma_after_full_rounds_kept(after, earlier, from, before, j);
        }
    }
}

/// The state that a run of full rounds leaves when the rows run out with
/// `left` rows left at its start: that of the round that was cut short, on
/// the state that the rounds before it left.
pub open spec fn full_rounds_cut(lines: Seq<Line>, from: int, before: Seq<Limb>, left: int) -> Seq<
    Limb,
> {
    let fr = full_round_rows(before.len()) as int;
    full_round_cut(
        lines,
        from + (left / fr) * fr,
        after_full_rounds(lines, from, before, left / fr),
        left % fr,
    )
}

/// A run of full rounds that fails in its `k`-th round leaves the state of
/// the run cut short.
proof fn lemma_full_rounds_cut(
    after: Seq<Line>,
    earlier: Seq<Line>,
    from: int,
    before: Seq<Limb>,
    k: int,
    left: int,
    now: Seq<Limb>,
    now_earlier: Seq<Limb>,
)
    requires
        0 <= from,
        0 <= k,
        before.len() >= 1,
        earlier.len() == from + k * full_round_rows(before.len()),
        earlier.len() <= after.len(),
        forall|i: int| 0 <= i < earlier.len() ==> after[i] == earlier[i],
        now_earlier == after_full_rounds(earlier, from, before, k),
        0 <= left - k * full_round_rows(before.len()) < full_round_rows(before.len()),
        now == full_round_cut(
            after,
            earlier.len() as int,
            now_earlier,
            left - k * full_round_rows(before.len()),
        ),
    ensures
        now == full_rounds_cut(after, from, before, left),
{
    let fr = full_round_rows(before.len()) as int;
    lemma_fundamental_div_mod_converse(left, fr, k, left - k * fr);
    lemma_after_full_rounds_kept(after, earlier, from, before, k);
    assert(k * fr == (left / fr) * fr);
}

/// The state that a run of partial rounds leaves when the rows run out with
/// `left` rows left at its start: that of the round that was cut short, on
/// the state that the rounds before it left.
pub open spec fn partial_rounds_cut(
    lines: Seq<Line>,
    from: int,
    before: Seq<Limb>,
    left: int,
) -> Seq<Limb> {
    let pr = partial_round_rows(before.len()) as int;
    partial_round_cut(
        lines,
        from + (left / pr) * pr,
        after_partial_rounds(lines, from, before, left / pr),
        left % pr,
    )
}

/// A run of partial rounds that fails in its `k`-th round leaves the state of
/// the run cut short.
proof fn lemma_partial_rounds_cut(
    after: Seq<Line>,
    earlier: Seq<Line>,
    from: int,
    before: Seq<Limb>,
    k: int,
    left: int,
    now: Seq<Limb>,
    now_earlier: Seq<Limb>,
)
    requires
        0 <= from,
        0 <= k,
        before.len() >= 1,
        earlier.len() == from + k * partial_round_rows(before.len()),
        earlier.len() <= after.len(),
        forall|i: int| 0 <= i < earlier.len() ==> after[i] == earlier[i],
        now_earlier == after_partial_rounds(earlier, from, before, k),
        0 <= left - k * partial_round_rows(before.len()) < partial_round_rows(before.len()),
        now == partial_round_cut(
            after,
            earlier.len() as int,
            now_earlier,
            left - k * partial_round_rows(before.len()),
        ),
    ensures
        now == partial_rounds_cut(after, from, before, left),
{
    let pr = partial_round_rows(before.len()) as int;
    lemma_fundamental_div_mod_converse(left, pr, k, left - k * pr);
    lemma_after_partial_rounds_kept(after, earlier, from, before, k);
    assert(k * pr == (left / pr) * pr);
}

/// The state after the first `k` of a run of partial rounds that starts at
/// index `from` of the rows with the state `before`.
pub open spec fn after_partial_rounds(
    lines: Seq<Line>,
    from: int,
    before: Seq<Limb>,
    k: int,
) -> Seq<Limb> {
    if k <= 0 {
        before
    } else {
        after_partial_round(
            lines,
            from + (k - 1) * partial_round_rows(before.len()),
            before.len(),
        )
    }
}

/// The rows of the `k`-th of a run of partial rounds that starts at index
/// `from` of the rows and at the offset `offset`: a partial round on the
/// state that the rounds before it left, with the `k`-th constant and the
/// `k`-th sparse matrix. Rows emitted later have no part in it.
pub open spec fn is_partial_round_at(
    lines: Seq<Line>,
    from: int,
    offset: int,
    before: Seq<Limb>,
    constants: Seq<Fe>,
    ms: Seq<SparseMDSMatrix>,
    k: int,
) -> bool {
    is_partial_round(
        lines.take(from + (k + 1) * partial_round_rows(before.len())),
        from + k * partial_round_rows(before.len()),
        offset + k * partial_round_rows(before.len()),
        after_partial_rounds(lines, from, before, k),
        constants[k],
        ms[k],
    )
}

/// The rows of a run of partial rounds: one round for each constant, in
/// order.
pub open spec fn is_partial_rounds(
    lines: Seq<Line>,
    from: int,
    offset: int,
    before: Seq<Limb>,
    constants: Seq<Fe>,
    ms: Seq<SparseMDSMatrix>,
) -> bool {
    forall|k: int|
        0 <= k < constants.len() ==> #[trigger] is_partial_round_at(
            lines,
            from,
            offset,
            before,
            constants,
            ms,
            k,
        )
}

/// The first `k` of a run of partial rounds are there, and `now` is the
/// state they left.
#[verifier::opaque]
pub open spec fn partial_rounds_upto(
    lines: Seq<Line>,
    from: int,
    offset: int,
    before: Seq<Limb>,
    constants: Seq<Fe>,
    ms: Seq<SparseMDSMatrix>,
    now: Seq<Limb>,
    k: int,
) -> bool {
    &&& lines.len() == from + k * partial_round_rows(before.len())
    &&& now.len() == before.len()
    &&& forall|j: int|
        0 <= j < k ==> #[trigger] is_partial_round_at(lines, from, offset, before, constants, ms, j)
    &&& now == after_partial_rounds(lines, from, before, k)
}

/// The state that a sparse mixing left stays what it is when rows are added.
proof fn lemma_sparse_mixed_kept(after: Seq<Line>, earlier: Seq<Line>, from: int, t: nat)
    requires
        0 <= from,
        t >= 1,
        from + sparse_mix_rows(t) <= earlier.len() <= after.len(),
        forall|k: int| 0 <= k < earlier.len() ==> after[k] == earlier[k],
    ensures
        sparse_mixed(after, from, t) == sparse_mixed(earlier, from, t),
{
    assert(sparse_mixed(after, from, t) =~= sparse_mixed(earlier, from, t));
}

/// The state after some partial rounds stays what it is when rows are added.
proof fn lemma_after_partial_rounds_kept(
    after: Seq<Line>,
    earlier: Seq<Line>,
    from: int,
    before: Seq<Limb>,
    j: int,
)
    requires
        0 <= from,
        0 <= j,
        before.len() >= 1,
        from + j * partial_round_rows(before.len()) <= earlier.len() <= after.len(),
        forall|k: int| 0 <= k < earlier.len() ==> after[k] == earlier[k],
    ensures
        after_partial_rounds(after, from, before, j) == after_partial_rounds(
            earlier,
            from,
            before,
            j,
        ),
{
    if j > 0 {
        let t = before.len();
        let pr = partial_round_rows(t) as int;
        assert((j - 1) * pr + pr == j * pr) by (nonlinear_arith);
        assert((j - 1) * pr >= 0) by (nonlinear_arith)
            requires
                j >= 1,
                pr >= 0,
        ;
        lemma_sparse_mixed_kept(after, earlier, from + (j - 1) * pr + 3, t);
    }
}

/// One more partial round keeps the rounds before it.
proof fn lemma_partial_rounds_step(
    after: Seq<Line>,
    earlier: Seq<Line>,
    from: int,
    offset: int,
    before: Seq<Limb>,
    constants: Seq<Fe>,
    ms: Seq<SparseMDSMatrix>,
    k: int,
    now: Seq<Limb>,
    now_earlier: Seq<Limb>,
)
    requires
        0 <= from,
        0 <= k < constants.len(),
        before.len() >= 1,
        partial_rounds_upto(earlier, from, offset, before, constants, ms, now_earlier, k),
        after.len() == earlier.len() + partial_round_rows(before.len()),
        forall|i: int| 0 <= i < earlier.len() ==> after[i] == earlier[i],
        is_partial_round(
            after,
            earlier.len() as int,
            offset + k * partial_round_rows(before.len()),
            now_earlier,
            constants[k],
            ms[k],
        ),
        now == after_partial_round(after, earlier.len() as int, before.len()),
        now.len() == before.len(),
    ensures
        partial_rounds_upto(after, from, offset, before, constants, ms, now, k + 1),
{
    reveal(partial_rounds_upto);
    let t = before.len();
    let pr = partial_round_rows(t) as int;
    assert((k + 1) * pr == k * pr + pr) by (nonlinear_arith);
    assert(after.take(after.len() as int) =~= after);
    lemma_after_partial_rounds_kept(after, earlier, from, before, k);
    assert(is_partial_round_at(after, from, offset, before, constants, ms, k));
    assert forall|j: int| 0 <= j < k + 1 implies #[trigger] is_partial_round_at(
        after,
        from,
        offset,
        before,
        constants,
        ms,
        j,
    ) by {
        if j < k {
            assert((j + 1) * pr <= k * pr && j * pr <= k * pr) by (nonlinear_arith)
                requires
                    0 <= j < k,
                    pr >= 0,
            ;
            assert(is_partial_round_at(earlier, from, offset, before, constants, ms, j));
            assert(after.take(from + (j + 1) * pr) =~= earlier.take(from + (j + 1) * pr));
            lemma_after_partial_rounds_kept(after, earlier, from, before, j);
        }
    }
}

/// Where the `i`-th element lies after a dense mixing that ended at the
/// cursor `end`: each element is the last cell of its own weighted sum.
pub open spec fn mixed_cell(end: int, t: nat, i: int) -> CellRef {
    place((end - (t - i - 1) * sum_lines(t) - 1) as usize, 4)
}

/// The constants of a round that adds none: zero for every element.
pub open spec fn zero_constants(t: nat) -> Seq<Fe> {
    Seq::new(t, |i: int| Fe::spec_zero())
}

/// The rows of one permutation that starts at index `from` of the rows and
/// at the offset `offset`, on the state `before` with `inputs` absorbed: the
/// absorption with the first `start` constants; a full round under the dense
/// matrix for each further `start` vector but the last; a full round with
/// the last `start` vector under the pre-sparse matrix; the partial rounds;
/// a full round under the dense matrix for each `end` vector; and a last
/// full round under the dense matrix whose constants are zero.
#[verifier::opaque]
pub open spec fn is_permutation(
    lines: Seq<Line>,
    from: int,
    offset: int,
    spec: Spec,
    before: Seq<Limb>,
    inputs: Seq<Limb>,
) -> bool {
    let t = before.len();
    let fr = full_round_rows(t) as int;
    let pr = partial_round_rows(t) as int;
    let first = spec.start@.len() - 2;
    let p1 = from + t;
    let s1 = absorbed(lines, from, t);
    let p2 = p1 + first * fr;
    let s2 = after_full_rounds(lines, p1, s1, first);
    let p3 = p2 + fr;
    let s3 = after_full_round(lines, p2, t);
    let p4 = p3 + spec.partial@.len() * pr;
    let s4 = after_partial_rounds(lines, p3, s3, spec.partial@.len() as int);
    let p5 = p4 + spec.end@.len() * fr;
    let s5 = after_full_rounds(lines, p4, s4, spec.end@.len() as int);
    &&& is_absorb(lines.take(p1), from, offset, before, inputs, spec.start@[0]@)
    &&& is_full_rounds(
        lines.take(p2),
        p1,
        offset + (p1 - from),
        s1,
        spec.start@.subrange(1, spec.start@.len() - 1),
        spec.mds@,
    )
    &&& is_full_round(
        lines.take(p3),
        p2,
        offset + (p2 - from),
        s2,
        spec.start@.last()@,
        spec.pre_sparse_mds@,
    )
    &&& is_partial_rounds(
        lines.take(p4),
        p3,
        offset + (p3 - from),
        s3,
        spec.partial@,
        spec.sparse_matrices@,
    )
    &&& is_full_rounds(lines.take(p5), p4, offset + (p4 - from), s4, spec.end@, spec.mds@)
    &&& is_full_round(lines, p5, offset + (p5 - from), s5, zero_constants(t), spec.mds@)
}

/// The state that a permutation leaves when the rows run out with `left`
/// rows left at its start: that of the phase that was cut short, on the
/// state that the phases before it left.
#[verifier::opaque]
pub open spec fn permute_cut(
    lines: Seq<Line>,
    from: int,
    spec: Spec,
    before: Seq<Limb>,
    left: int,
) -> Seq<Limb> {
    let t = before.len();
    let fr = full_round_rows(t) as int;
    let pr = partial_round_rows(t) as int;
    let first = spec.start@.len() - 2;
    let b1 = t as int;
    let s1 = absorbed(lines, from, t);
    let b2 = b1 + first * fr;
    let s2 = after_full_rounds(lines, from + b1, s1, first);
    let b3 = b2 + fr;
    let s3 = after_full_round(lines, from + b2, t);
    let b4 = b3 + spec.partial@.len() * pr;
    let s4 = after_partial_rounds(lines, from + b3, s3, spec.partial@.len() as int);
    let b5 = b4 + spec.end@.len() * fr;
    let s5 = after_full_rounds(lines, from + b4, s4, spec.end@.len() as int);
    if left < b1 {
        absorb_cut(lines, from, before, left)
    } else if left < b2 {
        full_rounds_cut(lines, from + b1, s1, left - b1)
    } else if left < b3 {
        full_round_cut(lines, from + b2, s2, left - b2)
    } else if left < b4 {
        partial_rounds_cut(lines, from + b3, s3, left - b3)
    } else if left < b5 {
        full_rounds_cut(lines, from + b4, s4, left - b4)
    } else {
        full_round_cut(lines, from + b5, s5, left - b5)
    }
}

/// The state that an absorption left stays what it is when rows are added.
proof fn lemma_absorbed_kept(after: Seq<Line>, earlier: Seq<Line>, from: int, t: nat)
    requires
        0 <= from,
        from + t <= earlier.len() <= after.len(),
        forall|k: int| 0 <= k < earlier.len() ==> after[k] == earlier[k],
    ensures
        absorbed(after, from, t) == absorbed(earlier, from, t),
{
    assert(absorbed(after, from, t) =~= absorbed(earlier, from, t));
}

/// The index of the rows at which the last full round of a permutation
/// starts that started at index `from`.
pub open spec fn last_round_start(from: int, spec: Spec, t: nat) -> int {
    from + t + (spec.start@.len() - 2) * full_round_rows(t) + full_round_rows(t)
        + spec.partial@.len() * partial_round_rows(t) + spec.end@.len() * full_round_rows(t)
}

/// The rows of the phases of a permutation, each stated when it was
/// emitted, are the rows of the permutation.
proof fn lemma_permutation_rows(
    l: Seq<Line>,
    from: int,
    offset: int,
    spec: Spec,
    before: Seq<Limb>,
    inputs: Seq<Limb>,
    l1: Seq<Line>,
    l2: Seq<Line>,
    l3: Seq<Line>,
    l4: Seq<Line>,
    l5: Seq<Line>,
    s1: Seq<Limb>,
    s2: Seq<Limb>,
    s3: Seq<Limb>,
    s4: Seq<Limb>,
    s5: Seq<Limb>,
)
    requires
        0 <= from,
        spec.wf(),
        before.len() == spec.t,
        s1.len() == before.len(),
        s2.len() == before.len(),
        s3.len() == before.len(),
        s4.len() == before.len(),
        s5.len() == before.len(),
        l1.len() == from + before.len(),
        l2.len() == l1.len() + (spec.start@.len() - 2) * full_round_rows(before.len()),
        l3.len() == l2.len() + full_round_rows(before.len()),
        l4.len() == l3.len() + spec.partial@.len() * partial_round_rows(before.len()),
        l5.len() == l4.len() + spec.end@.len() * full_round_rows(before.len()),
        l.len() == l5.len() + full_round_rows(before.len()),
        l.take(l1.len() as int) == l1,
        l.take(l2.len() as int) == l2,
        l.take(l3.len() as int) == l3,
        l.take(l4.len() as int) == l4,
        l.take(l5.len() as int) == l5,
        is_absorb(l1, from, offset, before, inputs, spec.start@[0]@),
        s1 == absorbed(l1, from, before.len()),
        is_full_rounds(
            l2,
            l1.len() as int,
            offset + (l1.len() - from),
            s1,
            spec.start@.subrange(1, spec.start@.len() - 1),
            spec.mds@,
        ),
        s2 == after_full_rounds(l2, l1.len() as int, s1, spec.start@.len() - 2),
        is_full_round(
            l3,
            l2.len() as int,
            offset + (l2.len() - from),
            s2,
            spec.start@.last()@,
            spec.pre_sparse_mds@,
        ),
        s3 == after_full_round(l3, l2.len() as int, before.len()),
        is_partial_rounds(
            l4,
            l3.len() as int,
            offset + (l3.len() - from),
            s3,
            spec.partial@,
            spec.sparse_matrices@,
        ),
        s4 == after_partial_rounds(l4, l3.len() as int, s3, spec.partial@.len() as int),
        is_full_rounds(l5, l4.len() as int, offset + (l4.len() - from), s4, spec.end@, spec.mds@),
        s5 == after_full_rounds(l5, l4.len() as int, s4, spec.end@.len() as int),
        is_full_round(
            l,
            l5.len() as int,
            offset + (l5.len() - from),
            s5,
            zero_constants(before.len()),
            spec.mds@,
        ),
    ensures
        is_permutation(l, from, offset, spec, before, inputs),
        l5.len() == last_round_start(from, spec, before.len()),
{
    reveal(is_permutation);
    let t = before.len();
    let fr = full_round_rows(t) as int;
    let pr = partial_round_rows(t) as int;
    let first = spec.start@.len() - 2;
    assert(first * fr >= 0 && spec.partial@.len() * pr >= 0 && spec.end@.len() * fr >= 0)
        by (nonlinear_arith)
        requires
            first >= 0,
            fr >= 0,
            pr >= 0,
    ;
    assert forall|k: int| 0 <= k < l1.len() implies l[k] == l1[k] by {
        assert(l.take(l1.len() as int)[k] == l[k]);
    }
    assert forall|k: int| 0 <= k < l2.len() implies l[k] == l2[k] by {
        assert(l.take(l2.len() as int)[k] == l[k]);
    }
    assert forall|k: int| 0 <= k < l3.len() implies l[k] == l3[k] by {
        assert(l.take(l3.len() as int)[k] == l[k]);
    }
    assert forall|k: int| 0 <= k < l4.len() implies l[k] == l4[k] by {
        assert(l.take(l4.len() as int)[k] == l[k]);
    }
    assert forall|k: int| 0 <= k < l5.len() implies l[k] == l5[k] by {
        assert(l.take(l5.len() as int)[k] == l[k]);
    }
    assert(absorbed(l, from, t) =~= s1);
    lemma_after_full_rounds_kept(l, l2, l1.len() as int, s1, first);
    lemma_mixed_kept(l, l3, (l2.len() + 3 * t) as int, t);
    lemma_after_partial_rounds_kept(l, l4, l3.len() as int, s3, spec.partial@.len() as int);
    lemma_after_full_rounds_kept(l, l5, l4.len() as int, s4, spec.end@.len() as int);
}

/// The constants of a round that adds none.
fn zero_vector(t: usize) -> (v: Vec<Fe>)
    ensures
        v@.len() == t,
        v@ == zero_constants(t as nat),
        fe_values(v@) == zeros(t as nat),
{
    let mut v: Vec<Fe> = Vec::new();
    let mut i: usize = 0;
    while i < t
        invariant
            i <= t,
            v@.len() == i,
            forall|j: int| 0 <= j < i ==> (#[trigger] v@[j])@ == 0 && v@[j] == Fe::spec_zero(),
        decreases t - i,
    {
        v.push(Fe::zero());
        i = i + 1;
    }
    proof {
        assert(fe_values(v@) =~= zeros(t as nat));
        assert(v@ =~= zero_constants(t as nat));
    }
    v
}

impl PoseidonState {
    /// One full round: the S-box on every element, then the dense matrix.
    pub fn full_round(
        &mut self,
        ctx: &mut Context,
        constants: &Vec<Fe>,
        mds: &Vec<Vec<Fe>>,
    ) -> (res: Result<(), Error>)
        requires
            old(ctx).wf(),
            constants@.len() == old(self).width(),
            mds@.len() == old(self).width(),
            rows_have_width(mds@, old(self).width()),
        ensures
            final(ctx).extends(*old(ctx)),
            final(self).state@.len() == old(self).width(),
            final(self).default == old(self).default,
            final(self).prefix == old(self).prefix,
            res is Ok <==> old(ctx).fits(full_round_rows(old(self).width()) as int),
            res matches Err(e) ==> e == Error::ConstraintAllocation && final(ctx).ran_out(*old(ctx)),
            res is Err ==> final(self).state@ == full_round_cut(
                final(ctx).lines@,
                old(ctx).lines@.len() as int,
                old(self).state@,
                old(ctx).rows - old(ctx).offset,
            ),
            res is Ok ==> {
                &&& limb_values(final(self).state@) == permutation::full_round(
                    limb_values(old(self).state@),
                    fe_values(constants@),
                    matrix_values(mds@),
                )
                &&& forall|i: int|
                    0 <= i < final(self).state@.len() ==> (#[trigger] final(self).state@[i]).cell
                        == Some(mixed_cell(final(ctx).offset as int, old(self).width(), i))
                &&& final(ctx).advanced(*old(ctx), full_round_rows(old(self).width()) as int)
                &&& is_full_round(
                    final(ctx).lines@,
                    old(ctx).lines@.len() as int,
                    old(ctx).offset as int,
                    old(self).state@,
                    constants@,
                    mds@,
                )
                &&& final(self).state@ == after_full_round(
                    final(ctx).lines@,
                    old(ctx).lines@.len() as int,
                    old(self).width(),
                )
                &&& final(ctx).holds_from(old(ctx).lines@.len() as int)
                &&& all_placed(final(self).state@)
                &&& all_placed(old(self).state@) ==> forall|a: Assignment| #[trigger]
                    final(ctx).enforces(
                        a,
                        old(ctx).lines@.len() as int,
                        final(ctx).lines@.len() as int,
                    ) ==> reads(a, final(self).state@) == permutation::full_round(
                        reads(a, old(self).state@),
                        fe_values(constants@),
                        matrix_values(mds@),
                    )
            },
    {
        let ghost t = self.state@.len();
        self.sbox_full(ctx, constants)?;
        let ghost middle = ctx.offset as int;
        let ghost mid = *ctx;
        let ghost boxed_state = self.state@;
        match self.apply_mds(ctx, mds) {
            Ok(()) => {},
            Err(e) => {
                proof {
                    assert(boxed(ctx.lines@, old(ctx).lines@.len() as int, t) =~= boxed_state);
                }
                return Err(e);
            },
        }
        proof {
            let start = old(ctx).lines@.len() as int;
            lemma_kept_prefix(*ctx, mid, mid.lines@.len() as int);
            assert(mid.lines@.take(mid.lines@.len() as int) =~= mid.lines@);
            assert(boxed(ctx.lines@, start, t) =~= boxed_state);
            if all_placed(old(self).state@) {
                let start = old(ctx).lines@.len() as int;
                assert forall|a: Assignment| #[trigger]
                    ctx.enforces(a, start, ctx.lines@.len() as int) implies reads(a, self.state@)
                    == permutation::full_round(
                    reads(a, old(self).state@),
                    fe_values(constants@),
                    matrix_values(mds@),
                ) by {
                    lemma_enforces_earlier(
                        *ctx,
                        mid,
                        a,
                        start,
                        mid.lines@.len() as int,
                        ctx.lines@.len() as int,
                    );
                    assert(ctx.enforces(a, mid.lines@.len() as int, ctx.lines@.len() as int));
                    assert(all_placed(boxed_state));
                }
            }
            assert forall|i: int| 0 <= i < self.state@.len() implies (
            #[trigger] self.state@[i]).cell == Some(mixed_cell(ctx.offset as int, t, i)) by {
                let l = sum_lines(t) as int;
                assert(middle + (i + 1) * l - 1 == middle + t * l - (t - i - 1) * l - 1)
                    by (nonlinear_arith);
            }
        }
        Ok(())
    }

    /// One partial round: the S-box on the first element, then the sparse
    /// matrix.
    pub fn partial_round(
        &mut self,
        ctx: &mut Context,
        constant: &Fe,
        mds: &SparseMDSMatrix,
    ) -> (res: Result<(), Error>)
        requires
            old(ctx).wf(),
            old(self).width() >= 1,
            mds.row@.len() == old(self).width(),
            mds.col_hat@.len() + 1 == old(self).width(),
        ensures
            final(ctx).extends(*old(ctx)),
            final(self).state@.len() == old(self).width(),
            final(self).default == old(self).default,
            final(self).prefix == old(self).prefix,
            res is Ok <==> old(ctx).fits(partial_round_rows(old(self).width()) as int),
            res matches Err(e) ==> e == Error::ConstraintAllocation && final(ctx).ran_out(*old(ctx)),
            res is Err ==> final(self).state@ == partial_round_cut(
                final(ctx).lines@,
                old(ctx).lines@.len() as int,
                old(self).state@,
                old(ctx).rows - old(ctx).offset,
            ),
            res is Ok ==> {
                &&& limb_values(final(self).state@) == permutation::partial_round(
                    limb_values(old(self).state@),
                    constant@,
                    mds@,
                )
                &&& final(ctx).advanced(*old(ctx), partial_round_rows(old(self).width()) as int)
                &&& is_partial_round(
                    final(ctx).lines@,
                    old(ctx).lines@.len() as int,
                    old(ctx).offset as int,
                    old(self).state@,
                    *constant,
                    *mds,
                )
                &&& final(self).state@ == after_partial_round(
                    final(ctx).lines@,
                    old(ctx).lines@.len() as int,
                    old(self).width(),
                )
                &&& final(ctx).holds_from(old(ctx).lines@.len() as int)
                &&& all_placed(final(self).state@)
                &&& all_placed(old(self).state@) ==> forall|a: Assignment| #[trigger]
                    final(ctx).enforces(
                        a,
                        old(ctx).lines@.len() as int,
                        final(ctx).lines@.len() as int,
                    ) ==> reads(a, final(self).state@) == permutation::partial_round(
                        reads(a, old(self).state@),
                        constant@,
                        mds@,
                    )
            },
    {
        self.sbox_part(ctx, constant)?;
        let ghost mid = *ctx;
        let ghost boxed_state = self.state@;
        match self.apply_sparse_mds(ctx, mds) {
            Ok(()) => {},
            Err(e) => {
                proof {
                    assert(mid.lines@.last() == ctx.lines@[old(ctx).lines@.len() as int + 2]);
                    assert(boxed_state =~= old(self).state@.update(
                        0,
                        produced(ctx.lines@[old(ctx).lines@.len() as int + 2]),
                    ));
                }
                return Err(e);
            },
        }
        proof {
            let start = old(ctx).lines@.len() as int;
            lemma_kept_prefix(*ctx, mid, mid.lines@.len() as int);
            assert(mid.lines@.take(mid.lines@.len() as int) =~= mid.lines@);
            assert(mid.lines@.last() == ctx.lines@[start + 2]);
            assert(boxed_state =~= old(self).state@.update(0, produced(ctx.lines@[start + 2])));
            if all_placed(old(self).state@) {
                let start = old(ctx).lines@.len() as int;
                assert forall|a: Assignment| #[trigger]
                    ctx.enforces(a, start, ctx.lines@.len() as int) implies reads(a, self.state@)
                    == permutation::partial_round(reads(a, old(self).state@), constant@, mds@) by {
                    lemma_enforces_earlier(
                        *ctx,
                        mid,
                        a,
                        start,
                        mid.lines@.len() as int,
                        ctx.lines@.len() as int,
                    );
                    assert(ctx.enforces(a, mid.lines@.len() as int, ctx.lines@.len() as int));
                    assert forall|j: int| 0 <= j < boxed_state.len() implies (
                    #[trigger] boxed_state[j]).cell is Some by {
                        if j > 0 {
                            assert(boxed_state[j] == old(self).state@[j]);
                        }
                    }
                }
            }
        }
        Ok(())
    }

    /// Full rounds under one matrix, one for each of the vectors of constants
    /// from index `from` up to `to`.
    #[verifier::rlimit(50)]
    fn full_rounds(
        &mut self,
        ctx: &mut Context,
        constants: &Vec<Vec<Fe>>,
        from: usize,
        to: usize,
        mds: &Vec<Vec<Fe>>,
    ) -> (res: Result<(), Error>)
        requires
            old(ctx).wf(),
            old(self).width() >= 1,
            from <= to <= constants@.len(),
            rows_have_width(constants@, old(self).width()),
            mds@.len() == old(self).width(),
            rows_have_width(mds@, old(self).width()),
        ensures
            final(ctx).extends(*old(ctx)),
            final(self).state@.len() == old(self).width(),
            final(self).default == old(self).default,
            final(self).prefix == old(self).prefix,
            res is Ok <==> old(ctx).fits(((to - from) * full_round_rows(old(self).width())) as int),
            res matches Err(e) ==> e == Error::ConstraintAllocation && final(ctx).ran_out(*old(ctx)),
            res is Err ==> final(self).state@ == full_rounds_cut(
                final(ctx).lines@,
                old(ctx).lines@.len() as int,
                old(self).state@,
                old(ctx).rows - old(ctx).offset,
            ),
            res is Ok ==> {
                &&& limb_values(final(self).state@) == permutation::full_rounds(
                    limb_values(old(self).state@),
                    matrix_values(constants@).subrange(from as int, to as int),
                    matrix_values(mds@),
                )
                &&& final(ctx).advanced(
                    *old(ctx),
                    ((to - from) * full_round_rows(old(self).width())) as int,
                )
                &&& is_full_rounds(
                    final(ctx).lines@,
                    old(ctx).lines@.len() as int,
                    old(ctx).offset as int,
                    old(self).state@,
                    constants@.subrange(from as int, to as int),
                    mds@,
                )
                &&& final(self).state@ == after_full_rounds(
                    final(ctx).lines@,
                    old(ctx).lines@.len() as int,
                    old(self).state@,
                    to - from,
                )
                &&& final(ctx).holds_from(old(ctx).lines@.len() as int)
                &&& all_placed(old(self).state@) ==> all_placed(final(self).state@)
                &&& all_placed(old(self).state@) ==> forall|a: Assignment| #[trigger]
                    final(ctx).enforces(
                        a,
                        old(ctx).lines@.len() as int,
                        final(ctx).lines@.len() as int,
                    ) ==> reads(a, final(self).state@) == permutation::full_rounds(
                        reads(a, old(self).state@),
                        matrix_values(constants@).subrange(from as int, to as int),
                        matrix_values(mds@),
                    )
            },
    {
        let ghost t = self.state@.len();
        let ghost rows = full_round_rows(t) as int;
        let ghost all = matrix_values(constants@);
        let mut k: usize = from;
        proof {
            assert(all.subrange(from as int, from as int) =~= Seq::<Seq<nat>>::empty());
            reveal(full_rounds_upto);
        }
        while k < to
            invariant
                ctx.extends(*old(ctx)),
                from <= k <= to,
                to <= constants@.len(),
                t == self.state@.len(),
                t == old(self).width(),
                t >= 1,
                self.state@ == after_full_rounds(
                    ctx.lines@,
                    old(ctx).lines@.len() as int,
                    old(self).state@,
                    k - from,
                ),
                full_rounds_upto(
                    ctx.lines@,
                    old(ctx).lines@.len() as int,
                    old(ctx).offset as int,
                    old(self).state@,
                    constants@.subrange(from as int, to as int),
                    mds@,
                    self.state@,
                    k - from,
                ),
                rows == full_round_rows(t),
                all == matrix_values(constants@),
                rows_have_width(constants@, t),
                mds@.len() == t,
                rows_have_width(mds@, t),
                self.default == old(self).default,
                self.prefix == old(self).prefix,
                ctx.offset == old(ctx).offset + (k - from) * rows,
                ctx.lines@.len() == old(ctx).lines@.len() + (k - from) * rows,
                ctx.holds_from(old(ctx).lines@.len() as int),
                limb_values(self.state@) == permutation::full_rounds(
                    limb_values(old(self).state@),
                    all.subrange(from as int, k as int),
                    matrix_values(mds@),
                ),
                all_placed(old(self).state@) ==> all_placed(self.state@),
                all_placed(old(self).state@) ==> forall|a: Assignment| #[trigger]
                    ctx.enforces(a, old(ctx).lines@.len() as int, ctx.lines@.len() as int)
                        ==> reads(a, self.state@) == permutation::full_rounds(
                        reads(a, old(self).state@),
                        all.subrange(from as int, k as int),
                        matrix_values(mds@),
                    ),
            decreases to - k,
        {
            let ghost before = *ctx;
            proof {
                lemma_mul_is_distributive_add_other_way(rows, k - from, 1);
                lemma_mul_inequality(k - from + 1, to - from, rows);
                let upto = all.subrange(from as int, k + 1);
                assert(upto.drop_last() =~= all.subrange(from as int, k as int));
                assert(upto.last() == fe_values(constants@[k as int]@));
            }
            let ghost state_before = self.state@;
            match self.full_round(ctx, &constants[k], mds) {
                Ok(()) => {},
                Err(e) => {
                    proof {
                        lemma_full_rounds_cut(
                            ctx.lines@,
                            before.lines@,
                            old(ctx).lines@.len() as int,
                            old(self).state@,
                            k - from,
                            old(ctx).rows - old(ctx).offset,
                            self.state@,
                            state_before,
                        );
                    }
                    return Err(e);
                },
            }
            proof {
                reveal(full_rounds_upto);
                lemma_full_rounds_step(
                    ctx.lines@,
                    before.lines@,
                    old(ctx).lines@.len() as int,
                    old(ctx).offset as int,
                    old(self).state@,
                    constants@.subrange(from as int, to as int),
                    mds@,
                    k - from,
                    self.state@,
                    state_before,
                );
                if all_placed(old(self).state@) {
                    let start = old(ctx).lines@.len() as int;
                    assert forall|a: Assignment| #[trigger]
                        ctx.enforces(a, start, ctx.lines@.len() as int) implies reads(
                        a,
                        self.state@,
                    ) == permutation::full_rounds(
                        reads(a, old(self).state@),
                        all.subrange(from as int, k + 1),
                        matrix_values(mds@),
                    ) by {
                        lemma_enforces_earlier(
                            *ctx,
                            before,
                            a,
                            start,
                            before.lines@.len() as int,
                            ctx.lines@.len() as int,
                        );
                        assert(ctx.enforces(
                            a,
                            before.lines@.len() as int,
                            ctx.lines@.len() as int,
                        ));
                    }
                }
            }
            k = k + 1;
        }
        Ok(())
    }

    /// The partial rounds: one for each constant, with the sparse matrix at
    /// the same place.
    #[verifier::rlimit(50)]
    fn partial_rounds(
        &mut self,
        ctx: &mut Context,
        constants: &Vec<Fe>,
        ms: &Vec<SparseMDSMatrix>,
    ) -> (res: Result<(), Error>)
        requires
            old(ctx).wf(),
            old(self).width() >= 1,
            constants@.len() == ms@.len(),
            sparse_have_width(ms@, old(self).width()),
        ensures
            final(ctx).extends(*old(ctx)),
            final(self).state@.len() == old(self).width(),
            final(self).default == old(self).default,
            final(self).prefix == old(self).prefix,
            res is Ok <==> old(ctx).fits(
                (constants@.len() * partial_round_rows(old(self).width())) as int,
            ),
            res matches Err(e) ==> e == Error::ConstraintAllocation && final(ctx).ran_out(*old(ctx)),
            res is Err ==> final(self).state@ == partial_rounds_cut(
                final(ctx).lines@,
                old(ctx).lines@.len() as int,
                old(self).state@,
                old(ctx).rows - old(ctx).offset,
            ),
            res is Ok ==> {
                &&& limb_values(final(self).state@) == permutation::partial_rounds(
                    limb_values(old(self).state@),
                    fe_values(constants@),
                    sparse_values(ms@),
                )
                &&& final(ctx).advanced(
                    *old(ctx),
                    (constants@.len() * partial_round_rows(old(self).width())) as int,
                )
                &&& is_partial_rounds(
                    final(ctx).lines@,
                    old(ctx).lines@.len() as int,
                    old(ctx).offset as int,
                    old(self).state@,
                    constants@,
                    ms@,
                )
                &&& final(self).state@ == after_partial_rounds(
                    final(ctx).lines@,
                    old(ctx).lines@.len() as int,
                    old(self).state@,
                    constants@.len() as int,
                )
                &&& final(ctx).holds_from(old(ctx).lines@.len() as int)
                &&& all_placed(old(self).state@) ==> all_placed(final(self).state@)
                &&& all_placed(old(self).state@) ==> forall|a: Assignment| #[trigger]
                    final(ctx).enforces(
                        a,
                        old(ctx).lines@.len() as int,
                        final(ctx).lines@.len() as int,
                    ) ==> reads(a, final(self).state@) == permutation::partial_rounds(
                        reads(a, old(self).state@),
                        fe_values(constants@),
                        sparse_values(ms@),
                    )
            },
    {
        let ghost t = self.state@.len();
        let ghost rows = partial_round_rows(t) as int;
        let ghost all = fe_values(constants@);
        let n: usize = constants.len();
        let mut k: usize = 0;
        proof {
            assert(all.take(0) =~= Seq::<nat>::empty());
            reveal(partial_rounds_upto);
        }
        while k < n
            invariant
                ctx.extends(*old(ctx)),
                k <= n,
                n == constants@.len(),
                n == ms@.len(),
                t >= 1,
                t == self.state@.len(),
                t == old(self).width(),
                self.state@ == after_partial_rounds(
                    ctx.lines@,
                    old(ctx).lines@.len() as int,
                    old(self).state@,
                    k as int,
                ),
                partial_rounds_upto(
                    ctx.lines@,
                    old(ctx).lines@.len() as int,
                    old(ctx).offset as int,
                    old(self).state@,
                    constants@,
                    ms@,
                    self.state@,
                    k as int,
                ),
                rows == partial_round_rows(t),
                all == fe_values(constants@),
                sparse_have_width(ms@, t),
                self.default == old(self).default,
                self.prefix == old(self).prefix,
                ctx.offset == old(ctx).offset + k * rows,
                ctx.lines@.len() == old(ctx).lines@.len() + k * rows,
                ctx.holds_from(old(ctx).lines@.len() as int),
                limb_values(self.state@) == permutation::partial_rounds(
                    limb_values(old(self).state@),
                    all.take(k as int),
                    sparse_values(ms@),
                ),
                all_placed(old(self).state@) ==> all_placed(self.state@),
                all_placed(old(self).state@) ==> forall|a: Assignment| #[trigger]
                    ctx.enforces(a, old(ctx).lines@.len() as int, ctx.lines@.len() as int)
                        ==> reads(a, self.state@) == permutation::partial_rounds(
                        reads(a, old(self).state@),
                        all.take(k as int),
                        sparse_values(ms@),
                    ),
            decreases n - k,
        {
            let ghost before = *ctx;
            proof {
                lemma_mul_is_distributive_add_other_way(rows, k as int, 1);
                lemma_mul_inequality(k + 1, n as int, rows);
                let upto = all.take(k + 1);
                assert(upto.drop_last() =~= all.take(k as int));
                assert(upto.last() == constants@[k as int]@);
                assert(sparse_values(ms@)[k as int] == ms@[k as int]@);
            }
            let ghost state_before = self.state@;
            match self.partial_round(ctx, &constants[k], &ms[k]) {
                Ok(()) => {},
                Err(e) => {
                    proof {
                        lemma_partial_rounds_cut(
                            ctx.lines@,
                            before.lines@,
                            old(ctx).lines@.len() as int,
                            old(self).state@,
                            k as int,
                            old(ctx).rows - old(ctx).offset,
                            self.state@,
                            state_before,
                        );
                    }
                    return Err(e);
                },
            }
            proof {
                reveal(partial_rounds_upto);
                lemma_partial_rounds_step(
                    ctx.lines@,
                    before.lines@,
                    old(ctx).lines@.len() as int,
                    old(ctx).offset as int,
                    old(self).state@,
                    constants@,
                    ms@,
                    k as int,
                    self.state@,
                    state_before,
                );
                if all_placed(old(self).state@) {
                    let start = old(ctx).lines@.len() as int;
                    assert forall|a: Assignment| #[trigger]
                        ctx.enforces(a, start, ctx.lines@.len() as int) implies reads(
                        a,
                        self.state@,
                    ) == permutation::partial_rounds(
                        reads(a, old(self).state@),
                        all.take(k + 1),
                        sparse_values(ms@),
                    ) by {
                        lemma_enforces_earlier(
                            *ctx,
                            before,
                            a,
                            start,
                            before.lines@.len() as int,
                            ctx.lines@.len() as int,
                        );
                        assert(ctx.enforces(
                            a,
                            before.lines@.len() as int,
                            ctx.lines@.len() as int,
                        ));
                    }
                }
            }
            k = k + 1;
        }
        proof {
            assert(all.take(n as int) =~= all);
        }
        Ok(())
    }

    /// One permutation of the state, absorbing `inputs` on the way in.
    ///
    /// The inputs and the first constants are added; then come the first
    /// half of the full rounds, the last of them under the matrix that leads
    /// into the partial rounds; the partial rounds; the second half of the
    /// full rounds; and a last full round that adds no constants.
    #[verifier::rlimit(100)]
    pub fn permute(&mut self, ctx: &mut Context, spec: &Spec, inputs: &Vec<Limb>) -> (res: Result<
        (),
        Error,
    >)
        requires
            old(ctx).wf(),
            spec.wf(),
            old(self).width() == spec.t,
            inputs@.len() == spec.rate,
        ensures
            final(ctx).extends(*old(ctx)),
            final(self).state@.len() == old(self).width(),
            final(self).default == old(self).default,
            final(self).prefix == old(self).prefix,
            res is Ok <==> old(ctx).fits(spec.permute_rows()),
            res matches Err(e) ==> e == Error::ConstraintAllocation && final(ctx).ran_out(*old(ctx)),
            res is Err ==> final(self).state@ == permute_cut(
                final(ctx).lines@,
                old(ctx).lines@.len() as int,
                *spec,
                old(self).state@,
                old(ctx).rows - old(ctx).offset,
            ),
            res is Ok ==> {
                &&& limb_values(final(self).state@) == permutation::permutation(
                    spec@,
                    limb_values(old(self).state@),
                    limb_values(inputs@),
                )
                &&& forall|i: int|
                    0 <= i < final(self).state@.len() ==> (#[trigger] final(self).state@[i]).cell
                        == Some(mixed_cell(final(ctx).offset as int, spec.t as nat, i))
                &&& final(ctx).advanced(*old(ctx), spec.permute_rows())
                &&& is_permutation(
                    final(ctx).lines@,
                    old(ctx).lines@.len() as int,
                    old(ctx).offset as int,
                    *spec,
                    old(self).state@,
                    inputs@,
                )
                &&& final(self).state@ == after_full_round(
                    final(ctx).lines@,
                    last_round_start(old(ctx).lines@.len() as int, *spec, old(self).width()),
                    old(self).width(),
                )
                &&& final(ctx).holds_from(old(ctx).lines@.len() as int)
                &&& all_placed(final(self).state@)
                &&& all_placed(old(self).state@) && all_placed(inputs@) ==> forall|a: Assignment|
                    #[trigger]
                    final(ctx).enforces(
                        a,
                        old(ctx).lines@.len() as int,
                        final(ctx).lines@.len() as int,
                    ) ==> reads(a, final(self).state@) == permutation::permutation(
                        spec@,
                        reads(a, old(self).state@),
                        reads(a, inputs@),
                    )
            },
    {
        let ghost t = spec.t as nat;
        let ghost half = (spec.r_f / 2) as int;
        let ghost full = full_round_rows(t) as int;
        let ghost part = partial_round_rows(t) as int;
        let last: usize = spec.start.len() - 1;
        proof {
            assert((half - 1) * full >= 0 && spec.r_p * part >= 0 && 2 * half * full == (half - 1)
                * full + full + (half - 1) * full + full) by (nonlinear_arith)
                requires
                    half >= 1,
                    full >= 0,
                    part >= 0,
            ;
        }
        let ghost start = ctx.lines@.len() as int;
        match self.absorb_with_pre_constants(ctx, inputs, &spec.start[0]) {
            Ok(()) => {},
            Err(e) => {
                proof {
                    assert(self.state@ == permute_cut(
                        ctx.lines@,
                        start,
                        *spec,
                        old(self).state@,
                        old(ctx).rows - old(ctx).offset,
                    )) by {
                        reveal(permute_cut);
                    }
                }
                return Err(e);
            },
        }
        let ghost c1 = *ctx;
        let ghost s1 = self.state@;
        match self.full_rounds(ctx, &spec.start, 1, last, &spec.mds) {
            Ok(()) => {},
            Err(e) => {
                proof {
                    assert(self.state@ == permute_cut(
                        ctx.lines@,
                        start,
                        *spec,
                        old(self).state@,
                        old(ctx).rows - old(ctx).offset,
                    )) by {
                        reveal(permute_cut);
                        lemma_absorbed_kept(ctx.lines@, c1.lines@, start, t);
                    }
                }
                return Err(e);
            },
        }
        let ghost c2 = *ctx;
        let ghost s2 = self.state@;
        match self.full_round(ctx, &spec.start[last], &spec.pre_sparse_mds) {
            Ok(()) => {},
            Err(e) => {
                proof {
                    assert(self.state@ == permute_cut(
                        ctx.lines@,
                        start,
                        *spec,
                        old(self).state@,
                        old(ctx).rows - old(ctx).offset,
                    )) by {
                        reveal(permute_cut);
                        lemma_absorbed_kept(ctx.lines@, c1.lines@, start, t);
                        lemma_kept_prefix(c2, c1, c1.lines@.len() as int);
                        lemma_after_full_rounds_kept(
                            ctx.lines@,
                            c2.lines@,
                            c1.lines@.len() as int,
                            s1,
                            last - 1,
                        );
                    }
                }
                return Err(e);
            },
        }
        let ghost c3 = *ctx;
        let ghost s3 = self.state@;
        match self.partial_rounds(ctx, &spec.partial, &spec.sparse_matrices) {
            Ok(()) => {},
            Err(e) => {
                proof {
                    assert(self.state@ == permute_cut(
                        ctx.lines@,
                        start,
                        *spec,
                        old(self).state@,
                        old(ctx).rows - old(ctx).offset,
                    )) by {
                        reveal(permute_cut);
                        lemma_mixed_kept(ctx.lines@, c3.lines@, (c2.lines@.len() + 3 * t) as int, t);
                    }
                }
                return Err(e);
            },
        }
        let ghost c4 = *ctx;
        let ghost s4 = self.state@;
        match self.full_rounds(ctx, &spec.end, 0, spec.end.len(), &spec.mds) {
            Ok(()) => {},
            Err(e) => {
                proof {
                    assert(self.state@ == permute_cut(
                        ctx.lines@,
                        start,
                        *spec,
                        old(self).state@,
                        old(ctx).rows - old(ctx).offset,
                    )) by {
                        reveal(permute_cut);
                        lemma_mixed_kept(ctx.lines@, c3.lines@, (c2.lines@.len() + 3 * t) as int, t);
                        lemma_after_partial_rounds_kept(
                            ctx.lines@,
                            c4.lines@,
                            c3.lines@.len() as int,
                            s3,
                            spec.partial@.len() as int,
                        );
                    }
                }
                return Err(e);
            },
        }
        let ghost c5 = *ctx;
        let ghost s5 = self.state@;
        let zero = zero_vector(spec.t);
        match self.full_round(ctx, &zero, &spec.mds) {
            Ok(()) => {},
            Err(e) => {
                proof {
                    assert(self.state@ == permute_cut(
                        ctx.lines@,
                        start,
                        *spec,
                        old(self).state@,
                        old(ctx).rows - old(ctx).offset,
                    )) by {
                        reveal(permute_cut);
                        lemma_mixed_kept(ctx.lines@, c3.lines@, (c2.lines@.len() + 3 * t) as int, t);
                        lemma_after_partial_rounds_kept(
                            ctx.lines@,
                            c4.lines@,
                            c3.lines@.len() as int,
                            s3,
                            spec.partial@.len() as int,
                        );
                        lemma_after_full_rounds_kept(
                            ctx.lines@,
                            c5.lines@,
                            c4.lines@.len() as int,
                            s4,
                            spec.end@.len() as int,
                        );
                    }
                }
                return Err(e);
            },
        }
        proof {
            lemma_kept_prefix(*ctx, c1, c1.lines@.len() as int);
            lemma_kept_prefix(*ctx, c2, c2.lines@.len() as int);
            lemma_kept_prefix(*ctx, c3, c3.lines@.len() as int);
            lemma_kept_prefix(*ctx, c4, c4.lines@.len() as int);
            lemma_kept_prefix(*ctx, c5, c5.lines@.len() as int);
            assert(c1.lines@.take(c1.lines@.len() as int) =~= c1.lines@);
            assert(c2.lines@.take(c2.lines@.len() as int) =~= c2.lines@);
            assert(c3.lines@.take(c3.lines@.len() as int) =~= c3.lines@);
            assert(c4.lines@.take(c4.lines@.len() as int) =~= c4.lines@);
            assert(c5.lines@.take(c5.lines@.len() as int) =~= c5.lines@);
            assert(spec.end@.subrange(0, spec.end@.len() as int) =~= spec.end@);
            lemma_permutation_rows(
                ctx.lines@,
                old(ctx).lines@.len() as int,
                old(ctx).offset as int,
                *spec,
                old(self).state@,
                inputs@,
                c1.lines@,
                c2.lines@,
                c3.lines@,
                c4.lines@,
                c5.lines@,
                s1,
                s2,
                s3,
                s4,
                s5,
            );
            assert(matrix_values(spec.end@).subrange(0, spec.end@.len() as int) =~= matrix_values(
                spec.end@,
            ));
            if all_placed(old(self).state@) && all_placed(inputs@) {
                let start = old(ctx).lines@.len() as int;
                let end = ctx.lines@.len() as int;
                assert(all_placed(s1));
                assert forall|a: Assignment| #[trigger] ctx.enforces(a, start, end) implies reads(
                    a,
                    self.state@,
                ) == permutation::permutation(
                    spec@,
                    reads(a, old(self).state@),
                    reads(a, inputs@),
                ) by {
                    lemma_enforces_earlier(*ctx, c1, a, start, c1.lines@.len() as int, end);
                    lemma_enforces_earlier(
                        *ctx,
                        c2,
                        a,
                        c1.lines@.len() as int,
                        c2.lines@.len() as int,
                        end,
                    );
                    lemma_enforces_earlier(
                        *ctx,
                        c3,
                        a,
                        c2.lines@.len() as int,
                        c3.lines@.len() as int,
                        end,
                    );
                    lemma_enforces_earlier(
                        *ctx,
                        c4,
                        a,
                        c3.lines@.len() as int,
                        c4.lines@.len() as int,
                        end,
                    );
                    lemma_enforces_earlier(
                        *ctx,
                        c5,
                        a,
                        c4.lines@.len() as int,
                        c5.lines@.len() as int,
                        end,
                    );
                    assert(ctx.enforces(a, c5.lines@.len() as int, end));
                }
            }
        }
        Ok(())
    }
}

} // verus!
