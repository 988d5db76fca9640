//! The permutation as mathematics: what each step does to a state of field
//! values. The constraint emitters are proved against these functions.

use crate::field::{fadd, fmul, lemma_fadd_absorbs, lemma_fmul_absorbs, modulus};
use vstd::prelude::*;

verus! {

/// The S-box with its round constant folded in: the fifth power plus the
/// constant.
pub open spec fn sbox(x: nat, c: nat) -> nat {
    (x * x * x * x * x + c) % modulus()
}

/// Squaring twice, multiplying once more and adding the constant, each step
/// reduced, gives the S-box.
pub proof fn lemma_sbox_by_squaring(x: nat, c: nat)
    ensures
        fadd(fmul(fmul(fmul(x, x), fmul(x, x)), x), c) == sbox(x, c),
{
    let x2 = x * x;
    let x4 = x2 * x2;
    lemma_fmul_absorbs(x2, x2);
    assert(fmul(fmul(x, x), fmul(x, x)) == x4 % modulus());
    lemma_fmul_absorbs(x4, x);
    assert(fmul(x4 % modulus(), x) == (x4 * x) % modulus());
    lemma_fadd_absorbs(x4 * x, c);
    assert(x4 * x == x * x * x * x * x) by (nonlinear_arith)
        requires
            x4 == (x * x) * (x * x),
    ;
}

/// The sum of the products of the first `n` entries of two vectors.
pub open spec fn dot_upto(xs: Seq<nat>, ws: Seq<nat>, n: nat) -> nat
    decreases n,
{
    if n == 0 {
        0
    } else {
        dot_upto(xs, ws, (n - 1) as nat) + xs[n - 1] * ws[n - 1]
    }
}

/// The sum of the products of the entries of two vectors, as an integer.
pub open spec fn dot(xs: Seq<nat>, ws: Seq<nat>) -> nat {
    dot_upto(xs, ws, xs.len())
}

/// The product of two vectors of one entry.
pub proof fn lemma_dot_one(xs: Seq<nat>, ws: Seq<nat>)
    requires
        xs.len() == 1,
    ensures
        dot(xs, ws) == xs[0] * ws[0],
{
    reveal_with_fuel(dot_upto, 2);
}

/// The product of two vectors of two entries.
pub proof fn lemma_dot_two(xs: Seq<nat>, ws: Seq<nat>)
    requires
        xs.len() == 2,
    ensures
        dot(xs, ws) == xs[0] * ws[0] + xs[1] * ws[1],
{
    reveal_with_fuel(dot_upto, 3);
}

/// A vector of zeros.
pub open spec fn zeros(n: nat) -> Seq<nat> {
    Seq::new(n, |i: int| 0nat)
}

/// The state after the inputs and the first round constants were added: the
/// first element takes its constant only, each other element the input that
/// stands one place before it and its constant.
pub open spec fn absorb(state: Seq<nat>, inputs: Seq<nat>, constants: Seq<nat>) -> Seq<nat> {
    Seq::new(
        state.len(),
        |i: int|
            if i == 0 {
                (state[0] + constants[0]) % modulus()
            } else {
                (state[i] + inputs[i - 1] + constants[i]) % modulus()
            },
    )
}

/// The S-box on every element, each with its constant.
pub open spec fn sbox_full(state: Seq<nat>, constants: Seq<nat>) -> Seq<nat> {
    Seq::new(state.len(), |i: int| sbox(state[i], constants[i]))
}

/// The S-box on the first element only.
pub open spec fn sbox_part(state: Seq<nat>, constant: nat) -> Seq<nat> {
    state.update(0, sbox(state[0], constant))
}

/// The state times a dense matrix: each new element is the product of the
/// state and one row.
pub open spec fn mix(state: Seq<nat>, m: Seq<Seq<nat>>) -> Seq<nat> {
    Seq::new(state.len(), |i: int| dot(state, m[i]) % modulus())
}

/// The state times a matrix in factored form: the new first element is the
/// product of the state and `row`; each other element adds to itself the old
/// first element times its factor.
pub open spec fn sparse_mix(state: Seq<nat>, m: SparseView) -> Seq<nat> {
    Seq::new(
        state.len(),
        |i: int|
            if i == 0 {
                dot(state, m.row) % modulus()
            } else {
                (state[0] * m.col_hat[i - 1] + state[i]) % modulus()
            },
    )
}

/// One full round: the S-box on every element, then the matrix.
pub open spec fn full_round(state: Seq<nat>, constants: Seq<nat>, m: Seq<Seq<nat>>) -> Seq<nat> {
    mix(sbox_full(state, constants), m)
}

/// One partial round: the S-box on the first element, then the sparse matrix.
pub open spec fn partial_round(state: Seq<nat>, constant: nat, m: SparseView) -> Seq<nat> {
    sparse_mix(sbox_part(state, constant), m)
}

/// Full rounds with the same matrix, one for each vector of constants, in
/// order.
pub open spec fn full_rounds(state: Seq<nat>, constants: Seq<Seq<nat>>, m: Seq<Seq<nat>>) -> Seq<
    nat,
>
    decreases constants.len(),
{
    if constants.len() == 0 {
        state
    } else {
        full_round(full_rounds(state, constants.drop_last(), m), constants.last(), m)
    }
}

/// Partial rounds, one for each constant with the matrix at the same place,
/// in order.
pub open spec fn partial_rounds(state: Seq<nat>, constants: Seq<nat>, ms: Seq<SparseView>) -> Seq<
    nat,
>
    decreases constants.len(),
{
    if constants.len() == 0 {
        state
    } else {
        partial_round(
            partial_rounds(state, constants.drop_last(), ms),
            constants.last(),
            ms[constants.len() - 1],
        )
    }
}

/// A sparse matrix as numbers.
pub struct SparseView {
    pub row: Seq<nat>,
    pub col_hat: Seq<nat>,
}

/// The parameters as numbers.
pub struct SpecView {
    pub mds: Seq<Seq<nat>>,
    pub pre_sparse_mds: Seq<Seq<nat>>,
    pub sparse_matrices: Seq<SparseView>,
    pub start: Seq<Seq<nat>>,
    pub partial: Seq<nat>,
    pub end: Seq<Seq<nat>>,
}

/// The permutation.
///
/// The inputs and the first `start` constants are added to the state. Each
/// further `start` vector but the last goes with a full round under the dense
/// matrix; the last goes with a full round under `pre_sparse_mds`. The
/// partial rounds follow, then a full round for each `end` vector, and one
/// more full round that adds no constants.
pub open spec fn permutation(p: SpecView, state: Seq<nat>, inputs: Seq<nat>) -> Seq<nat> {
    let absorbed = absorb(state, inputs, p.start[0]);
    let first = full_rounds(absorbed, p.start.subrange(1, p.start.len() - 1), p.mds);
    let turned = full_round(first, p.start.last(), p.pre_sparse_mds);
    let middle = partial_rounds(turned, p.partial, p.sparse_matrices);
    let second = full_rounds(middle, p.end, p.mds);
    full_round(second, zeros(state.len()), p.mds)
}

} // verus!
