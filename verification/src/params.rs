//! The parameters of one instance of the permutation: its width, the round
//! counts, the mixing matrices and the round constants.
//!
//! The numbers come from outside. What is checked here is that they fit
//! together: every vector and matrix has the width of the state, and there is
//! one constant and one sparse matrix for each partial round.

use crate::field::Fe;
use crate::permutation::{SparseView, SpecView};
use vstd::prelude::*;

verus! {

/// The values of a vector of field elements.
pub open spec fn fe_values(v: Seq<Fe>) -> Seq<nat> {
    Seq::new(v.len(), |i: int| v[i]@)
}

/// The values of a matrix, row by row.
pub open spec fn matrix_values(m: Seq<Vec<Fe>>) -> Seq<Seq<nat>> {
    Seq::new(m.len(), |i: int| fe_values(m[i]@))
}

/// Every row of `m` has `width` entries.
pub open spec fn rows_have_width(m: Seq<Vec<Fe>>, width: nat) -> bool {
    forall|i: int| 0 <= i < m.len() ==> (#[trigger] m[i])@.len() == width
}

/// A mixing matrix of a partial round in factored form: the weights for the
/// new first element, and one factor of the first element for each of the
/// others.
#[derive(Debug)]
pub struct SparseMDSMatrix {
    pub row: Vec<Fe>,
    pub col_hat: Vec<Fe>,
}

impl View for SparseMDSMatrix {
    type V = SparseView;

    open spec fn view(&self) -> SparseView {
        SparseView { row: fe_values(self.row@), col_hat: fe_values(self.col_hat@) }
    }
}

/// The sparse matrices as numbers.
pub open spec fn sparse_values(ms: Seq<SparseMDSMatrix>) -> Seq<SparseView> {
    Seq::new(ms.len(), |i: int| ms[i]@)
}

/// Every sparse matrix has a row of `width` weights and `width - 1` factors.
pub open spec fn sparse_have_width(m: Seq<SparseMDSMatrix>, width: nat) -> bool {
    forall|i: int|
        0 <= i < m.len() ==> (#[trigger] m[i]).row@.len() == width && m[i].col_hat@.len() + 1
            == width
}

/// The parameters of the permutation.
#[derive(Debug)]
pub struct Spec {
    /// The width of the state.
    pub t: usize,
    /// The number of elements absorbed by one call.
    pub rate: usize,
    /// The number of full rounds.
    pub r_f: usize,
    /// The number of partial rounds.
    pub r_p: usize,
    /// The dense mixing matrix.
    pub mds: Vec<Vec<Fe>>,
    /// The matrix that mixes the last full round before the partial rounds.
    pub pre_sparse_mds: Vec<Vec<Fe>>,
    /// The mixing matrix of each partial round.
    pub sparse_matrices: Vec<SparseMDSMatrix>,
    /// The constants of the first half of the full rounds: the first vector
    /// is added before any round, the last one goes with the round before the
    /// partial rounds.
    pub start: Vec<Vec<Fe>>,
    /// The constant of each partial round.
    pub partial: Vec<Fe>,
    /// The constants of the second half of the full rounds, but for the very
    /// last round, which has none.
    pub end: Vec<Vec<Fe>>,
}

impl View for Spec {
    type V = SpecView;

    open spec fn view(&self) -> SpecView {
        SpecView {
            mds: matrix_values(self.mds@),
            pre_sparse_mds: matrix_values(self.pre_sparse_mds@),
            sparse_matrices: sparse_values(self.sparse_matrices@),
            start: matrix_values(self.start@),
            partial: fe_values(self.partial@),
            end: matrix_values(self.end@),
        }
    }
}

/// Checks that every row of a matrix has the given width.
fn check_rows(m: &Vec<Vec<Fe>>, width: usize) -> (ok: bool)
    ensures
        ok == rows_have_width(m@, width as nat),
{
    let mut i: usize = 0;
    while i < m.len()
        invariant
            i <= m@.len(),
            forall|j: int| 0 <= j < i ==> (#[trigger] m@[j])@.len() == width,
        decreases m@.len() - i,
    {
        if m[i].len() != width {
            return false;
        }
        i = i + 1;
    }
    true
}

/// Checks that every sparse matrix has the given width.
fn check_sparse(m: &Vec<SparseMDSMatrix>, width: usize) -> (ok: bool)
    requires
        width >= 1,
    ensures
        ok == sparse_have_width(m@, width as nat),
{
    let mut i: usize = 0;
    while i < m.len()
        invariant
            width >= 1,
            i <= m@.len(),
            forall|j: int|
                0 <= j < i ==> (#[trigger] m@[j]).row@.len() == width && m@[j].col_hat@.len() + 1
                    == width,
        decreases m@.len() - i,
    {
        if m[i].row.len() != width || m[i].col_hat.len() != width - 1 {
            return false;
        }
        i = i + 1;
    }
    true
}

impl Spec {
    /// The parameters fit together.
    ///
    /// The state has two elements at least and absorbs into all but the
    /// first. Half of the full rounds come before the partial rounds and half
    /// after them: `start` holds one vector more than the first half has
    /// rounds, `end` one less than the second half has.
    pub open spec fn wf(&self) -> bool {
        &&& self.t >= 2
        &&& self.rate + 1 == self.t
        &&& self.mds@.len() == self.t
        &&& rows_have_width(self.mds@, self.t as nat)
        &&& self.pre_sparse_mds@.len() == self.t
        &&& rows_have_width(self.pre_sparse_mds@, self.t as nat)
        &&& self.sparse_matrices@.len() == self.r_p
        &&& sparse_have_width(self.sparse_matrices@, self.t as nat)
        &&& self.partial@.len() == self.r_p
        &&& self.start@.len() == self.r_f / 2 + 1
        &&& rows_have_width(self.start@, self.t as nat)
        &&& self.end@.len() + 1 == self.r_f / 2
        &&& rows_have_width(self.end@, self.t as nat)
    }

    /// Checks that the parameters fit together.
    pub fn is_consistent(&self) -> (ok: bool)
        ensures
            ok == self.wf(),
    {
        self.t >= 2 && self.rate == self.t - 1 && self.mds.len() == self.t && check_rows(
            &self.mds,
            self.t,
        ) && self.pre_sparse_mds.len() == self.t && check_rows(&self.pre_sparse_mds, self.t)
            && self.sparse_matrices.len() == self.r_p && check_sparse(
            &self.sparse_matrices,
            self.t,
        ) && self.partial.len() == self.r_p && self.r_f / 2 >= 1 && self.start.len() >= 1
            && self.start.len() - 1 == self.r_f / 2 && check_rows(&self.start, self.t)
            && self.end.len() == self.r_f / 2 - 1 && check_rows(&self.end, self.t)
    }
}

} // verus!
