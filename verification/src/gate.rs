//! The arithmetic gate: its cells, its rows, and what it means to satisfy one.
//!
//! One row holds six witness cells and nine fixed coefficients and
//! enforces
//!
//! ```text
//! c0*l0 + c1*l1 + c2*l2 + c3*l3 + c4*d + c5*d_next + c6*l0*l3 + c7*l1*l2 + c8 = 0
//! ```
//!
//! in the field. A row is recorded with the witness that its author computed
//! for it. Two things are said of rows. The recorded witness *holds*: it
//! satisfies the equation. And the row is *enforced* by an assignment of
//! values to all cells, which is what a prover is held to: the values at the
//! places of the row satisfy the equation, and every slot that copies a cell
//! has the value of that cell.

use crate::field::{modulus, Fe};
use vstd::prelude::*;

verus! {

/// Why building the constraints stopped.
///
/// A claimed result that is not the computed one is no error of this kind:
/// it is a fault of the caller, who compares before binding (see
/// `PoseidonChip::assign_permute`).
#[derive(Clone, Copy, Debug, PartialEq, Eq, Structural)]
pub enum Error {
    /// The constraint system could not take what was asked of it: the rows
    /// ran out, or a cell that had to be bound has no place.
    ConstraintAllocation,
}

/// The place of a witness cell: the row it was written to and its column.
#[derive(Clone, Copy, Debug, PartialEq, Eq, Structural)]
pub struct CellRef {
    pub row: usize,
    /// The witness columns of the row are 0 to 4; cells that were assigned
    /// elsewhere have columns of their own.
    pub column: usize,
}

/// A field value, with the place of the cell that carries it once it has one.
#[derive(Clone, Copy, Debug)]
pub struct Limb {
    pub cell: Option<CellRef>,
    pub value: Fe,
}

impl Limb {
    /// A limb of the given value, at the given place if it has one.
    pub fn new(cell: Option<CellRef>, value: Fe) -> (r: Limb)
        ensures
            r == (Limb { cell, value }),
    {
        Limb { cell, value }
    }
}

impl Limb {
    /// Whether two limbs carry the same element of the field.
    pub fn same_value(&self, other: &Limb) -> (same: bool)
        ensures
            same == (self.value@ == other.value@),
    {
        self.value.equals(&other.value)
    }
}

/// The values of a vector of limbs.
pub open spec fn limb_values(s: Seq<Limb>) -> Seq<nat> {
    Seq::new(s.len(), |i: int| s[i].value@)
}

/// The column of the `d` slot; the `d_next` slot is the same column one row
/// further down.
pub const D_COLUMN: usize = 4;

/// Where the witness slot `slot` of the row at `offset` lies.
pub open spec fn place(offset: usize, slot: int) -> CellRef {
    if slot == 5 {
        CellRef { row: (offset + 1) as usize, column: 4 }
    } else {
        CellRef { row: offset, column: slot as usize }
    }
}

/// One emitted row: where it was written, what its witness slots held, and
/// its coefficients. A slot whose limb already has a place is a copy of that
/// cell.
#[derive(Clone, Copy, Debug)]
pub struct Line {
    /// The row that it was written to.
    pub offset: usize,
    /// The witness slots `l0`, `l1`, `l2`, `l3`, `d` and `d_next`.
    pub cells: [Option<Limb>; 6],
    /// The coefficients `c0` to `c8`.
    pub coeffs: [Option<Fe>; 9],
    /// A number that tells apart the calls that a row may belong to. It has
    /// no part in the equation.
    pub hint: u64,
}

/// The value in a witness slot; an empty slot counts as zero.
pub open spec fn cell_value(c: Option<Limb>) -> nat {
    match c {
        Some(l) => l.value@,
        None => 0,
    }
}

/// The value of a coefficient; an absent one counts as zero.
pub open spec fn coeff_value(c: Option<Fe>) -> nat {
    match c {
        Some(f) => f@,
        None => 0,
    }
}

/// The left-hand side of the row equation, as an integer.
#[verifier::opaque]
pub open spec fn gate_sum(cells: [Option<Limb>; 6], coeffs: [Option<Fe>; 9]) -> nat {
    coeff_value(coeffs[0]) * cell_value(cells[0]) + coeff_value(coeffs[1]) * cell_value(cells[1])
        + coeff_value(coeffs[2]) * cell_value(cells[2]) + coeff_value(coeffs[3]) * cell_value(
        cells[3],
    ) + coeff_value(coeffs[4]) * cell_value(cells[4]) + coeff_value(coeffs[5]) * cell_value(
        cells[5],
    ) + coeff_value(coeffs[6]) * cell_value(cells[0]) * cell_value(cells[3]) + coeff_value(
        coeffs[7],
    ) * cell_value(cells[1]) * cell_value(cells[2]) + coeff_value(coeffs[8])
}

/// The limb that the `d` slot of a row gives: its value at its place.
pub open spec fn produced(line: Line) -> Limb {
    Limb { cell: Some(place(line.offset, 4)), value: line.cells[4]->0.value }
}

/// What assigning one slot produces: nothing for an empty slot, else the limb
/// with its new place.
pub open spec fn assigned_slot(cells: [Option<Limb>; 6], offset: usize, slot: int) -> Seq<Limb> {
    match cells[slot] {
        Some(l) => seq![Limb { cell: Some(place(offset, slot)), value: l.value }],
        None => Seq::empty(),
    }
}

/// The limbs that a row hands back: those of its filled slots, in slot order,
/// each at its new place.
pub open spec fn assigned(cells: [Option<Limb>; 6], offset: usize) -> Seq<Limb> {
    assigned_slot(cells, offset, 0) + assigned_slot(cells, offset, 1) + assigned_slot(
        cells,
        offset,
        2,
    ) + assigned_slot(cells, offset, 3) + assigned_slot(cells, offset, 4) + assigned_slot(
        cells,
        offset,
        5,
    )
}

/// The rows that a line touches: two when it fills `d_next`, else one.
pub open spec fn line_height(cells: [Option<Limb>; 6]) -> int {
    if cells[5] is Some {
        2
    } else {
        1
    }
}

/// A value for every cell there could be: what a prover commits to.
pub type Assignment = spec_fn(CellRef) -> nat;

/// The value that an assignment gives to a cell.
pub open spec fn at(a: Assignment, c: CellRef) -> nat {
    a(c)
}

/// Every value of the assignment is a field element.
pub open spec fn in_field(a: Assignment) -> bool {
    forall|c: CellRef| (#[trigger] at(a, c)) < modulus()
}

/// The value that an assignment gives to the cell of a limb.
pub open spec fn read(a: Assignment, l: Limb) -> nat {
    at(a, l.cell->0)
}

/// The values that an assignment gives to the cells of a vector of limbs.
pub open spec fn reads(a: Assignment, s: Seq<Limb>) -> Seq<nat> {
    Seq::new(s.len(), |i: int| read(a, s[i]))
}

/// Up to index `i`, an assignment gives each cell of `after` the value at
/// the same index of `expected`.
pub open spec fn reads_upto(
    a: Assignment,
    after: Seq<Limb>,
    expected: Seq<nat>,
    i: int,
) -> bool {
    forall|j: int| 0 <= j < i ==> read(a, #[trigger] after[j]) == expected[j]
}

/// Every limb of the vector has a cell.
pub open spec fn all_placed(s: Seq<Limb>) -> bool {
    forall|i: int| 0 <= i < s.len() ==> (#[trigger] s[i]).cell is Some
}

/// The left-hand side of the row equation under an assignment: each slot
/// counts with the value of the cell where it lies, filled or not.
#[verifier::opaque]
pub open spec fn gate_at(a: Assignment, line: Line) -> nat {
    coeff_value(line.coeffs[0]) * at(a, place(line.offset, 0)) + coeff_value(line.coeffs[1]) * at(
        a,
        place(line.offset, 1),
    ) + coeff_value(line.coeffs[2]) * at(a, place(line.offset, 2)) + coeff_value(line.coeffs[3])
        * at(a, place(line.offset, 3)) + coeff_value(line.coeffs[4]) * at(
        a,
        place(line.offset, 4),
    ) + coeff_value(line.coeffs[5]) * at(a, place(line.offset, 5)) + coeff_value(line.coeffs[6])
        * at(a, place(line.offset, 0)) * at(a, place(line.offset, 3)) + coeff_value(
        line.coeffs[7],
    ) * at(a, place(line.offset, 1)) * at(a, place(line.offset, 2)) + coeff_value(line.coeffs[8])
}

impl Line {
    /// The witness of this row satisfies the row equation.
    pub open spec fn holds(self) -> bool {
        gate_sum(self.cells, self.coeffs) % modulus() == 0
    }

    /// Where a slot is the copy of a cell, the assignment gives both the same
    /// value.
    pub open spec fn copy_holds(self, a: Assignment, slot: int) -> bool {
        match self.cells[slot] {
            Some(l) => match l.cell {
                Some(src) => at(a, place(self.offset, slot)) == at(a, src),
                None => true,
            },
            None => true,
        }
    }

    /// The assignment satisfies what this row asks: the row equation, and
    /// the equality of every copy with its source.
    pub open spec fn enforced(self, a: Assignment) -> bool {
        &&& gate_at(a, self) % modulus() == 0
        &&& self.copy_holds(a, 0)
        &&& self.copy_holds(a, 1)
        &&& self.copy_holds(a, 2)
        &&& self.copy_holds(a, 3)
        &&& self.copy_holds(a, 4)
        &&& self.copy_holds(a, 5)
    }
}

} // verus!
