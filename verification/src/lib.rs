//! Constraint emission for a Poseidon-style sponge permutation.
//!
//! The crate arithmetizes the permutation over the base field of the Pallas
//! curve. Every step is written as rows of a single arithmetic gate and
//! recorded in a [`context::Context`]; laying the rows out in a proof system
//! is left to the caller.
//!
//! Four things are proved of every function that emits rows, where the rows
//! suffice:
//!
//! - how many rows it emits, and where its results lie: both depend on the
//!   width of the state and the round counts alone;
//! - which rows they are: the cells and the coefficients of each, in the
//!   order in which they are emitted;
//! - that the values it computes are those of the permutation
//!   ([`permutation`]), and that they satisfy the rows they were recorded
//!   with;
//! - that the rows bind: whatever values a prover assigns to the cells, if
//!   they satisfy the rows, the cells of the result have the values of the
//!   permutation of the input cells.
//!
//! Where the rows run out, a function stops with an error at the last row:
//! its contract says which state it leaves then.
//!
//! The modules, from the ground up: [`field`] holds the field elements,
//! [`gate`] the row and what it means to satisfy one, [`rows`] the four kinds
//! of rows in use, [`context`] the operations that emit them. [`params`]
//! holds the parameters of the permutation and [`permutation`] its
//! mathematics. [`state`], [`sbox`], [`mixing`] and [`rounds`] carry the state
//! through the permutation, [`chip`] makes a sponge of it, and [`theorems`]
//! says what holds across calls.

pub mod chip;
pub mod context;
pub mod field;
pub mod gate;
pub mod mixing;
pub mod params;
pub mod permutation;
pub mod rounds;
pub mod rows;
pub mod sbox;
pub mod state;
pub mod theorems;
