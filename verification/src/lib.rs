//! A model of register files that keep cipher and key values only as
//! exclusive-or sums spread over physical registers.
//!
//! The masking state is a matrix over GF(2): a row is a physical register,
//! a column one of the values, and a one says that the register holds the
//! value in its sum. `swap` has the matrix with its row operations, its
//! text form and its rank; `gf2`, `span` and `echelon` the mathematics
//! behind them, and `algebra` what holds of them for every matrix.
//! `safety` says when a state gives a value away and when it is an end
//! state, `walk` searches the safe states at random, and `states` keeps
//! the states that a walk has seen. `ops` is the arithmetic on a masked
//! register file.

pub mod algebra;
pub mod echelon;
pub mod gf2;
pub mod ops;
mod rng;
pub mod safety;
pub mod span;
pub mod states;
pub mod swap;
pub mod text;
pub mod walk;
