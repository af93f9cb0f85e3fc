//! Custom-gate kernel for a PLONK-style arithmetic-circuit compiler.
//!
//! The crate provides two batched custom gates (a bounded-width multiply-add
//! and a bounded-width subtraction with borrow), their witness generators,
//! the vanishing-polynomial/Lagrange-basis helpers used when evaluating
//! constraints over a coset, and the challenge-powered reduction helpers.
//! Constraints are stated and proved over the Goldilocks prime field and its
//! degree-4 extension.

pub mod binary_arithmetic;
pub mod binary_subtraction;
pub mod builder;
pub mod circuit;
pub mod extension;
pub mod field;
pub mod plonk_common;
