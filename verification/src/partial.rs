//! Partial evaluation: constraints on unbound variables and their
//! simplification.

pub mod constraints;
pub mod simplify;
