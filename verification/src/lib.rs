//! Partial evaluation for a rule-based policy engine: the constraints that
//! accumulate on an unbound variable, the resumable check that a new type
//! constraint is compatible with the earlier ones, and the simplification of
//! a finished set of bindings into flat boolean expressions.

pub mod bindings;
pub mod counter;
pub mod error;
pub mod events;
pub mod partial;
pub mod terms;
