//! Errors of the evaluator's own state.

use vstd::prelude::*;

verus! {

/// A failure that points to a fault in the evaluator, not in its input.
#[derive(Debug, PartialEq, Eq)]
pub enum OperationalError {
    /// An answer arrived that nothing had asked for.
    InvalidState(String),
}

/// The message of the error that an answer under a wrong call identifier
/// gets.
pub open spec fn unexpected_call_id() -> Seq<char> {
    "Unexpected call id"@
}

impl OperationalError {
    /// The message that the error carries.
    pub open spec fn message(self) -> Seq<char> {
        match self {
            OperationalError::InvalidState(msg) => msg@,
        }
    }

    /// The error's message as text.
    pub fn to_string(&self) -> (r: String)
        ensures
            r@ == self.message(),
    {
        match self {
            OperationalError::InvalidState(msg) => msg.clone(),
        }
    }
}

} // verus!
