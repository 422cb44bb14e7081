//! What a resumable computation tells the evaluator that drives it.

use crate::terms::Symbol;
use vstd::prelude::*;

verus! {

/// The outcome of one step of a resumable computation.
#[derive(Debug, PartialEq, Eq)]
pub enum QueryEvent {
    /// The computation has finished with this result.
    Done { result: bool },
    /// The computation waits for the host to say whether the left class is a
    /// subclass of the right one. The answer comes back under `call_id`.
    ExternalIsSubclass { call_id: u64, left_class_tag: Symbol, right_class_tag: Symbol },
}

/// The model of an event.
pub enum QueryEventView {
    Done { result: bool },
    ExternalIsSubclass { call_id: u64, left_class_tag: Seq<char>, right_class_tag: Seq<char> },
}

impl View for QueryEvent {
    type V = QueryEventView;

    open spec fn view(&self) -> QueryEventView {
        match self {
            QueryEvent::Done { result } => QueryEventView::Done { result: *result },
            QueryEvent::ExternalIsSubclass { call_id, left_class_tag, right_class_tag } => {
                QueryEventView::ExternalIsSubclass {
                    call_id: *call_id,
                    left_class_tag: left_class_tag@,
                    right_class_tag: right_class_tag@,
                }
            },
        }
    }
}

} // verus!
