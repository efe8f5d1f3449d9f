//! Operations that the caller drives.
use vstd::prelude::*;

verus! {

/// What an operation asks for next. Nothing in this library performs I/O: an
/// operation is given an event and answers with a step, which is either
/// something to perform, whose outcome is the next event, or the result of the
/// operation.
#[derive(Debug)]
pub enum Step<A, R> {
    /// Perform this and report the outcome as the next event.
    Perform(A),
    /// The operation is over, with this result.
    Return(R),
}

} // verus!
