use vstd::prelude::*;

verus! {

/// A unique identifier for a task (thread or future) in one execution of a test.
///
/// Task identifiers are handed out in creation order, starting from 0 for the main thread.
#[derive(Clone, Copy, Debug, PartialEq, Eq, Structural, Hash, PartialOrd, Ord)]
pub struct TaskId(pub usize);

} // verus!
