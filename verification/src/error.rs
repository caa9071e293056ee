use vstd::prelude::*;

verus! {

/// The failures a repository operation can report.
///
/// Storage failures do not appear here: the repositories hold their rows in
/// memory, and the storage adapter around the library reports its own faults.
#[derive(Clone, Copy, PartialEq, Eq, Structural, Debug)]
pub enum Error {
    /// An empty or whitespace-only description, or a malformed
    /// time-or-delta input string.
    Validation,
    /// `stop` or `current` was invoked while the day has no active task.
    NoActiveTask,
    /// The task to stop already has an end time (defensive guard).
    AlreadyEnded,
    /// An edit would leave a task's end at or before its start.
    InvalidRange,
    /// A lookup by id found nothing where exactly one row was expected.
    NotFound,
}

} // verus!
