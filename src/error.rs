//! The errors that a command reports.

use vstd::prelude::*;

verus! {

/// Why a command stopped without writing anything.
#[derive(Debug, Clone, Copy, PartialEq, Eq, Structural)]
pub enum TaskError {
    /// A folder path with a blank segment (leading, trailing or doubled `/`).
    InvalidPath,
    /// No stored task has the id asked for.
    NotFound,
    /// An update that names nothing to change.
    NoUpdateFields,
    /// Every id is taken.
    IdSpaceExhausted,
}

impl TaskError {
    /// What the user is told.
    pub fn message(&self) -> (r: String)
        ensures
            *self == TaskError::InvalidPath ==> r@ == "Empty Folder Name Found\n\nHelp: Ensure there are no trailing slashes or double slashes!"@,
            *self == TaskError::NotFound ==> r@ == "No Task with that ID"@,
            *self == TaskError::NoUpdateFields ==> r@ == "Please Use an Update Flag!"@,
            *self == TaskError::IdSpaceExhausted ==> r@ == "Every task id is in use"@,
    {
        match self {
            TaskError::InvalidPath => String::from_str(
                "Empty Folder Name Found\n\nHelp: Ensure there are no trailing slashes or double slashes!",
            ),
            TaskError::NotFound => String::from_str("No Task with that ID"),
            TaskError::NoUpdateFields => String::from_str("Please Use an Update Flag!"),
            TaskError::IdSpaceExhausted => String::from_str("Every task id is in use"),
        }
    }
}

} // verus!
