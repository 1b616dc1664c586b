//! A small task tracker: an in-memory task collection with a delimited
//! text codec, so that one backing file can persist the tasks between runs.

use vstd::prelude::*;

pub mod codec;
pub mod render;
pub mod store;
pub mod task;

verus! {

/// The closed set of failures a store operation can surface.
#[derive(Debug, Clone, Copy, PartialEq, Eq, Structural)]
pub enum TodoError {
    /// The backing file could not be read or written.
    IOError,
    /// The backing file's content is not a well-formed task table.
    DecodeError,
    /// An edit or removal named an id that no task carries.
    NotFoundError,
}

impl TodoError {
    /// The user-facing description of the failure.
    pub fn message(&self) -> (r: &'static str)
        ensures
            *self == TodoError::IOError ==> r@ == "The task file could not be accessed."@,
            *self == TodoError::DecodeError ==> r@ == "The task file is malformed."@,
            *self == TodoError::NotFoundError ==> r@ == "Task not found."@,
    {
        match self {
            TodoError::IOError => "The task file could not be accessed.",
            TodoError::DecodeError => "The task file is malformed.",
            TodoError::NotFoundError => "Task not found.",
        }
    }
}

} // verus!
