//! The task record: the unit of data that the store keeps and the codec
//! persists.

use vstd::prelude::*;

verus! {

/// The mathematical value of a [`Task`]: its four fields as plain values.
pub struct TaskView {
    pub id: Seq<char>,
    pub title: Seq<char>,
    pub description: Seq<char>,
    pub is_done: bool,
}

/// A single to-do item. The `id` is assigned at creation and never changes;
/// `title` and `description` are free text; `is_done` starts false.
#[derive(Debug)]
pub struct Task {
    pub id: String,
    pub title: String,
    pub description: String,
    pub is_done: bool,
}

impl View for Task {
    type V = TaskView;

    open spec fn view(&self) -> TaskView {
        TaskView {
            id: self.id@,
            title: self.title@,
            description: self.description@,
            is_done: self.is_done,
        }
    }
}

/// The values of a sequence of tasks, field by field.
pub open spec fn views(ts: Seq<Task>) -> Seq<TaskView> {
    ts.map_values(|t: Task| t@)
}

impl Task {
    /// Builds a task from its four fields.
    pub fn new(id: String, title: String, description: String, is_done: bool) -> (t: Task)
        ensures
            t@ == (TaskView { id: id@, title: title@, description: description@, is_done }),
    {
        Task { id, title, description, is_done }
    }
}

} // verus!
