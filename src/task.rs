//! The stored task record.

use vstd::prelude::*;

verus! {

/// One stored task: where it is filed, what it says, its id and its status.
#[derive(Debug)]
pub struct Task {
    pub folder: String,
    pub task: String,
    pub id: i64,
    pub status: String,
}

/// What a task holds, as plain values.
pub struct TaskView {
    pub folder: Seq<char>,
    pub body: Seq<char>,
    pub id: i64,
    pub status: Seq<char>,
}

impl View for Task {
    type V = TaskView;

    open spec fn view(&self) -> TaskView {
        TaskView { folder: self.folder@, body: self.task@, id: self.id, status: self.status@ }
    }
}

/// The views of a sequence of tasks.
pub open spec fn views(ts: Seq<Task>) -> Seq<TaskView> {
    ts.map_values(|t: Task| t@)
}

impl Task {
    pub fn new(folder: String, task: String, id: i64, status: String) -> (r: Task)
        ensures
            r.folder == folder,
            r.task == task,
            r.id == id,
            r.status == status,
    {
        Task { folder, task, id, status }
    }

    /// A copy of the task.
    pub fn duplicate(&self) -> (r: Task)
        ensures
            r@ == self@,
    {
        Task {
            folder: self.folder.clone(),
            task: self.task.clone(),
            id: self.id,
            status: self.status.clone(),
        }
    }
}

} // verus!
