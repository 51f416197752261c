use vstd::prelude::*;

verus! {

/// Progress of a task: a closed set of three states, so that an
/// out-of-range state is unrepresentable.
#[derive(Clone, Copy, PartialEq, Eq, Structural, Debug)]
pub enum Status {
    Pending,
    InProgress,
    Completed,
}

/// A unit of work tracked by id, title and status.
#[derive(Clone, PartialEq, Debug)]
pub struct Task {
    pub id: u64,
    pub title: String,
    pub status: Status,
}

/// Mathematical model of a task: the id, the title's characters, the status.
#[verifier::ext_equal]
pub ghost struct TaskView {
    pub id: u64,
    pub title: Seq<char>,
    pub status: Status,
}

impl View for Task {
    type V = TaskView;

    open spec fn view(&self) -> TaskView {
        TaskView { id: self.id, title: self.title@, status: self.status }
    }
}

/// Model of a whole collection of tasks, in insertion order.
pub open spec fn views_of(ts: Seq<Task>) -> Seq<TaskView> {
    ts.map_values(|t: Task| t@)
}

/// Make a task with the given id and title; a fresh task always starts Pending.
pub fn add_task(title: String, id: u64) -> (t: Task)
    ensures
        t@ == (TaskView { id, title: title@, status: Status::Pending }),
{
    Task { title, status: Status::Pending, id }
}

} // verus!
