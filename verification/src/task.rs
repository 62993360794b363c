use vstd::prelude::*;

verus! {

/// A single unit of work: a user-chosen display name and a completion flag.
pub struct Task {
    pub name: String,
    pub completed: bool,
}

/// The mathematical model of a task: the name's characters and the flag.
#[verifier::ext_equal]
pub ghost struct TaskView {
    pub name: Seq<char>,
    pub completed: bool,
}

impl View for Task {
    type V = TaskView;

    open spec fn view(&self) -> TaskView {
        TaskView { name: self.name@, completed: self.completed }
    }
}

impl Task {
    /// Creates a task with the given name, not yet completed.
    pub fn new(name: String) -> (t: Task)
        ensures
            t@ == (TaskView { name: name@, completed: false }),
    {
        Task { name, completed: false }
    }
}

} // verus!
