use vstd::prelude::*;
use crate::task::{Task, TaskView};

verus! {

/// The recoverable failures of the store's two state transitions.
#[derive(Debug, PartialEq, Eq, Structural)]
pub enum StoreError {
    /// A task may not be created with an empty name.
    EmptyNameRejected,
    /// A toggle addressed a position at or beyond the list length.
    IndexOutOfRange,
}

/// The model of a task vector: the sequence of task models, in storage order.
pub open spec fn views(s: Seq<Task>) -> Seq<TaskView> {
    s.map_values(|t: Task| t@)
}

/// The sequence with every completed task removed and the relative order of
/// the remaining tasks unchanged.
pub open spec fn pruned(s: Seq<TaskView>) -> Seq<TaskView>
    decreases s.len(),
{
    if s.len() == 0 {
        s
    } else if s[0].completed {
        pruned(s.drop_first())
    } else {
        seq![s[0]] + pruned(s.drop_first())
    }
}

proof fn lemma_views_push(s: Seq<Task>, t: Task)
    ensures
        views(s.push(t)) =~= views(s).push(t@),
{
}

proof fn lemma_views_update(s: Seq<Task>, i: int, t: Task)
    requires
        0 <= i < s.len(),
    ensures
        views(s.update(i, t)) =~= views(s).update(i, t@),
{
}

/// Appending one task prunes to the old pruning, with the task kept exactly
/// when it is not completed.
pub proof fn lemma_pruned_push(s: Seq<TaskView>, t: TaskView)
    ensures
        pruned(s.push(t)) == if t.completed {
            pruned(s)
        } else {
            pruned(s).push(t)
        },
    decreases s.len(),
{
    if s.len() == 0 {
        assert(s.push(t).drop_first() =~= s);
        if !t.completed {
            assert(seq![t] + pruned(s) =~= pruned(s).push(t));
        }
    } else {
        assert(s.push(t).drop_first() =~= s.drop_first().push(t));
        lemma_pruned_push(s.drop_first(), t);
        if !s[0].completed {
            if t.completed {
            } else {
                assert(seq![s[0]] + pruned(s.drop_first()).push(t) =~= (seq![s[0]]
                    + pruned(s.drop_first())).push(t));
            }
        }
    }
}

/// No task that survives pruning is completed.
pub proof fn lemma_pruned_incomplete(s: Seq<TaskView>)
    ensures
        forall|i: int| 0 <= i < pruned(s).len() ==> !(#[trigger] pruned(s)[i]).completed,
    decreases s.len(),
{
    if s.len() == 0 {
    } else {
        lemma_pruned_incomplete(s.drop_first());
        assert forall|i: int| 0 <= i < pruned(s).len() implies !(#[trigger] pruned(
            s,
        )[i]).completed by {
            if s[0].completed {
                assert(pruned(s)[i] == pruned(s.drop_first())[i]);
            } else if i == 0 {
                assert(pruned(s)[0] == s[0]);
            } else {
                assert(pruned(s)[i] == pruned(s.drop_first())[i - 1]);
            }
        }
    }
}

/// Pruning a sequence in which no task is completed changes nothing.
pub proof fn lemma_pruned_of_incomplete(s: Seq<TaskView>)
    requires
        forall|i: int| 0 <= i < s.len() ==> !(#[trigger] s[i]).completed,
    ensures
        pruned(s) == s,
    decreases s.len(),
{
    if s.len() == 0 {
    } else {
        lemma_pruned_of_incomplete(s.drop_first());
        assert(seq![s[0]] + s.drop_first() =~= s);
    }
}

/// Pruning twice in a row is the same as pruning once.
pub proof fn lemma_pruned_idempotent(s: Seq<TaskView>)
    ensures
        pruned(pruned(s)) == pruned(s),
{
    lemma_pruned_incomplete(s);
    lemma_pruned_of_incomplete(pruned(s));
}

/// The in-memory owner of the ordered task sequence.
///
/// Its model is the sequence of task models, newest at the end.
pub struct TaskStore {
    tasks: Vec<Task>,
}

impl View for TaskStore {
    type V = Seq<TaskView>;

    closed spec fn view(&self) -> Seq<TaskView> {
        views(self.tasks@)
    }
}

impl TaskStore {
    /// Creates an empty store.
    pub fn new() -> (s: TaskStore)
        ensures
            s@ =~= Seq::<TaskView>::empty(),
    {
        TaskStore { tasks: Vec::new() }
    }

    /// Wraps an already-built task vector, in its order.
    pub fn from_tasks(tasks: Vec<Task>) -> (s: TaskStore)
        ensures
            s@ == views(tasks@),
    {
        TaskStore { tasks }
    }

    /// The number of tasks currently held.
    pub fn len(&self) -> (n: usize)
        ensures
            n == self@.len(),
    {
        self.tasks.len()
    }

    /// Read-only view of the tasks in storage order (oldest first); the
    /// presentation layer reverses for display.
    pub fn list(&self) -> (r: &Vec<Task>)
        ensures
            views(r@) == self@,
    {
        &self.tasks
    }

    /// Appends a task with the given name, or rejects an empty name and
    /// leaves the list unchanged.
    pub fn add(&mut self, name: String) -> (r: Result<(), StoreError>)
        ensures
            name@.len() == 0 ==> r == Err::<(), StoreError>(StoreError::EmptyNameRejected)
                && final(self)@ == old(self)@,
            name@.len() > 0 ==> r == Ok::<(), StoreError>(()) && final(self)@ == old(self)@.push(
                TaskView { name: name@, completed: false },
            ),
    {
        if name.as_str().is_empty() {
            Err(StoreError::EmptyNameRejected)
        } else {
            let ghost pre = self.tasks@;
            let t = Task::new(name);
            self.tasks.push(t);
            proof {
                lemma_views_push(pre, t);
            }
            Ok(())
        }
    }

    /// Adds a task named by the staging buffer and clears the buffer; an
    /// empty buffer is rejected and both are left untouched.
    pub fn submit(&mut self, buffer: &mut String) -> (r: Result<(), StoreError>)
        ensures
            old(buffer)@.len() == 0 ==> r == Err::<(), StoreError>(StoreError::EmptyNameRejected)
                && final(self)@ == old(self)@ && final(buffer)@ == old(buffer)@,
            old(buffer)@.len() > 0 ==> r == Ok::<(), StoreError>(()) && final(self)@ == old(
                self,
            )@.push(TaskView { name: old(buffer)@, completed: false }) && final(buffer)@
                == Seq::<char>::empty(),
    {
        if buffer.as_str().is_empty() {
            Err(StoreError::EmptyNameRejected)
        } else {
            let mut name = String::new();
            core::mem::swap(&mut name, buffer);
            self.add(name)
        }
    }

    /// Flips the completion flag of the task at `index` and leaves every
    /// other task unchanged; an out-of-range index changes nothing.
    pub fn toggle(&mut self, index: usize) -> (r: Result<(), StoreError>)
        ensures
            index < old(self)@.len() ==> r == Ok::<(), StoreError>(()) && final(self)@ == old(
                self,
            )@.update(
                index as int,
                TaskView {
                    name: old(self)@[index as int].name,
                    completed: !old(self)@[index as int].completed,
                },
            ),
            index >= old(self)@.len() ==> r == Err::<(), StoreError>(StoreError::IndexOutOfRange)
                && final(self)@ == old(self)@,
    {
        if index < self.tasks.len() {
            let ghost pre = self.tasks@;
            let name = self.tasks[index].name.clone();
            let completed = self.tasks[index].completed;
            let t = Task { name, completed: !completed };
            self.tasks.set(index, t);
            proof {
                lemma_views_update(pre, index as int, t);
            }
            Ok(())
        } else {
            Err(StoreError::IndexOutOfRange)
        }
    }

    /// Removes every completed task, preserving the order of the remainder.
    pub fn prune_completed(&mut self)
        ensures
            final(self)@ == pruned(old(self)@),
    {
        let mut kept: Vec<Task> = Vec::new();
        let n = self.tasks.len();
        let mut i: usize = 0;
        while i < n
            invariant
                n == self.tasks@.len(),
                i <= n,
                self.tasks@ == old(self).tasks@,
                views(kept@) == pruned(views(self.tasks@.take(i as int))),
            decreases n - i,
        {
            let t = &self.tasks[i];
            let ghost prefix = views(self.tasks@.take(i as int));
            proof {
                assert(self.tasks@.take(i + 1).drop_last() =~= self.tasks@.take(i as int));
                assert(views(self.tasks@.take(i + 1)) =~= prefix.push(self.tasks@[i as int]@));
                lemma_pruned_push(prefix, self.tasks@[i as int]@);
            }
            if !t.completed {
                let ghost pre_kept = kept@;
                kept.push(Task { name: t.name.clone(), completed: t.completed });
                proof {
                    lemma_views_push(pre_kept, Task { name: t.name, completed: t.completed });
                }
            }
            i += 1;
        }
        proof {
            assert(self.tasks@.take(n as int) =~= self.tasks@);
        }
        self.tasks = kept;
    }
}

/// Maps a display position (most recent first) to the storage position that
/// `toggle` addresses; must be recomputed every frame.
pub fn storage_index_of_display(display: usize, len: usize) -> (r: usize)
    requires
        display < len,
    ensures
        r == len - 1 - display,
{
    len - 1 - display
}

} // verus!
