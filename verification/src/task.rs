use vstd::prelude::*;

verus! {

/// One checklist entry: a completion flag and one line of text.
pub struct Task {
    pub completed: bool,
    pub content: String,
}

/// The mathematical value of a [`Task`]: the flag and the text as a
/// sequence of characters.
#[verifier::ext_equal]
pub ghost struct TaskView {
    pub completed: bool,
    pub content: Seq<char>,
}

impl View for Task {
    type V = TaskView;

    open spec fn view(&self) -> TaskView {
        TaskView { completed: self.completed, content: self.content@ }
    }
}

impl Task {
    /// What toggling does to a task's value: the flag flips, the text stays.
    pub open spec fn toggled(t: TaskView) -> TaskView {
        TaskView { completed: !t.completed, content: t.content }
    }

    /// Flip the completion flag.
    pub fn select(&mut self)
        ensures
            final(self)@ == Task::toggled(old(self)@),
    {
        self.completed = !self.completed;
    }
}

/// Toggling a task twice restores its original value.
pub proof fn lemma_toggle_twice(t: TaskView)
    ensures
        Task::toggled(Task::toggled(t)) == t,
{
    assert(Task::toggled(Task::toggled(t)) =~= t);
}

} // verus!
