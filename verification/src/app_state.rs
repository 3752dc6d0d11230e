use vstd::prelude::*;
use vstd::string::*;
use crate::codec::line_core;
use crate::stateful_list::{step_next, step_previous, StatefulList};
use crate::task::{Task, TaskView};

verus! {

/// A key the interaction loop hands to the state: a printable
/// character, or one of the named keys the bindings use.
#[derive(PartialEq, Eq, Structural, Clone, Copy, Debug)]
pub enum Key {
    Char(char),
    Up,
    Down,
    Enter,
    Other,
}

/// What the interaction loop must do after a key was handled.
#[derive(PartialEq, Eq, Structural, Clone, Copy, Debug)]
pub enum Action {
    /// Leave the loop.
    Exit,
    /// Write the current tasks back to the source file.
    Persist,
    /// Draw again and wait for the next key.
    Continue,
}

/// Whether `key` toggles the selected task.
pub open spec fn is_toggle_key(key: Key) -> bool {
    key == Key::Char(' ') || key == Key::Enter
}

/// Whether `key` moves the cursor back.
pub open spec fn is_up_key(key: Key) -> bool {
    key == Key::Char('k') || key == Key::Up
}

/// Whether `key` moves the cursor forward.
pub open spec fn is_down_key(key: Key) -> bool {
    key == Key::Char('j') || key == Key::Down
}

/// The loaded checklist and the file it came from: everything the
/// interaction loop mutates.
pub struct AppState {
    pub tasks: StatefulList<Task>,
    pub path: String,
}

impl AppState {
    /// The state's invariant: the list is well formed and the source
    /// path is never empty.
    pub open spec fn wf(&self) -> bool {
        &&& self.tasks.wf()
        &&& self.path@.len() > 0
    }

    /// The row a task is shown as: `[x] text` or `[ ] text`.
    pub open spec fn row_of(t: TaskView) -> Seq<char> {
        line_core(t)
    }

    /// Compose the loaded tasks with the path of the file they came
    /// from; the cursor starts on the first task, when there is one.
    pub fn new(tasks: Vec<Task>, path: String) -> (s: Self)
        requires
            path@.len() > 0,
        ensures
            s.wf(),
            s.tasks.items == tasks,
            s.path == path,
            tasks@.len() > 0 ==> s.tasks.sel() == Option::Some(0int),
            tasks@.len() == 0 ==> s.tasks.sel() is None,
    {
        AppState { tasks: StatefulList::with_items(tasks), path }
    }

    /// The cursor position the display driver highlights.
    pub fn selected(&self) -> (r: Option<usize>)
        ensures
            match r {
                Option::Some(i) => self.tasks.sel() == Option::Some(i as int),
                Option::None => self.tasks.sel() is None,
            },
    {
        self.tasks.selected()
    }

    /// The rows the display driver shows, one per task, in order.
    pub fn rows(&self) -> (r: Vec<String>)
        ensures
            r@.len() == self.tasks.items@.len(),
            forall|j: int|
                0 <= j < r@.len() ==> r@[j]@ == AppState::row_of(self.tasks.items@[j]@),
    {
        let mut out: Vec<String> = Vec::new();
        let mut idx: usize = 0;
        while idx < self.tasks.items.len()
            invariant
                idx <= self.tasks.items@.len(),
                out@.len() == idx,
                forall|j: int|
                    0 <= j < idx ==> out@[j]@ == AppState::row_of(self.tasks.items@[j]@),
            decreases self.tasks.items@.len() - idx,
        {
            let t = &self.tasks.items[idx];
            let mut row = String::from_str("[");
            if t.completed {
                row.append("x");
            } else {
                row.append(" ");
            }
            row.append("] ");
            row.append(t.content.as_str());
            proof {
                reveal_strlit("[");
                reveal_strlit("x");
                reveal_strlit(" ");
                reveal_strlit("] ");
                assert(row@ =~= AppState::row_of(self.tasks.items@[idx as int]@));
            }
            out.push(row);
            idx += 1;
        }
        out
    }

    /// Toggle the task under the cursor; without a selection, change
    /// nothing.
    pub fn toggle_selected(&mut self)
        requires
            old(self).wf(),
        ensures
            final(self).wf(),
            final(self).path == old(self).path,
            final(self).tasks.sel() == old(self).tasks.sel(),
            final(self).tasks.items@.len() == old(self).tasks.items@.len(),
            match old(self).tasks.sel() {
                Option::None => final(self).tasks.items@ == old(self).tasks.items@,
                Option::Some(i) => {
                    &&& final(self).tasks.items@[i]@ == Task::toggled(
                        old(self).tasks.items@[i]@,
                    )
                    &&& forall|j: int|
                        0 <= j < old(self).tasks.items@.len() && j != i
                            ==> final(self).tasks.items@[j] == old(self).tasks.items@[j]
                },
            },
    {
        match self.tasks.selected() {
            Option::Some(index) => {
                self.tasks.items[index].select();
            },
            Option::None => {},
        }
    }

    /// Move the cursor one task forward, wrapping to the first.
    pub fn move_next(&mut self)
        requires
            old(self).wf(),
        ensures
            final(self).wf(),
            final(self).path == old(self).path,
            final(self).tasks.items == old(self).tasks.items,
            final(self).tasks.sel() == step_next(
                old(self).tasks.sel(),
                old(self).tasks.items@.len() as int,
            ),
    {
        self.tasks.next();
    }

    /// Move the cursor one task backward, wrapping to the last.
    pub fn move_previous(&mut self)
        requires
            old(self).wf(),
        ensures
            final(self).wf(),
            final(self).path == old(self).path,
            final(self).tasks.items == old(self).tasks.items,
            final(self).tasks.sel() == step_previous(
                old(self).tasks.sel(),
                old(self).tasks.items@.len() as int,
            ),
    {
        self.tasks.previous();
    }

    /// Dispatch one key: `q` exits, space and enter toggle the selected
    /// task, `S` asks the loop to persist, `k` and the up arrow move
    /// back, `j` and the down arrow move forward; any other key does
    /// nothing.
    pub fn handle_key(&mut self, key: Key) -> (action: Action)
        requires
            old(self).wf(),
        ensures
            final(self).wf(),
            final(self).path == old(self).path,
            action == if key == Key::Char('q') {
                Action::Exit
            } else if key == Key::Char('S') {
                Action::Persist
            } else {
                Action::Continue
            },
            key == Key::Char('q') || key == Key::Char('S') || key == Key::Other || (key
                matches Key::Char(c) && !is_toggle_key(key) && !is_up_key(key) && !is_down_key(
                key,
            )) ==> *final(self) == *old(self),
            is_toggle_key(key) ==> {
                &&& final(self).tasks.sel() == old(self).tasks.sel()
                &&& final(self).tasks.items@.len() == old(self).tasks.items@.len()
                &&& match old(self).tasks.sel() {
                    Option::None => final(self).tasks.items@ == old(self).tasks.items@,
                    Option::Some(i) => {
                        &&& final(self).tasks.items@[i]@ == Task::toggled(
                            old(self).tasks.items@[i]@,
                        )
                        &&& forall|j: int|
                            0 <= j < old(self).tasks.items@.len() && j != i
                                ==> final(self).tasks.items@[j] == old(self).tasks.items@[j]
                    },
                }
            },
            is_up_key(key) ==> {
                &&& final(self).tasks.items == old(self).tasks.items
                &&& final(self).tasks.sel() == step_previous(
                    old(self).tasks.sel(),
                    old(self).tasks.items@.len() as int,
                )
            },
            is_down_key(key) ==> {
                &&& final(self).tasks.items == old(self).tasks.items
                &&& final(self).tasks.sel() == step_next(
                    old(self).tasks.sel(),
                    old(self).tasks.items@.len() as int,
                )
            },
    {
        match key {
            Key::Char(c) => {
                if c == 'q' {
                    Action::Exit
                } else if c == ' ' {
                    self.toggle_selected();
                    Action::Continue
                } else if c == 'S' {
                    Action::Persist
                } else if c == 'k' {
                    self.move_previous();
                    Action::Continue
                } else if c == 'j' {
                    self.move_next();
                    Action::Continue
                } else {
                    Action::Continue
                }
            },
            Key::Enter => {
                self.toggle_selected();
                Action::Continue
            },
            Key::Up => {
                self.move_previous();
                Action::Continue
            },
            Key::Down => {
                self.move_next();
                Action::Continue
            },
            Key::Other => Action::Continue,
        }
    }
}

} // verus!
