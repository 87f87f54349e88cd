//! A bounded undo and redo history of project snapshots.
use vstd::prelude::*;
use crate::model::Project;

verus! {

/// The most snapshots the undo stack keeps.
pub const MAX_HISTORY: usize = 100;

/// Snapshots to go back to, and snapshots undone that can be restored; the
/// most recent last in each.
pub struct History {
    pub undo_stack: Vec<Project>,
    pub redo_stack: Vec<Project>,
}

impl History {
    pub fn new() -> (r: History)
        ensures
            r.undo_stack@.len() == 0,
            r.redo_stack@.len() == 0,
    {
        History { undo_stack: Vec::new(), redo_stack: Vec::new() }
    }

    /// Records `project` as the latest state to undo to; clears what could
    /// be redone and drops the oldest snapshot beyond [`MAX_HISTORY`].
    pub fn push(&mut self, project: Project)
        ensures
            final(self).redo_stack@.len() == 0,
            final(self).undo_stack@ == (if old(self).undo_stack@.len() < MAX_HISTORY {
                old(self).undo_stack@.push(project)
            } else {
                old(self).undo_stack@.push(project).drop_first()
            }),
            old(self).undo_stack@.len() <= MAX_HISTORY ==> final(self).undo_stack@.len()
                <= MAX_HISTORY,
    {
        self.undo_stack.push(project);
        self.redo_stack.clear();
        if self.undo_stack.len() > MAX_HISTORY {
            self.undo_stack.remove(0);
            proof {
                assert(self.undo_stack@ =~= old(self).undo_stack@.push(project).drop_first());
            }
        }
    }

    /// Goes back to the latest snapshot, keeping `current` to redo; false,
    /// with nothing changed, when there is nothing to undo.
    pub fn undo(&mut self, current: &mut Project) -> (r: bool)
        ensures
            r == (old(self).undo_stack@.len() > 0),
            r ==> *final(current) == old(self).undo_stack@.last(),
            r ==> final(self).undo_stack@ == old(self).undo_stack@.drop_last(),
            r ==> final(self).redo_stack@ == old(self).redo_stack@.push(*old(current)),
            !r ==> *final(current) == *old(current) && *final(self) == *old(self),
    {
        if self.undo_stack.len() == 0 {
            return false;
        }
        match self.undo_stack.pop() {
            Some(previous) => {
                let mut snapshot = previous;
                core::mem::swap(current, &mut snapshot);
                self.redo_stack.push(snapshot);
                true
            },
            None => false,
        }
    }

    /// Restores the latest undone snapshot, keeping `current` to undo; false,
    /// with nothing changed, when there is nothing to redo.
    pub fn redo(&mut self, current: &mut Project) -> (r: bool)
        ensures
            r == (old(self).redo_stack@.len() > 0),
            r ==> *final(current) == old(self).redo_stack@.last(),
            r ==> final(self).redo_stack@ == old(self).redo_stack@.drop_last(),
            r ==> final(self).undo_stack@ == old(self).undo_stack@.push(*old(current)),
            !r ==> *final(current) == *old(current) && *final(self) == *old(self),
    {
        if self.redo_stack.len() == 0 {
            return false;
        }
        match self.redo_stack.pop() {
            Some(next) => {
                let mut snapshot = next;
                core::mem::swap(current, &mut snapshot);
                self.undo_stack.push(snapshot);
                true
            },
            None => false,
        }
    }
}

} // verus!
