//! The undo history: the last snapshots of the document, cursor and mode.
use vstd::prelude::*;

use crate::app::Mode;
use crate::cursor::Cursor;

verus! {

/// The number of snapshots that the history keeps.
pub const MAX_SIZE: usize = 30;

/// A snapshot: the document's lines, the cursor and the mode.
pub type Snapshot = (Vec<String>, Cursor, Mode);

/// The snapshots taken, oldest first; at most `MAX_SIZE` of them.
pub struct UndoStack {
    snapshots: Vec<Snapshot>,
}

/// The history after pushing `entry`: the oldest snapshot is dropped when
/// the history is full.
pub open spec fn pushed(history: Seq<Snapshot>, entry: Snapshot) -> Seq<Snapshot> {
    if history.len() >= MAX_SIZE {
        history.skip(1).push(entry)
    } else {
        history.push(entry)
    }
}

impl View for UndoStack {
    type V = Seq<Snapshot>;

    closed spec fn view(&self) -> Seq<Snapshot> {
        self.snapshots@
    }
}

impl UndoStack {
    #[verifier::type_invariant]
    spec fn bounded(self) -> bool {
        self.snapshots@.len() <= MAX_SIZE
    }

    /// An empty history.
    pub fn new() -> (u: UndoStack)
        ensures
            u@ == Seq::<Snapshot>::empty(),
    {
        UndoStack { snapshots: Vec::new() }
    }

    /// Records a snapshot, dropping the oldest one when the history is full.
    pub fn push(&mut self, lines: Vec<String>, cursor: Cursor, mode: Mode)
        ensures
            final(self)@ == pushed(old(self)@, (lines, cursor, mode)),
            old(self)@.len() <= MAX_SIZE,
            final(self)@.len() <= MAX_SIZE,
    {
        proof {
            use_type_invariant(&*self);
        }
        let mut snapshots: Vec<Snapshot> = Vec::new();
        std::mem::swap(&mut snapshots, &mut self.snapshots);
        if snapshots.len() >= MAX_SIZE {
            snapshots.remove(0);
        }
        snapshots.push((lines, cursor, mode));
        assert(snapshots@ =~= pushed(old(self)@, (lines, cursor, mode)));
        self.snapshots = snapshots;
    }

    /// Takes the most recent snapshot out of the history.
    pub fn pop(&mut self) -> (res: Option<Snapshot>)
        ensures
            old(self)@.len() == 0 ==> res.is_none() && final(self)@ == old(self)@,
            old(self)@.len() > 0 ==> res == Some(old(self)@.last()) && final(self)@
                == old(self)@.drop_last(),
            final(self)@.len() <= MAX_SIZE,
    {
        proof {
            use_type_invariant(&*self);
        }
        let mut snapshots: Vec<Snapshot> = Vec::new();
        std::mem::swap(&mut snapshots, &mut self.snapshots);
        let res = snapshots.pop();
        self.snapshots = snapshots;
        res
    }
}

/// Popping right after a push gives back the pushed snapshot, and leaves the
/// history as it was, without its oldest snapshot if it was full.
pub proof fn law_pop_after_push(history: Seq<Snapshot>, entry: Snapshot)
    ensures
        pushed(history, entry).len() > 0,
        pushed(history, entry).last() == entry,
        pushed(history, entry).drop_last() == (if history.len() >= MAX_SIZE {
            history.skip(1)
        } else {
            history
        }),
{
    assert(history.skip(1).push(entry).drop_last() =~= history.skip(1));
    assert(history.push(entry).drop_last() =~= history);
}

/// A history of at most `MAX_SIZE` snapshots stays so after a push.
pub proof fn law_push_bounded(history: Seq<Snapshot>, entry: Snapshot)
    requires
        history.len() <= MAX_SIZE,
    ensures
        pushed(history, entry).len() <= MAX_SIZE,
        history.len() < MAX_SIZE ==> pushed(history, entry).len() == history.len() + 1,
{
}

} // verus!
