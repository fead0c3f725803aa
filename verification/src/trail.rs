//! The reversible trail: an append-only log of events together with a stack
//! of saved positions (decision levels). Events above the last saved position
//! can be popped in strict reverse-chronological order, which is how the
//! domain models undo their writes.

use vstd::prelude::*;

verus! {

/// The mathematical view of a trail: the logged events and the stack of
/// saved trail lengths.
#[verifier::ext_equal]
pub ghost struct TrailView<E> {
    pub events: Seq<E>,
    pub marks: Seq<usize>,
}

impl<E> TrailView<E> {
    /// Every mark lies within the log and the marks are nondecreasing, so
    /// popping events down to the last mark never crosses an earlier one.
    pub open spec fn wf(self) -> bool {
        &&& self.events.len() <= usize::MAX
        &&& forall|i: int| 0 <= i < self.marks.len() ==> #[trigger] self.marks[i] <= self.events.len()
        &&& forall|i: int, j: int|
            0 <= i <= j < self.marks.len() ==> #[trigger] self.marks[i] <= #[trigger] self.marks[j]
    }
}

/// Append-only event log with save/restore positions.
pub struct Trail<E> {
    events: Vec<E>,
    marks: Vec<usize>,
}

impl<E> View for Trail<E> {
    type V = TrailView<E>;

    closed spec fn view(&self) -> TrailView<E> {
        TrailView { events: self.events@, marks: self.marks@ }
    }
}

impl<E> Trail<E> {
    pub fn new() -> (r: Trail<E>)
        ensures
            r@.events =~= Seq::<E>::empty(),
            r@.marks =~= Seq::<usize>::empty(),
            r@.wf(),
    {
        Trail { events: Vec::new(), marks: Vec::new() }
    }

    pub fn len(&self) -> (n: usize)
        ensures
            n == self@.events.len(),
    {
        self.events.len()
    }

    /// Logs one event at the current level.
    pub fn push(&mut self, e: E)
        ensures
            final(self)@.events == old(self)@.events.push(e),
            final(self)@.marks == old(self)@.marks,
            old(self)@.wf() ==> final(self)@.wf(),
    {
        self.events.push(e);
        proof {
            assert(self.events.len() <= usize::MAX);
        }
    }

    /// Checkpoints the current trail length and returns the new number of
    /// saved levels.
    pub fn save_state(&mut self) -> (lvl: u32)
        requires
            old(self)@.marks.len() < u32::MAX as usize,
        ensures
            final(self)@.events == old(self)@.events,
            final(self)@.marks == old(self)@.marks.push(old(self)@.events.len() as usize),
            lvl as int == final(self)@.marks.len(),
            old(self)@.wf() ==> final(self)@.wf(),
    {
        let n = self.events.len();
        self.marks.push(n);
        self.marks.len() as u32
    }

    /// The number of active checkpoints, as a plain machine word.
    pub fn num_marks(&self) -> (n: usize)
        ensures
            n == self@.marks.len(),
    {
        self.marks.len()
    }

    /// The number of active checkpoints.
    pub fn num_saved(&self) -> (n: u32)
        requires
            self@.marks.len() <= u32::MAX as usize,
        ensures
            n as int == self@.marks.len(),
    {
        self.marks.len() as u32
    }

    /// Pops the most recent checkpoint and returns the trail length it had
    /// saved; the events above it are still logged and must be popped by the
    /// caller, newest first.
    pub fn pop_mark(&mut self) -> (target: usize)
        requires
            old(self)@.marks.len() > 0,
        ensures
            final(self)@.events == old(self)@.events,
            final(self)@.marks == old(self)@.marks.drop_last(),
            target == old(self)@.marks.last(),
            old(self)@.wf() ==> final(self)@.wf(),
    {
        let t = self.marks.pop();
        match t {
            Some(target) => target,
            None => vstd::pervasive::unreached(),
        }
    }

    /// Removes and returns the newest event. Only events above every
    /// remaining checkpoint may be popped.
    pub fn pop_event(&mut self) -> (e: E)
        requires
            old(self)@.events.len() > 0,
            old(self)@.marks.len() > 0 ==> old(self)@.marks.last() < old(self)@.events.len(),
            old(self)@.wf(),
        ensures
            final(self)@.events == old(self)@.events.drop_last(),
            final(self)@.marks == old(self)@.marks,
            e == old(self)@.events.last(),
            final(self)@.wf(),
    {
        let e = self.events.pop();
        match e {
            Some(e) => e,
            None => vstd::pervasive::unreached(),
        }
    }
}

} // verus!
