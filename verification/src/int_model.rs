//! Discrete integer domains with a reversible trail. Each registered
//! variable owns a current interval `[lb, ub]`; a lower bound only ever
//! increases and an upper bound only ever decreases until backtracked.
//! Every accepted narrowing logs one event that records exactly what is
//! needed to invert it, so restoring a saved level replays the events in
//! reverse-chronological order and recovers the earlier domains exactly.

use vstd::prelude::*;

use crate::bounds::IntCst;
use crate::trail::Trail;
use crate::trail::TrailView;
use crate::writer::WriterId;

verus! {

/// The current interval of one integer variable.
#[derive(Clone, Copy, PartialEq, Eq, Structural, Debug)]
pub struct IntDomain {
    pub lb: IntCst,
    pub ub: IntCst,
}

/// One narrowing of one variable: the unit of undo.
#[derive(Clone, Copy, PartialEq, Eq, Structural, Debug)]
pub struct VarEvent {
    pub var: usize,
    pub ev: DomEvent,
}

/// What changed: a new lower or upper bound, with the previous value.
#[derive(Clone, Copy, PartialEq, Eq, Structural, Debug)]
pub enum DomEvent {
    NewLB { prev: IntCst, new: IntCst },
    NewUB { prev: IntCst, new: IntCst },
}

/// One write request, as a pure value; the writes a driver can perform
/// between two checkpoints are a sequence of these.
#[derive(Clone, Copy, PartialEq, Eq, Structural, Debug)]
pub enum IntWrite {
    Lb { var: usize, value: IntCst, writer: WriterId },
    Ub { var: usize, value: IntCst, writer: WriterId },
}

/// The mathematical view of the integer model.
#[verifier::ext_equal]
pub ghost struct IntModelView {
    pub domains: Seq<IntDomain>,
    pub trail: TrailView<(VarEvent, WriterId)>,
}

/// Inverts one event on a domain sequence.
pub open spec fn undo_event(domains: Seq<IntDomain>, e: VarEvent) -> Seq<IntDomain> {
    if 0 <= e.var < domains.len() {
        match e.ev {
            DomEvent::NewLB { prev, new } => domains.update(
                e.var as int,
                IntDomain { lb: prev, ub: domains[e.var as int].ub },
            ),
            DomEvent::NewUB { prev, new } => domains.update(
                e.var as int,
                IntDomain { lb: domains[e.var as int].lb, ub: prev },
            ),
        }
    } else {
        domains
    }
}

/// Inverts a suffix of the trail, newest event first.
pub open spec fn undo_events(
    domains: Seq<IntDomain>,
    evs: Seq<(VarEvent, WriterId)>,
) -> Seq<IntDomain>
    decreases evs.len(),
{
    if evs.len() == 0 {
        domains
    } else {
        undo_events(undo_event(domains, evs.last().0), evs.drop_last())
    }
}

impl IntModelView {
    pub open spec fn wf(self) -> bool {
        &&& self.trail.wf()
        &&& forall|k: int|
            0 <= k < self.trail.events.len() ==> (#[trigger] self.trail.events[k]).0.var
                < self.domains.len()
    }

    /// The domains as they were when checkpoint `i` was taken: the current
    /// domains with every event logged after the checkpoint undone.
    pub open spec fn state_at(self, i: int) -> Seq<IntDomain> {
        undo_events(self.domains, self.trail.events.skip(self.trail.marks[i] as int))
    }

    /// The view after `save_state`.
    pub open spec fn apply_save(self) -> IntModelView {
        IntModelView {
            domains: self.domains,
            trail: TrailView {
                events: self.trail.events,
                marks: self.trail.marks.push(self.trail.events.len() as usize),
            },
        }
    }

    /// The view after `set_lb`: a no-op unless the new lower bound is
    /// strictly stronger, in which case the domain narrows and one event
    /// recording the previous value is logged.
    pub open spec fn apply_set_lb(self, var: usize, lb: IntCst, writer: WriterId) -> IntModelView {
        if var < self.domains.len() && self.domains[var as int].lb < lb {
            IntModelView {
                domains: self.domains.update(
                    var as int,
                    IntDomain { lb, ub: self.domains[var as int].ub },
                ),
                trail: TrailView {
                    events: self.trail.events.push(
                        (
                            VarEvent {
                                var,
                                ev: DomEvent::NewLB { prev: self.domains[var as int].lb, new: lb },
                            },
                            writer,
                        ),
                    ),
                    marks: self.trail.marks,
                },
            }
        } else {
            self
        }
    }

    /// The view after `set_ub`, symmetric to `apply_set_lb`.
    pub open spec fn apply_set_ub(self, var: usize, ub: IntCst, writer: WriterId) -> IntModelView {
        if var < self.domains.len() && self.domains[var as int].ub > ub {
            IntModelView {
                domains: self.domains.update(
                    var as int,
                    IntDomain { lb: self.domains[var as int].lb, ub },
                ),
                trail: TrailView {
                    events: self.trail.events.push(
                        (
                            VarEvent {
                                var,
                                ev: DomEvent::NewUB { prev: self.domains[var as int].ub, new: ub },
                            },
                            writer,
                        ),
                    ),
                    marks: self.trail.marks,
                },
            }
        } else {
            self
        }
    }

    pub open spec fn apply_write(self, w: IntWrite) -> IntModelView {
        match w {
            IntWrite::Lb { var, value, writer } => self.apply_set_lb(var, value, writer),
            IntWrite::Ub { var, value, writer } => self.apply_set_ub(var, value, writer),
        }
    }

    pub open spec fn apply_writes(self, ws: Seq<IntWrite>) -> IntModelView
        decreases ws.len(),
    {
        if ws.len() == 0 {
            self
        } else {
            self.apply_writes(ws.drop_last()).apply_write(ws.last())
        }
    }

    /// The view after `restore(lvl)`: the domains revert to the state at
    /// checkpoint `lvl`, the events above it are discarded, and the
    /// checkpoints from `lvl` on are popped.
    pub open spec fn apply_restore(self, lvl: int) -> IntModelView {
        IntModelView {
            domains: self.state_at(lvl - 1),
            trail: TrailView {
                events: self.trail.events.take(self.trail.marks[lvl - 1] as int),
                marks: self.trail.marks.take(lvl - 1),
            },
        }
    }
}

/// One write (effective or not) changes no saved state: for every existing
/// checkpoint, undoing the now-longer suffix still yields the same domains.
pub proof fn lemma_write_preserves_state_at(v: IntModelView, w: IntWrite)
    requires
        v.wf(),
        v.trail.events.len() < usize::MAX,
    ensures
        v.apply_write(w).wf(),
        v.apply_write(w).trail.marks == v.trail.marks,
        v.apply_write(w).domains.len() == v.domains.len(),
        forall|i: int|
            0 <= i < v.trail.marks.len() ==> #[trigger] v.apply_write(w).state_at(i) == v.state_at(
                i,
            ),
{
    let v2 = v.apply_write(w);
    if v2 != v {
        let e = v2.trail.events.last();
        assert(v2.trail.events == v.trail.events.push(e));
        assert(undo_event(v2.domains, e.0) =~= v.domains);
        assert forall|i: int| 0 <= i < v.trail.marks.len() implies #[trigger] v2.state_at(i)
            == v.state_at(i) by {
            let m = v.trail.marks[i] as int;
            let suffix = v.trail.events.skip(m);
            assert(v2.trail.events.skip(m) =~= suffix.push(e));
            assert(suffix.push(e).drop_last() =~= suffix);
            assert(undo_events(v2.domains, suffix.push(e)) == undo_events(
                undo_event(v2.domains, e.0),
                suffix,
            ));
        }
    }
}

/// No sequence of writes disturbs any state saved before them.
pub proof fn lemma_writes_preserve_state_at(v: IntModelView, ws: Seq<IntWrite>)
    requires
        v.wf(),
        v.trail.events.len() + ws.len() <= usize::MAX,
    ensures
        v.apply_writes(ws).wf(),
        v.apply_writes(ws).trail.events.len() <= v.trail.events.len() + ws.len(),
        v.apply_writes(ws).trail.marks == v.trail.marks,
        v.apply_writes(ws).domains.len() == v.domains.len(),
        forall|i: int|
            0 <= i < v.trail.marks.len() ==> #[trigger] v.apply_writes(ws).state_at(i)
                == v.state_at(i),
    decreases ws.len(),
{
    if ws.len() > 0 {
        lemma_writes_preserve_state_at(v, ws.drop_last());
        lemma_write_preserves_state_at(v.apply_writes(ws.drop_last()), ws.last());
    }
}

/// `save_state` followed by any sequence of writes and then `restore_last`
/// leaves the domains exactly as they were at the save, whatever the writes
/// did in between.
pub proof fn lemma_save_write_restore(v: IntModelView, ws: Seq<IntWrite>)
    requires
        v.wf(),
        v.trail.events.len() + ws.len() <= usize::MAX,
    ensures
        ({
            let after = v.apply_save().apply_writes(ws);
            &&& after.wf()
            &&& after.trail.marks.len() == v.trail.marks.len() + 1
            &&& after.apply_restore(after.trail.marks.len() as int).domains == v.domains
        }),
{
    let v1 = v.apply_save();
    assert forall|i: int| 0 <= i < v1.trail.marks.len() implies #[trigger] v1.trail.marks[i]
        <= v1.trail.events.len() by {
        if i < v.trail.marks.len() {
            assert(v1.trail.marks[i] == v.trail.marks[i]);
        } else {
            assert(v1.trail.marks[i] == v.trail.events.len());
        }
    }
    assert forall|i: int, j: int| 0 <= i <= j < v1.trail.marks.len() implies
        #[trigger] v1.trail.marks[i] <= #[trigger] v1.trail.marks[j] by {
        if j < v.trail.marks.len() {
            assert(v.trail.marks[i] <= v.trail.marks[j]);
        } else if i < v.trail.marks.len() {
            assert(v1.trail.marks[i] == v.trail.marks[i] && v.trail.marks[i]
                <= v.trail.events.len());
        }
    }
    assert(v1.wf());
    lemma_writes_preserve_state_at(v1, ws);
    let after = v1.apply_writes(ws);
    let n = after.trail.marks.len() as int;
    assert(after.state_at(n - 1) == v1.state_at(n - 1));
    assert(v1.trail.marks[n - 1] == v.trail.events.len());
    assert(v1.trail.events.skip(v.trail.events.len() as int) =~= Seq::<
        (VarEvent, WriterId),
    >::empty());
}

/// Integer domains, their reversible trail, and the saved levels.
pub struct IntModel {
    domains: Vec<IntDomain>,
    trail: Trail<(VarEvent, WriterId)>,
}

impl View for IntModel {
    type V = IntModelView;

    closed spec fn view(&self) -> IntModelView {
        IntModelView { domains: self.domains@, trail: self.trail@ }
    }
}

impl IntModel {
    pub fn new() -> (r: IntModel)
        ensures
            r@.domains =~= Seq::<IntDomain>::empty(),
            r@.trail.events =~= Seq::<(VarEvent, WriterId)>::empty(),
            r@.trail.marks =~= Seq::<usize>::empty(),
            r@.wf(),
    {
        IntModel { domains: Vec::new(), trail: Trail::new() }
    }

    /// Registers a new variable with initial domain `[lb, ub]` and returns
    /// its dense id. Registration is append-only: variables are never
    /// removed and their ids are assigned from 0 upward.
    pub fn new_var(&mut self, lb: IntCst, ub: IntCst) -> (var: usize)
        requires
            old(self)@.wf(),
        ensures
            final(self)@.wf(),
            var == old(self)@.domains.len(),
            final(self)@.domains == old(self)@.domains.push(IntDomain { lb, ub }),
            final(self)@.trail == old(self)@.trail,
    {
        let var = self.domains.len();
        self.domains.push(IntDomain { lb, ub });
        var
    }

    /// The number of events currently on the trail.
    pub fn num_events(&self) -> (n: usize)
        ensures
            n == self@.trail.events.len(),
    {
        self.trail.len()
    }

    pub fn num_vars(&self) -> (n: usize)
        ensures
            n == self@.domains.len(),
    {
        self.domains.len()
    }

    /// The current domain of a registered variable.
    pub fn domain_of(&self, var: usize) -> (d: &IntDomain)
        requires
            var < self@.domains.len(),
        ensures
            *d == self@.domains[var as int],
    {
        &self.domains[var]
    }

    /// Raises the lower bound of `var` to `lb`. A bound no stronger than the
    /// current one is a no-op: nothing is logged and nothing changes.
    pub fn set_lb(&mut self, var: usize, lb: IntCst, writer: WriterId)
        requires
            old(self)@.wf(),
            var < old(self)@.domains.len(),
        ensures
            final(self)@ == old(self)@.apply_set_lb(var, lb, writer),
            final(self)@.wf(),
            old(self)@.domains[var as int].lb >= lb ==> final(self)@ == old(self)@,
    {
        let prev = self.domains[var].lb;
        if prev < lb {
            let ub = self.domains[var].ub;
            self.domains[var] = IntDomain { lb, ub };
            let event = VarEvent { var, ev: DomEvent::NewLB { prev, new: lb } };
            self.trail.push((event, writer));
            proof {
                assert(self@ =~= old(self)@.apply_set_lb(var, lb, writer));
            }
        }
    }

    /// Lowers the upper bound of `var` to `ub`; no-op if not stronger.
    pub fn set_ub(&mut self, var: usize, ub: IntCst, writer: WriterId)
        requires
            old(self)@.wf(),
            var < old(self)@.domains.len(),
        ensures
            final(self)@ == old(self)@.apply_set_ub(var, ub, writer),
            final(self)@.wf(),
            old(self)@.domains[var as int].ub <= ub ==> final(self)@ == old(self)@,
    {
        let prev = self.domains[var].ub;
        if prev > ub {
            let lb = self.domains[var].lb;
            self.domains[var] = IntDomain { lb, ub };
            let event = VarEvent { var, ev: DomEvent::NewUB { prev, new: ub } };
            self.trail.push((event, writer));
            proof {
                assert(self@ =~= old(self)@.apply_set_ub(var, ub, writer));
            }
        }
    }

    /// Checkpoints the current state and returns the new level count.
    pub fn save_state(&mut self) -> (lvl: u32)
        requires
            old(self)@.wf(),
            old(self)@.trail.marks.len() < u32::MAX as usize,
        ensures
            final(self)@ == old(self)@.apply_save(),
            final(self)@.wf(),
            lvl as int == final(self)@.trail.marks.len(),
    {
        let lvl = self.trail.save_state();
        proof {
            assert(self@ =~= old(self)@.apply_save());
        }
        lvl
    }

    pub fn num_saved(&self) -> (n: u32)
        requires
            self@.trail.marks.len() <= u32::MAX as usize,
        ensures
            n as int == self@.trail.marks.len(),
    {
        self.trail.num_saved()
    }

    /// Undoes every event logged since the most recent checkpoint, newest
    /// first, and pops that checkpoint.
    pub fn restore_last(&mut self)
        requires
            old(self)@.wf(),
            old(self)@.trail.marks.len() > 0,
        ensures
            final(self)@ == old(self)@.apply_restore(old(self)@.trail.marks.len() as int),
            final(self)@.wf(),
            final(self)@.domains == old(self)@.state_at(old(self)@.trail.marks.len() - 1),
    {
        let target = self.trail.pop_mark();
        self.undo_to(target, Ghost(old(self)@), Ghost(old(self)@.trail.marks.len() - 1));
        proof {
            assert(self@ =~= old(self)@.apply_restore(old(self)@.trail.marks.len() as int));
        }
    }

    /// Restores the state to checkpoint `saved_id` (as returned by
    /// `save_state`), undoing every later level as well.
    pub fn restore(&mut self, saved_id: u32)
        requires
            old(self)@.wf(),
            1 <= saved_id <= old(self)@.trail.marks.len(),
        ensures
            final(self)@ == old(self)@.apply_restore(saved_id as int),
            final(self)@.wf(),
            final(self)@.domains == old(self)@.state_at(saved_id - 1),
    {
        let ghost v0 = old(self)@;
        let mut target: usize = 0;
        let goal = saved_id as usize - 1;
        while self.trail.num_marks() > goal
            invariant
                goal < v0.trail.marks.len(),
                goal <= self@.trail.marks.len() <= v0.trail.marks.len(),
                forall|i: int|
                    0 <= i < self@.trail.marks.len() ==> #[trigger] self@.trail.marks[i]
                        == v0.trail.marks[i],
                self@.trail.events == v0.trail.events,
                self@.domains == v0.domains,
                self@.trail.marks.len() == goal ==> target == v0.trail.marks[goal as int],
                v0.wf(),
            decreases self@.trail.marks.len(),
        {
            let ghost n = self@.trail.marks.len() as int;
            proof {
                assert(self@.trail.marks.last() == self@.trail.marks[n - 1]);
            }
            target = self.trail.pop_mark();
        }
        proof {
            assert(self@.trail.marks =~= v0.trail.marks.take(saved_id - 1));
        }
        self.undo_to(target, Ghost(v0), Ghost(saved_id - 1));
        proof {
            assert(self@ =~= old(self)@.apply_restore(saved_id as int));
        }
    }

    /// Pops and inverts events, newest first, until the trail length is back
    /// to `target`, the length saved by checkpoint `idx` of the view `v0`.
    fn undo_to(&mut self, target: usize, Ghost(v0): Ghost<IntModelView>, Ghost(idx): Ghost<int>)
        requires
            v0.wf(),
            0 <= idx < v0.trail.marks.len(),
            target == v0.trail.marks[idx],
            old(self)@.domains == v0.domains,
            old(self)@.trail.events == v0.trail.events,
            old(self)@.trail.marks == v0.trail.marks.take(idx),
        ensures
            final(self)@.domains == v0.state_at(idx),
            final(self)@.trail.events == v0.trail.events.take(target as int),
            final(self)@.trail.marks == v0.trail.marks.take(idx),
            final(self)@.wf(),
    {
        while self.trail.len() > target
            invariant
                v0.wf(),
                0 <= idx < v0.trail.marks.len(),
                target == v0.trail.marks[idx],
                self@.trail.marks == v0.trail.marks.take(idx),
                self@.trail.events == v0.trail.events.take(self@.trail.events.len() as int),
                target <= self@.trail.events.len() <= v0.trail.events.len(),
                self@.domains.len() == v0.domains.len(),
                self@.wf(),
                undo_events(self@.domains, self@.trail.events.skip(target as int)) == v0.state_at(
                    idx,
                ),
            decreases self@.trail.events.len(),
        {
            let ghost pre = self@;
            let (ev, _w) = self.trail.pop_event();
            proof {
                let suffix = pre.trail.events.skip(target as int);
                assert(suffix.len() > 0);
                assert(suffix.last() == pre.trail.events.last());
                assert(suffix.drop_last() =~= pre.trail.events.drop_last().skip(target as int));
                assert(undo_events(pre.domains, suffix) == undo_events(
                    undo_event(pre.domains, ev),
                    suffix.drop_last(),
                ));
                assert(pre.trail.events.drop_last() =~= v0.trail.events.take(
                    pre.trail.events.len() - 1,
                ));
                assert(ev.var < self@.domains.len());
            }
            match ev.ev {
                DomEvent::NewLB { prev, new: _new } => {
                    let ub = self.domains[ev.var].ub;
                    self.domains[ev.var] = IntDomain { lb: prev, ub };
                },
                DomEvent::NewUB { prev, new: _new } => {
                    let lb = self.domains[ev.var].lb;
                    self.domains[ev.var] = IntDomain { lb, ub: prev };
                },
            }
            proof {
                assert(self@.domains =~= undo_event(pre.domains, ev));
            }
        }
        proof {
            assert(self@.trail.events.skip(target as int) =~= Seq::<(VarEvent, WriterId)>::empty());
            assert(self@.trail.events =~= v0.trail.events.take(target as int));
        }
    }
}

} // verus!
