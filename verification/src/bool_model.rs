//! Boolean domains with a reversible trail: bindings from boolean model
//! variables to solver literals, current truth values, and the event log
//! that lets every assignment be undone in reverse-chronological order.
//!
//! Writing a value that contradicts the current one (with no intervening
//! restore) is a contract violation: `set` requires it away, the boolean
//! analogue of the fatal assertion class of failures. Writing an
//! already-implied value is a no-op that logs nothing.

use vstd::prelude::*;

use crate::bounds::BVar;
use crate::lit::Lit;
use crate::trail::Trail;
use crate::trail::TrailView;
use crate::writer::WriterId;

verus! {

/// The mathematical view of the boolean model: finite maps from variable ids
/// to bound literals and current values, plus the trail.
#[verifier::ext_equal]
pub ghost struct BoolModelView {
    pub binding: Map<u32, Lit>,
    pub values: Map<u32, bool>,
    pub trail: TrailView<(Lit, WriterId)>,
}

/// Inverts one assignment: the variable becomes unset again.
pub open spec fn undo_bool_event(values: Map<u32, bool>, l: Lit) -> Map<u32, bool> {
    values.remove(l.spec_var())
}

/// Inverts a suffix of the trail, newest event first.
pub open spec fn undo_bool_events(values: Map<u32, bool>, evs: Seq<(Lit, WriterId)>) -> Map<
    u32,
    bool,
>
    decreases evs.len(),
{
    if evs.len() == 0 {
        values
    } else {
        undo_bool_events(undo_bool_event(values, evs.last().0), evs.drop_last())
    }
}

impl BoolModelView {
    /// The value a literal takes under the current assignment, if any.
    pub open spec fn spec_value(self, lit: Lit) -> Option<bool> {
        if self.values.contains_key(lit.spec_var()) {
            Some(
                if lit.spec_value() {
                    self.values[lit.spec_var()]
                } else {
                    !self.values[lit.spec_var()]
                },
            )
        } else {
            None
        }
    }

    /// The values as they were when checkpoint `i` was taken.
    pub open spec fn state_at(self, i: int) -> Map<u32, bool> {
        undo_bool_events(self.values, self.trail.events.skip(self.trail.marks[i] as int))
    }

    /// The view after `save_state`.
    pub open spec fn apply_save(self) -> BoolModelView {
        BoolModelView {
            binding: self.binding,
            values: self.values,
            trail: TrailView {
                events: self.trail.events,
                marks: self.trail.marks.push(self.trail.events.len() as usize),
            },
        }
    }

    /// The view after `set(lit, writer)`: a no-op when the variable already
    /// holds the asserted value, otherwise the assignment is recorded and one
    /// event is logged.
    pub open spec fn apply_set(self, lit: Lit, writer: WriterId) -> BoolModelView {
        if self.values.contains_key(lit.spec_var()) {
            self
        } else {
            BoolModelView {
                binding: self.binding,
                values: self.values.insert(lit.spec_var(), lit.spec_value()),
                trail: TrailView {
                    events: self.trail.events.push((lit, writer)),
                    marks: self.trail.marks,
                },
            }
        }
    }

    pub open spec fn apply_writes(self, ws: Seq<(Lit, WriterId)>) -> BoolModelView
        decreases ws.len(),
    {
        if ws.len() == 0 {
            self
        } else {
            self.apply_writes(ws.drop_last()).apply_set(ws.last().0, ws.last().1)
        }
    }

    /// The view after `restore(lvl)`.
    pub open spec fn apply_restore(self, lvl: int) -> BoolModelView {
        BoolModelView {
            binding: self.binding,
            values: self.state_at(lvl - 1),
            trail: TrailView {
                events: self.trail.events.take(self.trail.marks[lvl - 1] as int),
                marks: self.trail.marks.take(lvl - 1),
            },
        }
    }
}

/// One write (effective or not) changes no saved state.
pub proof fn lemma_bool_write_preserves_state_at(v: BoolModelView, lit: Lit, writer: WriterId)
    requires
        v.trail.wf(),
        v.trail.events.len() < usize::MAX,
    ensures
        v.apply_set(lit, writer).trail.wf(),
        v.apply_set(lit, writer).trail.marks == v.trail.marks,
        v.apply_set(lit, writer).binding == v.binding,
        forall|i: int|
            0 <= i < v.trail.marks.len() ==> #[trigger] v.apply_set(lit, writer).state_at(i)
                == v.state_at(i),
{
    let v2 = v.apply_set(lit, writer);
    if !v.values.contains_key(lit.spec_var()) {
        let e = (lit, writer);
        assert(undo_bool_event(v2.values, lit) =~= v.values);
        assert forall|i: int| 0 <= i < v.trail.marks.len() implies #[trigger] v2.state_at(i)
            == v.state_at(i) by {
            let m = v.trail.marks[i] as int;
            let suffix = v.trail.events.skip(m);
            assert(v2.trail.events.skip(m) =~= suffix.push(e));
            assert(suffix.push(e).drop_last() =~= suffix);
            assert(undo_bool_events(v2.values, suffix.push(e)) == undo_bool_events(
                undo_bool_event(v2.values, e.0),
                suffix,
            ));
        }
    }
}

/// No sequence of writes disturbs any state saved before them.
pub proof fn lemma_bool_writes_preserve_state_at(v: BoolModelView, ws: Seq<(Lit, WriterId)>)
    requires
        v.trail.wf(),
        v.trail.events.len() + ws.len() <= usize::MAX,
    ensures
        v.apply_writes(ws).trail.wf(),
        v.apply_writes(ws).trail.marks == v.trail.marks,
        v.apply_writes(ws).binding == v.binding,
        v.apply_writes(ws).trail.events.len() <= v.trail.events.len() + ws.len(),
        forall|i: int|
            0 <= i < v.trail.marks.len() ==> #[trigger] v.apply_writes(ws).state_at(i)
                == v.state_at(i),
    decreases ws.len(),
{
    if ws.len() > 0 {
        lemma_bool_writes_preserve_state_at(v, ws.drop_last());
        lemma_bool_write_preserves_state_at(
            v.apply_writes(ws.drop_last()),
            ws.last().0,
            ws.last().1,
        );
    }
}

/// `save_state` followed by any sequence of writes and then `restore_last`
/// leaves the boolean assignment exactly as it was at the save.
pub proof fn lemma_bool_save_write_restore(v: BoolModelView, ws: Seq<(Lit, WriterId)>)
    requires
        v.trail.wf(),
        v.trail.events.len() + ws.len() <= usize::MAX,
    ensures
        ({
            let after = v.apply_save().apply_writes(ws);
            &&& after.trail.marks.len() == v.trail.marks.len() + 1
            &&& after.apply_restore(after.trail.marks.len() as int).values == v.values
        }),
{
    let v1 = v.apply_save();
    assert forall|i: int| 0 <= i < v1.trail.marks.len() implies #[trigger] v1.trail.marks[i]
        <= v1.trail.events.len() by {
        if i < v.trail.marks.len() {
            assert(v1.trail.marks[i] == v.trail.marks[i]);
        } else {
            assert(v1.trail.marks[i] == v.trail.events.len());
        }
    }
    assert forall|i: int, j: int| 0 <= i <= j < v1.trail.marks.len() implies
        #[trigger] v1.trail.marks[i] <= #[trigger] v1.trail.marks[j] by {
        if j < v.trail.marks.len() {
            assert(v.trail.marks[i] <= v.trail.marks[j]);
        } else if i < v.trail.marks.len() {
            assert(v1.trail.marks[i] == v.trail.marks[i] && v.trail.marks[i]
                <= v.trail.events.len());
        }
    }
    assert(v1.trail.wf());
    lemma_bool_writes_preserve_state_at(v1, ws);
    let after = v1.apply_writes(ws);
    let n = after.trail.marks.len() as int;
    assert(after.state_at(n - 1) == v1.state_at(n - 1));
    assert(v1.trail.marks[n - 1] == v.trail.events.len());
    assert(v1.trail.events.skip(v.trail.events.len() as int) =~= Seq::<(Lit, WriterId)>::empty());
}

/// Bindings from boolean variables to literals, current values of solver
/// variables, and the reversible trail of assignments.
pub struct BoolModel {
    binding: Vec<Option<Lit>>,
    values: Vec<Option<bool>>,
    trail: Trail<(Lit, WriterId)>,
}

impl View for BoolModel {
    type V = BoolModelView;

    closed spec fn view(&self) -> BoolModelView {
        BoolModelView {
            binding: Map::new(
                |k: u32| 0 <= k < self.binding@.len() && self.binding@[k as int] is Some,
                |k: u32| self.binding@[k as int].unwrap(),
            ),
            values: Map::new(
                |k: u32| 0 <= k < self.values@.len() && self.values@[k as int] is Some,
                |k: u32| self.values@[k as int].unwrap(),
            ),
            trail: self.trail@,
        }
    }
}

impl BoolModel {
    /// The private well-formedness of the representation: the trail is
    /// well-formed, every logged assignment is still in force, and every
    /// logged variable has a slot in the value table.
    pub closed spec fn inv(self) -> bool {
        &&& self.trail@.wf()
        &&& forall|k: int|
            0 <= k < self.trail@.events.len() ==> (#[trigger] self.trail@.events[k]).0.spec_var()
                < self.values@.len()
    }

    pub fn new() -> (r: BoolModel)
        ensures
            r@.binding =~= Map::<u32, Lit>::empty(),
            r@.values =~= Map::<u32, bool>::empty(),
            r@.trail.events =~= Seq::<(Lit, WriterId)>::empty(),
            r@.trail.marks =~= Seq::<usize>::empty(),
            r.inv(),
    {
        let r = BoolModel { binding: Vec::new(), values: Vec::new(), trail: Trail::new() };
        proof {
            assert(r@.binding =~= Map::<u32, Lit>::empty());
            assert(r@.values =~= Map::<u32, bool>::empty());
        }
        r
    }

    /// Associates boolean variable `k` with literal `lit`. A variable is
    /// bound at most once.
    pub fn bind(&mut self, k: BVar, lit: Lit)
        requires
            old(self).inv(),
            !old(self)@.binding.contains_key(old(self).spec_bvar_id(k)),
        ensures
            final(self).inv(),
            final(self)@.binding == old(self)@.binding.insert(old(self).spec_bvar_id(k), lit),
            final(self)@.values == old(self)@.values,
            final(self)@.trail == old(self)@.trail,
    {
        let id = k.var.id as usize;
        while self.binding.len() <= id
            invariant
                id <= u32::MAX,
                self@ == old(self)@,
                self.inv(),
                self.values@ == old(self).values@,
                self.trail@ == old(self).trail@,
            decreases id + 1 - self.binding@.len(),
        {
            self.binding.push(None);
            proof {
                assert(self@.binding =~= old(self)@.binding);
            }
        }
        self.binding[id] = Some(lit);
        proof {
            assert(self@.binding =~= old(self)@.binding.insert(k.var.id, lit));
            assert(self@.values =~= old(self)@.values);
        }
    }

    /// The id a `BVar` is tracked under.
    pub open spec fn spec_bvar_id(self, k: BVar) -> u32 {
        k.var.id
    }

    /// The number of events currently on the trail.
    pub fn num_events(&self) -> (n: usize)
        ensures
            n == self@.trail.events.len(),
    {
        self.trail.len()
    }

    /// The literal a boolean variable was bound to, if any.
    pub fn literal_of(&self, bvar: BVar) -> (r: Option<Lit>)
        ensures
            r == if self@.binding.contains_key(self.spec_bvar_id(bvar)) {
                Some(self@.binding[self.spec_bvar_id(bvar)])
            } else {
                None::<Lit>
            },
    {
        let id = bvar.var.id as usize;
        if id < self.binding.len() {
            self.binding[id]
        } else {
            None
        }
    }

    /// The current value of a literal: the value of its variable, flipped
    /// for a negative literal; `None` while the variable is unset.
    pub fn value(&self, lit: Lit) -> (r: Option<bool>)
        ensures
            r == self@.spec_value(lit),
    {
        let var = lit.variable() as usize;
        if var < self.values.len() {
            match self.values[var] {
                Some(value) => Some(if lit.value() { value } else { !value }),
                None => None,
            }
        } else {
            None
        }
    }

    /// The current value of a bound boolean variable.
    pub fn value_of(&self, v: BVar) -> (r: Option<bool>)
        ensures
            r == if self@.binding.contains_key(self.spec_bvar_id(v)) {
                self@.spec_value(self@.binding[self.spec_bvar_id(v)])
            } else {
                None::<bool>
            },
    {
        match self.literal_of(v) {
            Some(lit) => self.value(lit),
            None => None,
        }
    }

    /// Asserts `lit` under the identity of `writer`. Writing a literal that
    /// is currently false — its variable holds the opposite value — is a
    /// contract violation; writing an already-implied value is a no-op that
    /// logs no event.
    pub fn set(&mut self, lit: Lit, writer: WriterId)
        requires
            old(self).inv(),
            old(self)@.spec_value(lit) != Some(false),
            old(self)@.trail.events.len() < usize::MAX,
        ensures
            final(self).inv(),
            final(self)@ == old(self)@.apply_set(lit, writer),
            old(self)@.values.contains_key(lit.spec_var()) ==> final(self)@ == old(self)@,
    {
        let var = lit.variable() as usize;
        while self.values.len() <= var
            invariant
                var <= u32::MAX,
                self@ == old(self)@,
                self.inv(),
                self.binding@ == old(self).binding@,
                self.trail@ == old(self).trail@,
            decreases var + 1 - self.values@.len(),
        {
            self.values.push(None);
            proof {
                assert(self@.values =~= old(self)@.values);
            }
        }
        match self.values[var] {
            None => {
                self.values[var] = Some(lit.value());
                self.trail.push((lit, writer));
                proof {
                    assert(self@.values =~= old(self)@.values.insert(
                        lit.spec_var(),
                        lit.spec_value(),
                    ));
                    assert(self@ =~= old(self)@.apply_set(lit, writer));
                }
            },
            Some(_prev) => {
                // already set to the same value: no event, nothing changes
            },
        }
    }

    /// Checkpoints the current state and returns the new level count.
    pub fn save_state(&mut self) -> (lvl: u32)
        requires
            old(self).inv(),
            old(self)@.trail.marks.len() < u32::MAX as usize,
        ensures
            final(self).inv(),
            final(self)@ == old(self)@.apply_save(),
            lvl as int == final(self)@.trail.marks.len(),
    {
        let lvl = self.trail.save_state();
        proof {
            assert(self@ =~= old(self)@.apply_save());
        }
        lvl
    }

    pub fn num_saved(&self) -> (n: u32)
        requires
            self@.trail.marks.len() <= u32::MAX as usize,
        ensures
            n as int == self@.trail.marks.len(),
    {
        self.trail.num_saved()
    }

    /// Undoes every assignment since the most recent checkpoint, newest
    /// first, and pops that checkpoint.
    pub fn restore_last(&mut self)
        requires
            old(self).inv(),
            old(self)@.trail.marks.len() > 0,
        ensures
            final(self).inv(),
            final(self)@ == old(self)@.apply_restore(old(self)@.trail.marks.len() as int),
            final(self)@.values == old(self)@.state_at(old(self)@.trail.marks.len() - 1),
    {
        let target = self.trail.pop_mark();
        self.undo_to(target, Ghost(old(self)@), Ghost(old(self)@.trail.marks.len() - 1));
        proof {
            assert(self@ =~= old(self)@.apply_restore(old(self)@.trail.marks.len() as int));
        }
    }

    /// Restores the state to checkpoint `saved_id`, undoing every later
    /// level as well.
    pub fn restore(&mut self, saved_id: u32)
        requires
            old(self).inv(),
            1 <= saved_id <= old(self)@.trail.marks.len(),
        ensures
            final(self).inv(),
            final(self)@ == old(self)@.apply_restore(saved_id as int),
            final(self)@.values == old(self)@.state_at(saved_id - 1),
    {
        let ghost v0 = old(self)@;
        let mut target: usize = 0;
        let goal = saved_id as usize - 1;
        while self.trail.num_marks() > goal
            invariant
                goal < v0.trail.marks.len(),
                goal <= self.trail@.marks.len() <= v0.trail.marks.len(),
                forall|i: int|
                    0 <= i < self.trail@.marks.len() ==> #[trigger] self.trail@.marks[i]
                        == v0.trail.marks[i],
                self.trail@.events == v0.trail.events,
                self.binding@ == old(self).binding@,
                self.values@ == old(self).values@,
                self.trail@.marks.len() == goal ==> target == v0.trail.marks[goal as int],
                old(self).inv(),
                self.inv(),
            decreases self.trail@.marks.len(),
        {
            let ghost n = self.trail@.marks.len() as int;
            proof {
                assert(self.trail@.marks.last() == self.trail@.marks[n - 1]);
            }
            target = self.trail.pop_mark();
        }
        proof {
            assert(self@.trail.marks =~= v0.trail.marks.take(saved_id - 1));
            assert(self@.values =~= v0.values);
        }
        self.undo_to(target, Ghost(v0), Ghost(saved_id - 1));
        proof {
            assert(self@ =~= old(self)@.apply_restore(saved_id as int));
        }
    }

    /// Pops and inverts assignments, newest first, until the trail length is
    /// back to `target`, the length saved by checkpoint `idx` of `v0`.
    fn undo_to(&mut self, target: usize, Ghost(v0): Ghost<BoolModelView>, Ghost(idx): Ghost<int>)
        requires
            old(self).inv(),
            v0.trail.wf(),
            0 <= idx < v0.trail.marks.len(),
            target == v0.trail.marks[idx],
            old(self)@.values == v0.values,
            old(self)@.binding == v0.binding,
            old(self)@.trail.events == v0.trail.events,
            old(self)@.trail.marks == v0.trail.marks.take(idx),
        ensures
            final(self).inv(),
            final(self)@.values == v0.state_at(idx),
            final(self)@.binding == v0.binding,
            final(self)@.trail.events == v0.trail.events.take(target as int),
            final(self)@.trail.marks == v0.trail.marks.take(idx),
    {
        while self.trail.len() > target
            invariant
                self.inv(),
                v0.trail.wf(),
                0 <= idx < v0.trail.marks.len(),
                target == v0.trail.marks[idx],
                self@.trail.marks == v0.trail.marks.take(idx),
                self@.trail.events == v0.trail.events.take(self@.trail.events.len() as int),
                target <= self@.trail.events.len() <= v0.trail.events.len(),
                self@.binding == v0.binding,
                undo_bool_events(self@.values, self@.trail.events.skip(target as int))
                    == v0.state_at(idx),
            decreases self@.trail.events.len(),
        {
            let ghost pre = self@;
            let ghost pre_values_vec = self.values@;
            let (lit, _w) = self.trail.pop_event();
            proof {
                let suffix = pre.trail.events.skip(target as int);
                assert(suffix.len() > 0);
                assert(suffix.last() == pre.trail.events.last());
                assert(suffix.drop_last() =~= pre.trail.events.drop_last().skip(target as int));
                assert(undo_bool_events(pre.values, suffix) == undo_bool_events(
                    undo_bool_event(pre.values, lit),
                    suffix.drop_last(),
                ));
                assert(pre.trail.events.drop_last() =~= v0.trail.events.take(
                    pre.trail.events.len() - 1,
                ));
                assert(lit.spec_var() < self.values@.len());
            }
            let var = lit.variable() as usize;
            self.values[var] = None;
            proof {
                assert(self@.values =~= undo_bool_event(pre.values, lit));
                assert(self@.trail.marks =~= pre.trail.marks);
            }
        }
        proof {
            assert(self@.trail.events.skip(target as int) =~= Seq::<(Lit, WriterId)>::empty());
            assert(self@.trail.events =~= v0.trail.events.take(target as int));
        }
    }
}

} // verus!
