//! The shared discrete model: the boolean and integer domain stores rolled
//! back in lock-step. All mutation is writer-gated: every write carries the
//! `WriterId` of the subsystem performing it, and the two stores always hold
//! the same number of saved levels.

use vstd::prelude::*;

use crate::bool_model::BoolModel;
use crate::bool_model::BoolModelView;
use crate::bounds::IntCst;
use crate::int_model::IntModel;
use crate::int_model::IntModelView;
use crate::int_model::IntWrite;
use crate::lit::Lit;
use crate::writer::WriterId;

verus! {

/// One write against the combined model, as a pure value: what a driver or
/// a theory may do between two checkpoints.
#[derive(Clone, Copy, PartialEq, Eq, Structural, Debug)]
pub enum ModelWrite {
    Bool { lit: Lit, writer: WriterId },
    Lb { var: usize, value: IntCst, writer: WriterId },
    Ub { var: usize, value: IntCst, writer: WriterId },
}

/// The boolean writes among a sequence of model writes, in order.
pub open spec fn bool_writes_of(ws: Seq<ModelWrite>) -> Seq<(Lit, WriterId)>
    decreases ws.len(),
{
    if ws.len() == 0 {
        Seq::empty()
    } else {
        let rest = bool_writes_of(ws.drop_last());
        match ws.last() {
            ModelWrite::Bool { lit, writer } => rest.push((lit, writer)),
            _ => rest,
        }
    }
}

/// The integer writes among a sequence of model writes, in order.
pub open spec fn int_writes_of(ws: Seq<ModelWrite>) -> Seq<IntWrite>
    decreases ws.len(),
{
    if ws.len() == 0 {
        Seq::empty()
    } else {
        let rest = int_writes_of(ws.drop_last());
        match ws.last() {
            ModelWrite::Lb { var, value, writer } => rest.push(IntWrite::Lb { var, value, writer }),
            ModelWrite::Ub { var, value, writer } => rest.push(IntWrite::Ub { var, value, writer }),
            ModelWrite::Bool { .. } => rest,
        }
    }
}

/// The two component views after one model write.
pub open spec fn apply_model_write(b: BoolModelView, i: IntModelView, w: ModelWrite) -> (
    BoolModelView,
    IntModelView,
) {
    match w {
        ModelWrite::Bool { lit, writer } => (b.apply_set(lit, writer), i),
        ModelWrite::Lb { var, value, writer } => (b, i.apply_set_lb(var, value, writer)),
        ModelWrite::Ub { var, value, writer } => (b, i.apply_set_ub(var, value, writer)),
    }
}

/// The two component views after a sequence of model writes.
pub open spec fn apply_model_writes(b: BoolModelView, i: IntModelView, ws: Seq<ModelWrite>) -> (
    BoolModelView,
    IntModelView,
)
    decreases ws.len(),
{
    if ws.len() == 0 {
        (b, i)
    } else {
        let r = apply_model_writes(b, i, ws.drop_last());
        apply_model_write(r.0, r.1, ws.last())
    }
}

/// A sequence of model writes acts on each component exactly as its own
/// writes do: a boolean write never touches the integer store and the other
/// way round.
proof fn lemma_model_writes_project(b: BoolModelView, i: IntModelView, ws: Seq<ModelWrite>)
    ensures
        apply_model_writes(b, i, ws).0 == b.apply_writes(bool_writes_of(ws)),
        apply_model_writes(b, i, ws).1 == i.apply_writes(int_writes_of(ws)),
        bool_writes_of(ws).len() <= ws.len(),
        int_writes_of(ws).len() <= ws.len(),
    decreases ws.len(),
{
    if ws.len() > 0 {
        lemma_model_writes_project(b, i, ws.drop_last());
        let bws = bool_writes_of(ws);
        let iws = int_writes_of(ws);
        match ws.last() {
            ModelWrite::Bool { lit, writer } => {
                assert(bws.drop_last() =~= bool_writes_of(ws.drop_last()));
                assert(iws == int_writes_of(ws.drop_last()));
            },
            ModelWrite::Lb { var, value, writer } => {
                assert(iws.drop_last() =~= int_writes_of(ws.drop_last()));
                assert(bws == bool_writes_of(ws.drop_last()));
            },
            ModelWrite::Ub { var, value, writer } => {
                assert(iws.drop_last() =~= int_writes_of(ws.drop_last()));
                assert(bws == bool_writes_of(ws.drop_last()));
            },
        }
    }
}

/// `save_state` on the combined model, followed by any sequence of boolean
/// and integer writes, followed by `restore_last`, leaves every domain —
/// boolean assignments and integer intervals alike — exactly as it was at
/// the save, whatever the writes did in between.
pub proof fn lemma_model_save_write_restore(
    b: BoolModelView,
    i: IntModelView,
    ws: Seq<ModelWrite>,
)
    requires
        b.trail.wf(),
        i.wf(),
        b.trail.events.len() + ws.len() <= usize::MAX,
        i.trail.events.len() + ws.len() <= usize::MAX,
    ensures
        ({
            let after = apply_model_writes(b.apply_save(), i.apply_save(), ws);
            &&& after.0.trail.marks.len() == b.trail.marks.len() + 1
            &&& after.1.trail.marks.len() == i.trail.marks.len() + 1
            &&& after.0.apply_restore(after.0.trail.marks.len() as int).values == b.values
            &&& after.1.apply_restore(after.1.trail.marks.len() as int).domains == i.domains
        }),
{
    lemma_model_writes_project(b.apply_save(), i.apply_save(), ws);
    crate::bool_model::lemma_bool_save_write_restore(b, bool_writes_of(ws));
    crate::int_model::lemma_save_write_restore(i, int_writes_of(ws));
}

/// The boolean and integer domains of one problem, kept in lock-step.
pub struct Model {
    pub bools: BoolModel,
    pub ints: IntModel,
}

impl Model {
    /// Both components are internally well-formed and hold the same number
    /// of saved levels, so one driver can roll them back together.
    pub open spec fn inv(self) -> bool {
        &&& self.bools.inv()
        &&& self.ints@.wf()
        &&& self.bools@.trail.marks.len() == self.ints@.trail.marks.len()
    }

    pub fn new() -> (r: Model)
        ensures
            r.inv(),
            r.bools@.values =~= Map::<u32, bool>::empty(),
            r.ints@.domains =~= Seq::<crate::int_model::IntDomain>::empty(),
            r.bools@.trail.marks.len() == 0,
    {
        Model { bools: BoolModel::new(), ints: IntModel::new() }
    }

    /// Asserts a boolean literal under `writer`'s identity. Asserting a
    /// literal that is currently false is a contract violation.
    pub fn set(&mut self, lit: Lit, writer: WriterId)
        requires
            old(self).inv(),
            old(self).bools@.spec_value(lit) != Some(false),
            old(self).bools@.trail.events.len() < usize::MAX,
        ensures
            final(self).inv(),
            final(self).bools@ == old(self).bools@.apply_set(lit, writer),
            final(self).ints@ == old(self).ints@,
    {
        self.bools.set(lit, writer);
    }

    /// Raises an integer lower bound under `writer`'s identity.
    pub fn set_lower_bound(&mut self, var: usize, lb: IntCst, writer: WriterId)
        requires
            old(self).inv(),
            var < old(self).ints@.domains.len(),
        ensures
            final(self).inv(),
            final(self).ints@ == old(self).ints@.apply_set_lb(var, lb, writer),
            final(self).bools@ == old(self).bools@,
    {
        self.ints.set_lb(var, lb, writer);
    }

    /// Lowers an integer upper bound under `writer`'s identity.
    pub fn set_upper_bound(&mut self, var: usize, ub: IntCst, writer: WriterId)
        requires
            old(self).inv(),
            var < old(self).ints@.domains.len(),
        ensures
            final(self).inv(),
            final(self).ints@ == old(self).ints@.apply_set_ub(var, ub, writer),
            final(self).bools@ == old(self).bools@,
    {
        self.ints.set_ub(var, ub, writer);
    }

    /// Checkpoints both stores and returns the new level count, the same
    /// for both.
    pub fn save_state(&mut self) -> (lvl: u32)
        requires
            old(self).inv(),
            old(self).bools@.trail.marks.len() < u32::MAX as usize,
        ensures
            final(self).inv(),
            final(self).bools@ == old(self).bools@.apply_save(),
            final(self).ints@ == old(self).ints@.apply_save(),
            lvl as int == final(self).bools@.trail.marks.len(),
    {
        let a = self.bools.save_state();
        let _b = self.ints.save_state();
        a
    }

    /// The number of saved levels, identical across both stores.
    pub fn num_saved(&self) -> (n: u32)
        requires
            self.inv(),
            self.bools@.trail.marks.len() <= u32::MAX as usize,
        ensures
            n as int == self.bools@.trail.marks.len(),
            n as int == self.ints@.trail.marks.len(),
    {
        self.bools.num_saved()
    }

    /// Rolls both stores back to the most recent checkpoint.
    pub fn restore_last(&mut self)
        requires
            old(self).inv(),
            old(self).bools@.trail.marks.len() > 0,
        ensures
            final(self).inv(),
            final(self).bools@ == old(self).bools@.apply_restore(
                old(self).bools@.trail.marks.len() as int,
            ),
            final(self).ints@ == old(self).ints@.apply_restore(
                old(self).ints@.trail.marks.len() as int,
            ),
    {
        self.bools.restore_last();
        self.ints.restore_last();
    }

    /// Rolls both stores back to checkpoint `saved_id`.
    pub fn restore(&mut self, saved_id: u32)
        requires
            old(self).inv(),
            1 <= saved_id <= old(self).bools@.trail.marks.len(),
        ensures
            final(self).inv(),
            final(self).bools@ == old(self).bools@.apply_restore(saved_id as int),
            final(self).ints@ == old(self).ints@.apply_restore(saved_id as int),
    {
        self.bools.restore(saved_id);
        self.ints.restore(saved_id);
    }

    /// A write handle carrying `token` as the writer identity of every write
    /// made through it.
    pub fn writer(&mut self, token: WriterId) -> (w: WModel<'_>)
        ensures
            *w.model == *old(self),
            *final(self) == *final(w.model),
            w.token == token,
    {
        WModel { model: self, token }
    }
}

/// Write access to a model with the writer identity always attached.
pub struct WModel<'a> {
    pub model: &'a mut Model,
    pub token: WriterId,
}

impl<'a> WModel<'a> {
    /// Asserts a boolean literal; one that is currently false is a contract
    /// violation.
    pub fn set(&mut self, lit: Lit)
        requires
            old(self).model.inv(),
            old(self).model.bools@.spec_value(lit) != Some(false),
            old(self).model.bools@.trail.events.len() < usize::MAX,
        ensures
            final(self).model.inv(),
            final(self).token == old(self).token,
            final(self).model.bools@ == old(self).model.bools@.apply_set(lit, old(self).token),
            final(self).model.ints@ == old(self).model.ints@,
    {
        self.model.set(lit, self.token);
    }

    /// Raises an integer lower bound.
    pub fn set_lower_bound(&mut self, ivar: usize, lb: IntCst)
        requires
            old(self).model.inv(),
            ivar < old(self).model.ints@.domains.len(),
        ensures
            final(self).model.inv(),
            final(self).token == old(self).token,
            final(self).model.ints@ == old(self).model.ints@.apply_set_lb(
                ivar,
                lb,
                old(self).token,
            ),
            final(self).model.bools@ == old(self).model.bools@,
    {
        self.model.set_lower_bound(ivar, lb, self.token);
    }

    /// Lowers an integer upper bound.
    pub fn set_upper_bound(&mut self, ivar: usize, ub: IntCst)
        requires
            old(self).model.inv(),
            ivar < old(self).model.ints@.domains.len(),
        ensures
            final(self).model.inv(),
            final(self).token == old(self).token,
            final(self).model.ints@ == old(self).model.ints@.apply_set_ub(
                ivar,
                ub,
                old(self).token,
            ),
            final(self).model.bools@ == old(self).model.bools@,
    {
        self.model.set_upper_bound(ivar, ub, self.token);
    }
}

} // verus!
