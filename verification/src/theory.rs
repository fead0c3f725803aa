//! The theory binding protocol: the contract between the driver and an
//! external constraint propagator. A theory binds bound literals to
//! expression handles, propagates implied bounds into the shared model
//! through its writer-gated API, reports contradictions with an explanation,
//! and rolls back in lock-step with the rest of the solver through the same
//! save/restore capability.
//!
//! Theories are implemented outside this crate, so the trait states the
//! protocol shape only: nothing is promised about foreign implementations,
//! and the dispatcher forwards calls unchanged.

use vstd::prelude::*;

use crate::bounds::Bound;
use crate::model::Model;

verus! {

/// Opaque handle of an interned expression. The core never interprets
/// expression structure; it only carries handles between the binder and the
/// theories.
pub type ExprHandle = usize;

/// A request to associate a bound literal with an expression.
#[derive(Clone, Copy, PartialEq, Eq, Structural, Debug)]
pub struct Binding {
    pub lit: Bound,
    pub expr: ExprHandle,
}

/// A theory's answer to a binding request.
#[derive(Clone, Copy, PartialEq, Eq, Structural, Debug)]
pub enum BindingResult {
    /// The theory accepted the binding and will enforce it.
    Accepted,
    /// The theory deferred the binding, typically after enqueueing follow-up
    /// binding requests.
    Deferred,
    /// The theory does not support the expression.
    Rejected,
}

/// A logical contradiction met during propagation: a conjunction of bounds
/// whose simultaneous truth is impossible. Expected and recoverable — it
/// drives conflict analysis and backtracking.
pub struct Contradiction {
    pub explanation: Vec<Bound>,
}

/// An external constraint propagator participating in the shared model.
///
/// Implementations hold derived state that must roll back in lock-step with
/// the domain models, so the trait carries the same four-operation
/// save/restore capability as the models: `save_state` returns the new
/// level count, `restore_last` undoes one level, `restore` undoes down to a
/// given level. `bind` may enqueue follow-up binding requests; `propagate`
/// runs one round, writing implied bounds through the model's writer-gated
/// API and returning a contradiction with its explanation on failure.
pub trait Theory {
    /// Accepts, defers or rejects associating the boolean literal `lit`
    /// with the expression `expr`, optionally enqueueing follow-up binding
    /// requests.
    fn bind(&mut self, lit: Bound, expr: ExprHandle, queue: &mut Vec<Binding>) -> BindingResult;

    /// One propagation round: writes implied bounds into the shared model,
    /// returning success or a contradiction carrying an explanation.
    fn propagate(&mut self, model: &mut Model) -> Result<(), Contradiction>;

    /// Reports implementation statistics, in whatever way the propagator
    /// chooses.
    fn print_stats(&self);

    /// Checkpoints the theory's derived state; returns the new level count.
    fn save_state(&mut self) -> u32;

    /// The number of active checkpoints.
    fn num_saved(&self) -> u32;

    /// Undoes the theory's state back to the most recent checkpoint.
    fn restore_last(&mut self);

    /// Undoes the theory's state back to checkpoint `saved_id`.
    fn restore(&mut self, saved_id: u32);
}

/// A thin dispatcher holding one theory instance and forwarding every call
/// unchanged: one uniform call site over heterogeneous propagators.
pub struct TheorySolver<T: Theory> {
    pub theory: T,
}

impl<T: Theory> TheorySolver<T> {
    pub fn new(theory: T) -> (r: TheorySolver<T>)
        ensures
            r.theory == theory,
    {
        TheorySolver { theory }
    }

    /// Forwards a binding request to the theory.
    pub fn bind(&mut self, lit: Bound, expr: ExprHandle, queue: &mut Vec<Binding>)
        -> BindingResult {
        self.theory.bind(lit, expr, queue)
    }

    /// Runs one propagation round of the theory against the shared model.
    pub fn process(&mut self, model: &mut Model) -> Result<(), Contradiction> {
        self.theory.propagate(model)
    }

    pub fn print_stats(&self) {
        self.theory.print_stats()
    }

    pub fn save_state(&mut self) -> u32 {
        self.theory.save_state()
    }

    pub fn num_saved(&self) -> u32 {
        self.theory.num_saved()
    }

    pub fn restore_last(&mut self) {
        self.theory.restore_last()
    }

    pub fn restore(&mut self, saved_id: u32) {
        self.theory.restore(saved_id)
    }
}

} // verus!
