use solver_core::bounds::Bound;
use solver_core::bounds::VarRef;
use solver_core::model::Model;
use solver_core::theory::Binding;
use solver_core::theory::BindingResult;
use solver_core::theory::Contradiction;
use solver_core::theory::Theory;
use solver_core::theory::TheorySolver;
use solver_core::writer::WriterId;

/// A small propagator: accepts every binding, enqueues one follow-up
/// request per bind, raises a fixed lower bound on propagation, and keeps a
/// backtrackable count of its own.
struct StubTheory {
    token: WriterId,
    var: usize,
    bind_calls: usize,
    saved: Vec<usize>,
}

impl Theory for StubTheory {
    fn bind(
        &mut self,
        lit: Bound,
        expr: usize,
        queue: &mut Vec<Binding>,
    ) -> BindingResult {
        self.bind_calls += 1;
        if expr > 0 {
            queue.push(Binding { lit, expr: expr - 1 });
            BindingResult::Deferred
        } else {
            BindingResult::Accepted
        }
    }

    fn propagate(&mut self, model: &mut Model) -> Result<(), Contradiction> {
        if self.var < model.ints.num_vars() {
            model.set_lower_bound(self.var, 3, self.token);
            Ok(())
        } else {
            Err(Contradiction {
                explanation: vec![Bound::geq(VarRef::new(0), 1)],
            })
        }
    }

    fn print_stats(&self) {}

    fn save_state(&mut self) -> u32 {
        self.saved.push(self.bind_calls);
        self.saved.len() as u32
    }

    fn num_saved(&self) -> u32 {
        self.saved.len() as u32
    }

    fn restore_last(&mut self) {
        let n = self.saved.pop().unwrap();
        self.bind_calls = n;
    }

    fn restore(&mut self, saved_id: u32) {
        while self.saved.len() as u32 > saved_id - 1 {
            self.restore_last();
        }
    }
}

#[test]
fn test_theory_solver_forwards_bind() {
    let th = StubTheory { token: WriterId::new(7), var: 0, bind_calls: 0, saved: Vec::new() };
    let mut ts = TheorySolver::new(th);
    let x = VarRef::new(0);
    let mut queue: Vec<Binding> = Vec::new();
    let r = ts.bind(Bound::leq(x, 4), 2, &mut queue);
    assert_eq!(r, BindingResult::Deferred);
    assert_eq!(queue.len(), 1);
    assert_eq!(queue[0].expr, 1);
    let r2 = ts.bind(Bound::leq(x, 4), 0, &mut queue);
    assert_eq!(r2, BindingResult::Accepted);
    assert_eq!(queue.len(), 1);
    assert_eq!(ts.theory.bind_calls, 2);
}

#[test]
fn test_theory_solver_propagates_into_model() {
    let mut model = Model::new();
    let y = model.ints.new_var(0, 10);
    let th = StubTheory { token: WriterId::new(7), var: y, bind_calls: 0, saved: Vec::new() };
    let mut ts = TheorySolver::new(th);
    assert!(ts.process(&mut model).is_ok());
    assert_eq!(model.ints.domain_of(y).lb, 3);
}

#[test]
fn test_theory_contradiction_carries_explanation() {
    let mut model = Model::new();
    let th = StubTheory { token: WriterId::new(7), var: 5, bind_calls: 0, saved: Vec::new() };
    let mut ts = TheorySolver::new(th);
    match ts.process(&mut model) {
        Ok(()) => panic!("expected a contradiction"),
        Err(c) => assert_eq!(c.explanation.len(), 1),
    }
}

#[test]
fn test_theory_solver_backtracking() {
    let th = StubTheory { token: WriterId::new(7), var: 0, bind_calls: 0, saved: Vec::new() };
    let mut ts = TheorySolver::new(th);
    let x = VarRef::new(0);
    let mut queue: Vec<Binding> = Vec::new();
    ts.bind(Bound::leq(x, 4), 0, &mut queue);
    let lvl = ts.save_state();
    assert_eq!(lvl, 1);
    assert_eq!(ts.num_saved(), 1);
    ts.bind(Bound::leq(x, 2), 0, &mut queue);
    assert_eq!(ts.theory.bind_calls, 2);
    ts.restore_last();
    assert_eq!(ts.theory.bind_calls, 1);
    assert_eq!(ts.num_saved(), 0);
    ts.print_stats();
}

#[test]
fn test_writer_id() {
    let a = WriterId::new(3);
    let b = WriterId::new(3);
    let c = WriterId::new(4);
    assert_eq!(a, b);
    assert_ne!(a, c);
    assert_eq!(a.num, 3);
}
