use solver_core::bounds::BVar;
use solver_core::bool_model::BoolModel;
use solver_core::int_model::IntModel;
use solver_core::lit::Lit;
use solver_core::model::Model;
use solver_core::trail::Trail;
use solver_core::writer::WriterId;

#[test]
fn test_int_domain_registration() {
    let mut m = IntModel::new();
    let x = m.new_var(0, 10);
    let y = m.new_var(-5, 5);
    assert_eq!(x, 0);
    assert_eq!(y, 1);
    assert_eq!(m.num_vars(), 2);
    assert_eq!(m.domain_of(x).lb, 0);
    assert_eq!(m.domain_of(x).ub, 10);
    assert_eq!(m.domain_of(y).lb, -5);
    assert_eq!(m.domain_of(y).ub, 5);
}

#[test]
fn test_weaker_write_is_noop() {
    let w = WriterId::new(0);
    let mut m = IntModel::new();
    let y = m.new_var(0, 10);
    m.set_lb(y, 5, w);
    assert_eq!(m.num_events(), 1);
    assert_eq!(m.domain_of(y).lb, 5);
    // an equal or weaker bound changes nothing and logs nothing
    m.set_lb(y, 5, w);
    m.set_lb(y, 3, w);
    assert_eq!(m.num_events(), 1);
    assert_eq!(m.domain_of(y).lb, 5);
    m.set_ub(y, 8, w);
    assert_eq!(m.num_events(), 2);
    m.set_ub(y, 9, w);
    assert_eq!(m.num_events(), 2);
    assert_eq!(m.domain_of(y).ub, 8);
}

#[test]
fn test_save_then_restore_is_identity() {
    let w = WriterId::new(1);
    let mut m = IntModel::new();
    let y = m.new_var(0, 10);
    let z = m.new_var(0, 10);
    m.set_lb(y, 2, w);
    let lvl = m.save_state();
    assert_eq!(lvl, 1);
    let events_at_save = m.num_events();
    // arbitrary intervening writes, effective and not
    m.set_lb(y, 7, w);
    m.set_ub(z, 4, w);
    m.set_lb(z, 1, w);
    m.set_lb(y, 6, w);
    m.restore_last();
    assert_eq!(m.num_saved(), 0);
    assert_eq!(m.num_events(), events_at_save);
    assert_eq!(m.domain_of(y).lb, 2);
    assert_eq!(m.domain_of(y).ub, 10);
    assert_eq!(m.domain_of(z).lb, 0);
    // z's upper bound was written after the save, so it is undone too
    assert_eq!(m.domain_of(z).ub, 10);
}

#[test]
fn test_lower_bound_restored_scenario() {
    // writer A sets lb 5, checkpoint, lb 7, restore: lb reads back as 5
    let a = WriterId::new(0);
    let mut m = IntModel::new();
    let y = m.new_var(0, 10);
    m.set_lb(y, 5, a);
    m.save_state();
    m.set_lb(y, 7, a);
    assert_eq!(m.domain_of(y).lb, 7);
    m.restore_last();
    assert_eq!(m.domain_of(y).lb, 5);
}

#[test]
fn test_restore_to_level() {
    let w = WriterId::new(2);
    let mut m = IntModel::new();
    let y = m.new_var(0, 100);
    let l1 = m.save_state();
    m.set_lb(y, 10, w);
    let l2 = m.save_state();
    m.set_lb(y, 20, w);
    m.save_state();
    m.set_lb(y, 30, w);
    assert_eq!(m.num_saved(), 3);
    m.restore(l2);
    assert_eq!(m.num_saved(), 1);
    assert_eq!(m.domain_of(y).lb, 10);
    m.restore(l1);
    assert_eq!(m.num_saved(), 0);
    assert_eq!(m.domain_of(y).lb, 0);
}

#[test]
fn test_bool_model_bind_and_values() {
    let w = WriterId::new(0);
    let mut m = BoolModel::new();
    let k = BVar::new(0);
    let lit = Lit::new(42, true);
    assert_eq!(m.literal_of(k), None);
    assert_eq!(m.value_of(k), None);
    m.bind(k, lit);
    assert_eq!(m.literal_of(k), Some(lit));
    assert_eq!(m.value(lit), None);
    m.set(lit, w);
    assert_eq!(m.value(lit), Some(true));
    assert_eq!(m.value(lit.negate()), Some(false));
    assert_eq!(m.value_of(k), Some(true));
}

#[test]
fn test_bool_redundant_write_is_noop() {
    let w = WriterId::new(0);
    let mut m = BoolModel::new();
    let lit = Lit::new(3, false);
    m.set(lit, w);
    assert_eq!(m.num_events(), 1);
    // asserting the same value again logs nothing
    m.set(lit, w);
    assert_eq!(m.num_events(), 1);
    assert_eq!(m.value(lit), Some(true));
    assert_eq!(m.value(lit.negate()), Some(false));
}

#[test]
fn test_bool_save_restore() {
    let w = WriterId::new(0);
    let mut m = BoolModel::new();
    let l0 = Lit::new(0, true);
    let l1 = Lit::new(1, false);
    m.set(l0, w);
    m.save_state();
    m.set(l1, w);
    assert_eq!(m.value(l1), Some(true));
    m.restore_last();
    assert_eq!(m.value(l0), Some(true));
    assert_eq!(m.value(l1), None);
    assert_eq!(m.num_saved(), 0);
}

#[test]
fn test_model_lock_step() {
    let a = WriterId::new(0);
    let mut m = Model::new();
    let y = m.ints.new_var(0, 10);
    let lit = Lit::new(0, true);
    m.set_lower_bound(y, 3, a);
    let lvl = m.save_state();
    assert_eq!(lvl, 1);
    assert_eq!(m.num_saved(), 1);
    m.set(lit, a);
    m.set_lower_bound(y, 8, a);
    m.restore_last();
    assert_eq!(m.num_saved(), 0);
    assert_eq!(m.ints.domain_of(y).lb, 3);
    assert_eq!(m.bools.value(lit), None);
}

#[test]
fn test_writer_gated_handle() {
    let token = WriterId::new(4);
    let mut m = Model::new();
    let y = m.ints.new_var(0, 10);
    let lit = Lit::new(2, false);
    {
        let mut w = m.writer(token);
        w.set_lower_bound(y, 6);
        w.set_upper_bound(y, 9);
        w.set(lit);
    }
    assert_eq!(m.ints.domain_of(y).lb, 6);
    assert_eq!(m.ints.domain_of(y).ub, 9);
    assert_eq!(m.bools.value(lit), Some(true));
}

#[test]
fn test_trail_direct() {
    let mut t: Trail<u32> = Trail::new();
    assert_eq!(t.len(), 0);
    t.push(10);
    t.push(11);
    let lvl = t.save_state();
    assert_eq!(lvl, 1);
    assert_eq!(t.num_saved(), 1);
    t.push(12);
    assert_eq!(t.len(), 3);
    let target = t.pop_mark();
    assert_eq!(target, 2);
    assert_eq!(t.pop_event(), 12);
    assert_eq!(t.len(), 2);
    assert_eq!(t.num_saved(), 0);
}
