use solver_core::clauses::Clause;
use solver_core::clauses::ClauseDB;
use solver_core::clauses::ClauseId;
use solver_core::clauses::ClausesParams;
use solver_core::lit::Lit;

fn lit(var: u32, value: bool) -> Lit {
    Lit::new(var, value)
}

fn codes(c: &Clause) -> Vec<u32> {
    c.disjuncts.iter().map(|l| l.code()).collect()
}

#[test]
fn test_clause_new() {
    let lits = [lit(0, true), lit(1, false), lit(0, true)];
    let c = Clause::new(&lits, true);
    assert_eq!(c.activity, 0);
    assert!(c.learnt);
    assert_eq!(c.disjuncts.len(), 3);
}

#[test]
fn test_simplify_sorts_and_dedups() {
    let lits = [lit(3, true), lit(1, false), lit(3, true), lit(2, true)];
    let mut c = Clause::new(&lits, false);
    c.simplify();
    assert_eq!(
        codes(&c),
        vec![lit(1, false).code(), lit(2, true).code(), lit(3, true).code()]
    );
}

#[test]
fn test_simplify_clears_tautology() {
    let lits = [lit(5, true), lit(2, false), lit(5, false)];
    let mut c = Clause::new(&lits, false);
    c.simplify();
    assert!(c.disjuncts.is_empty());
}

#[test]
fn test_add_clause_counts_and_lookup() {
    let mut db = ClauseDB::new(ClausesParams::default());
    let a = db.add_clause(Clause::new(&[lit(0, true), lit(1, true)], false), false);
    let b = db.add_clause(Clause::new(&[lit(2, true), lit(0, false)], true), true);
    assert_eq!(db.num_clauses(), 2);
    assert_eq!(db.num_learnt(), 1);
    assert!(!db.clause(a).learnt);
    assert!(db.clause(b).learnt);
    let all: Vec<ClauseId> = db.all_clauses();
    assert_eq!(all, vec![a, b]);
}

#[test]
fn test_reduce_db_removes_low_activity_half() {
    let mut db = ClauseDB::new(ClausesParams::default());
    let orig = db.add_clause(Clause::new(&[lit(0, true), lit(1, true)], false), false);
    let mut learnt_ids = Vec::new();
    for v in 0..6u32 {
        let id = db.add_clause(
            Clause::new(&[lit(2 * v + 2, true), lit(2 * v + 3, false)], true),
            false,
        );
        learnt_ids.push(id);
    }
    // give the later clauses higher activity
    for (k, &id) in learnt_ids.iter().enumerate() {
        for _ in 0..k {
            db.bump_activity(id);
        }
    }
    // watch lists: each clause watched through the negations of its first
    // two literals
    let max_code = lit(14, true).code() as usize + 2;
    let mut watches: Vec<Vec<ClauseId>> = vec![Vec::new(); max_code];
    for &id in learnt_ids.iter().chain(std::iter::once(&orig)) {
        let c = db.clause(id);
        for w in 0..2.min(c.disjuncts.len()) {
            let slot = c.disjuncts[w].negate().code() as usize;
            watches[slot].push(id);
        }
    }
    let learnt_before = db.num_learnt();
    assert_eq!(learnt_before, 6);
    db.reduce_db(|_id: ClauseId| false, &mut watches);
    // at least floor(6 / 2) learnt clauses are gone, originals stay
    assert!(db.num_learnt() <= learnt_before - learnt_before / 2);
    assert_eq!(db.num_clauses() - db.num_learnt(), 1);
    assert!(!db.clause(orig).learnt);
    // the three lowest-activity learnt clauses were the ones removed
    let survivors: Vec<ClauseId> = db.all_clauses();
    assert_eq!(
        survivors,
        vec![orig, learnt_ids[3], learnt_ids[4], learnt_ids[5]]
    );
    // every watch entry of a removed clause is gone, the others remain
    for (slot, list) in watches.iter().enumerate() {
        for id in list {
            assert!(survivors.contains(id), "stale watch in slot {}", slot);
        }
    }
    for &id in &[learnt_ids[3], learnt_ids[4], learnt_ids[5], orig] {
        let c = db.clause(id);
        for w in 0..2.min(c.disjuncts.len()) {
            let slot = c.disjuncts[w].negate().code() as usize;
            assert!(watches[slot].contains(&id));
        }
    }
}

#[test]
fn test_slot_reuse_after_reduction() {
    let mut db = ClauseDB::new(ClausesParams::default());
    let a = db.add_clause(Clause::new(&[lit(0, true)], true), false);
    let b = db.add_clause(Clause::new(&[lit(1, true)], true), false);
    db.bump_activity(b);
    let mut watches: Vec<Vec<ClauseId>> = vec![Vec::new(); 8];
    watches[lit(0, true).negate().code() as usize].push(a);
    watches[lit(1, true).negate().code() as usize].push(b);
    db.reduce_db(|_id: ClauseId| false, &mut watches);
    assert_eq!(db.num_clauses(), 1);
    // the freed slot is reused by the next insertion
    let c = db.add_clause(Clause::new(&[lit(2, true)], false), false);
    assert_eq!(c, a);
    assert_eq!(db.num_clauses(), 2);
}

#[test]
fn test_locked_clauses_survive_reduction() {
    let mut db = ClauseDB::new(ClausesParams::default());
    let a = db.add_clause(Clause::new(&[lit(0, true)], true), false);
    let b = db.add_clause(Clause::new(&[lit(1, true)], true), false);
    let mut watches: Vec<Vec<ClauseId>> = vec![Vec::new(); 8];
    watches[lit(0, true).negate().code() as usize].push(a);
    watches[lit(1, true).negate().code() as usize].push(b);
    db.reduce_db(|_id: ClauseId| true, &mut watches);
    // everything was locked: nothing removed
    assert_eq!(db.num_clauses(), 2);
    assert_eq!(db.num_learnt(), 2);
}

#[test]
fn test_activity_rescale_preserves_order() {
    let mut db = ClauseDB::new(ClausesParams::default());
    let low = db.add_clause(Clause::new(&[lit(0, true)], true), false);
    let high = db.add_clause(Clause::new(&[lit(1, true)], true), false);
    db.bump_activity(low);
    // grow the increment until it saturates at the ceiling
    for _ in 0..40_000 {
        db.decay_activities();
    }
    db.bump_activity(high);
    assert!(db.clause(low).activity < db.clause(high).activity);
    let before_low = db.clause(low).activity;
    let before_high = db.clause(high).activity;
    assert!(before_high > before_low);
    // one more bump passes the ceiling and rescales everything
    db.bump_activity(high);
    let after_low = db.clause(low).activity;
    let after_high = db.clause(high).activity;
    assert!(after_high < before_high, "activities were rescaled down");
    assert!(after_low <= after_high, "relative order is preserved");
}

#[test]
fn test_empty_clause_simplify() {
    let mut c = Clause::new(&[], true);
    c.simplify();
    assert!(c.disjuncts.is_empty());
    let mut db = ClauseDB::new(ClausesParams::default());
    let id = db.add_clause(c, true);
    assert_eq!(db.num_clauses(), 1);
    assert!(db.clause(id).disjuncts.is_empty());
}

#[test]
fn test_add_clause_simplifies_on_request() {
    let mut db = ClauseDB::new(ClausesParams::default());
    let raw = [lit(4, true), lit(1, false), lit(4, true)];
    let kept = db.add_clause(Clause::new(&raw, false), false);
    let cleaned = db.add_clause(Clause::new(&raw, false), true);
    assert_eq!(db.clause(kept).disjuncts.len(), 3);
    assert_eq!(
        codes(db.clause(cleaned)),
        vec![lit(1, false).code(), lit(4, true).code()]
    );
}
