use solver_core::bounds::Bound;
use solver_core::bounds::BVar;
use solver_core::bounds::BoundValue;
use solver_core::bounds::IntCst;
use solver_core::bounds::Relation;
use solver_core::bounds::VarRef;

fn leq(var: VarRef, val: IntCst) -> Bound {
    Bound::leq(var, val)
}
fn geq(var: VarRef, val: IntCst) -> Bound {
    Bound::geq(var, val)
}

#[test]
fn test_entailments() {
    let a = VarRef::new(0);
    let b = VarRef::new(1);

    assert!(leq(a, 0).entails(leq(a, 0)));
    assert!(leq(a, 0).entails(leq(a, 1)));
    assert!(!leq(a, 0).entails(leq(a, -1)));

    assert!(!leq(a, 0).entails(leq(b, 0)));
    assert!(!leq(a, 0).entails(leq(b, 1)));
    assert!(!leq(a, 0).entails(leq(b, -1)));

    assert!(geq(a, 0).entails(geq(a, 0)));
    assert!(!geq(a, 0).entails(geq(a, 1)));
    assert!(geq(a, 0).entails(geq(a, -1)));

    assert!(!geq(a, 0).entails(geq(b, 0)));
    assert!(!geq(a, 0).entails(geq(b, 1)));
    assert!(!geq(a, 0).entails(geq(b, -1)));
}

#[test]
fn test_new_unpack_roundtrip() {
    let v = VarRef::new(7);
    for (rel, val) in [
        (Relation::LEQ, 5),
        (Relation::LEQ, -3),
        (Relation::GT, 0),
        (Relation::GT, -17),
    ] {
        let b = Bound::new(v, rel, val);
        let (uv, ur, uk) = b.unpack();
        assert_eq!(uv, v);
        assert_eq!(ur, rel);
        assert_eq!(uk, val);
        assert_eq!(b.variable(), v);
        assert_eq!(b.relation(), rel);
        assert_eq!(b.value(), val);
    }
}

#[test]
fn test_negation_involution_and_self_entailment() {
    let x = VarRef::new(3);
    for b in [leq(x, 4), geq(x, -2), Bound::gt(x, 9), Bound::lt(x, 0)] {
        assert_eq!(b.negate().negate(), b);
        assert!(b.entails(b));
    }
}

#[test]
fn test_entailment_matches_half_interval_inclusion() {
    let x = VarRef::new(2);
    for va in -4..=4 {
        for vb in -4..=4 {
            // (-inf, va] included in (-inf, vb] iff va <= vb
            assert_eq!(leq(x, va).entails(leq(x, vb)), va <= vb);
            // [va, +inf) included in [vb, +inf) iff va >= vb
            assert_eq!(geq(x, va).entails(geq(x, vb)), va >= vb);
        }
    }
}

#[test]
fn test_sorting_groups_by_variable_and_relation() {
    let x = VarRef::new(0);
    let y = VarRef::new(1);
    let mut bounds = vec![
        geq(y, 4),
        geq(x, 1),
        leq(x, 3),
        leq(x, 4),
        leq(x, 6),
        geq(x, 2),
    ];
    bounds.sort_by(|a, b| a.lexical_cmp(b));
    assert_eq!(
        bounds,
        vec![geq(x, 2), geq(x, 1), leq(x, 3), leq(x, 4), leq(x, 6), geq(y, 4)]
    );
    // in the sorted sequence, a bound entails only a contiguous run of
    // bounds with its own (variable, relation) key
    for i in 0..bounds.len() {
        for j in 0..bounds.len() {
            if i <= j && bounds[i].entails(bounds[j]) {
                for k in i..=j {
                    assert_eq!(bounds[k].variable(), bounds[i].variable());
                    assert_eq!(bounds[k].relation(), bounds[i].relation());
                }
            }
        }
    }
    // derived ordering agrees with lexical_cmp
    let mut by_ord = bounds.clone();
    by_ord.sort();
    assert_eq!(by_ord, bounds);
}

#[test]
fn test_geq_normalization_scenario() {
    let y = VarRef::new(5);
    let b = Bound::geq(y, 5);
    assert_eq!(b.variable(), y);
    assert_eq!(b.relation(), Relation::GT);
    assert_eq!(b.value(), 4);
    assert_eq!(b.negate(), Bound::leq(y, 4));
}

#[test]
fn test_lt_normalization() {
    let x = VarRef::new(9);
    assert_eq!(Bound::lt(x, 5), Bound::leq(x, 4));
    assert_eq!(Bound::gt(x, 5), Bound::geq(x, 6));
}

#[test]
fn test_boolean_literals() {
    let v = BVar::new(11);
    let t = Bound::is_true(v);
    let f = Bound::is_false(v);
    assert_eq!(t.relation(), Relation::GT);
    assert_eq!(t.value(), 0);
    assert_eq!(f.relation(), Relation::LEQ);
    assert_eq!(f.value(), 0);
    assert_eq!(t.negate(), f);
    assert_eq!(f.negate(), t);
}

#[test]
fn test_from_parts_roundtrip() {
    let x = VarRef::new(4);
    let b = Bound::gt(x, 7);
    let again = Bound::from_parts(b.affected_bound(), b.bound_value());
    assert_eq!(again, b);
    assert_eq!(again.unpack(), b.unpack());
}

#[test]
fn test_bound_value_stronger() {
    // upper bounds: smaller threshold is stronger
    assert!(BoundValue::ub(3).stronger(BoundValue::ub(5)));
    assert!(!BoundValue::ub(5).stronger(BoundValue::ub(3)));
    // lower bounds: larger threshold is stronger
    assert!(BoundValue::lb(7).stronger(BoundValue::lb(5)));
    assert!(!BoundValue::lb(5).stronger(BoundValue::lb(7)));
}
