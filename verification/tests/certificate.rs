use sat_cascade::certificate::Certificate;
use sat_cascade::types::Assignment;

#[test]
fn empty_certificate_has_no_assignments() {
    let c = Certificate::empty();
    assert!(c.is_empty());
    assert_eq!(c.len(), 0);
    assert_eq!(c.get(1), Assignment::Unassigned);
    assert!(!c.contains_literal(1));
    assert!(!c.contains_variable(1));
    assert_eq!(c.assignments().len(), 0);
}

#[test]
fn new_certificate_asserts_one_literal() {
    let c = Certificate::new(-7);
    assert_eq!(c.len(), 1);
    assert_eq!(c.get(-7), Assignment::True);
    assert_eq!(c.get(7), Assignment::False);
    assert!(c.contains_literal(7));
    assert!(c.contains_literal(-7));
    assert!(c.contains_variable(7));
    assert!(!c.contains_variable(6));
}

#[test]
fn get_negates_for_negative_literals() {
    // A literal and its negation resolve to opposite values, and are
    // Unassigned together.
    let mut c = Certificate::empty();
    c.insert(3).unwrap();
    c.insert(-4).unwrap();
    assert_eq!(c.get(3), Assignment::True);
    assert_eq!(c.get(-3), Assignment::False);
    assert_eq!(c.get(4), Assignment::False);
    assert_eq!(c.get(-4), Assignment::True);
    assert_eq!(c.get(5), Assignment::Unassigned);
    assert_eq!(c.get(-5), Assignment::Unassigned);
}

#[test]
fn insert_is_idempotent() {
    let mut c = Certificate::empty();
    assert!(c.insert(4).is_ok());
    assert!(c.insert(4).is_ok());
    assert_eq!(c.len(), 1);
    assert_eq!(c.get(4), Assignment::True);
}

#[test]
fn insert_conflict_fails_and_changes_nothing() {
    let mut c = Certificate::empty();
    c.insert(2).unwrap();
    assert!(c.insert(-2).is_err());
    assert_eq!(c.len(), 1);
    assert_eq!(c.get(2), Assignment::True);
}

#[test]
fn insert_pair_has_the_same_conflict_semantics() {
    let mut c = Certificate::empty();
    assert!(c.insert_pair(3, Assignment::False).is_ok());
    assert!(c.insert_pair(3, Assignment::False).is_ok());
    assert!(c.insert_pair(3, Assignment::True).is_err());
    assert_eq!(c.len(), 1);
    assert_eq!(c.get(3), Assignment::False);
    assert_eq!(c.get(-3), Assignment::True);
}

#[test]
fn from_wraps_existing_assignments() {
    let c = Certificate::from(vec![(1, Assignment::True), (2, Assignment::False)]);
    assert_eq!(c.len(), 2);
    assert_eq!(c.get(1), Assignment::True);
    assert_eq!(c.get(2), Assignment::False);
}

#[test]
fn duplicate_copies_the_mapping() {
    let mut c = Certificate::empty();
    c.insert(1).unwrap();
    let d = c.duplicate();
    c.insert(2).unwrap();
    assert_eq!(d.len(), 1);
    assert_eq!(c.len(), 2);
    assert_eq!(d.get(2), Assignment::Unassigned);
}

#[test]
fn folding_literal_sets_is_order_independent() {
    // Folding {1, -2} then {3} against folding {3} then {1, -2}.
    let mut a = Certificate::empty();
    for l in [1, -2] {
        a.insert(l).unwrap();
    }
    a.insert(3).unwrap();
    let mut b = Certificate::empty();
    b.insert(3).unwrap();
    for l in [1, -2] {
        b.insert(l).unwrap();
    }
    assert_eq!(a.len(), b.len());
    for l in [1, 2, 3] {
        assert_eq!(a.get(l), b.get(l));
    }
}

#[test]
fn from_literals_folds_a_batch() {
    let c = Certificate::from_literals(&vec![1, -2, 3]).unwrap();
    assert_eq!(c.len(), 3);
    assert_eq!(c.get(1), Assignment::True);
    assert_eq!(c.get(2), Assignment::False);
    assert_eq!(c.get(3), Assignment::True);
}

#[test]
fn from_literals_detects_a_conflicting_batch() {
    assert!(Certificate::from_literals(&vec![1, -1]).is_err());
    assert!(Certificate::from_literals(&vec![2, 2]).is_ok());
}

#[test]
fn compatibility_ignores_unshared_variables() {
    let a = Certificate::from_literals(&vec![1, -2]).unwrap();
    let b = Certificate::from_literals(&vec![-2, 3]).unwrap();
    assert!(a.is_compatible(&b));
    assert!(b.is_compatible(&a));
    let c = Certificate::from_literals(&vec![2]).unwrap();
    assert!(!a.is_compatible(&c));
    assert!(!c.is_compatible(&a));
}

#[test]
fn merge_succeeds_exactly_on_compatible_certificates() {
    let a = Certificate::from_literals(&vec![1, -2]).unwrap();
    let b = Certificate::from_literals(&vec![-2, 3]).unwrap();
    let merged = a.merge(&b).expect("compatible certificates must merge");
    // The merge holds exactly the union of both entry sets.
    assert_eq!(merged.len(), 3);
    assert_eq!(merged.get(1), Assignment::True);
    assert_eq!(merged.get(2), Assignment::False);
    assert_eq!(merged.get(3), Assignment::True);
    let c = Certificate::from_literals(&vec![2]).unwrap();
    assert!(a.merge(&c).is_none());
}
