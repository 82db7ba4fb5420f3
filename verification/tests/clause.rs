use sat_cascade::certificate::Certificate;
use sat_cascade::clause::{Clause, EvaluatedClause};
use sat_cascade::types::Assignment;

#[test]
fn new_clause_starts_unreduced() {
    let c = Clause::new(vec![3, -1, 4]);
    assert_eq!(c.size(), 3);
    assert_eq!(c.len(), 3);
    assert!(!c.is_empty());
    assert_eq!(c.literals(), &vec![3, -1, 4]);
    assert_eq!(c.partial_literals(), &vec![3, -1, 4]);
}

#[test]
fn contains_looks_at_variables_of_either_polarity() {
    let c = Clause::new(vec![3, -1, 4]);
    assert!(c.contains(1));
    assert!(c.contains(3));
    assert!(c.contains(4));
    assert!(!c.contains(2));
}

#[test]
fn one_true_literal_satisfies_the_clause() {
    // Any literal resolved True satisfies the whole disjunction.
    let c = Clause::new(vec![1, 2, 3]);
    let cert = Certificate::new(2);
    assert!(matches!(c.apply(&cert), EvaluatedClause::True));
    let negated = Clause::new(vec![-2, 5]);
    let cert2 = Certificate::new(-2);
    assert!(matches!(negated.apply(&cert2), EvaluatedClause::True));
}

#[test]
fn false_literals_are_dropped_from_the_reduction() {
    let c = Clause::new(vec![3, -1, 4]);
    let cert = Certificate::new(1);
    match c.apply(&cert) {
        EvaluatedClause::Undecided(kept) => assert_eq!(kept, vec![3, 4]),
        _ => panic!("expected an undecided clause"),
    }
}

#[test]
fn all_false_literals_falsify_the_clause() {
    let c = Clause::new(vec![1, 2]);
    let cert = Certificate::from_literals(&vec![-1, -2]).unwrap();
    assert!(matches!(c.apply(&cert), EvaluatedClause::False));
}

#[test]
fn empty_clause_is_false_never_undecided() {
    // An empty reduced set never pairs with an Undecided verdict.
    let c = Clause::new(vec![]);
    let cert = Certificate::empty();
    assert!(matches!(c.apply(&cert), EvaluatedClause::False));
}

#[test]
fn unassigned_literals_are_retained() {
    let c = Clause::new(vec![1, 2]);
    let cert = Certificate::empty();
    match c.apply(&cert) {
        EvaluatedClause::Undecided(kept) => assert_eq!(kept, vec![1, 2]),
        _ => panic!("expected an undecided clause"),
    }
}

#[test]
fn solve_offers_one_certificate_per_literal() {
    let c = Clause::new(vec![1, -2]);
    let certs = c.solve();
    assert_eq!(certs.len(), 2);
    assert_eq!(certs[0].get(1), Assignment::True);
    assert_eq!(certs[1].get(-2), Assignment::True);
    assert_eq!(certs[1].get(2), Assignment::False);
}
