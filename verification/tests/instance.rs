use sat_cascade::certificate::Certificate;
use sat_cascade::clause::Clause;
use sat_cascade::instance::{EvaluatedInstance, Instance};
use sat_cascade::types::Assignment;

fn build(clauses: Vec<Vec<i32>>, variables: usize) -> Instance {
    let built = clauses.into_iter().map(Clause::new).collect::<Vec<Clause>>();
    Instance::new(built, variables)
}

#[test]
fn new_instance_records_size_metrics() {
    let inst = build(vec![vec![1, 2], vec![-1, 2, 3], vec![-2]], 3);
    assert_eq!(inst.size(), (3, 3, 3));
    assert_eq!(inst.partial_size(), (3, 3, 3));
}

#[test]
fn apply_drops_satisfied_clauses_and_keeps_reductions() {
    let inst = build(vec![vec![1, 2], vec![3]], 3);
    let cert = Certificate::new(1);
    match inst.apply(&cert) {
        EvaluatedInstance::Undecided(rest) => {
            assert_eq!(rest.len(), 1);
            assert_eq!(rest[0].partial_literals(), &vec![3]);
        },
        _ => panic!("expected an undecided instance"),
    }
}

#[test]
fn apply_short_circuits_on_a_falsified_clause() {
    let inst = build(vec![vec![1, 2], vec![3]], 3);
    let cert = Certificate::new(-3);
    assert!(matches!(inst.apply(&cert), EvaluatedInstance::False));
}

#[test]
fn apply_reports_a_fully_satisfied_instance() {
    let inst = build(vec![vec![1], vec![-2]], 2);
    let cert = Certificate::from_literals(&vec![1, -2]).unwrap();
    assert!(matches!(inst.apply(&cert), EvaluatedInstance::True));
}

#[test]
fn single_unit_clause_is_consumed() {
    // Instance {[1]}: the cascade assigns variable 1 = True, consumes the
    // clause and proves the instance satisfiable.
    let mut inst = build(vec![vec![1]], 1);
    assert!(matches!(inst.cascade(), EvaluatedInstance::True));
    assert_eq!(inst.common_certificate().get(1), Assignment::True);
    assert!(inst.partial_clauses().is_empty());
}

#[test]
fn contradictory_unit_clauses_are_unsatisfiable() {
    // Instance {[1], [-1]}: unit propagation finds both polarities of
    // variable 1 and the conflict check reports unsatisfiability.
    let mut inst = build(vec![vec![1], vec![-1]], 1);
    assert!(matches!(inst.cascade(), EvaluatedInstance::False));
}

#[test]
fn unit_propagation_cascades_into_a_conflict() {
    // Instance {[1,2], [-1,2], [-2]}: the unit literal -2 forces variable 2
    // to False, reducing to {[1], [-1]}, whose units then conflict.
    let mut inst = build(vec![vec![1, 2], vec![-1, 2], vec![-2]], 2);
    assert!(matches!(inst.cascade(), EvaluatedInstance::False));
}

#[test]
fn pure_literal_elimination_satisfies_the_clause() {
    // Instance {[1,2,3]}: every literal is pure, so the clause is satisfied
    // outright.
    let mut inst = build(vec![vec![1, 2, 3]], 3);
    assert!(matches!(inst.cascade(), EvaluatedInstance::True));
    assert_eq!(inst.common_certificate().get(3), Assignment::True);
}

#[test]
fn pure_literal_mixes_with_unit_propagation() {
    // {[-2], [2,3]}: unit -2 falsifies 2, leaving {[3]}, whose unit literal
    // then satisfies it.
    let mut inst = build(vec![vec![-2], vec![2, 3]], 3);
    assert!(matches!(inst.cascade(), EvaluatedInstance::True));
    assert_eq!(inst.common_certificate().get(2), Assignment::False);
    assert_eq!(inst.common_certificate().get(3), Assignment::True);
}

#[test]
fn cascade_leaves_a_residual_instance_undecided() {
    // Four clauses over two variables with no units and no pures: nothing to
    // propagate, the instance stays undecided with its working set intact.
    let mut inst = build(
        vec![vec![1, 2], vec![-1, 2], vec![1, -2], vec![-1, -2]],
        2,
    );
    match inst.cascade() {
        EvaluatedInstance::Undecided(rest) => assert_eq!(rest.len(), 4),
        _ => panic!("expected an undecided instance"),
    }
    assert!(inst.common_certificate().is_empty());
}

#[test]
fn cascade_is_idempotent_after_convergence() {
    // Running the cascade again after it converged changes neither the
    // verdict nor the residual clause set.
    let mut inst = build(
        vec![vec![1, 2], vec![-1, 2], vec![1, -2], vec![-1, -2]],
        2,
    );
    let first = match inst.cascade() {
        EvaluatedInstance::Undecided(rest) => rest,
        _ => panic!("expected an undecided instance"),
    };
    let common_before = inst.common_certificate().len();
    let second = match inst.cascade() {
        EvaluatedInstance::Undecided(rest) => rest,
        _ => panic!("expected an undecided instance"),
    };
    assert_eq!(first.len(), second.len());
    for (a, b) in first.iter().zip(second.iter()) {
        assert_eq!(a.partial_literals(), b.partial_literals());
        assert_eq!(a.literals(), b.literals());
    }
    assert_eq!(inst.common_certificate().len(), common_before);
}

#[test]
fn recalculate_partial_size_measures_the_working_set() {
    let mut inst = build(vec![vec![1, 2], vec![2, 3]], 3);
    inst.recalculate_partial_size();
    assert_eq!(inst.partial_size(), (2, 3, 2));
}

#[test]
fn recalculate_partial_size_after_reduction() {
    let mut inst = build(
        vec![vec![1, 2], vec![-1, 2], vec![1, -2], vec![-1, -2]],
        2,
    );
    assert!(matches!(inst.cascade(), EvaluatedInstance::Undecided(_)));
    inst.recalculate_partial_size();
    assert_eq!(inst.partial_size(), (2, 2, 4));
}

#[test]
fn from_clones_the_whole_working_state() {
    let mut inst = build(vec![vec![1]], 1);
    let mut sibling = Instance::from(&inst);
    assert!(matches!(inst.cascade(), EvaluatedInstance::True));
    // The sibling still owns the unreduced working set.
    assert_eq!(sibling.partial_clauses().len(), 1);
    assert!(sibling.common_certificate().is_empty());
    assert!(matches!(sibling.cascade(), EvaluatedInstance::True));
}

#[test]
fn unit_propagation_chains_through_several_rounds() {
    // {[1,2], [-2,3], [-3]}: -3 forces 3 = False, then -2, then 1.
    let mut inst = build(vec![vec![1, 2], vec![-2, 3], vec![-3]], 3);
    assert!(matches!(inst.cascade(), EvaluatedInstance::True));
    let cert = inst.common_certificate();
    assert_eq!(cert.get(1), Assignment::True);
    assert_eq!(cert.get(2), Assignment::False);
    assert_eq!(cert.get(3), Assignment::False);
    assert_eq!(cert.len(), 3);
}

#[test]
fn verdict_true_comes_with_a_satisfying_certificate() {
    let mut inst = build(vec![vec![-1], vec![1, 2], vec![-2, -3]], 3);
    assert!(matches!(inst.cascade(), EvaluatedInstance::True));
    let cert = inst.common_certificate();
    // Every original clause holds some literal the certificate makes true.
    assert_eq!(cert.get(-1), Assignment::True);
    assert_eq!(cert.get(2), Assignment::True);
    assert_eq!(cert.get(-3), Assignment::True);
}
