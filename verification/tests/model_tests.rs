use sat3_anneal::model::{Clause3, Formula, TruthAssignment};
use sat3_anneal::neighbor::next_state;

fn five_var_formula() -> Formula {
    Formula {
        vars_n: 5,
        weights: vec![1, 1, 1, 1, 1],
        clauses: vec![
            Clause3::from_str("-1 2 3").unwrap(),
            Clause3::from_str("2 4 5").unwrap(),
        ],
    }
}

#[test]
fn check_clause_satisfaction() {
    let f = five_var_formula();
    assert_eq!(
        TruthAssignment::from(vec![true, true, false, false, true]).satisfies_formula(&f),
        Some(true)
    );
    assert_eq!(
        TruthAssignment::from(vec![true, false, false, false, true]).satisfies_formula(&f),
        Some(false)
    );
}

#[test]
fn filter_satisfied_clauses() {
    let f = five_var_formula();

    println!(
        "{:#?}",
        TruthAssignment::from(vec![true, false, false, false, true]).satisfied_clauses(&f.clauses)
    )
}

#[test]
fn satisfied_clauses_keeps_order_and_subset() {
    let f = five_var_formula();
    let a = TruthAssignment::from(vec![true, false, false, false, true]);
    // first clause violated (1 true, 2 false, 3 false), second satisfied by 5
    let kept = a.satisfied_clauses(&f.clauses);
    assert_eq!(kept.len(), 1);
    assert_eq!(kept[0], f.clauses[1]);
    let b = TruthAssignment::from(vec![true, true, false, false, true]);
    let kept_all = b.satisfied_clauses(&f.clauses);
    assert_eq!(kept_all.len(), 2);
    assert_eq!(kept_all[0], f.clauses[0]);
    assert_eq!(kept_all[1], f.clauses[1]);
}

#[test]
fn satisfies_out_of_range_is_none() {
    let a = TruthAssignment::from(vec![true, true, true]);
    let beyond = Clause3 { a: 9, b: 1, c: 1 };
    assert_eq!(a.satisfies(&beyond), None);
    let zero = Clause3 { a: 0, b: 1, c: 1 };
    assert_eq!(a.satisfies(&zero), None);
}

#[test]
fn negation_semantics() {
    let a = TruthAssignment::from(vec![false, true]);
    // -1 is true because variable 1 is false
    assert_eq!(a.satisfies(&Clause3 { a: -1, b: -2, c: -2 }), Some(true));
    // only -2 present: variable 2 is true, so the clause fails
    assert_eq!(a.satisfies(&Clause3 { a: -2, b: -2, c: -2 }), Some(false));
}

#[test]
fn flip_is_involution() {
    let before = TruthAssignment::from(vec![true, false, true, true]);
    let mut a = before.clone();
    a.flip(3);
    assert_ne!(a, before);
    a.flip(3);
    assert_eq!(a, before);
    // a negative literal flips the same variable
    a.flip(-2);
    a.flip(2);
    assert_eq!(a, before);
}

#[test]
fn formula_well_formedness() {
    let f = five_var_formula();
    assert!(f.wf_exec());
    let bad = Formula {
        vars_n: 2,
        weights: vec![1, 1],
        clauses: vec![Clause3 { a: 1, b: 2, c: 3 }],
    };
    assert!(!bad.wf_exec());
}

#[test]
fn new_random_sizes() {
    assert_eq!(TruthAssignment::new_random(7).assignments.len(), 7);
    assert_eq!(TruthAssignment::new_random(0).assignments.len(), 0);
}

#[test]
fn next_state_flips_exactly_one_variable() {
    let a = TruthAssignment::from(vec![true, false, true, false, true]);
    let before = a.clone();
    let n = next_state(&a);
    assert_eq!(a, before, "the input must not be mutated");
    assert_eq!(n.assignments.len(), a.assignments.len());
    let differing = a
        .assignments
        .iter()
        .zip(n.assignments.iter())
        .filter(|(x, y)| x != y)
        .count();
    assert_eq!(differing, 1);
}

#[test]
fn render_signed_literals() {
    let a = TruthAssignment::from(vec![true, false, true]);
    assert_eq!(a.render(), "1 -2 3");
    let empty = TruthAssignment::from(vec![]);
    assert_eq!(empty.render(), "");
    let twelve = TruthAssignment::from(vec![false; 12]);
    assert_eq!(
        twelve.render(),
        "-1 -2 -3 -4 -5 -6 -7 -8 -9 -10 -11 -12"
    );
}

#[test]
fn duplicate_is_equal_and_independent() {
    let a = TruthAssignment::from(vec![true, false]);
    let mut d = a.duplicate();
    assert_eq!(a, d);
    d.flip(1);
    assert_ne!(a, d);
}
