use sat3_anneal::model::{Clause3, Formula, TruthAssignment};
use sat3_anneal::objective::{scaled_penalty, value_calculator_factory};

fn five_var_formula() -> Formula {
    Formula {
        vars_n: 5,
        weights: vec![1, 1, 1, 1, 1],
        clauses: vec![
            Clause3::from_str("-1 2 3").unwrap(),
            Clause3::from_str("2 4 5").unwrap(),
        ],
    }
}

#[test]
fn value_rewards_weights_and_penalizes_unsatisfied() {
    let f = five_var_formula();
    let value = value_calculator_factory(4);
    // both clauses satisfied: 1+1+1 true weight, no penalty
    let good = TruthAssignment::from(vec![true, true, false, false, true]);
    assert_eq!(value.value(&good, &f), 3);
    // first clause violated: 1+1 true weight minus one penalty of 4
    let bad = TruthAssignment::from(vec![true, false, false, false, true]);
    assert_eq!(value.value(&bad, &f), -2);
}

#[test]
fn value_with_zero_penalty_is_the_weight_sum() {
    let f = five_var_formula();
    let value = value_calculator_factory(0);
    let a = TruthAssignment::from(vec![true, false, false, false, true]);
    assert_eq!(value.value(&a, &f), 2);
}

#[test]
fn value_handles_missing_weights_gracefully() {
    // zero weights were filtered out, so the vector is shorter than vars_n
    let f = Formula {
        vars_n: 3,
        weights: vec![5],
        clauses: vec![],
    };
    let value = value_calculator_factory(4);
    let a = TruthAssignment::from(vec![true, true, true]);
    assert_eq!(value.value(&a, &f), 5);
}

#[test]
fn value_monotone_in_weight_true_sum_at_fixed_satisfaction() {
    // no clauses, so the satisfied count is fixed at zero for any assignment
    let f = Formula {
        vars_n: 2,
        weights: vec![2, 3],
        clauses: vec![],
    };
    let value = value_calculator_factory(7);
    let heavier = TruthAssignment::from(vec![true, true]);
    let lighter = TruthAssignment::from(vec![true, false]);
    assert!(value.value(&heavier, &f) > value.value(&lighter, &f));
    assert_eq!(value.value(&heavier, &f), 5);
    assert_eq!(value.value(&lighter, &f), 2);
}

#[test]
fn scaled_penalty_uses_the_average_weight() {
    assert_eq!(scaled_penalty(4, &vec![1, 2, 3]), Some(8));
    assert_eq!(scaled_penalty(4, &vec![]), Some(0));
    assert_eq!(scaled_penalty(0, &vec![10, 20]), Some(0));
    // 2^62 average times 4 does not fit in i64
    assert_eq!(scaled_penalty(i64::MAX, &vec![u32::MAX]), None);
}
