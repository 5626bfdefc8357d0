//! Objective function: weighted reward for true variables minus a penalty per
//! unsatisfied clause.

use vstd::prelude::*;
use vstd::arithmetic::mul::*;
use crate::model::{
    Formula, TruthAssignment, lemma_filter_push, lemma_wf_satisfies_some, sat_clause,
    spec_satisfied_clauses, Clause3,
};

verus! {

/// Sum of the first `k` weights of variables set true; a variable beyond the
/// weight vector contributes nothing.
pub open spec fn weight_true_sum_to(a: Seq<bool>, w: Seq<u32>, k: int) -> int
    recommends
        k <= a.len(),
    decreases k,
{
    if k <= 0 {
        0
    } else {
        weight_true_sum_to(a, w, k - 1) + (if a[k - 1] && k - 1 < w.len() {
            w[k - 1] as int
        } else {
            0
        })
    }
}

/// Summed weight of the variables an assignment sets true.
pub open spec fn weight_true_sum(a: Seq<bool>, w: Seq<u32>) -> int {
    weight_true_sum_to(a, w, a.len() as int)
}

/// Sum of the first `k` weights.
pub open spec fn weights_total_to(w: Seq<u32>, k: int) -> int
    recommends
        k <= w.len(),
    decreases k,
{
    if k <= 0 {
        0
    } else {
        weights_total_to(w, k - 1) + w[k - 1] as int
    }
}

/// Sum of the whole weight vector.
pub open spec fn weights_total(w: Seq<u32>) -> int {
    weights_total_to(w, w.len() as int)
}

/// Count of clauses satisfied under `a`.
pub open spec fn spec_satisfied_count(a: Seq<bool>, cls: Seq<Clause3>) -> int {
    spec_satisfied_clauses(a, cls).len() as int
}

/// Count of clauses not satisfied under `a` (an out-of-bounds clause counts as
/// unsatisfied).
pub open spec fn spec_unsat_count(a: Seq<bool>, cls: Seq<Clause3>) -> int {
    cls.len() - spec_satisfied_count(a, cls)
}

/// The objective value: weight-true-sum minus `p` per unsatisfied clause.
pub open spec fn spec_value(a: Seq<bool>, f: Formula, p: int) -> int {
    weight_true_sum(a, f.weights@) - p * spec_unsat_count(a, f.clauses@)
}

/// A magnitude no objective value over `f` with multiplier `p` can exceed.
pub open spec fn value_bound(f: Formula, p: int) -> int {
    weights_total(f.weights@) + p * f.clauses@.len()
}

/// Ceiling on `value_bound` that the search accepts (2^45). It keeps value
/// differences, and the exact integer arithmetic of the tail-cut deviation
/// check, inside the machine's integer types.
pub const VALUE_MAGNITUDE_LIMIT: i64 = 0x2000_0000_0000;

/// Prefix sums of the weight vector are non-negative and monotone.
pub proof fn lemma_weights_total_monotone(w: Seq<u32>, k1: int, k2: int)
    requires
        0 <= k1 <= k2 <= w.len(),
    ensures
        0 <= weights_total_to(w, k1) <= weights_total_to(w, k2),
    decreases k2,
{
    if k2 > 0 {
        if k1 == k2 {
            lemma_weights_total_monotone(w, k1 - 1, k2 - 1);
        } else {
            lemma_weights_total_monotone(w, k1, k2 - 1);
        }
    }
}

/// The weight-true-sum is trapped between zero and the total weight.
pub proof fn lemma_weight_true_sum_bounds(a: Seq<bool>, w: Seq<u32>, k: int)
    requires
        0 <= k,
    ensures
        0 <= weight_true_sum_to(a, w, k),
        weight_true_sum_to(a, w, k) <= weights_total_to(
            w,
            if k <= w.len() {
                k
            } else {
                w.len() as int
            },
        ),
        weight_true_sum_to(a, w, k) <= weights_total(w),
    decreases k,
{
    if k > 0 {
        lemma_weight_true_sum_bounds(a, w, k - 1);
    }
    let cap = if k <= w.len() {
        k
    } else {
        w.len() as int
    };
    lemma_weights_total_monotone(w, cap, w.len() as int);
}

/// The objective value lies within `value_bound` on both sides.
pub proof fn lemma_value_in_bounds(a: Seq<bool>, f: Formula, p: int)
    requires
        0 <= p,
    ensures
        -value_bound(f, p) <= spec_value(a, f, p) <= value_bound(f, p),
{
    lemma_weight_true_sum_bounds(a, f.weights@, a.len() as int);
    f.clauses@.lemma_filter_len(sat_clause(a));
    let unsat = spec_unsat_count(a, f.clauses@);
    let n = f.clauses@.len() as int;
    lemma_mul_nonnegative(p, unsat);
    lemma_mul_inequality(unsat, n, p);
    lemma_mul_nonnegative(p, n);
}

/// Law: with the satisfied-clause count held fixed, the value is strictly
/// monotonic in the weight-true-sum.
pub proof fn lemma_value_monotone_in_weight(a1: Seq<bool>, a2: Seq<bool>, f: Formula, p: int)
    requires
        spec_satisfied_count(a1, f.clauses@) == spec_satisfied_count(a2, f.clauses@),
        weight_true_sum(a1, f.weights@) > weight_true_sum(a2, f.weights@),
    ensures
        spec_value(a1, f, p) > spec_value(a2, f, p),
{
}

/// The objective value of an assignment: the summed weight of true variables,
/// minus `penalty_multiplier` for every unsatisfied clause.
pub fn value_of(state: &TruthAssignment, formula: &Formula, penalty_multiplier: i64) -> (r: i64)
    requires
        formula.wf(),
        state@.len() == formula.vars_n,
        0 <= penalty_multiplier,
        value_bound(*formula, penalty_multiplier as int) <= i64::MAX,
    ensures
        r == spec_value(state@, *formula, penalty_multiplier as int),
{
    let ghost p = penalty_multiplier as int;
    proof {
        lemma_mul_nonnegative(p, formula.clauses@.len() as int);
        lemma_weight_true_sum_bounds(state@, formula.weights@, state@.len() as int);
    }
    let n = state.assignments.len();
    let mut acc: i64 = 0;
    let mut k: usize = 0;
    while k < n
        invariant
            0 <= k <= n,
            n == state@.len(),
            formula.wf(),
            state@.len() == formula.vars_n,
            acc == weight_true_sum_to(state@, formula.weights@, k as int),
            weights_total(formula.weights@) <= i64::MAX,
        decreases n - k,
    {
        proof {
            lemma_weight_true_sum_bounds(state@, formula.weights@, k + 1 as int);
            lemma_weight_true_sum_bounds(state@, formula.weights@, k as int);
        }
        if state.assignments[k] {
            if k < formula.weights.len() {
                acc = acc + formula.weights[k] as i64;
            }
        }
        k += 1;
    }
    proof {
        lemma_wf_satisfies_some(state@, *formula);
    }
    let m = formula.clauses.len();
    let mut sat: usize = 0;
    let mut i: usize = 0;
    while i < m
        invariant
            0 <= i <= m,
            m == formula.clauses@.len(),
            sat <= i,
            formula.wf(),
            state@.len() == formula.vars_n,
            forall|j: int|
                0 <= j < m ==> crate::model::spec_satisfies(state@, #[trigger] formula.clauses@[j])
                    is Some,
            sat == spec_satisfied_count(state@, formula.clauses@.subrange(0, i as int)),
        decreases m - i,
    {
        let c = formula.clauses[i];
        match state.satisfies(&c) {
            Some(s) => {
                if s {
                    sat += 1;
                }
            },
            None => {},
        }
        proof {
            assert(formula.clauses@.subrange(0, i + 1 as int) =~= formula.clauses@.subrange(
                0,
                i as int,
            ).push(c));
            lemma_filter_push(formula.clauses@.subrange(0, i as int), c, sat_clause(state@));
        }
        i += 1;
    }
    proof {
        assert(formula.clauses@.subrange(0, m as int) =~= formula.clauses@);
    }
    if penalty_multiplier == 0 {
        return acc;
    }
    proof {
        f_unsat_fits(state@, *formula, p);
    }
    let unsat: i64 = (m - sat) as i64;
    proof {
        assert((penalty_multiplier as i128) * (unsat as i128) < 0x4000_0000_0000_0000_0000_0000_0000_0000i128
            && 0 <= (penalty_multiplier as i128) * (unsat as i128)) by (nonlinear_arith)
            requires
                0 <= penalty_multiplier <= 0x7fff_ffff_ffff_ffffi64,
                0 <= unsat <= 0x7fff_ffff_ffff_ffffi64,
        ;
    }
    let penalty_wide: i128 = (penalty_multiplier as i128) * (unsat as i128);
    proof {
        let unsat_s = spec_unsat_count(state@, formula.clauses@);
        lemma_mul_inequality(unsat_s, formula.clauses@.len() as int, p);
        lemma_mul_nonnegative(p, unsat_s);
    }
    acc - (penalty_wide as i64)
}

/// With a positive multiplier the clause count itself fits in `i64`, because
/// `p * len` is part of the bound.
proof fn f_unsat_fits(a: Seq<bool>, f: Formula, p: int)
    requires
        1 <= p,
        value_bound(f, p) <= i64::MAX,
    ensures
        f.clauses@.len() <= i64::MAX,
        0 <= spec_unsat_count(a, f.clauses@) <= f.clauses@.len(),
{
    let n = f.clauses@.len() as int;
    lemma_mul_inequality(1, p, n);
    lemma_weight_true_sum_bounds(a, f.weights@, 0);
    lemma_weights_total_monotone(f.weights@, 0, f.weights@.len() as int);
    f.clauses@.lemma_filter_len(sat_clause(a));
}

/// The objective for one fixed penalty multiplier, as a small struct so every
/// tunable stays explicit.
pub struct ValueCalculator {
    pub penalty_multiplier: i64,
}

/// Builds the objective function for a penalty multiplier.
pub fn value_calculator_factory(penalty_multiplier: i64) -> (r: ValueCalculator)
    ensures
        r.penalty_multiplier == penalty_multiplier,
{
    ValueCalculator { penalty_multiplier }
}

impl ValueCalculator {
    /// See `value_of`.
    pub fn value(&self, state: &TruthAssignment, formula: &Formula) -> (r: i64)
        requires
            formula.wf(),
            state@.len() == formula.vars_n,
            0 <= self.penalty_multiplier,
            value_bound(*formula, self.penalty_multiplier as int) <= i64::MAX,
        ensures
            r == spec_value(state@, *formula, self.penalty_multiplier as int),
    {
        value_of(state, formula, self.penalty_multiplier)
    }
}

/// The summed weight vector, exactly.
pub fn weights_total_exec(weights: &Vec<u32>) -> (r: u128)
    ensures
        r == weights_total(weights@),
        r <= (weights@.len() as int) * 0xffff_ffff,
{
    let n = weights.len();
    let mut sum: u128 = 0;
    let mut i: usize = 0;
    while i < n
        invariant
            0 <= i <= n,
            n == weights@.len(),
            sum == weights_total_to(weights@, i as int),
            sum <= (i as int) * 0xffff_ffffu128,
        decreases n - i,
    {
        proof {
            assert((i as int) * 0xffff_ffff + 0xffff_ffff == (i as int + 1) * 0xffff_ffff)
                by (nonlinear_arith);
            assert((i as int + 1) * 0xffff_ffff < 0x1_0000_0000_0000_0000_0000_0000u128)
                by (nonlinear_arith)
                requires
                    i as int + 1 <= 0xffff_ffff_ffff_ffffu64 as int + 1,
            ;
        }
        sum = sum + weights[i] as u128;
        i += 1;
    }
    sum
}

/// `k` times the average variable weight (integer division; zero average when
/// the weight vector is empty), or `None` when the product would not fit.
pub fn scaled_penalty(k: i64, weights: &Vec<u32>) -> (r: Option<i64>)
    requires
        0 <= k,
    ensures
        ({
            let avg = if weights@.len() == 0 {
                0int
            } else {
                weights_total(weights@) / weights@.len() as int
            };
            r == (if k * avg <= i64::MAX {
                Some((k * avg) as i64)
            } else {
                None::<i64>
            })
        }),
{
    let n = weights.len();
    let sum = weights_total_exec(weights);
    if n == 0 {
        proof {
            assert(k * 0 == 0) by (nonlinear_arith);
        }
        return Some(0);
    }
    let avg: u128 = sum / (n as u128);
    proof {
        assert(weights_total(weights@) >= 0) by {
            lemma_weights_total_monotone(weights@, 0, weights@.len() as int);
        }
        assert(avg == weights_total(weights@) / weights@.len() as int);
        vstd::arithmetic::div_mod::lemma_div_nonincreasing(sum as int, n as int);
    }
    proof {
        vstd::arithmetic::div_mod::lemma_div_is_ordered(
            sum as int,
            (n as int) * 0xffff_ffff,
            n as int,
        );
        vstd::arithmetic::div_mod::lemma_div_multiples_vanish(0xffff_ffff, n as int);
        assert(avg <= 0xffff_ffffu128);
        assert((k as i128) * (avg as i128) < 0x4000_0000_0000_0000_0000_0000_0000_0000i128
            && 0 <= (k as i128) * (avg as i128)) by (nonlinear_arith)
            requires
                0 <= k <= 0x7fff_ffff_ffff_ffffi64,
                0 <= avg <= 0xffff_ffffu128,
        ;
    }
    let product: i128 = (k as i128) * (avg as i128);
    proof {
        lemma_mul_nonnegative(k as int, avg as int);
    }
    if product <= i64::MAX as i128 {
        Some(product as i64)
    } else {
        None
    }
}

} // verus!
