//! Temperature schedule: geometric cooling, the freezing test, and the
//! sampling side of adaptive initial-temperature calibration.
//!
//! A temperature is held in fixed point, as a count of millionths of a degree,
//! so the schedule is a pure integer state machine. Only the Metropolis
//! acceptance ratio `exp(-d/t)` — transcendental, so floating point — is left
//! to the surrounding binary, which hands its verdicts back as booleans.

use vstd::prelude::*;
use vstd::arithmetic::mul::*;
use vstd::arithmetic::div_mod::*;
use crate::model::{Formula, TruthAssignment};
use crate::neighbor::next_state;
use crate::objective::{lemma_value_in_bounds, value_bound, value_of, VALUE_MAGNITUDE_LIMIT};

verus! {

/// Fixed-point temperature scale: units per one degree.
pub const TEMPERATURE_SCALE: u64 = 1_000_000;

/// Calibration starts at one degree.
pub const INITIAL_CALIBRATION_TEMPERATURE: u64 = 1_000_000;

/// Default heating step during calibration: ten degrees.
pub const DEFAULT_HEAT_STEP: u64 = 10_000_000;

/// Worsening samples a calibration round collects before judging the mean
/// acceptance ratio.
pub const CALIBRATION_SAMPLES: usize = 10;

/// One cooling step: the temperature times the cooling ratio, in parts per
/// million. It strictly shrinks any positive temperature, so repeated cooling
/// always reaches the freezing floor.
pub fn cool(t: u64, cooling_ppm: u64) -> (r: u64)
    requires
        0 < cooling_ppm < 1_000_000,
    ensures
        r as int == (t as int * cooling_ppm as int) / 1_000_000,
        r <= t,
        1 <= t ==> r < t,
{
    proof {
        let tt = t as int;
        let c = cooling_ppm as int;
        lemma_mul_inequality(c, 999_999, tt);
        assert(tt * c <= 999_999 * tt);
        lemma_div_is_ordered(tt * c, tt * 1_000_000 - tt, 1_000_000);
        lemma_div_multiples_vanish(tt, 1_000_000);
        assert((tt * 1_000_000) / 1_000_000 == tt);
        if tt >= 1 {
            lemma_div_is_ordered(tt * c, tt * 1_000_000 - 1, 1_000_000);
            lemma_fundamental_div_mod_converse(tt * 1_000_000 - 1, 1_000_000, tt - 1, 999_999);
        } else {
            lemma_div_is_ordered(tt * c, tt * 1_000_000, 1_000_000);
        }
        lemma_mul_nonnegative(tt, c);
        lemma_div_pos_is_pos(tt * c, 1_000_000);
        assert((t as u128) * (cooling_ppm as u128) < 0x1_0000_0000_0000_0000_0000_0000u128)
            by (nonlinear_arith)
            requires
                t <= 0xffff_ffff_ffff_ffffu64,
                cooling_ppm < 1_000_000,
        ;
    }
    (((t as u128) * (cooling_ppm as u128)) / 1_000_000u128) as u64
}

/// The freezing test: the schedule is frozen once the temperature has fallen
/// to the floor.
pub fn is_frozen(t: u64, min_temperature: u64) -> (r: bool)
    ensures
        r == (t <= min_temperature),
{
    t <= min_temperature
}

/// One calibration heating step.
pub fn heat(t: u64, step: u64) -> (r: u64)
    requires
        t + step <= u64::MAX,
    ensures
        r == t + step,
{
    t + step
}

/// `10^e`.
pub open spec fn pow10(e: nat) -> int
    decreases e,
{
    if e == 0 {
        1
    } else {
        10 * pow10((e - 1) as nat)
    }
}

/// Powers of ten are positive and weakly monotone in the exponent.
proof fn lemma_pow10_bounds(e1: nat, e2: nat)
    requires
        e1 <= e2,
    ensures
        1 <= pow10(e1) <= pow10(e2),
    decreases e2,
{
    if e2 > 0 {
        if e1 == e2 {
            lemma_pow10_bounds((e1 - 1) as nat, (e2 - 1) as nat);
        } else {
            lemma_pow10_bounds(e1, (e2 - 1) as nat);
        }
    }
}

/// The absolute temperature floor: the calibrated initial temperature divided
/// by `10^exponent`, so the floor scales with the instance.
pub fn min_temperature_from(t0: u64, exponent: u32) -> (r: u64)
    ensures
        r as int == t0 as int / pow10(exponent as nat),
{
    let mut r = t0;
    let mut i: u32 = 0;
    while i < exponent
        invariant
            0 <= i <= exponent,
            r as int == t0 as int / pow10(i as nat),
        decreases exponent - i,
    {
        proof {
            lemma_pow10_bounds(i as nat, i as nat);
        }
        if r == 0 {
            proof {
                lemma_pow10_bounds(i as nat, exponent as nat);
                lemma_fundamental_div_mod(t0 as int, pow10(i as nat));
                lemma_mod_bound(t0 as int, pow10(i as nat));
                assert(t0 < pow10(i as nat));
                lemma_basic_div_specific_divisor(pow10(exponent as nat));
            }
            return 0;
        }
        proof {
            lemma_div_denominator(t0 as int, pow10(i as nat), 10);
            assert(pow10(i as nat) * 10 == pow10((i + 1) as nat));
        }
        r = r / 10;
        i += 1;
    }
    r
}

/// Draws random (assignment, neighbor) pairs and keeps the value decrease of
/// each strictly worsening pair, until `samples_wanted` are found or
/// `max_attempts` pairs have been tried. `None` once attempts run out: on an
/// instance where no neighbor ever worsens the value (or with no variables at
/// all) the attempt cap is what guarantees this sampling terminates.
pub fn collect_worsening_decreases(
    formula: &Formula,
    penalty_multiplier: i64,
    samples_wanted: usize,
    max_attempts: u64,
) -> (r: Option<Vec<i64>>)
    requires
        formula.wf(),
        0 <= penalty_multiplier,
        value_bound(*formula, penalty_multiplier as int) <= VALUE_MAGNITUDE_LIMIT,
    ensures
        match r {
            Some(ds) => ds@.len() == samples_wanted && forall|i: int|
                0 <= i < ds@.len() ==> 1 <= #[trigger] ds@[i] <= 2 * value_bound(
                    *formula,
                    penalty_multiplier as int,
                ),
            None => true,
        },
        samples_wanted == 0 ==> r is Some,
        samples_wanted >= 1 && formula.vars_n == 0 ==> r is None,
{
    let mut ds: Vec<i64> = Vec::new();
    if samples_wanted == 0 {
        return Some(ds);
    }
    if formula.vars_n == 0 {
        return None;
    }
    let ghost vb = value_bound(*formula, penalty_multiplier as int);
    let mut attempts: u64 = 0;
    while attempts < max_attempts
        invariant
            formula.wf(),
            0 <= penalty_multiplier,
            vb == value_bound(*formula, penalty_multiplier as int),
            vb <= VALUE_MAGNITUDE_LIMIT,
            1 <= formula.vars_n,
            ds@.len() < samples_wanted,
            forall|i: int| 0 <= i < ds@.len() ==> 1 <= #[trigger] ds@[i] <= 2 * vb,
        decreases max_attempts - attempts,
    {
        let state = TruthAssignment::new_random(formula.vars_n);
        let state_value = value_of(&state, formula, penalty_multiplier);
        let neighbor = next_state(&state);
        let neighbor_value = value_of(&neighbor, formula, penalty_multiplier);
        if neighbor_value < state_value {
            proof {
                lemma_value_in_bounds(state@, *formula, penalty_multiplier as int);
                lemma_value_in_bounds(neighbor@, *formula, penalty_multiplier as int);
            }
            ds.push(state_value - neighbor_value);
            if ds.len() == samples_wanted {
                return Some(ds);
            }
        }
        attempts += 1;
    }
    None
}

} // verus!
