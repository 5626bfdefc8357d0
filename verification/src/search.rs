//! Annealing controller: the search's per-iteration state machine.
//!
//! The controller owns the current and best assignments, the value history,
//! the tail-cut lifetime counter and the temperature, and advances by `step`:
//! record the current value, judge the proposed neighbor, apply the selected
//! tail-cut policy, and cool once a plateau's iteration budget is spent. The
//! caller supplies the proposed neighbor and the Metropolis coin for a
//! worsening move (whose `exp` needs floating point); everything the coin
//! decides is pinned here for either outcome.

use vstd::prelude::*;
use vstd::arithmetic::mul::*;
use vstd::arithmetic::div_mod::*;
use crate::model::{Formula, TruthAssignment};
use crate::objective::{
    lemma_value_in_bounds, spec_value, value_bound, value_of, weights_total_exec,
    VALUE_MAGNITUDE_LIMIT,
};
use crate::schedule::cool;

verus! {

/// Longest tail-cut window the deviation check accepts; it keeps the check's
/// exact integer statistics inside the machine's 128-bit types.
pub const MAX_TAIL_CUT_LENGTH: usize = 4096;

/// Which convergence heuristic is in force. Relative-deviation may end a
/// plateau early; relative-change may end the whole search.
#[derive(Debug, Clone, Copy, PartialEq, Eq, Structural)]
pub enum TailCutMethod {
    RelativeDeviation,
    RelativeChange,
}

/// The controller's states; `Frozen` and `Exhausted` are terminal.
#[derive(Debug, Clone, Copy, PartialEq, Eq, Structural)]
pub enum SearchStatus {
    Running,
    Frozen,
    Exhausted,
}

/// Tuning parameters of one annealing run, every tunable explicit.
#[derive(Debug, Clone, Copy)]
pub struct SearchParams {
    /// Penalty per unsatisfied clause, already scaled for the instance.
    pub penalty_multiplier: i64,
    /// Iterations spent at one temperature before cooling.
    pub equilibrium: u64,
    /// Cooling ratio in parts per million, strictly between 0 and 1_000_000.
    pub cooling_ppm: u64,
    /// Freezing floor in fixed-point temperature units.
    pub min_temperature_units: u64,
    /// Tail-cut window length (relative-deviation) or starting lifetime
    /// (relative-change).
    pub tail_cut_length: usize,
    pub tail_cut_method: TailCutMethod,
}

impl SearchParams {
    /// Parameter ranges every run needs.
    pub open spec fn wf(self) -> bool {
        &&& 0 <= self.penalty_multiplier
        &&& 1 <= self.equilibrium
        &&& 0 < self.cooling_ppm < 1_000_000
        &&& self.tail_cut_length <= MAX_TAIL_CUT_LENGTH
    }

    /// Checks the parameter ranges.
    pub fn wf_exec(&self) -> (r: bool)
        ensures
            r == self.wf(),
    {
        0 <= self.penalty_multiplier && 1 <= self.equilibrium && 0 < self.cooling_ppm
            && self.cooling_ppm < 1_000_000 && self.tail_cut_length <= MAX_TAIL_CUT_LENGTH
    }
}

/// Sum of a window of recorded values.
pub open spec fn sum_values(s: Seq<int>) -> int
    decreases s.len(),
{
    if s.len() == 0 {
        0
    } else {
        sum_values(s.drop_last()) + s.last()
    }
}

/// Sum of squares of a window of recorded values.
pub open spec fn sum_squares(s: Seq<int>) -> int
    decreases s.len(),
{
    if s.len() == 0 {
        0
    } else {
        sum_squares(s.drop_last()) + s.last() * s.last()
    }
}

proof fn lemma_sum_push(s: Seq<int>, x: int)
    ensures
        sum_values(s.push(x)) == sum_values(s) + x,
        sum_squares(s.push(x)) == sum_squares(s) + x * x,
{
    assert(s.push(x).drop_last() =~= s);
}

/// Every window whose entries stay within `b` has its sum within `len * b`
/// and its sum of squares within `len * b * b`.
proof fn lemma_sum_bounds(s: Seq<int>, b: int)
    requires
        0 <= b,
        forall|i: int| 0 <= i < s.len() ==> -b <= #[trigger] s[i] <= b,
    ensures
        -((s.len() as int) * b) <= sum_values(s) <= (s.len() as int) * b,
        0 <= sum_squares(s) <= (s.len() as int) * (b * b),
    decreases s.len(),
{
    if s.len() > 0 {
        let t = s.drop_last();
        lemma_sum_bounds(t, b);
        let x = s.last();
        assert(x * x <= b * b && 0 <= x * x) by (nonlinear_arith)
            requires
                -b <= x <= b,
        ;
        assert((t.len() as int) * b + b == (s.len() as int) * b) by (nonlinear_arith)
            requires
                t.len() + 1 == s.len(),
        ;
        assert((t.len() as int) * (b * b) + b * b == (s.len() as int) * (b * b))
            by (nonlinear_arith)
            requires
                t.len() + 1 == s.len(),
        ;
    }
}

/// The relative-deviation tail-cut condition, stated exactly. Over the last
/// `n` recorded values with sum `S` and sum of squares `Q`, the sample mean is
/// `S/n` and the Bessel-corrected sample variance is `(nQ - S^2) / (n(n-1))`.
/// "Mean positive and (standard deviation)/mean < 1e-5", squared and cleared
/// of its positive denominators, is exactly the integer comparison below.
/// Fewer than `n` recorded values, or a window shorter than two, never
/// converges.
pub open spec fn spec_deviation_converged(h: Seq<int>, n: int) -> bool {
    &&& 2 <= n <= h.len()
    &&& {
        let tail = h.subrange(h.len() - n, h.len() as int);
        let s = sum_values(tail);
        let q = sum_squares(tail);
        s > 0 && 10_000_000_000 * n * (n * q - s * s) < s * s * (n - 1)
    }
}

/// Exact evaluation of the relative-deviation condition over the recorded
/// history.
fn deviation_converged(history: &Vec<i64>, n: usize) -> (r: bool)
    requires
        n <= MAX_TAIL_CUT_LENGTH,
        forall|i: int|
            0 <= i < history@.len() ==> -VALUE_MAGNITUDE_LIMIT <= #[trigger] history@[i]
                <= VALUE_MAGNITUDE_LIMIT,
    ensures
        r == spec_deviation_converged(history@.map_values(|v: i64| v as int), n as int),
{
    let len = history.len();
    let ghost hm = history@.map_values(|v: i64| v as int);
    proof {
        assert(hm.len() == history@.len());
    }
    if n < 2 || len < n {
        return false;
    }
    let start = len - n;
    let ghost b = VALUE_MAGNITUDE_LIMIT as int;
    proof {
        assert(b * b == 0x400_0000_0000_0000_0000_0000) by (nonlinear_arith)
            requires
                b == 0x2000_0000_0000,
        ;
    }
    let mut s: i128 = 0;
    let mut q: i128 = 0;
    let mut i = start;
    while i < len
        invariant
            start <= i <= len,
            start == len - n,
            2 <= n <= 4096,
            n <= len,
            len == history@.len(),
            hm == history@.map_values(|v: i64| v as int),
            b == VALUE_MAGNITUDE_LIMIT as int,
            forall|j: int| 0 <= j < hm.len() ==> -b <= #[trigger] hm[j] <= b,
            s == sum_values(hm.subrange(start as int, i as int)),
            q == sum_squares(hm.subrange(start as int, i as int)),
        decreases len - i,
    {
        let x = history[i] as i128;
        proof {
            let win = hm.subrange(start as int, i as int);
            assert(hm.subrange(start as int, i + 1 as int) =~= win.push(hm[i as int]));
            lemma_sum_push(win, hm[i as int]);
            lemma_sum_bounds(win, b);
            assert(win.len() <= 4096);
            assert((win.len() as int) * b <= 4096 * b) by (nonlinear_arith)
                requires
                    0 <= win.len() <= 4096,
                    0 <= b,
            ;
            assert((win.len() as int) * (b * b) <= 4096 * (b * b)) by (nonlinear_arith)
                requires
                    0 <= win.len() <= 4096,
                    0 <= b * b,
            ;
            assert(x * x <= b * b && 0 <= x * x) by (nonlinear_arith)
                requires
                    -b <= x <= b,
            ;
        }
        s = s + x;
        q = q + x * x;
        i += 1;
    }
    let ghost tail = hm.subrange(start as int, len as int);
    proof {
        assert(tail == hm.subrange(hm.len() - n as int, hm.len() as int));
        lemma_sum_bounds(tail, b);
        assert((tail.len() as int) * b <= 4096 * b) by (nonlinear_arith)
            requires
                0 <= tail.len() <= 4096,
                0 <= b,
        ;
        assert((tail.len() as int) * (b * b) <= 4096 * (b * b)) by (nonlinear_arith)
            requires
                0 <= tail.len() <= 4096,
                0 <= b * b,
        ;
    }
    if s <= 0 {
        return false;
    }
    let su = s as u128;
    let qu = q as u128;
    let nn = n as u128;
    let ghost si = s as int;
    let ghost qi = q as int;
    let ghost ni = n as int;
    proof {
        // magnitudes: s <= n*b <= 2^57, q <= n*b^2 <= 2^102
        assert(su <= 0x0200_0000_0000_0000u128);  // 2^57
        assert(qu <= 0x0000_0040_0000_0000_0000_0000_0000_0000u128);  // 2^102
        assert(nn * qu <= 0x0004_0000_0000_0000_0000_0000_0000_0000u128 && su * su
            <= 0x0004_0000_0000_0000_0000_0000_0000_0000u128 && su * su * (nn - 1)
            <= 0x4000_0000_0000_0000_0000_0000_0000_0000u128 && 1 <= su * su * (nn - 1))
            by (nonlinear_arith)
            requires
                1 <= su <= 0x0200_0000_0000_0000u128,
                0 <= qu <= 0x0000_0040_0000_0000_0000_0000_0000_0000u128,
                2 <= nn <= 4096,
        ;
    }
    let nq = nn * qu;
    let ss = su * su;
    let rr = ss * ((nn - 1) as u128);
    let mm = 10_000_000_000u128 * nn;
    let ghost lhs = 10_000_000_000 * ni * (ni * qi - si * si);
    let ghost rhs = si * si * (ni - 1);
    proof {
        assert(rhs == rr as int);
        assert(mm as int == 10_000_000_000 * ni);
    }
    if nq <= ss {
        proof {
            assert(lhs <= 0) by (nonlinear_arith)
                requires
                    ni * qi - si * si <= 0,
                    0 < ni,
                    lhs == 10_000_000_000 * ni * (ni * qi - si * si),
            ;
            assert(rhs >= 1);
        }
        return true;
    }
    let d = nq - ss;
    let quotient = (rr - 1) / mm;
    let converged = d <= quotient;
    proof {
        let di = d as int;
        let mi = mm as int;
        let ri = rr as int;
        assert(lhs == mi * di && lhs == di * mi) by (nonlinear_arith)
            requires
                di == ni * qi - si * si,
                mi == 10_000_000_000 * ni,
                lhs == 10_000_000_000 * ni * (ni * qi - si * si),
        ;
        // d <= (r-1)/m  <==>  m*d < r, for m >= 1 and r >= 1
        if converged {
            lemma_fundamental_div_mod(ri - 1, mi);
            lemma_mul_inequality(di, (ri - 1) / mi, mi);
            assert(((ri - 1) / mi) * mi <= ri - 1) by (nonlinear_arith)
                requires
                    ri - 1 == mi * ((ri - 1) / mi) + ((ri - 1) % mi),
                    0 <= (ri - 1) % mi,
            ;
        } else {
            if mi * di < ri {
                lemma_div_is_ordered(mi * di, ri - 1, mi);
                lemma_div_multiples_vanish(di, mi);
                assert(di <= (ri - 1) / mi);
                assert(false);
            }
        }
        assert(converged == (lhs < rhs));
    }
    converged
}

/// Ghost snapshot of a `SearchState`, over mathematical types.
#[verifier::ext_equal]
pub ghost struct SearchModel {
    pub current: Seq<bool>,
    pub best: Seq<bool>,
    pub best_value: int,
    pub history: Seq<int>,
    pub lifes: int,
    pub temperature_units: int,
    pub plateau_pos: int,
    pub status: SearchStatus,
}

/// One iteration of the annealing controller, as a function of the previous
/// state, the proposed neighbor and the Metropolis coin for a worsening move:
/// record the current value; under relative-change, spend or reset the
/// lifetime and stop the whole search when it runs out; accept the neighbor
/// when it improves or the coin says so; track the best; and at the end of a
/// plateau — its budget spent, or cut short by relative-deviation convergence
/// — cool and re-check the freezing floor.
///
/// The lifetime is spent when `|new - cur| < |cur|`: exactly when the
/// relative change `(new - cur) / cur` has absolute value below one, a zero
/// current value (division by zero) resetting like any large change.
pub open spec fn spec_step(
    m: SearchModel,
    f: Formula,
    cfg: SearchParams,
    proposed: Seq<bool>,
    accept_worse: bool,
) -> SearchModel {
    let p = cfg.penalty_multiplier as int;
    let cur_v = spec_value(m.current, f, p);
    let new_v = spec_value(proposed, f, p);
    let history1 = m.history.push(cur_v);
    let lifes1 = if cfg.tail_cut_method == TailCutMethod::RelativeChange {
        if vstd::math::abs(new_v - cur_v) < vstd::math::abs(cur_v) {
            m.lifes - 1
        } else {
            cfg.tail_cut_length as int
        }
    } else {
        m.lifes
    };
    let accepted = new_v > cur_v || accept_worse;
    let current1 = if accepted {
        proposed
    } else {
        m.current
    };
    let value1 = if accepted {
        new_v
    } else {
        cur_v
    };
    let best1 = if value1 > m.best_value {
        current1
    } else {
        m.best
    };
    let best_value1 = if value1 > m.best_value {
        value1
    } else {
        m.best_value
    };
    if cfg.tail_cut_method == TailCutMethod::RelativeChange && lifes1 == 0 {
        SearchModel {
            current: current1,
            best: best1,
            best_value: best_value1,
            history: history1,
            lifes: lifes1,
            temperature_units: m.temperature_units,
            plateau_pos: m.plateau_pos,
            status: SearchStatus::Exhausted,
        }
    } else if m.plateau_pos + 1 >= cfg.equilibrium || (cfg.tail_cut_method
        == TailCutMethod::RelativeDeviation && spec_deviation_converged(
        history1,
        cfg.tail_cut_length as int,
    )) {
        let t1 = (m.temperature_units * cfg.cooling_ppm as int) / 1_000_000;
        SearchModel {
            current: current1,
            best: best1,
            best_value: best_value1,
            history: history1,
            lifes: lifes1,
            temperature_units: t1,
            plateau_pos: 0,
            status: if t1 <= cfg.min_temperature_units {
                SearchStatus::Frozen
            } else {
                SearchStatus::Running
            },
        }
    } else {
        SearchModel {
            current: current1,
            best: best1,
            best_value: best_value1,
            history: history1,
            lifes: lifes1,
            temperature_units: m.temperature_units,
            plateau_pos: m.plateau_pos + 1,
            status: SearchStatus::Running,
        }
    }
}

/// The search's mutable state: the current assignment, the best seen with its
/// value, the per-iteration value history, the tail-cut lifetime, and the
/// temperature. Current and best are independently owned copies.
pub struct SearchState {
    pub current: TruthAssignment,
    pub best: TruthAssignment,
    pub best_value: i64,
    pub history: Vec<i64>,
    pub lifes: usize,
    pub temperature_units: u64,
    pub plateau_pos: u64,
    pub status: SearchStatus,
}

impl SearchState {
    /// This state as a ghost snapshot.
    pub open spec fn model(self) -> SearchModel {
        SearchModel {
            current: self.current@,
            best: self.best@,
            best_value: self.best_value as int,
            history: self.history@.map_values(|v: i64| v as int),
            lifes: self.lifes as int,
            temperature_units: self.temperature_units as int,
            plateau_pos: self.plateau_pos as int,
            status: self.status,
        }
    }

    /// The state invariant, against its formula and parameters.
    pub open spec fn wf(self, f: Formula, cfg: SearchParams) -> bool {
        let p = cfg.penalty_multiplier as int;
        &&& f.wf()
        &&& cfg.wf()
        &&& value_bound(f, p) <= VALUE_MAGNITUDE_LIMIT
        &&& self.current@.len() == f.vars_n
        &&& self.best@.len() == f.vars_n
        &&& self.best_value == spec_value(self.best@, f, p)
        &&& forall|i: int|
            0 <= i < self.history@.len() ==> -VALUE_MAGNITUDE_LIMIT <= #[trigger] self.history@[i]
                <= VALUE_MAGNITUDE_LIMIT
        &&& self.lifes <= cfg.tail_cut_length
        &&& (self.status == SearchStatus::Running && cfg.tail_cut_method
            == TailCutMethod::RelativeChange ==> 1 <= self.lifes)
        &&& (self.status == SearchStatus::Running ==> self.plateau_pos < cfg.equilibrium)
        &&& (self.status == SearchStatus::Running ==> 1 <= f.vars_n)
    }

    /// Sets up a run from an initial assignment and a calibrated initial
    /// temperature. The run starts `Running` unless a stopping condition
    /// already holds: an instance with no variables has no neighbor to
    /// propose, so the first freezing check ends that search at once, without
    /// dividing or indexing anywhere.
    pub fn new(
        initial: TruthAssignment,
        f: &Formula,
        cfg: &SearchParams,
        initial_temperature_units: u64,
    ) -> (r: SearchState)
        requires
            f.wf(),
            cfg.wf(),
            value_bound(*f, cfg.penalty_multiplier as int) <= VALUE_MAGNITUDE_LIMIT,
            initial@.len() == f.vars_n,
        ensures
            r.wf(*f, *cfg),
            r.current@ == initial@,
            r.best@ == initial@,
            r.best_value == spec_value(initial@, *f, cfg.penalty_multiplier as int),
            r.history@.len() == 0,
            r.lifes == cfg.tail_cut_length,
            r.temperature_units == initial_temperature_units,
            r.plateau_pos == 0,
            r.status == (if f.vars_n == 0 || initial_temperature_units
                <= cfg.min_temperature_units {
                SearchStatus::Frozen
            } else if cfg.tail_cut_method == TailCutMethod::RelativeChange && cfg.tail_cut_length
                == 0 {
                SearchStatus::Exhausted
            } else {
                SearchStatus::Running
            }),
    {
        proof {
            lemma_value_in_bounds(initial@, *f, cfg.penalty_multiplier as int);
        }
        let best_value = value_of(&initial, f, cfg.penalty_multiplier);
        let status = if f.vars_n == 0 || initial_temperature_units <= cfg.min_temperature_units {
            SearchStatus::Frozen
        } else if cfg.tail_cut_method == TailCutMethod::RelativeChange && cfg.tail_cut_length
            == 0 {
            SearchStatus::Exhausted
        } else {
            SearchStatus::Running
        };
        let best = initial.duplicate();
        SearchState {
            current: initial,
            best,
            best_value,
            history: Vec::new(),
            lifes: cfg.tail_cut_length,
            temperature_units: initial_temperature_units,
            plateau_pos: 0,
            status,
        }
    }

    /// Whether a terminal status has been reached.
    pub fn finished(&self) -> (r: bool)
        ensures
            r == (self.status != SearchStatus::Running),
    {
        !(self.status == SearchStatus::Running)
    }

    /// One iteration of the controller; see `spec_step` for the full
    /// transition it performs.
    pub fn step(
        &mut self,
        f: &Formula,
        cfg: &SearchParams,
        proposed: TruthAssignment,
        accept_worse: bool,
    ) -> (out: SearchStatus)
        requires
            old(self).wf(*f, *cfg),
            old(self).status == SearchStatus::Running,
            proposed@.len() == f.vars_n,
        ensures
            final(self).wf(*f, *cfg),
            final(self).model() == spec_step(old(self).model(), *f, *cfg, proposed@, accept_worse),
            out == final(self).status,
    {
        let ghost m0 = self.model();
        let ghost mstep = spec_step(m0, *f, *cfg, proposed@, accept_worse);
        let p = cfg.penalty_multiplier;
        let cur_v = value_of(&self.current, f, p);
        let new_v = value_of(&proposed, f, p);
        proof {
            lemma_value_in_bounds(self.current@, *f, p as int);
            lemma_value_in_bounds(proposed@, *f, p as int);
        }
        self.history.push(cur_v);
        proof {
            assert(self.history@.map_values(|v: i64| v as int) =~= m0.history.push(cur_v as int));
        }
        if cfg.tail_cut_method == TailCutMethod::RelativeChange {
            let dv = new_v - cur_v;
            let ad = if dv < 0 {
                -dv
            } else {
                dv
            };
            let ac = if cur_v < 0 {
                -cur_v
            } else {
                cur_v
            };
            if ad < ac {
                self.lifes -= 1;
            } else {
                self.lifes = cfg.tail_cut_length;
            }
        }
        let accepted = new_v > cur_v || accept_worse;
        let value1 = if accepted {
            new_v
        } else {
            cur_v
        };
        if accepted {
            self.current = proposed;
        }
        if value1 > self.best_value {
            self.best = self.current.duplicate();
            self.best_value = value1;
        }
        if cfg.tail_cut_method == TailCutMethod::RelativeChange && self.lifes == 0 {
            self.status = SearchStatus::Exhausted;
            proof {
                assert(self.model() =~= mstep);
            }
            return self.status;
        }
        let plateau1 = self.plateau_pos + 1;
        let mut plateau_done = plateau1 >= cfg.equilibrium;
        if !plateau_done && cfg.tail_cut_method == TailCutMethod::RelativeDeviation {
            if deviation_converged(&self.history, cfg.tail_cut_length) {
                plateau_done = true;
            }
        }
        proof {
            assert(plateau_done == (m0.plateau_pos + 1 >= cfg.equilibrium || (cfg.tail_cut_method
                == TailCutMethod::RelativeDeviation && spec_deviation_converged(
                m0.history.push(cur_v as int),
                cfg.tail_cut_length as int,
            ))));
        }
        if plateau_done {
            self.temperature_units = cool(self.temperature_units, cfg.cooling_ppm);
            self.plateau_pos = 0;
            if self.temperature_units <= cfg.min_temperature_units {
                self.status = SearchStatus::Frozen;
            }
        } else {
            self.plateau_pos = plateau1;
        }
        proof {
            assert(self.model() =~= mstep);
        }
        self.status
    }
}

/// Checks everything a run needs of its inputs: the formula invariant, the
/// parameter ranges, and that every objective value stays within the
/// magnitude limit the exact tail-cut arithmetic needs.
pub fn search_ready(f: &Formula, cfg: &SearchParams) -> (r: bool)
    ensures
        r == (f.wf() && cfg.wf() && value_bound(*f, cfg.penalty_multiplier as int)
            <= VALUE_MAGNITUDE_LIMIT),
{
    if !f.wf_exec() {
        return false;
    }
    if !cfg.wf_exec() {
        return false;
    }
    let wt = weights_total_exec(&f.weights);
    let lw = f.weights.len();
    let lc = f.clauses.len();
    proof {
        assert((lw as int) * 0xffff_ffff <= 0x1_0000_0000_0000_0000_0000_0000)
            by (nonlinear_arith)
            requires
                0 <= lw < 0x1_0000_0000_0000_0000,
        ;
        assert(0 <= (cfg.penalty_multiplier as int) * (lc as int)
            < 0x8000_0000_0000_0000_0000_0000_0000_0000) by (nonlinear_arith)
            requires
                0 <= cfg.penalty_multiplier < 0x8000_0000_0000_0000,
                0 <= lc < 0x1_0000_0000_0000_0000,
        ;
    }
    let pl = (cfg.penalty_multiplier as u128) * (lc as u128);
    wt + pl <= VALUE_MAGNITUDE_LIMIT as u128
}

} // verus!
