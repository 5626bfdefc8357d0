use sat3_anneal::model::{Clause3, Formula, TruthAssignment};
use sat3_anneal::neighbor::next_state;
use sat3_anneal::schedule::{
    collect_worsening_decreases, cool, heat, is_frozen, min_temperature_from,
    INITIAL_CALIBRATION_TEMPERATURE,
};
use sat3_anneal::search::{search_ready, SearchParams, SearchState, SearchStatus, TailCutMethod};

fn no_clause_formula() -> Formula {
    Formula {
        vars_n: 2,
        weights: vec![5, 7],
        clauses: vec![],
    }
}

fn params(method: TailCutMethod, tail: usize) -> SearchParams {
    SearchParams {
        penalty_multiplier: 0,
        equilibrium: 100,
        cooling_ppm: 995_000,
        min_temperature_units: 10,
        tail_cut_length: tail,
        tail_cut_method: method,
    }
}

#[test]
fn cooling_shrinks_and_freezes() {
    assert_eq!(cool(1_000_000, 995_000), 995_000);
    assert_eq!(cool(1, 999_999), 0);
    let mut t: u64 = 1_000_000;
    while t > 10 {
        let next = cool(t, 995_000);
        assert!(next < t);
        t = next;
    }
    assert!(is_frozen(t, 10));
    assert!(!is_frozen(11, 10));
}

#[test]
fn heating_and_the_floor() {
    assert_eq!(heat(INITIAL_CALIBRATION_TEMPERATURE, 10_000_000), 11_000_000);
    assert_eq!(min_temperature_from(1_000_000, 2), 10_000);
    assert_eq!(min_temperature_from(1_000_000, 0), 1_000_000);
    assert_eq!(min_temperature_from(1_000_000, 30), 0);
}

#[test]
fn empty_instance_terminates_on_the_first_freezing_check() {
    let f = Formula {
        vars_n: 0,
        weights: vec![],
        clauses: vec![],
    };
    let cfg = params(TailCutMethod::RelativeDeviation, 100);
    assert!(search_ready(&f, &cfg));
    let st = SearchState::new(
        TruthAssignment::from(vec![]),
        &f,
        &cfg,
        INITIAL_CALIBRATION_TEMPERATURE,
    );
    assert!(st.finished());
    assert_eq!(st.status, SearchStatus::Frozen);
    assert_eq!(st.best_value, 0);
}

#[test]
fn calibration_sampling_is_capped_when_nothing_worsens() {
    // all values are zero, so no pair is ever strictly worsening
    let f = Formula {
        vars_n: 3,
        weights: vec![],
        clauses: vec![],
    };
    assert_eq!(collect_worsening_decreases(&f, 0, 2, 50), None);
    assert_eq!(
        collect_worsening_decreases(&f, 0, 0, 50).map(|v| v.len()),
        Some(0)
    );
    let empty = Formula {
        vars_n: 0,
        weights: vec![],
        clauses: vec![],
    };
    assert_eq!(collect_worsening_decreases(&empty, 0, 2, 50), None);
}

#[test]
fn calibration_sampling_finds_worsening_pairs() {
    // with one positive weight and no clauses, flipping a true variable off
    // always worsens, so samples appear quickly
    let f = Formula {
        vars_n: 1,
        weights: vec![9],
        clauses: vec![],
    };
    let ds = collect_worsening_decreases(&f, 0, 3, 10_000).unwrap();
    assert_eq!(ds.len(), 3);
    for d in ds {
        assert_eq!(d, 9);
    }
}

#[test]
fn improving_moves_are_always_accepted() {
    let f = no_clause_formula();
    let cfg = params(TailCutMethod::RelativeDeviation, 3);
    assert!(search_ready(&f, &cfg));
    let mut st = SearchState::new(
        TruthAssignment::from(vec![false, false]),
        &f,
        &cfg,
        1_000_000,
    );
    assert_eq!(st.status, SearchStatus::Running);
    let proposed = TruthAssignment::from(vec![true, false]);
    let out = st.step(&f, &cfg, proposed.clone(), false);
    assert_eq!(out, SearchStatus::Running);
    assert_eq!(st.current, proposed);
    assert_eq!(st.best, proposed);
    assert_eq!(st.best_value, 5);
    assert_eq!(st.history, vec![0]);
}

#[test]
fn worse_moves_need_the_coin() {
    let f = no_clause_formula();
    let cfg = params(TailCutMethod::RelativeDeviation, 3);
    let start = TruthAssignment::from(vec![true, true]);
    let worse = TruthAssignment::from(vec![false, false]);

    let mut st = SearchState::new(start.clone(), &f, &cfg, 1_000_000);
    st.step(&f, &cfg, worse.clone(), false);
    assert_eq!(st.current, start, "rejected without the coin");
    assert_eq!(st.best_value, 12);

    let mut st2 = SearchState::new(start.clone(), &f, &cfg, 1_000_000);
    st2.step(&f, &cfg, worse.clone(), true);
    assert_eq!(st2.current, worse, "accepted with the coin");
    assert_eq!(st2.best, start, "the best keeps the better assignment");
    assert_eq!(st2.best_value, 12);
}

#[test]
fn relative_change_exhausts_the_whole_search() {
    let f = no_clause_formula();
    let cfg = params(TailCutMethod::RelativeChange, 1);
    let start = TruthAssignment::from(vec![true, false]);
    let mut st = SearchState::new(start.clone(), &f, &cfg, 1_000_000);
    // proposing the same value: |change| = 0 < |5|, the single life is spent
    let out = st.step(&f, &cfg, start.clone(), false);
    assert_eq!(out, SearchStatus::Exhausted);
    assert!(st.finished());
}

#[test]
fn relative_change_lifetime_resets_on_large_change() {
    let f = no_clause_formula();
    let cfg = params(TailCutMethod::RelativeChange, 2);
    let start = TruthAssignment::from(vec![false, false]);
    let mut st = SearchState::new(start, &f, &cfg, 1_000_000);
    // from value 0 to 5: |5 - 0| >= |0| resets the lifetime
    let out = st.step(&f, &cfg, TruthAssignment::from(vec![true, false]), false);
    assert_eq!(out, SearchStatus::Running);
    assert_eq!(st.lifes, 2);
}

#[test]
fn relative_deviation_only_ends_the_plateau() {
    // in contrast to relative-change, deviation convergence cools and goes on
    let f = no_clause_formula();
    let mut cfg = params(TailCutMethod::RelativeDeviation, 2);
    cfg.equilibrium = 1_000;
    let start = TruthAssignment::from(vec![true, false]);
    let worse = TruthAssignment::from(vec![false, false]);
    let mut st = SearchState::new(start.clone(), &f, &cfg, 1_000_000);
    st.step(&f, &cfg, worse.clone(), false);
    assert_eq!(st.temperature_units, 1_000_000, "one sample is not enough");
    let out = st.step(&f, &cfg, worse.clone(), false);
    // history [5, 5]: mean positive, deviation zero, the plateau is cut short
    assert_eq!(out, SearchStatus::Running);
    assert_eq!(st.temperature_units, 995_000, "cooled early");
    assert_eq!(st.plateau_pos, 0);
}

#[test]
fn zero_lifetime_with_relative_change_is_exhausted_at_once() {
    let f = no_clause_formula();
    let cfg = params(TailCutMethod::RelativeChange, 0);
    let st = SearchState::new(TruthAssignment::from(vec![true, true]), &f, &cfg, 1_000_000);
    assert_eq!(st.status, SearchStatus::Exhausted);
}

#[test]
fn a_fast_cooling_run_freezes() {
    let f = Formula {
        vars_n: 4,
        weights: vec![3, 1, 4, 1],
        clauses: vec![
            Clause3::from_str("1 -2 3").unwrap(),
            Clause3::from_str("-1 2 4").unwrap(),
        ],
    };
    let cfg = SearchParams {
        penalty_multiplier: 8,
        equilibrium: 5,
        cooling_ppm: 100_000,
        min_temperature_units: 10_000,
        tail_cut_length: 100,
        tail_cut_method: TailCutMethod::RelativeDeviation,
    };
    assert!(search_ready(&f, &cfg));
    let mut st = SearchState::new(TruthAssignment::new_random(f.vars_n), &f, &cfg, 1_000_000);
    let mut iterations = 0u64;
    while !st.finished() {
        let proposed = next_state(&st.current);
        st.step(&f, &cfg, proposed, false);
        iterations += 1;
        assert!(iterations < 10_000, "the freezing floor must be reached");
    }
    assert_eq!(st.status, SearchStatus::Frozen);
    assert_eq!(st.history.len() as u64, iterations);
    // the best value is never below any later recorded value
    for v in &st.history {
        assert!(*v <= st.best_value);
    }
}

#[test]
fn search_ready_rejects_bad_parameters() {
    let f = no_clause_formula();
    let mut cfg = params(TailCutMethod::RelativeDeviation, 3);
    assert!(search_ready(&f, &cfg));
    cfg.cooling_ppm = 1_000_000;
    assert!(!search_ready(&f, &cfg));
    cfg.cooling_ppm = 995_000;
    cfg.penalty_multiplier = -1;
    assert!(!search_ready(&f, &cfg));
    cfg.penalty_multiplier = 0;
    let bad = Formula {
        vars_n: 1,
        weights: vec![],
        clauses: vec![Clause3 { a: 2, b: 2, c: 2 }],
    };
    assert!(!search_ready(&bad, &cfg));
}

#[test]
fn acceptance_ratio_is_monotonic() {
    // the Metropolis ratio exp(-d/t), as the surrounding binary computes it:
    // strictly decreasing in the value decrease, strictly increasing in the
    // temperature, for d > 0 and t > 0
    let ratio = |d: f64, t: f64| (-d / t).exp();
    assert!(ratio(1.0, 2.0) > ratio(3.0, 2.0));
    assert!(ratio(3.0, 2.0) > ratio(9.0, 2.0));
    assert!(ratio(5.0, 1.0) < ratio(5.0, 4.0));
    assert!(ratio(5.0, 4.0) < ratio(5.0, 16.0));
    assert!(ratio(1.0, 1.0) < 1.0 && ratio(1.0, 1.0) > 0.0);
}
