use gazflow::capacity::{
    capacity_study_targets, default_marginal_sink_ids, default_study_targets, CapacityBisection,
};

#[test]
fn default_marginal_sink_ids_includes_five_probes() {
    assert_eq!(default_marginal_sink_ids().len(), 5);
}

#[test]
fn default_marginal_sinks_are_the_known_probes() {
    assert_eq!(
        default_marginal_sink_ids(),
        vec!["sink_88", "sink_83", "sink_108", "sink_125", "sink_122"]
    );
}

#[test]
fn study_targets_keep_only_nominated_sinks_in_order() {
    let sinks = vec!["b".to_string(), "x".to_string(), "a".to_string()];
    let demands = vec!["a".to_string(), "b".to_string()];
    assert_eq!(capacity_study_targets(&sinks, &demands), vec!["b".to_string(), "a".to_string()]);
}

#[test]
fn default_targets_follow_default_order() {
    let demands = vec!["sink_122".to_string(), "sink_88".to_string(), "other".to_string()];
    assert_eq!(
        default_study_targets(&demands),
        vec!["sink_88".to_string(), "sink_122".to_string()]
    );
}

/// Runs the search, answering with `answer(numerator over 2^steps)`; returns the
/// probed numerators with their answers and the final bracket.
fn run(steps: usize, answer: impl Fn(u64) -> bool) -> (Vec<(u64, bool)>, (u64, u64), CapacityBisection) {
    let mut b = CapacityBisection::start(steps, false);
    let (mut lo, mut hi) = (0u64, 1u64 << steps);
    let mut probes = Vec::new();
    while b.probe_due() {
        let mid = (lo + hi) / 2;
        let ok = answer(mid);
        probes.push((mid, ok));
        assert_eq!(b.record(ok), ok);
        if ok {
            lo = mid;
        } else {
            hi = mid;
        }
    }
    (probes, (lo, hi), b)
}

#[test]
fn feasible_nominal_needs_no_probe() {
    let b = CapacityBisection::start(6, true);
    assert!(!b.probe_due());
    assert_eq!(b.last_feasible(), None);
    assert!(b.answers.is_empty());
}

#[test]
fn unreachable_bound_converges_to_zero_fraction() {
    let (probes, bracket, b) = run(6, |_| false);
    assert_eq!(probes.iter().map(|p| p.0).collect::<Vec<_>>(), vec![32, 16, 8, 4, 2, 1]);
    assert_eq!(bracket, (0, 1));
    assert_eq!(b.last_feasible(), None);
}

#[test]
fn always_feasible_probes_approach_one_from_below() {
    let (probes, bracket, b) = run(3, |_| true);
    assert_eq!(probes.iter().map(|p| p.0).collect::<Vec<_>>(), vec![4, 6, 7]);
    assert_eq!(bracket, (7, 8));
    assert_eq!(b.last_feasible(), Some(2));
}

#[test]
fn mixed_answers_track_the_last_feasible_midpoint() {
    let answers = [true, false, true, false];
    let mut b = CapacityBisection::start(4, false);
    let mut i = 0;
    while b.probe_due() {
        b.record(answers[i]);
        i += 1;
    }
    // 8 ok -> [8,16]; 12 no -> [8,12]; 10 ok -> [10,12]; 11 no -> [10,11]
    assert_eq!(b.answers, answers.to_vec());
    assert_eq!(b.last_feasible(), Some(2));
}

#[test]
fn zero_steps_reports_nominal_verdict_only() {
    let b = CapacityBisection::start(0, false);
    assert!(!b.probe_due());
    assert_eq!(b.last_feasible(), None);
}

#[test]
fn bisection_ends_between_a_feasible_and_an_infeasible_probe() {
    // Feasible exactly up to 5/8 of the nomination.
    let (probes, bracket, b) = run(3, |p| p <= 5);
    assert_eq!(probes, vec![(4, true), (6, false), (5, true)]);
    assert_eq!(bracket, (5, 6));
    assert_eq!(b.last_feasible(), Some(2));
    assert!(probes.contains(&(bracket.1, false)));
}

#[test]
fn bisection_runs_every_requested_halving() {
    let mut b = CapacityBisection::start(100, false);
    let mut n = 0;
    while b.probe_due() {
        b.record(n == 99);
        n += 1;
    }
    assert_eq!(n, 100);
    assert_eq!(b.last_feasible(), Some(99));
}
