use sooth::analyzers::history::analyze;
use sooth::history::Observation;
use sooth::junit::TestStatus;

fn obs(id: &str, status: TestStatus, commit: Option<&str>, dirty: Option<bool>) -> Observation {
    Observation {
        id: id.to_owned(),
        status,
        commit: commit.map(str::to_owned),
        dirty,
        environment: None,
        at_epoch_secs: 0,
    }
}

fn clean(id: &str, status: TestStatus, commit: &str) -> Observation {
    obs(id, status, Some(commit), Some(false))
}

fn in_env(id: &str, status: TestStatus, commit: &str, environment: &str) -> Observation {
    Observation {
        environment: Some(environment.to_owned()),
        ..clean(id, status, commit)
    }
}

#[test]
fn mixed_outcomes_on_one_clean_commit_prove_flaky() {
    let history = vec![
        clean("c::t", TestStatus::Passed, "aaa"),
        clean("c::t", TestStatus::Failed, "aaa"),
        clean("c::t", TestStatus::Passed, "bbb"),
    ];
    let analysis = analyze(&history);
    assert_eq!(analysis.flaky.len(), 1);
    assert_eq!(analysis.flaky[0].outcomes.id, "c::t");
    assert_eq!(analysis.flaky[0].outcomes.passed, 2);
    assert_eq!(analysis.flaky[0].outcomes.failed, 1);
    assert!(analysis.failing_since.is_empty());
}

#[test]
fn a_flake_that_only_breaks_in_one_environment_says_which() {
    let history = vec![
        in_env("c::t", TestStatus::Passed, "aaa", "local"),
        in_env("c::t", TestStatus::Passed, "aaa", "local"),
        in_env("c::t", TestStatus::Passed, "aaa", "ci"),
        in_env("c::t", TestStatus::Failed, "aaa", "ci"),
    ];
    let analysis = analyze(&history);
    assert_eq!(analysis.flaky[0].failures_confined_to.as_deref(), Some("ci"));
}

#[test]
fn failures_spread_over_environments_name_none_of_them() {
    let history = vec![
        in_env("c::t", TestStatus::Passed, "aaa", "local"),
        in_env("c::t", TestStatus::Failed, "aaa", "local"),
        in_env("c::t", TestStatus::Failed, "aaa", "ci"),
    ];
    assert_eq!(analyze(&history).flaky[0].failures_confined_to, None);
}

#[test]
fn one_environment_alone_proves_nothing_about_environments() {
    // "Every failure was local" says no more than "every run was local".
    let history = vec![
        in_env("c::t", TestStatus::Passed, "aaa", "local"),
        in_env("c::t", TestStatus::Failed, "aaa", "local"),
    ];
    assert_eq!(analyze(&history).flaky[0].failures_confined_to, None);
}

#[test]
fn a_history_that_predates_environments_makes_no_claim() {
    // Unlabelled observations are their own unknown environment.
    let history = vec![
        clean("c::t", TestStatus::Passed, "aaa"),
        in_env("c::t", TestStatus::Passed, "aaa", "ci"),
        Observation {
            environment: None,
            ..clean("c::t", TestStatus::Failed, "aaa")
        },
    ];
    assert_eq!(analyze(&history).flaky[0].failures_confined_to, None);
}

#[test]
fn a_green_to_red_flip_at_a_commit_boundary_is_failing_since_not_flaky() {
    let history = vec![
        clean("c::t", TestStatus::Passed, "aaa"),
        clean("c::t", TestStatus::Passed, "aaa"),
        clean("c::t", TestStatus::Failed, "bbb"),
        clean("c::t", TestStatus::Failed, "bbb"),
    ];
    let analysis = analyze(&history);
    assert!(analysis.flaky.is_empty(), "a regression got called flaky");
    assert_eq!(analysis.failing_since.len(), 1);
    assert_eq!(analysis.failing_since[0].commit, "bbb");
    assert_eq!(analysis.failing_since[0].failed_runs, 2);
}

#[test]
fn one_new_red_observation_concludes_nothing() {
    let history = vec![
        clean("c::t", TestStatus::Passed, "aaa"),
        clean("c::t", TestStatus::Failed, "bbb"),
    ];
    assert!(analyze(&history).is_empty());
}

#[test]
fn dirty_observations_count_in_totals_but_are_never_evidence() {
    // The only mixed pair on one commit involves a dirty run: no proof.
    let history = vec![
        obs("c::t", TestStatus::Passed, Some("aaa"), Some(true)),
        clean("c::t", TestStatus::Failed, "aaa"),
        clean("c::t", TestStatus::Failed, "aaa"),
    ];
    let analysis = analyze(&history);
    assert!(analysis.flaky.is_empty(), "dirty run was taken as evidence");
    // The trailing streak is anchored on clean code, so it does report.
    assert_eq!(analysis.failing_since.len(), 1);
    assert_eq!(analysis.failing_since[0].failed_runs, 2);
}

#[test]
fn unknown_identity_reports_nothing() {
    let history = vec![
        obs("c::t", TestStatus::Passed, None, None),
        obs("c::t", TestStatus::Failed, None, None),
        obs("c::t", TestStatus::Failed, None, None),
    ];
    assert!(analyze(&history).is_empty());
}

#[test]
fn failing_since_anchors_on_the_earliest_clean_red_of_the_streak() {
    let history = vec![
        clean("c::t", TestStatus::Passed, "aaa"),
        obs("c::t", TestStatus::Failed, Some("bbb"), Some(true)),
        clean("c::t", TestStatus::Failed, "bbb"),
        clean("c::t", TestStatus::Failed, "bbb"),
    ];
    let analysis = analyze(&history);
    assert!(analysis.flaky.is_empty());
    assert_eq!(analysis.failing_since.len(), 1);
    assert_eq!(analysis.failing_since[0].commit, "bbb");
    // Dirty reds count in the streak; they only cannot carry the address.
    assert_eq!(analysis.failing_since[0].failed_runs, 3);
}

#[test]
fn time_order_comes_from_at_not_from_file_position() {
    // In file order the tail here is green, so nothing would be found; in
    // `at` order the reds are the tail and the flip is a regression.
    let stamped = |observation: Observation, secs: u64| Observation {
        at_epoch_secs: secs,
        ..observation
    };
    let history = vec![
        stamped(clean("c::t", TestStatus::Failed, "bbb"), 30),
        stamped(clean("c::t", TestStatus::Failed, "bbb"), 40),
        stamped(clean("c::t", TestStatus::Passed, "aaa"), 10),
        stamped(clean("c::t", TestStatus::Passed, "aaa"), 20),
    ];
    let analysis = analyze(&history);
    assert!(analysis.flaky.is_empty());
    assert_eq!(analysis.failing_since.len(), 1, "the tail was read in file order");
    assert_eq!(analysis.failing_since[0].commit, "bbb");
    assert_eq!(analysis.failing_since[0].failed_runs, 2);
}

#[test]
fn failing_every_observation_reports_since_the_first_commit() {
    let history = vec![
        clean("c::t", TestStatus::Failed, "aaa"),
        clean("c::t", TestStatus::Failed, "bbb"),
    ];
    let analysis = analyze(&history);
    assert!(analysis.flaky.is_empty());
    assert_eq!(analysis.failing_since[0].commit, "aaa");
}

#[test]
fn skips_carry_no_signal_in_history() {
    let history = vec![
        obs("c::t", TestStatus::Skipped, Some("aaa"), Some(false)),
        clean("c::t", TestStatus::Failed, "aaa"),
    ];
    // One signal observation left: below the two-observation floor.
    assert!(analyze(&history).is_empty());
}

#[test]
fn flaky_evidence_wins_over_a_trailing_streak() {
    let history = vec![
        clean("c::t", TestStatus::Passed, "aaa"),
        clean("c::t", TestStatus::Failed, "aaa"),
        clean("c::t", TestStatus::Failed, "bbb"),
        clean("c::t", TestStatus::Failed, "bbb"),
    ];
    let analysis = analyze(&history);
    assert_eq!(analysis.flaky.len(), 1);
    assert!(analysis.failing_since.is_empty());
}

#[test]
fn proven_flakes_rank_by_failure_rate_then_id() {
    let history = vec![
        clean("c::b", TestStatus::Passed, "aaa"),
        clean("c::b", TestStatus::Failed, "aaa"),
        clean("c::a", TestStatus::Passed, "aaa"),
        clean("c::a", TestStatus::Failed, "aaa"),
        clean("c::z", TestStatus::Passed, "aaa"),
        clean("c::z", TestStatus::Passed, "aaa"),
        clean("c::z", TestStatus::Passed, "aaa"),
        clean("c::z", TestStatus::Failed, "aaa"),
    ];
    let analysis = analyze(&history);
    let ids: Vec<&str> = analysis.flaky.iter().map(|f| f.outcomes.id.as_str()).collect();
    assert_eq!(ids, ["c::a", "c::b", "c::z"]);
}

#[test]
fn a_reordered_history_with_distinct_times_is_analyzed_alike() {
    let stamped = |observation: Observation, secs: u64| Observation {
        at_epoch_secs: secs,
        ..observation
    };
    let history = vec![
        stamped(clean("c::t", TestStatus::Passed, "aaa"), 10),
        stamped(clean("c::t", TestStatus::Failed, "aaa"), 20),
        stamped(clean("c::u", TestStatus::Passed, "aaa"), 30),
        stamped(clean("c::u", TestStatus::Failed, "bbb"), 40),
        stamped(clean("c::u", TestStatus::Failed, "bbb"), 50),
    ];
    let mut reordered = history.clone();
    reordered.reverse();
    reordered.swap(1, 3);
    let analysis = analyze(&history);
    assert_eq!(analysis.flaky.len(), 1);
    assert!(analysis.failing_since.iter().any(|f| f.id == "c::u" && f.commit == "bbb"));
    assert_eq!(analyze(&reordered), analysis);
}
