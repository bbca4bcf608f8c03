use sooth::analyzers::explain::{explain, Counts, Explanation, Observed, Passes, Verdict};
use sooth::analyzers::flaky::{Analysis as FlakyAnalysis, TestOutcomes};
use sooth::analyzers::history::{Analysis as HistoryAnalysis, FailingSince, HistoricFlake};

fn history() -> HistoryAnalysis {
    HistoryAnalysis {
        flaky: vec![HistoricFlake {
            outcomes: TestOutcomes {
                id: "c::wobbly".to_owned(),
                passed: 46,
                failed: 4,
            },
            failures_confined_to: None,
        }],
        failing_since: vec![FailingSince {
            id: "c::regressed".to_owned(),
            commit: "abc1234def".to_owned(),
            failed_runs: 6,
        }],
    }
}

fn strings(items: &[&str]) -> Vec<String> {
    items.iter().map(|id| (*id).to_owned()).collect()
}

fn explained(ids: &[&str], quarantine: &[&str]) -> Vec<Explanation> {
    let history = history();
    let passes = Passes {
        history: Some(&history),
        ..Passes::default()
    };
    explain(&strings(ids), passes, &strings(quarantine))
}

#[test]
fn a_proven_flake_carries_its_counts_from_the_history() {
    let explained = explained(&["c::wobbly"], &[]);
    assert_eq!(
        explained[0].verdict,
        Verdict::KnownFlake {
            failed_runs: 4,
            observed_runs: 50,
            failures_confined_to: None,
        }
    );
    assert!(Counts::of(&explained).only_known_flakes());
}

#[test]
fn a_regression_is_reported_as_such_and_never_reads_as_clean() {
    let explained = explained(&["c::regressed"], &[]);
    assert_eq!(
        explained[0].verdict,
        Verdict::FailingSince {
            commit: "abc1234def".to_owned(),
            failed_runs: 6,
        }
    );
    let counts = Counts::of(&explained);
    assert_eq!(counts.failing_since, 1);
    assert!(!counts.only_known_flakes());
}

#[test]
fn a_failure_the_history_cannot_explain_is_new() {
    let explained = explained(&["c::wobbly", "c::fresh"], &[]);
    assert_eq!(explained[1].verdict, Verdict::Unknown);
    let counts = Counts::of(&explained);
    assert_eq!((counts.known_flakes, counts.new), (1, 1));
    assert!(!counts.only_known_flakes());
}

#[test]
fn a_quarantined_failure_is_known_without_history_evidence() {
    let explained = explained(&["c::listed"], &["c::listed"]);
    assert!(explained[0].quarantined);
    let counts = Counts::of(&explained);
    assert_eq!(counts.quarantined, 1);
    assert!(counts.only_known_flakes());
}

#[test]
fn history_evidence_wins_the_count_over_the_quarantine_label() {
    let explained = explained(&["c::wobbly"], &["c::wobbly"]);
    assert!(explained[0].quarantined);
    let counts = Counts::of(&explained);
    assert_eq!((counts.known_flakes, counts.quarantined), (1, 0));
    assert_eq!(counts.total(), 1);
}

#[test]
fn without_a_history_only_the_quarantine_can_speak() {
    let ids = strings(&["c::wobbly", "c::listed"]);
    let quarantine = strings(&["c::listed"]);
    let explained = explain(&ids, Passes::default(), &quarantine);
    assert_eq!(explained[0].verdict, Verdict::Unknown);
    assert_eq!(Counts::of(&explained).new, 1);
    assert!(explained[1].quarantined);
}

#[test]
fn this_invocations_runs_are_carried_beside_the_history_verdict() {
    // The two axes are independent: a test can be broken *and* unknown.
    let active = FlakyAnalysis {
        flaky: vec![TestOutcomes {
            id: "c::wobbly".to_owned(),
            passed: 1,
            failed: 2,
        }],
        broken: vec![TestOutcomes {
            id: "c::fresh".to_owned(),
            passed: 0,
            failed: 3,
        }],
        ..FlakyAnalysis::default()
    };
    let history = history();
    let passes = Passes {
        active: Some(&active),
        history: Some(&history),
        ..Passes::default()
    };
    let ids = strings(&["c::wobbly", "c::fresh"]);
    let explained = explain(&ids, passes, &Vec::new());

    assert_eq!(
        explained[0].observed,
        Some(Observed::Flaky {
            failed_runs: 2,
            observed_runs: 3,
        })
    );
    assert!(matches!(explained[0].verdict, Verdict::KnownFlake { .. }));
    assert_eq!(explained[1].observed, Some(Observed::Broken { observed_runs: 3 }));
    assert_eq!(explained[1].verdict, Verdict::Unknown);
}

#[test]
fn verification_speaks_when_the_repeat_pass_did_not_run() {
    let verdict = sooth::verify::Verdict {
        real: strings(&["c::dead"]),
        flaky_or_order: strings(&["c::wobbly"]),
        failed_differently: Vec::new(),
        unverified: strings(&["c::missed"]),
    };
    let passes = Passes {
        verify: Some(&verdict),
        ..Passes::default()
    };
    let ids = strings(&["c::dead", "c::wobbly", "c::missed", "c::other"]);
    let explained = explain(&ids, passes, &Vec::new());

    assert_eq!(explained[0].observed, Some(Observed::Real));
    assert_eq!(explained[1].observed, Some(Observed::FlakyOrOrder));
    assert_eq!(explained[2].observed, Some(Observed::Unverified));
    assert_eq!(explained[3].observed, None, "no pass saw this one");
}

#[test]
fn a_green_run_explains_nothing() {
    let explained = explained(&[], &[]);
    assert!(explained.is_empty());
    assert!(!Counts::of(&explained).only_known_flakes());
}

#[test]
fn the_counts_partition_the_failures() {
    let explained = explained(&["c::wobbly", "c::regressed", "c::listed", "c::fresh"], &["c::listed"]);
    let counts = Counts::of(&explained);
    assert_eq!(
        (counts.known_flakes, counts.failing_since, counts.quarantined, counts.new),
        (1, 1, 1, 1)
    );
    assert_eq!(counts.total(), explained.len());
}

#[test]
fn a_confined_flake_names_its_environment() {
    let history = HistoryAnalysis {
        flaky: vec![HistoricFlake {
            outcomes: TestOutcomes {
                id: "c::wob".to_owned(),
                passed: 3,
                failed: 1,
            },
            failures_confined_to: Some("ci".to_owned()),
        }],
        failing_since: Vec::new(),
    };
    let passes = Passes {
        history: Some(&history),
        ..Passes::default()
    };
    let explained = explain(&strings(&["c::wob"]), passes, &Vec::new());
    assert_eq!(
        explained[0].verdict,
        Verdict::KnownFlake {
            failed_runs: 1,
            observed_runs: 4,
            failures_confined_to: Some("ci".to_owned()),
        }
    );
}
