use sooth::analyzers::explain::{Counts, Explanation, Observed, Verdict};
use sooth::analyzers::history::{Analysis as HistoryAnalysis, FailingSince, HistoricFlake};
use sooth::analyzers::flaky::{Analysis as FlakyAnalysis, TestOutcomes};
use sooth::cli::ColorChoice;
use sooth::junit::{JunitReport, TestCase, TestStatus};
use sooth::report::{
    explanation_headline, explanation_json, explanation_lines, flaky_lines, history_lines, verification_lines, json_escape, pardoned_verdict,
    run_lines, summary_lines, to_json, verdict_line, Analyses, JunitSummary, PriorEvidence, Style,
    SOOTH_VERSION,
};
use sooth::runner::RunOutcome;

fn plain() -> Style {
    Style::from_parts(ColorChoice::Never, false, false)
}

fn outcome(success: bool) -> RunOutcome {
    RunOutcome {
        exit_code: Some(i32::from(!success)),
        signal: None,
        success,
        duration: 1_000_000,
    }
}

fn test_case(name: &str, status: TestStatus, nanos: u128) -> TestCase {
    TestCase {
        name: name.to_owned(),
        classname: None,
        duration: nanos,
        status,
        failure_type: None,
    }
}

#[test]
fn color_resolution_precedence() {
    // --color always wins over NO_COLOR; never wins over a terminal; auto
    // respects NO_COLOR first, then terminal detection.
    assert!(Style::from_parts(ColorChoice::Always, true, false).colored);
    assert!(!Style::from_parts(ColorChoice::Never, false, true).colored);
    assert!(!Style::from_parts(ColorChoice::Auto, true, true).colored);
    assert!(Style::from_parts(ColorChoice::Auto, false, true).colored);
    assert!(!Style::from_parts(ColorChoice::Auto, false, false).colored);
}

#[test]
fn painting_is_a_no_op_without_color() {
    assert_eq!(plain().red("boom"), "boom");
    let colored = Style::from_parts(ColorChoice::Always, false, false);
    assert_eq!(colored.red("boom"), "\x1b[31mboom\x1b[0m");
}

#[test]
fn summarizes_counts_and_ranks_the_slowest_tests() {
    let report = JunitReport {
        test_cases: vec![
            test_case("fast", TestStatus::Passed, 100_000_000),
            test_case("slow", TestStatus::Failed, 2_000_000_000),
            test_case("medium", TestStatus::Skipped, 1_000_000_000),
            test_case("erroring", TestStatus::Error, 500_000_000),
        ],
    };

    let summary = JunitSummary::from_report(&report, 2);

    assert_eq!(summary.total, 4);
    assert_eq!(summary.passed, 1);
    assert_eq!(summary.failed, 1);
    assert_eq!(summary.error, 1);
    assert_eq!(summary.skipped, 1);
    assert_eq!(
        summary.slowest,
        vec![("slow".to_owned(), 2_000_000_000), ("medium".to_owned(), 1_000_000_000)]
    );
}

#[test]
fn the_slowest_ranking_qualifies_names_with_their_classname() {
    let mut with_class = test_case("test_create", TestStatus::Passed, 1_000_000_000);
    with_class.classname = Some("Modules.Order.OrderTest".to_owned());
    let report = JunitReport {
        test_cases: vec![with_class, test_case("bare", TestStatus::Passed, 500_000_000)],
    };

    let summary = JunitSummary::from_report(&report, 10);

    assert_eq!(summary.slowest[0].0, "Modules.Order.OrderTest::test_create");
    assert_eq!(summary.slowest[1].0, "bare");

    // The qualified name rides into the JSON `name` field.
    let json = to_json(&[outcome(true)], &summary, &Analyses::default());
    assert!(json.contains(r#""name":"Modules.Order.OrderTest::test_create""#));
}

#[test]
fn equal_durations_keep_report_order_in_the_slowest_ranking() {
    let report = JunitReport {
        test_cases: vec![
            test_case("first", TestStatus::Passed, 5),
            test_case("second", TestStatus::Passed, 5),
            test_case("third", TestStatus::Passed, 9),
        ],
    };
    let summary = JunitSummary::from_report(&report, 3);
    let names: Vec<&str> = summary.slowest.iter().map(|(n, _)| n.as_str()).collect();
    assert_eq!(names, ["third", "first", "second"]);
}

#[test]
fn the_verdict_names_failed_runs() {
    let line = verdict_line(&[outcome(true), outcome(false)], None, 0, true, plain());
    assert!(line.contains("FAILED"));
    assert!(line.contains("1 of 2 runs failed"));
}

#[test]
fn the_verdict_blames_the_report_when_runs_were_green() {
    let report = JunitReport {
        test_cases: vec![test_case("bad", TestStatus::Failed, 100_000_000)],
    };
    let summary = JunitSummary::from_report(&report, 0);
    let line = verdict_line(&[outcome(true)], Some(&summary), 1, true, plain());
    assert!(line.contains("FAILED"));
    assert!(line.contains("the report shows 1 failing test"));
    assert!(!line.contains("1 failing tests"));
}

#[test]
fn the_verdict_counts_tests_on_success() {
    let report = JunitReport {
        test_cases: vec![test_case("ok", TestStatus::Passed, 100_000_000)],
    };
    let summary = JunitSummary::from_report(&report, 0);
    let line = verdict_line(&[outcome(true)], Some(&summary), 0, false, plain());
    assert!(line.contains("PASSED"));
    assert!(line.contains("1 of 1 runs, 1 test ("));
}

#[test]
fn the_whole_verdict_line_reads_as_written() {
    let line = verdict_line(&[outcome(true), outcome(true)], None, 0, false, plain());
    assert_eq!(line, "result: ✓ PASSED — 2 of 2 runs (2.00ms total)");
    let red = verdict_line(&[outcome(false)], None, 0, true, plain());
    assert_eq!(red, "result: ✗ FAILED — 1 of 1 runs failed (1.00ms total)");
}

#[test]
fn a_report_with_zero_tests_passes_but_proves_nothing() {
    let summary = JunitSummary::from_report(&JunitReport { test_cases: Vec::new() }, 10);
    let line = verdict_line(&[outcome(true)], Some(&summary), 0, false, plain());
    assert!(line.contains("PASSED"));
    assert!(line.contains("but the report shows 0 tests, so this run proved nothing"));
}

#[test]
fn a_pardoned_verdict_says_why_it_exits_zero() {
    let line = pardoned_verdict(&[outcome(false)], 2, plain());
    assert_eq!(
        line,
        "result: ✓ PASSED — only quarantined flakes failed (2 tests pardoned) (1.00ms total)"
    );
}

#[test]
fn json_output_is_versioned_and_carries_runs_and_summary() {
    let summary = JunitSummary::from_report(
        &JunitReport {
            test_cases: vec![test_case("a", TestStatus::Passed, 250_000_000)],
        },
        10,
    );
    let json = to_json(&[outcome(true)], &summary, &Analyses::default());

    assert!(json.starts_with(r#"{"schema_version":1,"#));
    assert!(json.contains(&format!(r#""sooth_version":"{}""#, SOOTH_VERSION)));
    assert!(json.contains(r#""success":true"#));
    assert!(json.contains(r#""total":1"#));
    // Every count is plural, and the human output says "errors".
    assert!(json.contains(r#""errors":0"#));
    assert!(json.contains(r#""name":"a""#));
}

#[test]
fn the_json_document_is_exact() {
    let summary = JunitSummary::from_report(
        &JunitReport {
            test_cases: vec![test_case("a", TestStatus::Passed, 250_000_000)],
        },
        10,
    );
    let json = to_json(&[outcome(true)], &summary, &Analyses::default());
    assert_eq!(
        json,
        r#"{"schema_version":1,"sooth_version":"0.1.0","runs":[{"exit_code":0,"success":true,"duration_seconds":0.001}],"junit":{"total":1,"passed":1,"failed":0,"errors":0,"skipped":0,"slowest":[{"name":"a","duration_seconds":0.25}]}}"#
    );
}

#[test]
fn the_explanation_headline_names_every_non_empty_category() {
    let counts = Counts {
        known_flakes: 2,
        failing_since: 1,
        quarantined: 0,
        new: 1,
    };
    assert_eq!(explanation_headline(&counts), "4 failures — 2 known flakes, 1 regression, 1 new");
}

#[test]
fn a_run_with_nothing_new_says_so_in_one_sentence() {
    let counts = Counts {
        known_flakes: 1,
        failing_since: 0,
        quarantined: 1,
        new: 0,
    };
    assert_eq!(explanation_headline(&counts), "2 failures — all known flakes, nothing new");
}

#[test]
fn a_regression_is_never_folded_into_nothing_new() {
    let counts = Counts {
        known_flakes: 0,
        failing_since: 1,
        quarantined: 0,
        new: 0,
    };
    assert_eq!(explanation_headline(&counts), "1 failure — 1 regression");
}

#[test]
fn the_explanation_json_carries_the_verdict_the_counts_and_the_report() {
    let explanations = [
        Explanation {
            id: "c::wobbly".to_owned(),
            observed: None,
            verdict: Verdict::KnownFlake {
                failed_runs: 4,
                observed_runs: 50,
                failures_confined_to: None,
            },
            quarantined: true,
        },
        Explanation {
            id: "c::fresh".to_owned(),
            observed: None,
            verdict: Verdict::Unknown,
            quarantined: false,
        },
    ];
    let json = explanation_json("out/report.xml", &explanations);

    assert!(json.starts_with(r#"{"schema_version":1,"#));
    assert!(json.contains(r#""report":"out/report.xml""#));
    assert!(json.contains(
        r#"{"name":"c::wobbly","verdict":"known_flake","quarantined":true,"failed_runs":4,"observed_runs":50}"#
    ));
    assert!(json.contains(r#"{"name":"c::fresh","verdict":"new","quarantined":false}"#));
    assert!(json.contains(r#""counts":{"known_flakes":1,"failing_since":0,"quarantined":0,"new":1}"#));
    assert!(json.contains(r#""only_known_flakes":false"#));
}

#[test]
fn the_run_json_gains_the_explanation_only_when_the_pass_ran() {
    let summary = JunitSummary::from_report(
        &JunitReport {
            test_cases: vec![test_case("a", TestStatus::Failed, 250_000_000)],
        },
        0,
    );
    assert!(!to_json(&[outcome(false)], &summary, &Analyses::default()).contains(r#""explanation""#));

    let explanations = [Explanation {
        id: "a".to_owned(),
        observed: None,
        verdict: Verdict::FailingSince {
            commit: "abc1234".to_owned(),
            failed_runs: 3,
        },
        quarantined: false,
    }];
    let json = to_json(
        &[outcome(false)],
        &summary,
        &Analyses {
            explanation: Some(&explanations),
            ..Analyses::default()
        },
    );
    assert!(json.contains(
        r#""explanation":{"failures":[{"name":"a","verdict":"failing_since","quarantined":false,"commit":"abc1234","failed_runs":3}]"#
    ));
}

#[test]
fn json_escape_handles_quotes_backslashes_and_control_characters() {
    assert_eq!(json_escape(r#"quote " backslash \ "#), r#"quote \" backslash \\ "#);
    assert_eq!(json_escape("tab\tnewline\n"), "tab\\tnewline\\n");
    assert_eq!(json_escape("bell\u{7}"), "bell\\u0007");
}

#[test]
fn run_lines_label_the_runner_and_the_time() {
    let lines = run_lines(&[outcome(true), outcome(false)], plain());
    assert_eq!(lines, ["run 1/2: runner exit=0 (1.00ms)", "run 2/2: runner exit=1 (1.00ms)"]);
}

#[test]
fn the_summary_lists_totals_then_the_slowest() {
    let report = JunitReport {
        test_cases: vec![
            test_case("a", TestStatus::Passed, 1_500_000_000),
            test_case("b", TestStatus::Error, 2_000),
        ],
    };
    let summary = JunitSummary::from_report(&report, 1);
    let lines = summary_lines(&summary, plain());
    assert_eq!(
        lines,
        [
            "tests: 2 total — 1 passed, 0 failed, 1 error, 0 skipped",
            "slowest tests:",
            "  1. a (1.50s)",
        ]
    );
}

fn explained(id: &str, observed: Option<Observed>, verdict: Verdict, quarantined: bool) -> Explanation {
    Explanation {
        id: id.to_owned(),
        observed,
        verdict,
        quarantined,
    }
}

#[test]
fn each_failure_gets_a_marker_and_its_evidence() {
    let explanations = [
        explained("c::wobbly", Some(Observed::Flaky { failed_runs: 1, observed_runs: 2 }), Verdict::Unknown, false),
        explained("c::t", None, Verdict::Unknown, false),
        explained("c::listed", None, Verdict::Unknown, true),
        explained(
            "c::wob",
            None,
            Verdict::KnownFlake {
                failed_runs: 1,
                observed_runs: 4,
                failures_confined_to: Some("ci".to_owned()),
            },
            false,
        ),
        explained(
            "c::reg",
            None,
            Verdict::FailingSince {
                commit: "bbb1234567".to_owned(),
                failed_runs: 2,
            },
            false,
        ),
        explained("c::dead", Some(Observed::Real), Verdict::Unknown, false),
    ];
    let lines = explanation_lines(
        &Analyses {
            explanation: Some(&explanations),
            history_observations: Some(PriorEvidence {
                observations: 5,
                unusable: 0,
            }),
            ..Analyses::default()
        },
        plain(),
    );
    assert_eq!(
        lines,
        [
            "6 failures — 1 known flake, 1 regression, 1 quarantined, 3 new",
            "  ~ c::wobbly — flaky (1 of 2 runs now), new (nothing in history)",
            "  ✗ c::t — new (nothing in history)",
            "  ⊘ c::listed — quarantined (listed in .sooth-quarantine)",
            "  ~ c::wob — known flake (1 of 4 in history, 25%; every failure in ci)",
            "  ▼ c::reg — failing since bbb1234 (the last 2 observed runs)",
            "  ✗ c::dead — real (reproduced on re-run), new (nothing in history)",
        ]
    );
}

#[test]
fn a_new_label_resting_on_nothing_says_so() {
    let explanations = [explained("c::t", None, Verdict::Unknown, false)];
    let not_consulted = explanation_lines(
        &Analyses {
            explanation: Some(&explanations),
            ..Analyses::default()
        },
        plain(),
    );
    assert!(not_consulted.last().unwrap().contains("the run history was not consulted"));
    let empty = explanation_lines(
        &Analyses {
            explanation: Some(&explanations),
            history_observations: Some(PriorEvidence {
                observations: 0,
                unusable: 0,
            }),
            ..Analyses::default()
        },
        plain(),
    );
    assert!(empty.last().unwrap().contains("no observations from earlier runs yet"));
    let dirty = explanation_lines(
        &Analyses {
            explanation: Some(&explanations),
            history_observations: Some(PriorEvidence {
                observations: 3,
                unusable: 3,
            }),
            ..Analyses::default()
        },
        plain(),
    );
    assert_eq!(
        dirty.last().unwrap(),
        "note: all 3 earlier observations were made on a dirty tree and cannot be evidence — commit or stash to let sooth prove flakiness"
    );
}

#[test]
fn the_history_section_leaves_out_what_the_explanation_carries() {
    let history = HistoryAnalysis {
        flaky: vec![
            HistoricFlake {
                outcomes: TestOutcomes {
                    id: "c::wob".to_owned(),
                    passed: 1,
                    failed: 1,
                },
                failures_confined_to: None,
            },
            HistoricFlake {
                outcomes: TestOutcomes {
                    id: "c::other".to_owned(),
                    passed: 2,
                    failed: 1,
                },
                failures_confined_to: Some("ci".to_owned()),
            },
        ],
        failing_since: vec![FailingSince {
            id: "c::reg".to_owned(),
            commit: "bbb1234567".to_owned(),
            failed_runs: 2,
        }],
    };
    let alone = history_lines(
        &Analyses {
            history: Some(&history),
            ..Analyses::default()
        },
        plain(),
    );
    assert_eq!(
        alone,
        [
            "flaky per history (mixed outcomes on one commit):",
            "  1. c::wob failed 1 of 2 observed runs (50%)",
            "  2. c::other failed 1 of 3 observed runs (33%; every failure in ci)",
            "failing since a commit boundary:",
            "  ▼ c::reg (since bbb1234, failed the last 2 observed runs)",
        ]
    );
    let explanations = [explained("c::wob", None, Verdict::Unknown, false)];
    let beside = history_lines(
        &Analyses {
            history: Some(&history),
            explanation: Some(&explanations),
            ..Analyses::default()
        },
        plain(),
    );
    assert_eq!(beside[0], "also flaky per history (these did not fail this run):");
    assert_eq!(beside[1], "  1. c::other failed 1 of 3 observed runs (33%; every failure in ci)");
}

#[test]
fn flaky_lines_rank_flakes_then_list_the_broken() {
    let outcomes = |id: &str, passed: usize, failed: usize| TestOutcomes {
        id: id.to_owned(),
        passed,
        failed,
    };
    let analysis = FlakyAnalysis {
        flaky: vec![outcomes("a::often", 1, 2), outcomes("a::rarely", 2, 1)],
        broken: vec![outcomes("a::dead", 0, 3)],
        ..FlakyAnalysis::default()
    };
    assert_eq!(
        flaky_lines(Some(&analysis), plain()),
        [
            "flaky tests (mixed outcomes):",
            "  1. a::often failed 2 of 3 observed runs (67%)",
            "  2. a::rarely failed 1 of 3 observed runs (33%)",
            "consistently failing (broken, not flaky):",
            "  - a::dead (failed all 3 observed runs)",
        ]
    );
    let only_broken = FlakyAnalysis {
        broken: vec![outcomes("a::dead", 0, 2)],
        ..FlakyAnalysis::default()
    };
    assert_eq!(
        flaky_lines(Some(&only_broken), Style::from_parts(ColorChoice::Always, false, false)),
        [
            "\u{1b}[31mconsistently failing (broken, not flaky):\u{1b}[0m",
            "  - a::dead \u{1b}[2m(failed all 2 observed runs)\u{1b}[0m",
        ]
    );
    assert!(flaky_lines(Some(&FlakyAnalysis::default()), plain()).is_empty());
    assert!(flaky_lines(None, plain()).is_empty());
}

#[test]
fn verification_lines_list_each_nonempty_bucket_under_its_heading() {
    let verdict = sooth::verify::Verdict {
        real: vec!["v::real".to_owned()],
        flaky_or_order: vec!["v::shy".to_owned(), "v::order".to_owned()],
        failed_differently: Vec::new(),
        unverified: vec!["v::gone".to_owned()],
    };
    assert_eq!(
        verification_lines(Some(&verdict), plain()),
        [
            "real failures (reproduced on re-run):",
            "  - v::real",
            "flaky or order-dependent (passed on re-run in isolation):",
            "  - v::shy",
            "  - v::order",
            "unverified (the re-run did not cover these):",
            "  - v::gone",
        ]
    );
    let only_flaky = sooth::verify::Verdict {
        real: Vec::new(),
        flaky_or_order: vec!["v::shy".to_owned()],
        failed_differently: Vec::new(),
        unverified: Vec::new(),
    };
    assert_eq!(
        verification_lines(Some(&only_flaky), plain()),
        ["flaky or order-dependent (passed on re-run in isolation):", "  - v::shy"]
    );
    assert!(verification_lines(None, plain()).is_empty());
}

#[test]
fn the_json_carries_the_flaky_pass_with_its_reordered_runs() {
    let summary = JunitSummary::from_report(&JunitReport { test_cases: Vec::new() }, 10);
    let analysis = FlakyAnalysis {
        flaky: vec![TestOutcomes {
            id: "c::wob".to_owned(),
            passed: 1,
            failed: 1,
        }],
        reordered_runs: vec![2, 3],
        ..FlakyAnalysis::default()
    };
    let json = to_json(
        &[outcome(false), outcome(true), outcome(true)],
        &summary,
        &Analyses {
            flaky: Some(&analysis),
            ..Analyses::default()
        },
    );
    assert!(
        json.contains(r#","flaky":[{"name":"c::wob","failed_runs":1,"observed_runs":2}],"broken":[],"reordered_runs":[2,3]"#),
        "{json}"
    );
}

#[test]
fn the_history_json_names_where_a_flake_failed() {
    let summary = JunitSummary::from_report(&JunitReport { test_cases: Vec::new() }, 10);
    let history = HistoryAnalysis {
        flaky: vec![
            HistoricFlake {
                outcomes: TestOutcomes {
                    id: "c::wob".to_owned(),
                    passed: 3,
                    failed: 1,
                },
                failures_confined_to: Some("ci".to_owned()),
            },
            HistoricFlake {
                outcomes: TestOutcomes {
                    id: "c::any".to_owned(),
                    passed: 1,
                    failed: 1,
                },
                failures_confined_to: None,
            },
        ],
        failing_since: Vec::new(),
    };
    let json = to_json(
        &[outcome(true)],
        &summary,
        &Analyses {
            history: Some(&history),
            ..Analyses::default()
        },
    );
    assert!(
        json.contains(
            r#","history":{"flaky":[{"name":"c::wob","failed_runs":1,"observed_runs":4,"failures_confined_to":"ci"},{"name":"c::any","failed_runs":1,"observed_runs":2,"failures_confined_to":null}],"failing_since":[]}"#
        ),
        "{json}"
    );
}
