use sooth::analyzers::explain::{Explanation, Passes, Verdict};
use sooth::cli::{ColorChoice, Preset, RunArgs};
use sooth::junit::{JunitError, JunitReport, TestCase, TestStatus};
use sooth::report::{Analyses, JunitSummary, Style};
use sooth::runner::RunOutcome;
use sooth::session::{
    all_failed_ids, crash_context, disagreement, explain_failures, import_order, load_report, pardon_gap,
    quarantine_pardon, rejected_flag, report_failures, run_output, stale_report, suite_failed, summarize_reports,
};

fn outcome(success: bool) -> RunOutcome {
    RunOutcome {
        exit_code: Some(i32::from(!success)),
        signal: None,
        success,
        duration: 1_000_000,
    }
}

fn test_case(name: &str, status: TestStatus) -> TestCase {
    TestCase {
        name: name.to_owned(),
        classname: None,
        duration: 100_000_000,
        status,
        failure_type: None,
    }
}

fn report_of(status: TestStatus) -> JunitReport {
    JunitReport {
        test_cases: vec![test_case("case", status)],
    }
}

/// `sooth run -- true`, with every flag at its default.
fn run_args() -> RunArgs {
    RunArgs {
        preset: None,
        runs: 1,
        json: None,
        no_history: false,
        changed: None,
        verify: false,
        fail_on_flaky: false,
        color: ColorChoice::Auto,
        slowest: None,
        junit: None,
        command: vec!["true".to_owned()],
    }
}

fn listed(ids: &[&str]) -> Vec<String> {
    ids.iter().map(|id| (*id).to_owned()).collect()
}

#[test]
fn the_suite_fails_when_the_report_shows_failures_even_if_the_runner_exited_zero() {
    assert!(suite_failed(&[outcome(true)], &[report_of(TestStatus::Failed)]));
}

#[test]
fn an_erroring_test_in_the_report_also_fails_the_suite() {
    assert!(suite_failed(&[outcome(true)], &[report_of(TestStatus::Error)]));
}

#[test]
fn any_runs_report_failing_fails_the_suite_not_just_the_last() {
    // With --runs N every run's report counts: a failure in run 1 is not
    // forgiven by a green run 2.
    let reports = [report_of(TestStatus::Failed), report_of(TestStatus::Passed)];
    assert!(suite_failed(&[outcome(true), outcome(true)], &reports));
}

#[test]
fn the_suite_fails_on_a_nonzero_runner_even_with_a_clean_report() {
    assert!(suite_failed(&[outcome(false)], &[report_of(TestStatus::Passed)]));
}

#[test]
fn the_suite_passes_when_runner_and_report_agree() {
    assert!(!suite_failed(&[outcome(true)], &[report_of(TestStatus::Skipped)]));
    assert!(!suite_failed(&[outcome(true)], &[]));
}

#[test]
fn a_preset_run_that_writes_no_report_gets_an_actionable_error() {
    let missing = "/tmp/sooth-test-no-such-report.xml";
    let message = load_report(
        missing,
        Some("pytest"),
        false,
        Err(JunitError::Io("No such file or directory (os error 2)".to_owned())),
    )
    .expect_err("a missing preset report should error");
    assert!(message.contains("wrote no JUnit-XML report"));
    assert!(message.contains("pytest"));
}

#[test]
fn a_missing_user_junit_file_reports_the_path() {
    let missing = "/tmp/sooth-test-no-such-report.xml";
    let message = load_report(
        missing,
        None,
        false,
        Err(JunitError::Io("No such file or directory (os error 2)".to_owned())),
    )
    .expect_err("a missing --junit file should error");
    assert!(message.contains("failed to parse"));
    assert!(message.contains("sooth-test-no-such-report.xml"));
}

#[test]
fn a_readable_report_is_handed_back_unchanged() {
    let report = report_of(TestStatus::Passed);
    assert_eq!(load_report("r.xml", Some("pytest"), true, Ok(report.clone())), Ok(report));
}

#[test]
fn crash_context_names_the_failed_run_and_its_status() {
    let outcomes = [outcome(true), outcome(false)];
    let context = crash_context(&outcomes, 2).expect("a failed run should give context");
    assert!(context.contains("run 2 of 2"));
    assert!(context.contains("runner exit=1"));
    assert!(context.contains("output above"));
}

#[test]
fn crash_context_counts_against_the_requested_runs_not_the_executed_ones() {
    let outcomes = [outcome(false)];
    let context = crash_context(&outcomes, 3).expect("a failed run should give context");
    assert!(context.contains("run 1 of 3"));
}

#[test]
fn crash_context_is_silent_when_every_run_succeeded() {
    assert_eq!(crash_context(&[outcome(true)], 1), None);
}

#[test]
fn crash_context_reads_in_full() {
    assert_eq!(
        crash_context(&[outcome(false), outcome(true)], 2).unwrap(),
        "run 1 of 2 failed (runner exit=1, 1.00ms) — the runner's own output above likely explains the unusable report"
    );
}

#[test]
fn a_plain_run_uses_no_rejected_flags() {
    let args = RunArgs { runs: 3, ..run_args() };
    assert_eq!(rejected_flag(&args), None);
}

#[test]
fn json_and_slowest_are_accepted_together_with_junit() {
    let args = RunArgs {
        junit: Some("r.xml".to_owned()),
        json: Some(None),
        slowest: Some(3),
        ..run_args()
    };
    assert_eq!(rejected_flag(&args), None);
}

#[test]
fn json_and_slowest_are_accepted_with_a_preset() {
    let args = RunArgs {
        preset: Some(Preset::Pytest),
        json: Some(None),
        slowest: Some(3),
        command: vec!["pytest".to_owned()],
        ..run_args()
    };
    assert_eq!(rejected_flag(&args), None);
}

#[test]
fn reportless_json_and_slowest_are_rejected() {
    for (args, fragment) in [
        (RunArgs { json: Some(None), ..run_args() }, "--json"),
        (RunArgs { json: Some(Some("out.json".to_owned())), ..run_args() }, "--json"),
        (RunArgs { slowest: Some(3), ..run_args() }, "--slowest"),
    ] {
        let reason = rejected_flag(&args).expect("flag should be rejected");
        assert!(reason.contains(fragment), "{reason} should name {fragment}");
    }
}

#[test]
fn reportless_fail_on_flaky_is_rejected() {
    let args = RunArgs { fail_on_flaky: true, ..run_args() };
    let reason = rejected_flag(&args).expect("flag should be rejected");
    assert!(reason.contains("--fail-on-flaky"), "got: {reason}");
}

#[test]
fn the_gate_needs_a_preset_and_more_than_one_run() {
    let no_preset = RunArgs { changed: Some(None), runs: 20, ..run_args() };
    assert!(rejected_flag(&no_preset).unwrap().contains("needs `--preset"));
    let one_run = RunArgs {
        changed: Some(None),
        preset: Some(Preset::Phpunit),
        ..run_args()
    };
    assert!(rejected_flag(&one_run).unwrap().contains("20 is a good start"));
}

#[test]
fn verification_needs_a_selecting_preset_and_one_run() {
    let bare = RunArgs { verify: true, ..run_args() };
    assert!(rejected_flag(&bare).unwrap().starts_with("`--verify` needs"));
    let go = RunArgs { verify: true, preset: Some(Preset::Go), ..run_args() };
    assert!(rejected_flag(&go).unwrap().contains("not supported for this preset"));
    let repeated = RunArgs {
        verify: true,
        preset: Some(Preset::Pytest),
        runs: 3,
        ..run_args()
    };
    assert!(rejected_flag(&repeated).unwrap().contains("single run"));
    let fine = RunArgs { verify: true, preset: Some(Preset::Pytest), ..run_args() };
    assert_eq!(rejected_flag(&fine), None);
}

#[test]
fn quarantine_pardons_when_every_failure_is_listed() {
    let pardoned = quarantine_pardon(
        &listed(&["case"]),
        &[outcome(false), outcome(true)],
        &[report_of(TestStatus::Failed), report_of(TestStatus::Passed)],
    );
    assert_eq!(pardoned, Some(vec!["case".to_owned()]));
}

#[test]
fn an_unlisted_failure_blocks_the_whole_pardon() {
    let pardoned = quarantine_pardon(&Vec::new(), &[outcome(false)], &[report_of(TestStatus::Failed)]);
    assert_eq!(pardoned, None);
}

#[test]
fn a_failed_run_with_a_green_report_is_never_pardoned() {
    let pardoned = quarantine_pardon(&listed(&["case"]), &[outcome(false)], &[report_of(TestStatus::Passed)]);
    assert_eq!(pardoned, None);
}

#[test]
fn a_pardon_needs_a_report_for_every_run() {
    assert_eq!(quarantine_pardon(&listed(&["case"]), &[outcome(false)], &[]), None);
}

#[test]
fn a_signal_killed_run_is_never_pardoned() {
    let killed = RunOutcome {
        exit_code: None,
        signal: Some(9),
        success: false,
        duration: 1_000_000,
    };
    assert_eq!(quarantine_pardon(&listed(&["case"]), &[killed], &[report_of(TestStatus::Failed)]), None);
}

fn known_flake(id: &str, quarantined: bool) -> Explanation {
    Explanation {
        observed: None,
        id: id.to_owned(),
        verdict: Verdict::KnownFlake {
            failed_runs: 1,
            observed_runs: 4,
            failures_confined_to: None,
        },
        quarantined,
    }
}

fn gap_for(args: &RunArgs, explanations: &[Explanation]) -> bool {
    pardon_gap(
        args,
        &Analyses {
            explanation: Some(explanations),
            ..Analyses::default()
        },
    )
}

#[test]
fn nothing_new_yet_no_pardon_is_explained_not_left_contradictory() {
    let flagged = RunArgs {
        fail_on_flaky: true,
        junit: Some("r.xml".to_owned()),
        ..run_args()
    };
    assert!(
        gap_for(&flagged, &[known_flake("c::a", false)]),
        "an unlisted known flake under --fail-on-flaky needs the note"
    );
    assert!(
        !gap_for(&flagged, &[known_flake("c::a", true)]),
        "a listed flake was pardoned; there is no gap to explain"
    );
    let unflagged = RunArgs { junit: Some("r.xml".to_owned()), ..run_args() };
    assert!(
        !gap_for(&unflagged, &[known_flake("c::a", false)]),
        "without --fail-on-flaky no pardon was ever asked for"
    );
}

#[test]
fn a_new_failure_needs_no_pardon_note() {
    // The verdict speaks for itself: something new failed.
    let explanations = [
        known_flake("c::a", false),
        Explanation {
            id: "c::fresh".to_owned(),
            observed: None,
            verdict: Verdict::Unknown,
            quarantined: false,
        },
    ];
    let flagged = RunArgs {
        fail_on_flaky: true,
        junit: Some("r.xml".to_owned()),
        ..run_args()
    };
    assert!(!gap_for(&flagged, &explanations));
}

#[test]
fn the_disagreement_note_goes_both_ways() {
    assert!(disagreement(false, 2, true).unwrap().starts_with("the runner exited 0 but the report shows 2"));
    assert!(disagreement(true, 0, true)
        .unwrap()
        .starts_with("the runner failed but the report shows 0 failing tests"));
    assert_eq!(disagreement(true, 0, false), None);
    assert_eq!(disagreement(true, 1, true), None);
}

#[test]
fn the_worst_report_counts_not_the_last() {
    let reports = [report_of(TestStatus::Failed), report_of(TestStatus::Passed)];
    assert_eq!(report_failures(&reports), 1);
    assert_eq!(report_failures(&[]), 0);
}

#[test]
fn every_runs_failures_are_explained_once_in_id_order() {
    let first = JunitReport {
        test_cases: vec![test_case("b", TestStatus::Failed), test_case("a", TestStatus::Passed)],
    };
    let second = JunitReport {
        test_cases: vec![test_case("a", TestStatus::Error), test_case("b", TestStatus::Failed)],
    };
    assert_eq!(all_failed_ids(&[first.clone(), second.clone()]), ["a", "b"]);
    let explained = explain_failures(true, &[first.clone(), second], Passes::default(), &Vec::new()).unwrap();
    let ids: Vec<&str> = explained.iter().map(|e| e.id.as_str()).collect();
    assert_eq!(ids, ["a", "b"]);
    assert!(explain_failures(false, &[first], Passes::default(), &Vec::new()).is_none());
    assert!(explain_failures(true, &[report_of(TestStatus::Passed)], Passes::default(), &Vec::new()).is_none());
}

#[test]
fn a_stale_report_is_called_out() {
    let state = Some((10u128, 3u64));
    assert!(stale_report("r.xml", state, state).unwrap().contains("was not touched by this run"));
    assert_eq!(stale_report("r.xml", state, Some((11, 3))), None);
    assert_eq!(stale_report("r.xml", None, None), None);
}

#[test]
fn imports_are_recorded_in_time_order_ties_in_argument_order() {
    assert_eq!(import_order(&vec![30, 10, 20, 10]), [1, 3, 2, 0]);
}

#[test]
fn bare_json_prints_exactly_one_line() {
    let args = RunArgs {
        junit: Some("r.xml".to_owned()),
        json: Some(None),
        ..run_args()
    };
    let summary = JunitSummary::from_report(&report_of(TestStatus::Passed), 10);
    let style = Style::from_parts(ColorChoice::Never, false, false);
    let out = run_output(&args, &[outcome(true)], Some(&summary), &Analyses::default(), 0, false, style);
    assert_eq!(out.lines.len(), 1);
    assert!(out.lines[0].starts_with(r#"{"schema_version":1,"#));
    assert!(out.json_file.is_none());
}

#[test]
fn a_plain_run_ends_with_a_verdict_line() {
    let style = Style::from_parts(ColorChoice::Never, false, false);
    let out = run_output(&run_args(), &[outcome(true)], None, &Analyses::default(), 0, false, style);
    // The exit status is 0: the runner passed and no report says otherwise.
    assert!(!suite_failed(&[outcome(true)], &[]));
    assert!(out.lines[0].starts_with("run 1/1: runner exit=0"));
    assert!(out.lines.last().unwrap().starts_with("result: ✓ PASSED"));
}

#[test]
fn runs_in_a_different_order_weaken_the_flaky_label() {
    let case = |name: &str, status: TestStatus| TestCase {
        name: name.to_owned(),
        classname: Some("c".to_owned()),
        duration: 0,
        status,
        failure_type: None,
    };
    let first = JunitReport {
        test_cases: vec![case("wobbly", TestStatus::Failed), case("steady", TestStatus::Passed)],
    };
    let second = JunitReport {
        test_cases: vec![case("steady", TestStatus::Passed), case("wobbly", TestStatus::Passed)],
    };
    let reports = vec![first, second];
    // Run 1 failed: the exit status is 1.
    assert!(suite_failed(&[outcome(true), outcome(true)], &reports));
    let active = sooth::analyzers::flaky::analyze(&reports);
    assert_eq!(active.reordered_runs, [2]);
    let passes = Passes {
        active: Some(&active),
        ..Passes::default()
    };
    let explained = explain_failures(true, &reports, passes, &Vec::new()).unwrap();
    let analyses = Analyses {
        explanation: Some(&explained),
        ..Analyses::default()
    };
    let lines = sooth::report::explanation_lines(&analyses, Style::from_parts(ColorChoice::Never, false, false));
    assert!(
        lines.iter().any(|line| line
            == "  ~ c::wobbly — flaky or order-dependent (1 of 2 runs now; run 2 did not share run 1's order), new (nothing in history)"),
        "a reordered repeat must not claim plain flakiness: {lines:?}"
    );

    let same_order = vec![
        JunitReport {
            test_cases: vec![case("wobbly", TestStatus::Failed), case("steady", TestStatus::Passed)],
        },
        JunitReport {
            test_cases: vec![case("wobbly", TestStatus::Passed), case("steady", TestStatus::Passed)],
        },
    ];
    let active = sooth::analyzers::flaky::analyze(&same_order);
    let passes = Passes {
        active: Some(&active),
        ..Passes::default()
    };
    let explained = explain_failures(true, &same_order, passes, &Vec::new()).unwrap();
    assert_eq!(
        explained[0].observed,
        Some(sooth::analyzers::explain::Observed::Flaky { failed_runs: 1, observed_runs: 2 })
    );
}

#[test]
fn a_monotone_flip_and_a_lone_failure_are_named_for_what_they_are() {
    let case = |name: &str, status: TestStatus| TestCase {
        name: name.to_owned(),
        classname: Some("c".to_owned()),
        duration: 0,
        status,
        failure_type: None,
    };
    let reports = vec![
        JunitReport {
            test_cases: vec![case("polluted", TestStatus::Passed), case("drift-1", TestStatus::Failed)],
        },
        JunitReport {
            test_cases: vec![case("polluted", TestStatus::Failed), case("drift-2", TestStatus::Passed)],
        },
        JunitReport {
            test_cases: vec![case("polluted", TestStatus::Failed), case("drift-3", TestStatus::Passed)],
        },
    ];
    // Every runner exit was 0, yet the reports hold failures: the exit
    // status is 1, failures stay red.
    assert!(suite_failed(&[outcome(true), outcome(true), outcome(true)], &reports));
    let active = sooth::analyzers::flaky::analyze(&reports);
    let passes = Passes {
        active: Some(&active),
        ..Passes::default()
    };
    let explained = explain_failures(true, &reports, passes, &Vec::new()).unwrap();
    let analyses = Analyses {
        explanation: Some(&explained),
        ..Analyses::default()
    };
    let lines = sooth::report::explanation_lines(&analyses, Style::from_parts(ColorChoice::Never, false, false));
    assert!(
        lines.iter().any(|line| line.contains(
            "~ c::polluted — green up to run 1, then red for every later run \
             (the environment may have changed between runs)"
        )),
        "a flip that never returns must not be called flaky: {lines:?}"
    );
    assert!(
        lines.iter().any(|line| line.contains(
            "✗ c::drift-1 — failed its only observed run (absent from the other 2 \
             — a name that changes per run hides flakiness)"
        )),
        "one sighting must not be called broken: {lines:?}"
    );
}

#[test]
fn a_verified_failure_that_fails_differently_is_not_called_real() {
    let suite = JunitReport {
        test_cases: vec![TestCase {
            name: "wob".to_owned(),
            classname: Some("c".to_owned()),
            duration: 0,
            status: TestStatus::Failed,
            failure_type: Some("AssertionError".to_owned()),
        }],
    };
    let rerun = || JunitReport {
        test_cases: vec![TestCase {
            name: "wob".to_owned(),
            classname: Some("c".to_owned()),
            duration: 0,
            status: TestStatus::Error,
            failure_type: Some("RuntimeException".to_owned()),
        }],
    };
    let failed = sooth::verify::failed_tests(&suite);
    let verdict = sooth::verify::classify(&failed, &vec![rerun(), rerun()]);
    assert!(verdict.real.is_empty());
    let passes = Passes {
        verify: Some(&verdict),
        ..Passes::default()
    };
    let explained = explain_failures(true, std::slice::from_ref(&suite), passes, &Vec::new()).unwrap();
    let analyses = Analyses {
        explanation: Some(&explained),
        ..Analyses::default()
    };
    let lines = sooth::report::explanation_lines(&analyses, Style::from_parts(ColorChoice::Never, false, false));
    assert!(
        lines.iter().any(|line| line.contains(
            "✗ c::wob — failed differently on re-run (AssertionError in the suite, \
             RuntimeException in isolation — not a reproduction)"
        )),
        "a different failure must never read as reproduced: {lines:?}"
    );
}

#[test]
fn a_count_flag_takes_a_positive_number() {
    assert_eq!(sooth::cli::positive_usize("10"), Ok(10));
    assert_eq!(sooth::cli::positive_usize("+3"), Ok(3));
    assert_eq!(sooth::cli::positive_usize("0"), Err("must be at least 1".to_owned()));
    assert!(sooth::cli::positive_usize("").is_err());
    assert!(sooth::cli::positive_usize("-1").is_err());
    assert!(sooth::cli::positive_usize(" 5").is_err());
    assert!(sooth::cli::positive_usize("99999999999999999999999").is_err());
}

#[test]
fn the_summary_is_the_last_report_and_the_flaky_pass_needs_two_runs() {
    let reports = vec![report_of(TestStatus::Failed), report_of(TestStatus::Passed)];
    let mut args = run_args();
    let (summary, flaky) = summarize_reports(&args, &reports);
    let summary = summary.unwrap();
    assert_eq!((summary.total, summary.passed, summary.failed), (1, 1, 0));
    assert!(flaky.is_none());
    args.runs = 2;
    args.slowest = Some(1);
    let (summary, flaky) = summarize_reports(&args, &reports);
    assert_eq!(summary.unwrap().slowest.len(), 1);
    assert_eq!(flaky.unwrap().flaky.len(), 1);
    let (summary, flaky) = summarize_reports(&args, &Vec::new());
    assert!(summary.is_none() && flaky.is_none());
}

#[test]
fn an_import_dates_its_observations_by_the_report_then_the_file_then_now() {
    assert_eq!(sooth::session::import_time(Some(5), Some(7), 9), 5);
    assert_eq!(sooth::session::import_time(None, Some(7), 9), 7);
    assert_eq!(sooth::session::import_time(None, None, 9), 9);
}

#[test]
fn an_asserted_commit_makes_imported_observations_clean() {
    let outcomes = vec![("c::t".to_owned(), TestStatus::Failed)];
    let with = sooth::session::imported_observations(&outcomes, &Some("abc".to_owned()), "ci", 3);
    assert_eq!(with[0].dirty, Some(false));
    assert_eq!(with[0].commit.as_deref(), Some("abc"));
    assert_eq!(with[0].environment.as_deref(), Some("ci"));
    assert_eq!(with[0].at_epoch_secs, 3);
    let without = sooth::session::imported_observations(&outcomes, &None, "ci", 3);
    assert_eq!(without[0].dirty, None);
    assert_eq!(without[0].commit, None);
}

#[test]
fn a_file_seen_in_the_ledger_or_earlier_in_the_batch_is_skipped() {
    let ledger = vec![7, 9];
    assert!(sooth::session::already_imported(&ledger, &Vec::new(), 9));
    assert!(sooth::session::already_imported(&ledger, &vec![3], 3));
    assert!(!sooth::session::already_imported(&ledger, &vec![3], 4));
}
