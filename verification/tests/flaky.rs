use sooth::analyzers::flaky::{analyze, Analysis};
use sooth::junit::{parse_str, JunitReport};

fn report(cases: &str) -> JunitReport {
    parse_str(&format!("<testsuite>{cases}</testsuite>")).unwrap()
}

#[test]
fn mixed_outcomes_are_flaky_and_ranked_by_failure_rate() {
    // Both sequences bounce (R G R and G R G): flakes, not flips.
    let runs = vec![
        report(
            r#"<testcase classname="c" name="often"><failure/></testcase><testcase classname="c" name="rare"/>"#,
        ),
        report(
            r#"<testcase classname="c" name="often"/><testcase classname="c" name="rare"><failure/></testcase>"#,
        ),
        report(
            r#"<testcase classname="c" name="often"><failure/></testcase><testcase classname="c" name="rare"/>"#,
        ),
    ];
    let analysis = analyze(&runs);
    assert_eq!(analysis.flaky.len(), 2);
    assert_eq!(analysis.flaky[0].id, "c::often");
    assert_eq!(analysis.flaky[0].failure_rate_percent(), 67);
    assert_eq!(analysis.flaky[1].id, "c::rare");
    assert_eq!(analysis.flaky[1].failure_rate_percent(), 33);
    assert!(analysis.broken.is_empty());
}

/// Tests in the order given, all passing — order is the only variable.
fn ordered(ids: &[&str]) -> JunitReport {
    let mut cases = String::new();
    for id in ids {
        cases.push_str(&format!(r#"<testcase classname="c" name="{id}"/>"#));
    }
    report(&cases)
}

#[test]
fn runs_in_one_order_report_no_reordering() {
    let runs = vec![ordered(&["a", "b", "c"]), ordered(&["a", "b", "c"])];
    assert!(analyze(&runs).reordered_runs.is_empty());
}

#[test]
fn a_swapped_run_is_named_by_its_number() {
    let runs = vec![ordered(&["a", "b", "c"]), ordered(&["c", "b", "a"])];
    assert_eq!(analyze(&runs).reordered_runs, [2]);
}

#[test]
fn only_the_runs_that_differ_are_named() {
    let runs = vec![ordered(&["a", "b"]), ordered(&["a", "b"]), ordered(&["b", "a"])];
    assert_eq!(analyze(&runs).reordered_runs, [3]);
}

#[test]
fn a_run_that_stopped_early_is_not_a_reordering() {
    // --stop-on-failure leaves fewer tests, not a different order: only
    // the shared subset is compared.
    let runs = vec![ordered(&["a", "b", "c", "d"]), ordered(&["a", "b"])];
    assert!(analyze(&runs).reordered_runs.is_empty());

    // Shorter *and* swapped is still a reordering.
    let swapped = vec![ordered(&["a", "b", "c", "d"]), ordered(&["b", "a"])];
    assert_eq!(analyze(&swapped).reordered_runs, [2]);
}

#[test]
fn fewer_than_two_shared_tests_carry_no_order_signal() {
    let runs = vec![ordered(&["a", "b"]), ordered(&["a", "z"])];
    assert!(analyze(&runs).reordered_runs.is_empty());
}

#[test]
fn duplicate_ids_are_judged_on_their_first_appearance() {
    // A data-provider row repeats an id; the repeat must not read as a
    // move relative to a run that lists it once.
    let repeated = report(
        r#"<testcase classname="c" name="a"/><testcase classname="c" name="b"/><testcase classname="c" name="a"/>"#,
    );
    let runs = vec![repeated, ordered(&["a", "b"])];
    assert!(analyze(&runs).reordered_runs.is_empty());
}

#[test]
fn a_single_run_can_never_be_reordered() {
    assert!(analyze(&vec![ordered(&["a", "b"])]).reordered_runs.is_empty());
}

#[test]
fn a_sequence_that_flips_once_and_stays_is_monotone_not_flaky() {
    // Green, then red for the rest of the invocation — the suite changed
    // under the repeat; the test itself is predictable.
    let runs = vec![
        report(r#"<testcase classname="c" name="polluted"/>"#),
        report(r#"<testcase classname="c" name="polluted"><failure/></testcase>"#),
        report(r#"<testcase classname="c" name="polluted"><failure/></testcase>"#),
    ];
    let analysis = analyze(&runs);
    assert!(analysis.flaky.is_empty(), "a flip is not a bounce");
    assert_eq!(analysis.monotone.len(), 1);
    let flip = &analysis.monotone[0];
    assert_eq!(flip.outcomes.id, "c::polluted");
    assert_eq!(flip.flipped_after_run, 1);
    assert!(flip.started_green);
}

#[test]
fn the_reverse_flip_is_monotone_too() {
    let runs = vec![
        report(r#"<testcase classname="c" name="healed"><failure/></testcase>"#),
        report(r#"<testcase classname="c" name="healed"/>"#),
        report(r#"<testcase classname="c" name="healed"/>"#),
    ];
    let analysis = analyze(&runs);
    assert_eq!(analysis.monotone.len(), 1);
    let flip = &analysis.monotone[0];
    assert_eq!(flip.flipped_after_run, 1);
    assert!(!flip.started_green);
}

#[test]
fn a_flip_only_at_the_final_run_is_still_flaky() {
    // "Never back" needs a chance to have come back: a single trailing
    // red is indistinguishable from an ordinary flake.
    let runs = vec![
        report(r#"<testcase classname="c" name="wob"/>"#),
        report(r#"<testcase classname="c" name="wob"/>"#),
        report(r#"<testcase classname="c" name="wob"><failure/></testcase>"#),
    ];
    let analysis = analyze(&runs);
    assert!(analysis.monotone.is_empty());
    assert_eq!(analysis.flaky.len(), 1);
}

#[test]
fn a_sequence_that_bounces_back_stays_flaky() {
    let runs = vec![
        report(r#"<testcase classname="c" name="wob"/>"#),
        report(r#"<testcase classname="c" name="wob"><failure/></testcase>"#),
        report(r#"<testcase classname="c" name="wob"/>"#),
    ];
    let analysis = analyze(&runs);
    assert!(analysis.monotone.is_empty(), "it came back: a real flake");
    assert_eq!(analysis.flaky.len(), 1);
}

#[test]
fn two_observations_cannot_tell_a_flip_from_a_flake() {
    let runs = vec![
        report(r#"<testcase classname="c" name="wob"/>"#),
        report(r#"<testcase classname="c" name="wob"><failure/></testcase>"#),
    ];
    let analysis = analyze(&runs);
    assert!(analysis.monotone.is_empty());
    assert_eq!(analysis.flaky.len(), 1);
}

#[test]
fn a_failure_seen_in_only_one_of_several_runs_is_lone_not_broken() {
    // A name that changes per run exists in one report and is absent from
    // the rest — one sighting proves no "broken".
    let runs = vec![
        report(r#"<testcase classname="c" name="drift-1"><failure/></testcase>"#),
        report(r#"<testcase classname="c" name="drift-2"/>"#),
        report(r#"<testcase classname="c" name="drift-3"/>"#),
    ];
    let analysis = analyze(&runs);
    assert!(analysis.broken.is_empty(), "one sighting is not broken");
    assert_eq!(analysis.lone_failures.len(), 1);
    assert_eq!(analysis.lone_failures[0].id, "c::drift-1");
    assert_eq!(analysis.lone_failures[0].absent_runs, 2);
}

#[test]
fn a_single_failed_observation_that_was_skipped_elsewhere_stays_broken() {
    // Present-but-skipped is a stable name: nothing questions the
    // identity, so the broken claim (1 observed run) stands.
    let runs = vec![
        report(r#"<testcase classname="c" name="s"><skipped/></testcase>"#),
        report(r#"<testcase classname="c" name="s"><failure/></testcase>"#),
    ];
    let analysis = analyze(&runs);
    assert!(analysis.lone_failures.is_empty());
    assert_eq!(analysis.broken.len(), 1);
}

#[test]
fn always_failing_is_broken_not_flaky() {
    let runs = vec![
        report(r#"<testcase classname="c" name="dead"><failure/></testcase>"#),
        report(r#"<testcase classname="c" name="dead"><error/></testcase>"#),
    ];
    let analysis = analyze(&runs);
    assert!(analysis.flaky.is_empty());
    assert_eq!(analysis.broken.len(), 1);
    assert_eq!(analysis.broken[0].id, "c::dead");
}

#[test]
fn skips_carry_no_signal() {
    let runs = vec![
        report(r#"<testcase classname="c" name="s"><skipped/></testcase>"#),
        report(r#"<testcase classname="c" name="s"><failure/></testcase>"#),
    ];
    let analysis = analyze(&runs);
    // one failure, zero passes among observed runs: broken, rate on 1 run
    assert_eq!(analysis.broken.len(), 1);
    assert_eq!(analysis.broken[0].observed(), 1);
}

#[test]
fn duplicate_ids_within_one_report_do_not_fake_flakiness() {
    // A data provider whose row B always fails, rows sharing one name:
    // deterministic, so this must be broken — never flaky — and each run
    // counts once, not once per row.
    let row_mix = r#"<testcase classname="c" name="row"/><testcase classname="c" name="row"><failure/></testcase>"#;
    let runs = vec![report(row_mix), report(row_mix)];
    let analysis = analyze(&runs);
    assert!(analysis.flaky.is_empty(), "deterministic failure got called flaky");
    assert_eq!(analysis.broken.len(), 1);
    assert_eq!(analysis.broken[0].observed(), 2);
}

#[test]
fn all_green_reports_nothing() {
    let runs = vec![
        report(r#"<testcase classname="c" name="ok"/>"#),
        report(r#"<testcase classname="c" name="ok"/>"#),
    ];
    assert_eq!(analyze(&runs), Analysis::default());
}

#[test]
fn the_failure_rate_rounds_half_up_and_guards_zero() {
    assert_eq!(sooth::analyzers::flaky::failure_rate_percent(1, 3), 33);
    assert_eq!(sooth::analyzers::flaky::failure_rate_percent(2, 3), 67);
    assert_eq!(sooth::analyzers::flaky::failure_rate_percent(1, 8), 13);
    assert_eq!(sooth::analyzers::flaky::failure_rate_percent(0, 0), 0);
}

#[test]
fn run_outcomes_collapse_duplicates_to_the_worst_status_in_id_order() {
    let r = report(
        r#"<testcase classname="c" name="b"/><testcase classname="c" name="a"/><testcase classname="c" name="b"><error/></testcase>"#,
    );
    let outcomes = sooth::analyzers::flaky::run_outcomes(&r);
    assert_eq!(
        outcomes,
        vec![
            ("c::a".to_owned(), sooth::junit::TestStatus::Passed),
            ("c::b".to_owned(), sooth::junit::TestStatus::Error),
        ]
    );
}
