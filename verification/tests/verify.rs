use sooth::junit::{parse_str, JunitReport};
use sooth::verify::{classify, failed_ids, failed_tests, FailedTest};

fn report(cases: &str) -> JunitReport {
    parse_str(&format!("<testsuite>{cases}</testsuite>")).unwrap()
}

/// The suite's failed tests (with their signatures) out of one report.
fn failed(cases: &str) -> Vec<FailedTest> {
    failed_tests(&report(cases))
}

#[test]
fn a_failure_that_passes_a_verification_run_is_flaky_or_order_dependent() {
    let failed = failed(r#"<testcase classname="c" name="wob"><failure/></testcase>"#);
    let verify = vec![
        report(r#"<testcase classname="c" name="wob"><failure/></testcase>"#),
        report(r#"<testcase classname="c" name="wob"/>"#),
    ];
    let verdict = classify(&failed, &verify);
    assert_eq!(verdict.flaky_or_order, ["c::wob"]);
    assert!(verdict.real.is_empty());
    assert!(verdict.unverified.is_empty());
}

#[test]
fn a_failure_that_fails_every_verification_run_the_same_way_is_real() {
    let failed = failed(r#"<testcase classname="c" name="dead"><failure/></testcase>"#);
    let verify = vec![
        report(r#"<testcase classname="c" name="dead"><failure/></testcase>"#),
        report(r#"<testcase classname="c" name="dead"><failure/></testcase>"#),
    ];
    let verdict = classify(&failed, &verify);
    assert_eq!(verdict.real, ["c::dead"]);
    assert!(verdict.flaky_or_order.is_empty());
    assert!(verdict.failed_differently.is_empty());
}

#[test]
fn a_re_run_that_fails_with_a_different_kind_is_not_a_reproduction() {
    // An assertion in the suite, a bootstrap error in isolation — nothing
    // was reproduced.
    let failed = failed(r#"<testcase classname="c" name="boot"><failure/></testcase>"#);
    let verify = vec![
        report(r#"<testcase classname="c" name="boot"><error/></testcase>"#),
        report(r#"<testcase classname="c" name="boot"><error/></testcase>"#),
    ];
    let verdict = classify(&failed, &verify);
    assert!(verdict.real.is_empty(), "a different failure is no proof");
    assert_eq!(verdict.failed_differently.len(), 1);
    let different = &verdict.failed_differently[0];
    assert_eq!(different.id, "c::boot");
    assert_eq!(different.suite, "a failure");
    assert_eq!(different.isolation, "an error");
}

#[test]
fn a_re_run_that_fails_with_a_different_class_is_not_a_reproduction() {
    let failed = failed(r#"<testcase classname="c" name="t"><error type="TypeError"/></testcase>"#);
    let verify = vec![report(r#"<testcase classname="c" name="t"><error type="RuntimeException"/></testcase>"#)];
    let verdict = classify(&failed, &verify);
    assert_eq!(verdict.failed_differently.len(), 1);
    assert_eq!(verdict.failed_differently[0].suite, "TypeError");
    assert_eq!(verdict.failed_differently[0].isolation, "RuntimeException");
}

#[test]
fn a_missing_type_on_either_side_never_manufactures_a_difference() {
    // Same kind, one side without a type attribute: real — absent metadata
    // is not evidence of anything.
    let failed = failed(r#"<testcase classname="c" name="t"><failure type="AssertionError"/></testcase>"#);
    let verify = vec![report(r#"<testcase classname="c" name="t"><failure/></testcase>"#)];
    let verdict = classify(&failed, &verify);
    assert_eq!(verdict.real, ["c::t"]);
    assert!(verdict.failed_differently.is_empty());
}

#[test]
fn a_pass_on_re_run_outranks_a_differing_failure() {
    // Passed once and failed differently once: the pass carries the
    // stronger signal.
    let failed = failed(r#"<testcase classname="c" name="t"><failure/></testcase>"#);
    let verify = vec![
        report(r#"<testcase classname="c" name="t"><error/></testcase>"#),
        report(r#"<testcase classname="c" name="t"/>"#),
    ];
    let verdict = classify(&failed, &verify);
    assert_eq!(verdict.flaky_or_order, ["c::t"]);
    assert!(verdict.failed_differently.is_empty());
}

#[test]
fn a_failure_the_selection_never_re_ran_is_unverified_not_real() {
    let failed = failed(r#"<testcase classname="c" name="missed"><failure/></testcase>"#);
    let verify = vec![report(r#"<testcase classname="c" name="other"/>"#)];
    let verdict = classify(&failed, &verify);
    assert_eq!(verdict.unverified, ["c::missed"]);
    assert!(verdict.real.is_empty());
}

#[test]
fn a_failure_that_is_only_skipped_on_re_run_is_unverified_not_real() {
    let failed = failed(r#"<testcase classname="c" name="skippy"><failure/></testcase>"#);
    let verify = vec![
        report(r#"<testcase classname="c" name="skippy"><skipped/></testcase>"#),
        report(r#"<testcase classname="c" name="skippy"><skipped/></testcase>"#),
    ];
    let verdict = classify(&failed, &verify);
    assert_eq!(verdict.unverified, ["c::skippy"]);
    assert!(verdict.real.is_empty());
}

#[test]
fn one_pass_across_runs_is_enough_to_clear_a_real_label() {
    let failed = failed(r#"<testcase classname="c" name="t"><failure/></testcase>"#);
    let verify = vec![
        report(r#"<testcase classname="c" name="t"><failure/></testcase>"#),
        report(r#"<testcase classname="c" name="t"/>"#),
    ];
    assert_eq!(classify(&failed, &verify).flaky_or_order, ["c::t"]);
}

#[test]
fn failed_ids_collapses_duplicate_rows_to_one_entry() {
    let report = report(r#"<testcase classname="c" name="row"/><testcase classname="c" name="row"><failure/></testcase>"#);
    assert_eq!(failed_ids(&report), ["c::row"]);
}

#[test]
fn failed_tests_carry_the_raw_name_even_when_it_contains_double_colons() {
    // A name may itself contain `::`: the raw name must survive whole.
    let report = report(r#"<testcase classname="config" name="Config::load reads the env"><failure/></testcase>"#);
    let tests = failed_tests(&report);
    assert_eq!(tests.len(), 1);
    assert_eq!(tests[0].id, "config::Config::load reads the env");
    assert_eq!(tests[0].name, "Config::load reads the env");
}

#[test]
fn failed_tests_keep_a_bare_name_with_double_colons_whole() {
    // No classname: the id IS the name, and any split would be wrong.
    let report = report(r#"<testcase name="a::b"><failure/></testcase>"#);
    let tests = failed_tests(&report);
    assert_eq!(tests[0].id, "a::b");
    assert_eq!(tests[0].name, "a::b");
}

#[test]
fn failed_ids_ignores_passing_and_skipped_tests() {
    let report = report(
        r#"<testcase classname="c" name="ok"/><testcase classname="c" name="skip"><skipped/></testcase><testcase classname="c" name="bad"><failure/></testcase>"#,
    );
    assert_eq!(failed_ids(&report), ["c::bad"]);
}

#[test]
fn every_failure_lands_in_exactly_one_bucket() {
    let failed = failed(
        r#"<testcase classname="c" name="a"><failure/></testcase><testcase classname="c" name="b"><failure/></testcase><testcase classname="c" name="d"><failure/></testcase><testcase classname="c" name="e"><failure/></testcase>"#,
    );
    let verify = vec![report(
        r#"<testcase classname="c" name="a"><failure/></testcase><testcase classname="c" name="b"/><testcase classname="c" name="d"><error/></testcase>"#,
    )];
    let verdict = classify(&failed, &verify);
    assert_eq!(verdict.real, ["c::a"]);
    assert_eq!(verdict.flaky_or_order, ["c::b"]);
    assert_eq!(verdict.failed_differently.len(), 1);
    assert_eq!(verdict.unverified, ["c::e"]);
}
