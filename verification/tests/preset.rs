use sooth::cli::Preset;
use sooth::preset::{inject, inject_selected, selection_args, supports_selection};

fn command(parts: &[&str]) -> Vec<String> {
    parts.iter().map(|part| (*part).to_owned()).collect()
}

#[test]
fn pytest_injects_the_junit_xml_flag_after_the_program() {
    let (full, envs) = inject(&command(&["pytest", "-k", "foo"]), Preset::Pytest, "/tmp/r.xml");
    assert_eq!(full, command(&["pytest", "--junit-xml=/tmp/r.xml", "-k", "foo"]));
    assert!(envs.is_empty());
}

#[test]
fn phpunit_injects_log_junit_as_two_arguments() {
    let (full, envs) = inject(&command(&["phpunit", "--testsuite", "unit"]), Preset::Phpunit, "/tmp/r.xml");
    assert_eq!(full, command(&["phpunit", "--log-junit", "/tmp/r.xml", "--testsuite", "unit"]));
    assert!(envs.is_empty());
}

#[test]
fn jest_keeps_the_default_reporter_and_sets_the_output_env() {
    let (full, envs) = inject(&command(&["jest"]), Preset::Jest, "/tmp/r.xml");
    assert_eq!(full, command(&["jest", "--reporters=default", "--reporters=jest-junit"]));
    assert_eq!(envs, vec![("JEST_JUNIT_OUTPUT_FILE".to_owned(), "/tmp/r.xml".to_owned())]);
}

#[test]
fn go_injects_junitfile_before_gotestsums_own_separator() {
    let (full, _) = inject(&command(&["gotestsum", "--", "./..."]), Preset::Go, "/tmp/r.xml");
    assert_eq!(full, command(&["gotestsum", "--junitfile=/tmp/r.xml", "--", "./..."]));
}

#[test]
fn phpunit_selection_filters_on_the_full_identity_with_escaping() {
    let (full, _) = inject_selected(
        &command(&["phpunit"]),
        Preset::Phpunit,
        "/tmp/r.xml",
        &command(&["App\\FooTest::test_a", "App\\FooTest::test_b"]),
    )
    .expect("phpunit supports selection");
    assert_eq!(
        full,
        command(&[
            "phpunit",
            "--log-junit",
            "/tmp/r.xml",
            "--filter",
            r"/App\\FooTest::test_a|App\\FooTest::test_b/",
        ])
    );
}

#[test]
fn pytest_selection_uses_deduped_method_names_in_a_k_expression() {
    let (full, _) = inject_selected(
        &command(&["pytest"]),
        Preset::Pytest,
        "/tmp/r.xml",
        &command(&["mod.A::test_x", "mod.B::test_x", "mod.A::test_y"]),
    )
    .expect("pytest supports selection");
    assert_eq!(full, command(&["pytest", "--junit-xml=/tmp/r.xml", "-k", "test_x or test_y"]));
}

#[test]
fn pytest_selection_strips_parameter_suffixes() {
    let (full, _) = inject_selected(
        &command(&["pytest"]),
        Preset::Pytest,
        "/tmp/r.xml",
        &command(&["mod.A::test_login[user with spaces]", "mod.A::test_login[admin]"]),
    )
    .expect("pytest supports selection");
    assert_eq!(full, command(&["pytest", "--junit-xml=/tmp/r.xml", "-k", "test_login"]));
}

#[test]
fn go_selection_is_declined_so_verification_refuses_loudly() {
    assert!(selection_args(Preset::Go, &command(&["pkg::TestX"])).is_none());
}

#[test]
fn only_go_lacks_selection() {
    assert!(supports_selection(Preset::Pytest));
    assert!(supports_selection(Preset::Phpunit));
    assert!(supports_selection(Preset::Jest));
    assert!(!supports_selection(Preset::Go));
}
