use sooth::junit::TestStatus;
use sooth::phpunit_log::parse_str;

#[test]
fn a_failure_block_yields_junit_identities() {
    let log = "There was 1 failure:\n\n\
               1) Modules\\A\\Tests\\BTest::test_x\n\
               Failed asserting that 2 matches expected 1.\n\n\
               FAILURES!\nTests: 10, Assertions: 30, Failures: 1.\n";
    let parsed = parse_str(log).expect("parses");
    assert_eq!(parsed.failures.get("Modules.A.Tests.BTest::test_x"), Some(&TestStatus::Failed));
    assert_eq!(parsed.failures.len(), 1);
}

#[test]
fn errors_and_failures_keep_their_own_status() {
    let log = "There were 2 errors:\n\n\
               1) C\\DTest::test_a\nboom\n\n\
               2) C\\DTest::test_b\nboom\n\n\
               --\n\
               There was 1 failure:\n\n\
               1) C\\DTest::test_c\nnope\n\n\
               ERRORS!\n";
    let parsed = parse_str(log).expect("parses");
    assert_eq!(parsed.failures.get("C.DTest::test_a"), Some(&TestStatus::Error));
    assert_eq!(parsed.failures.get("C.DTest::test_c"), Some(&TestStatus::Failed));
    assert_eq!(parsed.failures.len(), 3);
}

#[test]
fn a_data_set_suffix_survives_verbatim() {
    let log = "There was 1 failure:\n\n\
               1) C\\DTest::test_a with data set \"staging\"\n\n\
               FAILURES!\n";
    let parsed = parse_str(log).expect("parses");
    assert!(parsed.failures.contains_key("C.DTest::test_a with data set \"staging\""));
}

#[test]
fn risky_and_warning_listings_carry_no_signal() {
    let log = "There was 1 risky test:\n\n\
               1) C\\DTest::test_quiet\nno assertions\n\n\
               OK, but there were issues!\nTests: 5, Assertions: 9.\n\
               OK (5 tests, 9 assertions)\n";
    let parsed = parse_str(log).expect("parses");
    assert!(parsed.failures.is_empty());
}

#[test]
fn gh_columns_ansi_and_timestamps_are_peeled_off() {
    let log = "Job / Name\tUNKNOWN STEP\t2026-08-10T08:34:58.6133316Z There was 1 failure:\n\
               Job / Name\tUNKNOWN STEP\t2026-08-10T08:34:58.6134329Z 1) C\\DTest::test_x\n\
               Job / Name\tUNKNOWN STEP\t2026-08-10T08:34:58.6135340Z \u{1b}[37;41mFAILURES!\u{1b}[0m\r\n";
    let parsed = parse_str(log).expect("parses");
    assert!(parsed.failures.contains_key("C.DTest::test_x"));
    assert_eq!(parsed.at.as_deref(), Some("2026-08-10T08:34:58.6133316Z"));
}

#[test]
fn a_green_log_is_valid_and_names_nothing() {
    let parsed = parse_str("....\nOK (4 tests, 8 assertions)\n").expect("parses");
    assert!(parsed.failures.is_empty());
}

#[test]
fn without_a_phpunit_summary_the_file_is_refused() {
    let err = parse_str("collected 3 items\n3 passed in 0.12s\n").unwrap_err();
    assert!(err.contains("PHPUnit"), "got: {err}");
}

#[test]
fn message_lines_inside_a_block_are_not_identities() {
    let log = "There was 1 failure:\n\n\
               1) C\\DTest::test_x\n\
               Failed asserting that 'a::b' is 'c'.\n\
               1 is not 2\n\n\
               FAILURES!\n";
    let parsed = parse_str(log).expect("parses");
    assert_eq!(parsed.failures.len(), 1);
}

#[test]
fn failures_list_in_id_order() {
    let log = "There were 2 failures:\n\n\
               1) Z\\Test::test_b\n\n\
               2) A\\Test::test_a\n\n\
               FAILURES!\n";
    let parsed = parse_str(log).expect("parses");
    assert_eq!(
        parsed.failures.to_vec(),
        vec![
            ("A.Test::test_a".to_owned(), TestStatus::Failed),
            ("Z.Test::test_b".to_owned(), TestStatus::Failed),
        ]
    );
}
