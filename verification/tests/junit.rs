use sooth::junit::{ensure_within_limit, parse_str, JunitError, TestStatus};

#[test]
fn qualified_name_is_classname_qualified_or_bare() {
    let report = parse_str(r#"<testsuite><testcase classname="A.B" name="t"/><testcase name="loose"/></testsuite>"#)
        .unwrap();
    assert_eq!(report.test_cases[0].qualified_name(), "A.B::t");
    assert_eq!(report.test_cases[1].qualified_name(), "loose");
}

#[test]
fn parses_the_empty_testsuite_fixture_as_a_valid_empty_report() {
    let report = parse_str(
        r#"<?xml version="1.0" encoding="UTF-8"?>
<testsuite name="empty" tests="0" failures="0" errors="0" skipped="0"></testsuite>
"#,
    )
    .expect("an empty suite is a valid report, not an error");
    assert!(report.test_cases.is_empty());
}

#[test]
fn parses_the_missing_durations_fixture_defaulting_times_to_zero() {
    let report = parse_str(
        r#"<?xml version="1.0" encoding="UTF-8"?>
<testsuite name="no-times" tests="3">
  <testcase classname="m" name="plain"/>
  <testcase classname="m" name="skipped"><skipped/></testcase>
  <testcase classname="m" name="broken"><error message="boom"/></testcase>
</testsuite>
"#,
    )
    .expect("missing time attributes are tolerated");
    assert_eq!(report.test_cases.len(), 3);
    assert_eq!(report.test_cases[0].duration, 0);
    assert_eq!(report.test_cases[1].status, TestStatus::Skipped);
    assert_eq!(report.test_cases[2].status, TestStatus::Error);
}

#[test]
fn parses_the_pytest_testsuites_fixture() {
    let report = parse_str(
        r#"<?xml version="1.0" encoding="utf-8"?>
<testsuites><testsuite name="pytest" errors="0" failures="1" skipped="0" tests="2" time="0.05">
<testcase classname="tests.test_math" name="test_addition" time="0.001"/>
<testcase classname="tests.test_math" name="test_subtraction" time="0.002"><failure message="assert 1 == 2">assert 1 == 2</failure></testcase>
</testsuite></testsuites>"#,
    )
    .unwrap();
    assert_eq!(report.test_cases.len(), 2);
    assert_eq!(report.test_cases[0].name, "test_addition");
    assert_eq!(report.test_cases[0].status, TestStatus::Passed);
    assert_eq!(report.test_cases[1].name, "test_subtraction");
    assert_eq!(report.test_cases[1].status, TestStatus::Failed);
}

#[test]
fn parses_the_phpunit_nested_testsuites_fixture() {
    let report = parse_str(
        r#"<?xml version="1.0" encoding="UTF-8"?>
<testsuites>
  <testsuite name="default" tests="2">
    <testsuite name="Tests\Unit\CalculatorTest" file="tests/Unit/CalculatorTest.php" tests="2">
      <testcase name="testAddsTwoNumbers" class="Tests\Unit\CalculatorTest" classname="Tests.Unit.CalculatorTest" time="0.001"/>
      <testcase name="testDivisionByZeroThrows" class="Tests\Unit\CalculatorTest" classname="Tests.Unit.CalculatorTest" time="0.002">
        <error type="DivisionByZeroError">Division by zero</error>
      </testcase>
    </testsuite>
  </testsuite>
</testsuites>"#,
    )
    .unwrap();
    assert_eq!(report.test_cases.len(), 2);
    assert_eq!(report.test_cases[0].name, "testAddsTwoNumbers");
    assert_eq!(report.test_cases[0].status, TestStatus::Passed);
    assert_eq!(report.test_cases[1].name, "testDivisionByZeroThrows");
    assert_eq!(report.test_cases[1].status, TestStatus::Error);
    assert_eq!(report.test_cases[1].classname, Some("Tests.Unit.CalculatorTest".to_owned()));
}

#[test]
fn parses_the_jest_junit_bare_testsuite_fixture() {
    let report = parse_str(
        r#"<testsuite name="math" tests="2" skipped="1">
  <testcase classname="math adds" name="math adds" time="0.003"/>
  <testcase classname="math later" name="math later" time="0"><skipped/></testcase>
</testsuite>"#,
    )
    .unwrap();
    assert_eq!(report.test_cases.len(), 2);
    assert_eq!(report.test_cases[0].status, TestStatus::Passed);
    assert_eq!(report.test_cases[1].status, TestStatus::Skipped);
}

#[test]
fn parses_the_gotestsum_bare_testsuite_fixture() {
    let report = parse_str(
        r#"<testsuite tests="3" failures="1" time="0.010" name="example.com/calc">
  <testcase classname="example.com/calc" name="TestAdd" time="0.000"/>
  <testcase classname="example.com/calc" name="TestSub" time="0.000"/>
  <testcase classname="example.com/calc" name="TestDiv" time="0.000"><failure message="Failed" type="">calc_test.go:20: want 2</failure></testcase>
</testsuite>"#,
    )
    .unwrap();
    assert_eq!(report.test_cases.len(), 3);
    assert_eq!(report.test_cases[0].status, TestStatus::Passed);
    assert_eq!(report.test_cases[1].status, TestStatus::Passed);
    assert_eq!(report.test_cases[2].status, TestStatus::Failed);
}

#[test]
fn parses_a_testsuites_root_with_a_passed_case() {
    let report = parse_str(
        r#"<testsuites>
                <testsuite name="suite">
                    <testcase name="test_ok" classname="pkg.Mod" time="0.5" />
                </testsuite>
            </testsuites>"#,
    )
    .unwrap();

    assert_eq!(report.test_cases.len(), 1);
    let case = &report.test_cases[0];
    assert_eq!(case.name, "test_ok");
    assert_eq!(case.classname, Some("pkg.Mod".to_owned()));
    assert_eq!(case.duration, 500_000_000);
    assert_eq!(case.status, TestStatus::Passed);
}

#[test]
fn parses_a_bare_testsuite_root() {
    let report = parse_str(r#"<testsuite name="suite"><testcase name="a" /></testsuite>"#).unwrap();
    assert_eq!(report.test_cases.len(), 1);
    assert_eq!(report.test_cases[0].status, TestStatus::Passed);
}

#[test]
fn a_failure_child_marks_the_case_failed() {
    let report = parse_str(
        r#"<testsuite>
                <testcase name="a" time="1.5">
                    <failure message="boom">trace</failure>
                </testcase>
            </testsuite>"#,
    )
    .unwrap();
    assert_eq!(report.test_cases[0].status, TestStatus::Failed);
    assert_eq!(report.test_cases[0].duration, 1_500_000_000);
}

#[test]
fn an_error_child_marks_the_case_error() {
    let report = parse_str(r#"<testsuite><testcase name="a"><error message="oops"/></testcase></testsuite>"#).unwrap();
    assert_eq!(report.test_cases[0].status, TestStatus::Error);
}

#[test]
fn a_skipped_child_marks_the_case_skipped() {
    let report = parse_str(r#"<testsuite><testcase name="a"><skipped/></testcase></testsuite>"#).unwrap();
    assert_eq!(report.test_cases[0].status, TestStatus::Skipped);
}

#[test]
fn error_outranks_failure_and_skipped_on_the_same_case() {
    let report = parse_str(
        r#"<testsuite>
                <testcase name="a">
                    <skipped/>
                    <failure/>
                    <error/>
                </testcase>
            </testsuite>"#,
    )
    .unwrap();
    assert_eq!(report.test_cases[0].status, TestStatus::Error);
}

#[test]
fn a_missing_time_attribute_is_zero_duration() {
    let report = parse_str(r#"<testsuite><testcase name="a"/></testsuite>"#).unwrap();
    assert_eq!(report.test_cases[0].duration, 0);
}

#[test]
fn a_negative_or_non_numeric_time_defaults_to_zero_instead_of_panicking() {
    for time in ["-1", "nan", "inf", "-inf", "not-a-number", ""] {
        let xml = format!(r#"<testsuite><testcase name="a" time="{time}"/></testsuite>"#);
        let report = parse_str(&xml).unwrap();
        assert_eq!(report.test_cases[0].duration, 0, "time={time}");
    }
}

#[test]
fn a_decimal_comma_time_is_parsed_not_dropped() {
    let report = parse_str(r#"<testsuite><testcase name="a" time="12,5"/></testsuite>"#).unwrap();
    assert_eq!(report.test_cases[0].duration, 12_500_000_000);
}

#[test]
fn oversized_input_is_refused_before_reading() {
    assert!(ensure_within_limit(10, 10).is_ok());
    assert!(matches!(ensure_within_limit(11, 10), Err(JunitError::TooLarge { bytes: 11, max: 10 })));
}

#[test]
fn unknown_attributes_and_elements_are_ignored() {
    let report = parse_str(
        r#"<testsuites tests="1" unknown-attr="x">
                <testsuite name="s" some-vendor-flag="true">
                    <properties><property name="os" value="linux"/></properties>
                    <testcase name="a" time="0.1" some-vendor-attr="y">
                        <system-out>noise</system-out>
                    </testcase>
                </testsuite>
            </testsuites>"#,
    )
    .unwrap();
    assert_eq!(report.test_cases.len(), 1);
    assert_eq!(report.test_cases[0].status, TestStatus::Passed);
}

#[test]
fn empty_input_is_an_error_not_a_panic() {
    assert!(matches!(parse_str(""), Err(JunitError::MissingRoot)));
}

#[test]
fn non_xml_text_is_an_error_not_a_panic() {
    assert!(matches!(parse_str("this is not xml at all"), Err(JunitError::MissingRoot)));
}

#[test]
fn truncated_xml_is_an_error_not_a_panic() {
    let truncated = r#"<testsuites><testsuite><testcase name="a" time="0.1">"#;
    assert!(matches!(parse_str(truncated), Err(JunitError::UnexpectedEof)));
}

#[test]
fn truncated_mid_attribute_is_an_error_not_a_panic() {
    let truncated = r#"<testsuites><testsuite><testcase name="a"#;
    assert!(parse_str(truncated).is_err());
}

#[test]
fn garbage_bytes_reinterpreted_as_text_never_panic() {
    let samples: [&[u8]; 5] = [
        &[0xFF, 0xFE, 0x00, 0x01, 0x02],
        &[0x00; 32],
        b"<<<>>>&&&;;;",
        b"<testsuite><testcase name=\"a\"",
        &[0x3C, 0xE2, 0x9C, 0x93, 0x3E],
    ];
    for sample in samples {
        let text = String::from_utf8_lossy(sample);
        // The only contract under test is "never panics".
        let _ = parse_str(&text);
    }
}

#[test]
fn xml_invalid_chars_in_test_output_do_not_break_an_otherwise_valid_report() {
    for junk in ['\u{FFFF}', '\0'] {
        let xml = format!(
            r#"<testsuites><testsuite name="s" tests="1"><testcase classname="c" name="t"><system-out>garbage: {junk} here</system-out></testcase></testsuite></testsuites>"#
        );
        let report = parse_str(&xml).expect("XML-invalid chars in output must not reject");
        assert_eq!(report.test_cases.len(), 1);
        assert_eq!(report.test_cases[0].status, TestStatus::Passed);
    }
}

#[test]
fn deeply_nested_junk_does_not_panic_or_overflow_the_stack() {
    let depth = 50_000;
    let mut xml = String::new();
    for _ in 0..depth {
        xml.push_str("<a>");
    }
    for _ in 0..depth {
        xml.push_str("</a>");
    }
    // Well-formed but has no testsuite/testcase anywhere: MissingRoot.
    assert!(matches!(parse_str(&xml), Err(JunitError::MissingRoot)));
}

#[test]
fn many_malformed_inputs_never_panic() {
    let malformed = [
        "",
        " ",
        "\0",
        "<",
        ">",
        "</>",
        "<testsuite",
        "<testsuite>",
        "<testsuite><testcase",
        "<testsuite><testcase name=",
        "<testsuite><testcase name=\"a\"",
        "<testsuite><testcase name=\"a\">",
        "<testsuite><testcase name=\"a\"></testcase>",
        "<testsuite></testsuite><testsuite>",
        "&amp&amp;",
        "<testsuite time=\"nan\"><testcase name=\"a\" time=\"nan\"/></testsuite>",
        "not xml, just words, 12345, !@#$%^&*()",
        "<?xml version=\"1.0\"?>",
        "<?xml version=\"1.0\"?><testsuite",
    ];
    for input in malformed {
        let _ = parse_str(input);
    }
}

#[test]
fn the_failure_type_of_the_deciding_child_is_kept() {
    let report = parse_str(
        r#"<testsuite><testcase name="a"><failure type="AssertionError"/></testcase></testsuite>"#,
    )
    .unwrap();
    assert_eq!(report.test_cases[0].failure_type, Some("AssertionError".to_owned()));
}

#[test]
fn the_error_messages_name_what_went_wrong() {
    assert_eq!(
        JunitError::TooLarge { bytes: 11, max: 10 }.message().contains("11"),
        true
    );
    assert!(!JunitError::MissingRoot.message().is_empty());
    assert!(!JunitError::UnexpectedEof.message().is_empty());
}

#[test]
fn a_failing_count_counts_failures_and_errors() {
    let report = parse_str(
        r#"<testsuite><testcase name="a"><failure/></testcase><testcase name="b"><error/></testcase><testcase name="c"><skipped/></testcase><testcase name="d"/></testsuite>"#,
    )
    .unwrap();
    assert_eq!(report.failing_count(), 2);
    assert!(report.has_failures());
}
