use sooth::quarantine::parse;

#[test]
fn parse_skips_comments_and_blank_lines_and_trims() {
    let set = parse(
        "# known flakes\n\n  tests.test_math::test_subtraction  \nApp.FooTest::test_a with data set \"x\"\n",
    );
    assert_eq!(set.len(), 2);
    assert!(set.contains(&"tests.test_math::test_subtraction".to_owned()));
    assert!(set.contains(&r#"App.FooTest::test_a with data set "x""#.to_owned()));
}

#[test]
fn a_leading_bom_does_not_hide_the_first_entry() {
    let set = parse("\u{feff}tests.test_math::test_subtraction\n");
    assert!(set.contains(&"tests.test_math::test_subtraction".to_owned()));
}

#[test]
fn listed_ids_come_back_sorted_and_once() {
    let set = parse("b::t\na::t\nb::t\r\n");
    assert_eq!(set, vec!["a::t".to_owned(), "b::t".to_owned()]);
}
