use sooth::format::{count, duration, paint};

#[test]
fn durations_take_two_decimals_in_the_largest_unit() {
    assert_eq!(duration(0), "0.00ns");
    assert_eq!(duration(7), "7.00ns");
    assert_eq!(duration(1_500), "1.50µs");
    assert_eq!(duration(250_000_000), "250.00ms");
    assert_eq!(duration(1_500_000_000), "1.50s");
    assert_eq!(duration(61_000_000_000), "61.00s");
}

#[test]
fn durations_round_half_up_and_may_carry() {
    assert_eq!(duration(1_005), "1.01µs");
    assert_eq!(duration(1_004), "1.00µs");
    assert_eq!(duration(999_999), "1000.00µs");
    assert_eq!(duration(1_999_999_999), "2.00s");
}

#[test]
fn counted_nouns_pluralize_except_for_one() {
    assert_eq!(count(0, "error"), "0 errors");
    assert_eq!(count(1, "error"), "1 error");
    assert_eq!(count(2, "failing test"), "2 failing tests");
}

#[test]
fn painting_wraps_only_when_colored() {
    assert_eq!(paint(true, "1;31", "x"), "\x1b[1;31mx\x1b[0m");
    assert_eq!(paint(false, "1;31", "x"), "x");
}
