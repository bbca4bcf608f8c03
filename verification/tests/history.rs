use sooth::history::{
    append_text, fnv1a64, iso8601_to_epoch as epoch, ledger_append_text, ledger_hash, ledger_hashes, ledger_line,
    load_text, parse_line, to_line, Observation,
};
use sooth::junit::TestStatus;

fn observation(id: &str, status: TestStatus) -> Observation {
    Observation {
        id: id.to_owned(),
        status,
        commit: Some("abc123".to_owned()),
        dirty: Some(false),
        environment: Some("local".to_owned()),
        at_epoch_secs: 1_700_000_000,
    }
}

fn text_of(observations: &[Observation]) -> String {
    let mut text = String::new();
    for o in observations {
        text.push_str(&to_line(o));
        text.push('\n');
    }
    text
}

#[test]
fn fnv1a64_matches_the_published_vectors() {
    // The ledger must survive a Rust upgrade, so the hash is pinned to the
    // algorithm's own vectors.
    assert_eq!(fnv1a64(b""), 0xcbf2_9ce4_8422_2325);
    assert_eq!(fnv1a64(b"a"), 0xaf63_dc4c_8601_ec8c);
    assert_eq!(fnv1a64(b"foobar"), 0x8594_4171_f739_67e8);
}

#[test]
fn iso8601_covers_the_shapes_junit_reports_actually_use() {
    assert_eq!(epoch("1970-01-01T00:00:00"), Some(0));
    // Leap day: the day the hand-rolled math gets wrong first.
    assert_eq!(epoch("2024-02-29T12:00:00"), Some(1_709_208_000));
    // pytest writes fractional seconds and a zone.
    assert_eq!(epoch("2026-08-08T10:00:00.123456Z"), Some(1_786_183_200));
    assert_eq!(epoch("2026-08-08T10:00:00+02:00"), Some(1_786_176_000));
    assert_eq!(epoch("garbage"), None);
    assert_eq!(epoch("2026-13-01T00:00:00"), None);
}

#[test]
fn iso8601_pins_the_arithmetic_the_common_shapes_never_reach() {
    // A zone with minutes, in both directions.
    assert_eq!(epoch("2026-08-08T10:00:00+05:30"), Some(1_786_163_400));
    assert_eq!(epoch("2026-08-08T10:00:00-02:00"), Some(1_786_190_400));
    // Century leap day (divisible by 400) and a non-leap century start.
    assert_eq!(epoch("2000-02-29T12:00:00"), Some(951_825_600));
    assert_eq!(epoch("2100-01-01T00:00:00"), Some(4_102_444_800));
    // The last second of a year: day-of-year arithmetic at its edge.
    assert_eq!(epoch("2023-12-31T23:59:59"), Some(1_704_067_199));
    // Before the epoch there is no u64: None, not a wrapped value.
    assert_eq!(epoch("1969-12-31T23:59:59"), None);
}

#[test]
fn iso8601_reads_zone_minutes_by_byte_position() {
    // A non-ASCII separator shifts the minutes off bytes 3..5, so only the
    // hour applies.
    assert_eq!(epoch("2026-08-08T10:00:00+02\u{e9}30"), Some(1_786_176_000));
    assert_eq!(epoch("2026-08-08T10:00:00+02:30"), Some(1_786_174_200));
}

#[test]
fn observations_survive_a_write_load_roundtrip() {
    let written = vec![
        observation("c::a", TestStatus::Passed),
        observation("c::b", TestStatus::Failed),
        Observation {
            commit: None,
            dirty: None,
            ..observation("c::no-git", TestStatus::Error)
        },
    ];
    let loaded = load_text(&text_of(&written), false);
    assert_eq!(loaded.skipped_lines, 0);
    assert_eq!(loaded.observations, written);
}

#[test]
fn ids_with_quotes_backslashes_and_newlines_roundtrip() {
    let tricky = Observation {
        id: "c::says \"hi\"\\\n".to_owned(),
        ..observation("", TestStatus::Passed)
    };
    assert_eq!(parse_line(&to_line(&tricky)), Some(tricky.clone()));
    let loaded = load_text(&text_of(std::slice::from_ref(&tricky)), false);
    assert_eq!(loaded.observations, [tricky]);
}

#[test]
fn the_line_format_is_fixed() {
    assert_eq!(
        to_line(&observation("c::a", TestStatus::Skipped)),
        r#"{"at":1700000000,"commit":"abc123","dirty":false,"env":"local","status":"skipped","id":"c::a"}"#
    );
}

#[test]
fn unreadable_lines_are_counted_and_skipped_not_fatal() {
    let mut text = text_of(&[observation("c::ok", TestStatus::Passed)]);
    text.push_str("not json at all\n");
    text.push_str("{\"at\":9,\"commit\":null,\"dirty\":null,\"status\":\"weird\",\"id\":\"x\"}\n");
    let loaded = load_text(&text, false);
    assert_eq!(loaded.observations.len(), 1);
    assert_eq!(loaded.skipped_lines, 2);
}

#[test]
fn a_cut_first_line_of_a_tail_is_dropped_silently() {
    let written: Vec<Observation> = (0..3)
        .map(|i| observation(&format!("c::t{i}"), TestStatus::Passed))
        .collect();
    let text = text_of(&written);
    let cut = &text[10..];
    let loaded = load_text(cut, true);
    assert_eq!(loaded.skipped_lines, 0);
    assert_eq!(loaded.observations, written[1..]);
}

#[test]
fn lines_written_before_environments_existed_still_load() {
    let legacy = "{\"at\":9,\"commit\":\"abc\",\"dirty\":false,\"status\":\"failed\",\"id\":\"c::t\"}\n";
    let loaded = load_text(legacy, false);
    assert_eq!(loaded.skipped_lines, 0, "a legacy line read as corrupt");
    assert_eq!(loaded.observations.len(), 1);
    assert_eq!(loaded.observations[0].environment, None);
}

#[test]
fn the_environment_survives_a_roundtrip() {
    let written = vec![
        observation("c::a", TestStatus::Passed),
        Observation {
            environment: Some("ci".to_owned()),
            ..observation("c::b", TestStatus::Failed)
        },
        Observation {
            environment: None,
            ..observation("c::c", TestStatus::Passed)
        },
    ];
    assert_eq!(load_text(&text_of(&written), false).observations, written);
}

#[test]
fn every_escape_the_writer_emits_survives_a_load() {
    let text = "{\"at\":9,\"commit\":null,\"dirty\":null,\"env\":null,\"status\":\"failed\",\
                \"id\":\"q\\\"b\\\\s\\/n\\nr\\rt\\tu\\u0041\"}\n";
    let loaded = load_text(text, false);
    assert_eq!(loaded.skipped_lines, 0);
    assert_eq!(loaded.observations.len(), 1);
    assert_eq!(loaded.observations[0].id, "q\"b\\s/n\nr\rt\tuA");
}

#[test]
fn control_characters_are_written_as_unicode_escapes_and_read_back() {
    let o = Observation {
        id: "c::bell\u{7}".to_owned(),
        environment: Some("e\u{1f}".to_owned()),
        ..observation("", TestStatus::Failed)
    };
    let line = to_line(&o);
    assert!(line.contains("\\u0007"));
    assert_eq!(parse_line(&line), Some(o));
}

#[test]
fn the_import_ledger_roundtrips_and_tolerates_junk() {
    let mut text = String::new();
    text.push_str(&ledger_line(0xdead_beef, "a.xml"));
    text.push('\n');
    text.push_str(&ledger_line(0x1234, "b sp ace.xml"));
    text.push('\n');
    text.push_str("not a ledger line\n");
    assert_eq!(ledger_line(0x1234, "b.xml"), "0000000000001234 b.xml");
    assert_eq!(ledger_hashes(&text), vec![0xdead_beef, 0x1234]);
    assert_eq!(ledger_hash("  +ff name"), Some(255));
    assert_eq!(ledger_hash("ffffffffffffffffff x"), None);
    assert_eq!(ledger_hash(""), None);
}

#[test]
fn ledger_lines_give_back_their_hash_whatever_the_name() {
    let mut text = String::new();
    for (hash, name) in [(u64::MAX, "c.xml\r"), (0, ""), (7, "  spaced  ")] {
        text.push_str(&ledger_line(hash, name));
        text.push('\n');
    }
    assert_eq!(ledger_hashes(&text), vec![u64::MAX, 0, 7]);
    assert_eq!(ledger_hash(&ledger_line(0xabc, "x y z")), Some(0xabc));
}

#[test]
fn appended_text_loads_back_whole_and_as_a_cut_tail() {
    let mut odd = observation("q\"uo\\te\nnew\u{7}line", TestStatus::Error);
    odd.commit = None;
    odd.dirty = None;
    odd.environment = None;
    odd.at_epoch_secs = u64::MAX;
    let written = vec![observation("a::one", TestStatus::Passed), odd, observation("a::two", TestStatus::Skipped)];
    let text = append_text(&written);
    assert_eq!(text, text_of(&written));
    let loaded = load_text(&text, false);
    assert_eq!(loaded.observations, written);
    assert_eq!(loaded.skipped_lines, 0);
    let tail = format!("at\":17,\"cut mid-line\n{text}");
    let from_tail = load_text(&tail, true);
    assert_eq!(from_tail.observations, written);
    assert_eq!(from_tail.skipped_lines, 0);
    assert_eq!(append_text(&[]), "");
}

#[test]
fn a_ledger_appended_in_one_go_gives_back_every_hash() {
    let entries = vec![(1u64, "one.xml".to_owned()), (u64::MAX, "two words.xml".to_owned()), (0, String::new())];
    let text = ledger_append_text(&entries);
    assert_eq!(
        text,
        "0000000000000001 one.xml\nffffffffffffffff two words.xml\n0000000000000000 \n"
    );
    assert_eq!(ledger_hashes(&text), vec![1, u64::MAX, 0]);
}

#[test]
fn the_environment_is_ci_only_for_a_set_and_non_empty_variable() {
    assert_eq!(sooth::history::environment_label(Some("true")), "ci");
    assert_eq!(sooth::history::environment_label(Some("")), "local");
    assert_eq!(sooth::history::environment_label(None), "local");
}

#[test]
fn the_code_identity_comes_from_the_commit_and_the_porcelain_status() {
    let clean = sooth::history::identity_of(Some("abc123\n".to_owned()), Some("\n".to_owned()));
    assert_eq!(clean.commit.as_deref(), Some("abc123"));
    assert_eq!(clean.dirty, Some(false));
    let dirty = sooth::history::identity_of(Some("abc123".to_owned()), Some("?? new.txt\n".to_owned()));
    assert_eq!(dirty.dirty, Some(true));
    let unknown = sooth::history::identity_of(Some("abc123".to_owned()), None);
    assert_eq!(unknown.dirty, None);
    let none = sooth::history::identity_of(None, Some(" M a.txt".to_owned()));
    assert_eq!((none.commit, none.dirty), (None, None));
}
