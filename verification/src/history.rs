//! The local run history: one observation per test per observed run,
//! appended to `.sooth/history.jsonl` in the directory sooth runs from.

use vstd::prelude::*;

use crate::decimal::{all_digits, digit_run, digit_run_at, digits_value, is_digit, pow10, trim, trim_bounds};
use crate::junit::TestStatus;
use crate::report::{escaped, json_escape};
use crate::text::{chars_of, decimal, opt_view, push_char, push_decimal, push_str, starts_with, str_eq};

verus! {

/// The history file, relative to the directory sooth runs from.
pub const HISTORY_PATH: &'static str = ".sooth/history.jsonl";

/// The ledger of already-imported report files, beside the history.
pub const IMPORTED_PATH: &'static str = ".sooth/imported";

/// How many of a test's most recent observations the analysis considers.
pub const WINDOW_PER_TEST: usize = 50;

/// How much of the history file's tail one load reads (64 MiB).
pub const MAX_LOAD_BYTES: u64 = 67108864;

/// The code state observations were made on. `None` means unknowable (no
/// git binary, not a repository): such observations count in totals but can
/// never be identity-bound evidence.
#[derive(Debug, Clone, Default, PartialEq, Eq)]
pub struct CodeIdentity {
    pub commit: Option<String>,
    pub dirty: Option<bool>,
}

/// One test's collapsed outcome in one observed run.
#[derive(Debug, Clone, PartialEq, Eq)]
pub struct Observation {
    /// The test's identity (`classname::name`).
    pub id: String,
    pub status: TestStatus,
    pub commit: Option<String>,
    pub dirty: Option<bool>,
    /// Where the run happened; `None` for observations written before this
    /// was recorded.
    pub environment: Option<String>,
    pub at_epoch_secs: u64,
}

impl Observation {
    /// Made on a known, clean commit: the only observations that can be
    /// evidence.
    pub open spec fn is_clean(self) -> bool {
        self.dirty == Some(false) && self.commit is Some
    }

    /// The commit's characters, when there is one.
    pub open spec fn commit_view(self) -> Option<Seq<char>> {
        opt_view(self.commit)
    }

    /// The environment's characters, when there is one.
    pub open spec fn env_view(self) -> Option<Seq<char>> {
        opt_view(self.environment)
    }
}

/// The loaded history, plus how many lines were unreadable — the file is
/// user-managed, so a corrupt line loses one observation, never the run.
pub struct Loaded {
    pub observations: Vec<Observation>,
    pub skipped_lines: usize,
}

/// The FNV-1a offset basis.
pub const FNV_OFFSET: u64 = 0xcbf2_9ce4_8422_2325;

/// The FNV-1a prime.
pub const FNV_PRIME: u64 = 0x0000_0100_0000_01b3;

/// FNV-1a, 64-bit, of `bytes`: per byte, xor it in, then multiply by the
/// prime modulo 2^64.
pub open spec fn fnv(bytes: Seq<u8>) -> u64
    decreases bytes.len(),
{
    if bytes.len() == 0 {
        FNV_OFFSET
    } else {
        (fnv(bytes.drop_last()) ^ (bytes.last() as u64)).wrapping_mul(FNV_PRIME)
    }
}

/// FNV-1a, 64-bit — stable across Rust releases, so the import ledger
/// survives an upgrade; the input is the user's own report files, so
/// collision resistance against an adversary is not a requirement.
pub fn fnv1a64(bytes: &[u8]) -> (hash: u64)
    ensures
        hash == fnv(bytes@),
{
    let mut hash: u64 = FNV_OFFSET;
    let mut i: usize = 0;
    while i < bytes.len()
        invariant
            i <= bytes.len(),
            hash == fnv(bytes@.take(i as int)),
        decreases bytes.len() - i,
    {
        assert(bytes@.take(i + 1).drop_last() =~= bytes@.take(i as int));
        hash = (hash ^ (bytes[i] as u64)).wrapping_mul(FNV_PRIME);
        i += 1;
    }
    assert(bytes@.take(i as int) =~= bytes@);
    hash
}

/// The value `str::parse::<i64>` gives a short text: an optional sign and at
/// least one digit.
pub open spec fn int_text(s: Seq<char>) -> Option<int> {
    if s.len() > 0 && (s[0] == '+' || s[0] == '-') {
        let u = s.skip(1);
        if u.len() > 0 && all_digits(u) {
            Some(if s[0] == '-' { -(digits_value(u) as int) } else { digits_value(u) as int })
        } else {
            None
        }
    } else if s.len() > 0 && all_digits(s) {
        Some(digits_value(s) as int)
    } else {
        None
    }
}

/// Days from 1970-01-01 to the given civil (proleptic Gregorian) date.
pub open spec fn days_from_civil(year: int, month: int, day: int) -> int {
    let years = if month <= 2 { year - 1 } else { year };
    let era = years / 400;
    let year_of_era = years - era * 400;
    let day_of_year = (153 * (if month > 2 { month - 3 } else { month + 9 }) + 2) / 5 + day - 1;
    let day_of_era = year_of_era * 365 + year_of_era / 4 - year_of_era / 100 + day_of_year;
    era * 146097 + day_of_era - 719468
}

/// What follows the seconds, once fractional seconds are skipped.
pub open spec fn after_fraction(r: Seq<char>) -> Seq<char> {
    if r.len() > 0 && r[0] == '.' {
        r.skip(1).skip(digit_run(r.skip(1)) as int)
    } else {
        r
    }
}

/// The zone's offset from UTC in seconds: zero without an explicit zone,
/// `None` when a sign is not followed by a two-digit hour. The minutes are
/// the zone's bytes 3 to 5 (after the hour and a separator); they count as
/// zero when those bytes are missing, do not read as a number, or do not
/// line up with characters 3 to 5 because the separator is not ASCII.
pub open spec fn zone_offset(r: Seq<char>) -> Option<int> {
    if r.len() > 0 && (r[0] == '+' || r[0] == '-') {
        let z = r.skip(1);
        if z.len() < 2 {
            None
        } else {
            match int_text(z.take(2)) {
                None => None,
                Some(hour) => {
                    let minute = if z.len() >= 5 && (z[2] as u32) < 128 {
                        match int_text(z.subrange(3, 5)) {
                            Some(m) => m,
                            None => 0,
                        }
                    } else {
                        0
                    };
                    let size = hour * 3600 + minute * 60;
                    Some(if r[0] == '-' { -size } else { size })
                },
            }
        }
    } else {
        Some(0)
    }
}

/// Whether every character is ASCII.
pub open spec fn all_ascii(s: Seq<char>) -> bool {
    forall|i: int| 0 <= i < s.len() ==> (#[trigger] s[i] as u32) < 128
}

/// `YYYY-MM-DDTHH:MM:SS`, optionally with fractional seconds and a zone
/// (`Z` or `±HH:MM`), as seconds since the epoch; `None` when the text is
/// not such a timestamp, its fields are out of range, or it lies before the
/// epoch. A bare local time is taken as written.
pub open spec fn iso8601_spec(text: Seq<char>) -> Option<u64> {
    let t = trim(text);
    if t.len() < 19 || !all_ascii(t.take(19)) || t[10] != 'T' {
        None
    } else {
        match (int_text(t.subrange(0, 4)), int_text(t.subrange(5, 7)), int_text(t.subrange(8, 10)), int_text(
            t.subrange(11, 13),
        ), int_text(t.subrange(14, 16)), int_text(t.subrange(17, 19))) {
            (Some(year), Some(month), Some(day), Some(hour), Some(minute), Some(second)) => {
                if !(1 <= month <= 12) || !(1 <= day <= 31) || !(0 <= hour < 24) || !(0 <= minute < 60) || !(0
                    <= second < 60) {
                    None
                } else {
                    match zone_offset(after_fraction(t.skip(19))) {
                        None => None,
                        Some(offset) => {
                            let epoch = days_from_civil(year, month, day) * 86400 + hour * 3600 + minute * 60
                                + second - offset;
                            if 0 <= epoch <= u64::MAX {
                                Some(epoch as u64)
                            } else {
                                None
                            }
                        },
                    }
                }
            },
            _ => None,
        }
    }
}

/// The value of `t[from..to]` as `int_text` reads it (at most four
/// characters).
fn int_at(t: &Vec<char>, from: usize, to: usize) -> (r: Option<i64>)
    requires
        from <= to <= t.len(),
        to - from <= 4,
    ensures
        match r {
            Some(v) => int_text(t@.subrange(from as int, to as int)) == Some(v as int),
            None => int_text(t@.subrange(from as int, to as int)) is None,
        },
{
    let ghost s = t@.subrange(from as int, to as int);
    if from == to {
        return None;
    }
    assert(s[0] == t@[from as int]);
    let signed = t[from] == '+' || t[from] == '-';
    let start: usize = if signed { from + 1 } else { from };
    let ghost u = t@.subrange(start as int, to as int);
    assert(u == if signed { s.skip(1) } else { s });
    if start == to {
        return None;
    }
    assert(int_text(s) == if all_digits(u) {
        Some(if signed && s[0] == '-' { -(digits_value(u) as int) } else { digits_value(u) as int })
    } else {
        None::<int>
    });
    let mut v: i64 = 0;
    let mut i: usize = start;
    while i < to
        invariant
            start <= i <= to <= t.len(),
            to - start <= 4,
            u == t@.subrange(start as int, to as int),
            s == t@.subrange(from as int, to as int),
            int_text(s) == if all_digits(u) {
                Some(if signed && s[0] == '-' { -(digits_value(u) as int) } else { digits_value(u) as int })
            } else {
                None::<int>
            },
            all_digits(t@.subrange(start as int, i as int)),
            v == digits_value(t@.subrange(start as int, i as int)),
            v < crate::decimal::pow10((i - start) as nat),
        decreases to - i,
    {
        if !('0' <= t[i] && t[i] <= '9') {
            proof {
                assert(u[i - start] == t@[i as int]);
            }
            return None;
        }
        let ghost pre = t@.subrange(start as int, i + 1);
        assert(pre.drop_last() =~= t@.subrange(start as int, i as int));
        assert(pre.last() == t@[i as int]);
        proof {
            assert(crate::decimal::pow10((i + 1 - start) as nat) == 10 * crate::decimal::pow10((i - start) as nat));
            assert(crate::decimal::pow10(4) == 10000) by {
                reveal_with_fuel(crate::decimal::pow10, 5);
            }
            crate::decimal::lemma_pow10_monotone((i + 1 - start) as nat, 4);
            assert(all_digits(pre)) by {
                assert forall|j: int| 0 <= j < pre.len() implies is_digit(#[trigger] pre[j]) by {
                    if j < pre.len() - 1 {
                        assert(pre[j] == t@.subrange(start as int, i as int)[j]);
                    }
                }
            }
        }
        v = v * 10 + (t[i] as u32 - '0' as u32) as i64;
        i += 1;
    }
    assert(u =~= t@.subrange(start as int, i as int));
    Some(if t[from] == '-' { -v } else { v })
}

/// A text of at most four characters reads as at most four digits.
proof fn lemma_int_text_bound(s: Seq<char>)
    requires
        s.len() <= 4,
    ensures
        int_text(s) matches Some(v) ==> -9999 <= v <= 9999,
{
    assert(pow10(4) == 10000) by {
        reveal_with_fuel(pow10, 5);
    }
    if s.len() > 0 && (s[0] == '+' || s[0] == '-') {
        let u = s.skip(1);
        if u.len() > 0 && all_digits(u) {
            crate::decimal::lemma_value_bound(u);
            crate::decimal::lemma_pow10_monotone(u.len(), 4);
        }
    } else if s.len() > 0 && all_digits(s) {
        crate::decimal::lemma_value_bound(s);
        crate::decimal::lemma_pow10_monotone(s.len(), 4);
    }
}

/// The floor of `years / 400` with only non-negative divisions.
fn era_of(years: i64) -> (era: i64)
    requires
        -100000 <= years <= 100000,
    ensures
        era == years / 400,
{
    if years >= 0 {
        years / 400
    } else {
        let q = (-years + 399) / 400;
        assert(-q == years / 400) by (nonlinear_arith)
            requires
                years < 0,
                q == (-years + 399) / 400,
        ;
        -q
    }
}

/// `text` without surrounding whitespace.
fn trimmed(text: &str) -> (t: Vec<char>)
    ensures
        t@ == trim(text@),
{
    let raw = chars_of(text);
    let (lo, hi) = trim_bounds(&raw);
    let mut t: Vec<char> = Vec::new();
    let mut i: usize = lo;
    while i < hi
        invariant
            lo <= i <= hi <= raw.len(),
            t@ == raw@.subrange(lo as int, i as int),
        decreases hi - i,
    {
        t.push(raw[i]);
        assert(t@ =~= raw@.subrange(lo as int, i + 1));
        i += 1;
    }
    t
}

/// Where a run happened: `ci` when the `CI` variable is set and not
/// empty, `local` otherwise.
pub fn environment_label(ci: Option<&str>) -> (r: String)
    ensures
        r@ == (if ci matches Some(v) && v@.len() > 0 {
            "ci"@
        } else {
            "local"@
        }),
{
    match ci {
        Some(v) => {
            if v.is_empty() {
                "local".to_owned()
            } else {
                "ci".to_owned()
            }
        },
        None => "local".to_owned(),
    }
}

/// The code identity git's outputs give: the commit `rev-parse HEAD`
/// printed, and a tree that is dirty when `status --porcelain` (untracked
/// files included) printed anything. Without a commit, nothing is known;
/// without a status, the dirtiness is unknown.
pub fn identity_of(head: Option<String>, porcelain: Option<String>) -> (id: CodeIdentity)
    ensures
        head is None ==> id.commit is None && id.dirty is None,
        head matches Some(h) ==> opt_view(id.commit) == Some(trim(h@)) && id.dirty == (match porcelain {
            Some(s) => Some(trim(s@).len() > 0),
            None => None::<bool>,
        }),
{
    match head {
        None => CodeIdentity { commit: None, dirty: None },
        Some(h) => {
            let commit = trimmed(h.as_str());
            let dirty = match porcelain {
                Some(out) => Some(trimmed(out.as_str()).len() > 0),
                None => None,
            };
            CodeIdentity { commit: Some(crate::text::string_of(commit.as_slice())), dirty }
        },
    }
}

/// Whether the first `n` characters are ASCII.
fn ascii_prefix(t: &Vec<char>, n: usize) -> (r: bool)
    requires
        n <= t.len(),
    ensures
        r == all_ascii(t@.take(n as int)),
{
    let mut k: usize = 0;
    while k < n
        invariant
            k <= n <= t.len(),
            all_ascii(t@.take(k as int)),
        decreases n - k,
    {
        if t[k] as u32 >= 128 {
            assert(t@.take(n as int)[k as int] == t@[k as int]);
            return false;
        }
        assert(all_ascii(t@.take(k + 1))) by {
            assert forall|j: int| 0 <= j < k + 1 implies (#[trigger] t@.take(k + 1)[j] as u32) < 128 by {
                if j < k {
                    assert(t@.take(k + 1)[j] == t@.take(k as int)[j]);
                }
            }
        }
        k += 1;
    }
    true
}

/// Seconds since the epoch of a civil date and time of day.
fn civil_epoch(year: i64, month: i64, day: i64, hour: i64, minute: i64, second: i64) -> (e: i64)
    requires
        -9999 <= year <= 9999,
        1 <= month <= 12,
        1 <= day <= 31,
        0 <= hour < 24,
        0 <= minute < 60,
        0 <= second < 60,
    ensures
        e == days_from_civil(year as int, month as int, day as int) * 86400 + hour * 3600 + minute * 60 + second,
        -1000000000000 <= e <= 1000000000000,
{
    let years: i64 = if month <= 2 { year - 1 } else { year };
    let era = era_of(years);
    let year_of_era: i64 = years - era * 400;
    assert(0 <= year_of_era < 400 && -26 <= era <= 25) by (nonlinear_arith)
        requires
            era == years / 400,
            year_of_era == years - era * 400,
            -10000 <= years <= 9999,
    ;
    let day_of_year: i64 = (153 * (if month > 2 { month - 3 } else { month + 9 }) + 2) / 5 + day - 1;
    let day_of_era: i64 = year_of_era * 365 + year_of_era / 4 - year_of_era / 100 + day_of_year;
    let days: i64 = era * 146097 + day_of_era - 719468;
    days * 86400 + hour * 3600 + minute * 60 + second
}

/// The zone offset of a timestamp's tail (see `zone_offset`).
fn zone_of(t: &Vec<char>) -> (r: Option<i64>)
    requires
        19 <= t.len(),
    ensures
        match r {
            Some(o) => zone_offset(after_fraction(t@.skip(19))) == Some(o as int) && -100000000 <= o <= 100000000,
            None => zone_offset(after_fraction(t@.skip(19))) is None,
        },
{
    let mut j: usize = 19;
    if j < t.len() && t[j] == '.' {
        let run = digit_run_at(t, j + 1);
        proof {
            assert(t@.skip(19)[0] == t@[19]);
            assert(t@.skip(19).skip(1) =~= t@.skip(20));
            assert(t@.skip(20).skip(run as int) =~= t@.skip(20 + run));
        }
        j = j + 1 + run;
    } else if j < t.len() {
        assert(t@.skip(19)[0] == t@[19]);
    }
    let ghost rest = t@.skip(j as int);
    assert(rest == after_fraction(t@.skip(19)));
    if j < t.len() && (t[j] == '+' || t[j] == '-') {
        assert(rest[0] == t@[j as int]);
        let ghost z = rest.skip(1);
        assert(z =~= t@.skip(j + 1));
        if t.len() - (j + 1) < 2 {
            return None;
        }
        assert(z.take(2) =~= t@.subrange(j + 1, j + 3));
        let zone_hour = match int_at(t, j + 1, j + 3) {
            Some(v) => v,
            None => {
                return None;
            },
        };
        assert(t.len() - (j + 1) >= 5 ==> z[2] == t@[j + 3]);
        let zone_minute: i64 = if t.len() - (j + 1) >= 5 && (t[j + 3] as u32) < 128 {
            assert(z.subrange(3, 5) =~= t@.subrange(j + 4, j + 6));
            match int_at(t, j + 4, j + 6) {
                Some(v) => v,
                None => 0,
            }
        } else {
            0
        };
        proof {
            lemma_int_text_bound(t@.subrange(j + 1, j + 3));
            if t.len() - (j + 1) >= 5 && (t@[j + 3] as u32) < 128 {
                lemma_int_text_bound(t@.subrange(j + 4, j + 6));
            }
        }
        let size: i64 = zone_hour * 3600 + zone_minute * 60;
        Some(if t[j] == '-' { -size } else { size })
    } else {
        if j < t.len() {
            assert(rest[0] == t@[j as int]);
        }
        Some(0)
    }
}

/// `YYYY-MM-DDTHH:MM:SS`, optionally with fractional seconds and a zone, to
/// seconds since the epoch (see `iso8601_spec`).
pub fn iso8601_to_epoch(text: &str) -> (r: Option<u64>)
    ensures
        r == iso8601_spec(text@),
{
    let t = trimmed(text);
    if t.len() < 19 {
        return None;
    }
    if !ascii_prefix(&t, 19) || t[10] != 'T' {
        return None;
    }
    let year = match int_at(&t, 0, 4) {
        Some(v) => v,
        None => {
            return None;
        },
    };
    let month = match int_at(&t, 5, 7) {
        Some(v) => v,
        None => {
            return None;
        },
    };
    let day = match int_at(&t, 8, 10) {
        Some(v) => v,
        None => {
            return None;
        },
    };
    let hour = match int_at(&t, 11, 13) {
        Some(v) => v,
        None => {
            return None;
        },
    };
    let minute = match int_at(&t, 14, 16) {
        Some(v) => v,
        None => {
            return None;
        },
    };
    let second = match int_at(&t, 17, 19) {
        Some(v) => v,
        None => {
            return None;
        },
    };
    if !(1 <= month && month <= 12) || !(1 <= day && day <= 31) {
        return None;
    }
    if !(0 <= hour && hour < 24) || !(0 <= minute && minute < 60) || !(0 <= second && second < 60) {
        return None;
    }
    proof {
        lemma_int_text_bound(t@.subrange(0, 4));
    }
    let base = civil_epoch(year, month, day, hour, minute, second);
    let offset = match zone_of(&t) {
        Some(o) => o,
        None => {
            return None;
        },
    };
    let epoch: i64 = base - offset;
    if epoch < 0 {
        return None;
    }
    Some(epoch as u64)
}


/// The mathematical content of an observation.
pub struct ObservationView {
    pub id: Seq<char>,
    pub status: TestStatus,
    pub commit: Option<Seq<char>>,
    pub dirty: Option<bool>,
    pub environment: Option<Seq<char>>,
    pub at_epoch_secs: u64,
}

/// The view of an observation.
pub open spec fn observation_view(o: Observation) -> ObservationView {
    ObservationView {
        id: o.id@,
        status: o.status,
        commit: opt_view(o.commit),
        dirty: o.dirty,
        environment: opt_view(o.environment),
        at_epoch_secs: o.at_epoch_secs,
    }
}

/// The wire name of a status.
pub open spec fn status_name(s: TestStatus) -> Seq<char> {
    match s {
        TestStatus::Passed => "passed"@,
        TestStatus::Failed => "failed"@,
        TestStatus::Error => "error"@,
        TestStatus::Skipped => "skipped"@,
    }
}

/// The status a wire name stands for.
pub open spec fn status_of_name(n: Seq<char>) -> Option<TestStatus> {
    if n == "passed"@ {
        Some(TestStatus::Passed)
    } else if n == "failed"@ {
        Some(TestStatus::Failed)
    } else if n == "error"@ {
        Some(TestStatus::Error)
    } else if n == "skipped"@ {
        Some(TestStatus::Skipped)
    } else {
        None
    }
}

/// The wire name of a status.
fn status_str(status: TestStatus) -> (n: &'static str)
    ensures
        n@ == status_name(status),
{
    match status {
        TestStatus::Passed => "passed",
        TestStatus::Failed => "failed",
        TestStatus::Error => "error",
        TestStatus::Skipped => "skipped",
    }
}

/// The status a wire name stands for.
fn status_from_str(name: &str) -> (s: Option<TestStatus>)
    ensures
        s == status_of_name(name@),
{
    if str_eq(name, "passed") {
        Some(TestStatus::Passed)
    } else if str_eq(name, "failed") {
        Some(TestStatus::Failed)
    } else if str_eq(name, "error") {
        Some(TestStatus::Error)
    } else if str_eq(name, "skipped") {
        Some(TestStatus::Skipped)
    } else {
        None
    }
}

/// A JSON string or `null`.
pub open spec fn json_opt(v: Option<Seq<char>>) -> Seq<char> {
    match v {
        Some(x) => "\""@ + escaped(x) + "\""@,
        None => "null"@,
    }
}

/// A JSON boolean or `null`.
pub open spec fn json_bool(d: Option<bool>) -> Seq<char> {
    match d {
        Some(true) => "true"@,
        Some(false) => "false"@,
        None => "null"@,
    }
}

/// The history line of an observation: a flat JSON object with `id`, the
/// only free text, written last.
pub open spec fn line_of(o: ObservationView) -> Seq<char> {
    "{\"at\":"@ + decimal(o.at_epoch_secs as nat) + ",\"commit\":"@ + json_opt(o.commit) + ",\"dirty\":"@
        + json_bool(o.dirty) + ",\"env\":"@ + json_opt(o.environment) + ",\"status\":\""@ + status_name(o.status)
        + "\",\"id\":\""@ + escaped(o.id) + "\"}"@
}

/// Appends a JSON string or `null`.
fn push_json_opt(out: &mut String, v: &Option<String>)
    ensures
        final(out)@ == old(out)@ + json_opt(opt_view(*v)),
{
    match v {
        Some(x) => {
            push_str(out, "\"");
            let e = json_escape(x.as_str());
            push_str(out, e.as_str());
            push_str(out, "\"");
        },
        None => push_str(out, "null"),
    }
}

/// One observation as a history line.
pub fn to_line(observation: &Observation) -> (line: String)
    ensures
        line@ == line_of(observation_view(*observation)),
{
    let mut out = "{\"at\":".to_owned();
    push_decimal(&mut out, observation.at_epoch_secs as u128);
    push_str(&mut out, ",\"commit\":");
    push_json_opt(&mut out, &observation.commit);
    push_str(&mut out, ",\"dirty\":");
    match observation.dirty {
        Some(true) => push_str(&mut out, "true"),
        Some(false) => push_str(&mut out, "false"),
        None => push_str(&mut out, "null"),
    }
    push_str(&mut out, ",\"env\":");
    push_json_opt(&mut out, &observation.environment);
    push_str(&mut out, ",\"status\":\"");
    push_str(&mut out, status_str(observation.status));
    push_str(&mut out, "\",\"id\":\"");
    let id = json_escape(observation.id.as_str());
    push_str(&mut out, id.as_str());
    push_str(&mut out, "\"}");
    out
}

/// The text of a history file: each observation's line, and a line break
/// after each.
pub open spec fn history_text(os: Seq<ObservationView>) -> Seq<char>
    decreases os.len(),
{
    if os.len() == 0 {
        Seq::empty()
    } else {
        line_of(os[0]) + seq!['\n'] + history_text(os.drop_first())
    }
}

/// The views of a list of observations.
pub open spec fn observations_view(os: Seq<Observation>) -> Seq<ObservationView> {
    os.map_values(|o: Observation| observation_view(o))
}

/// What appending observations adds to the history file: each one's line,
/// and a line break after each.
pub fn append_text(observations: &[Observation]) -> (text: String)
    ensures
        text@ == history_text(observations_view(observations@)),
{
    let ghost vs = observations_view(observations@);
    let mut text = String::new();
    let mut i: usize = 0;
    assert(vs.skip(0) =~= vs);
    while i < observations.len()
        invariant
            i <= observations@.len(),
            vs == observations_view(observations@),
            history_text(vs) == text@ + history_text(vs.skip(i as int)),
        decreases observations.len() - i,
    {
        let line = to_line(&observations[i]);
        let ghost before = text@;
        push_str(&mut text, line.as_str());
        push_char(&mut text, '\n');
        assert(vs.skip(i as int).drop_first() =~= vs.skip(i + 1));
        assert(vs.skip(i as int)[0] == vs[i as int]);
        assert(history_text(vs.skip(i as int)) == line_of(vs[i as int]) + seq!['\n'] + history_text(vs.skip(i + 1)));
        assert(text@ =~= before + line_of(vs[i as int]) + seq!['\n']);
        i += 1;
        assert(history_text(vs) =~= text@ + history_text(vs.skip(i as int)));
    }
    assert(vs.skip(i as int) =~= Seq::<ObservationView>::empty());
    assert(history_text(vs) =~= text@);
    text
}

/// The first position at or after `i` where `m` occurs in `s`.
pub open spec fn find_from(s: Seq<char>, m: Seq<char>, i: int) -> Option<int>
    decreases s.len() + 1 - i,
{
    if i < 0 || i + m.len() > s.len() {
        None
    } else if s.subrange(i, i + m.len()) == m {
        Some(i)
    } else {
        find_from(s, m, i + 1)
    }
}

/// The marker `"key":` a value follows.
pub open spec fn marker(key: Seq<char>) -> Seq<char> {
    seq!['"'] + key + seq!['"', ':']
}

/// What follows the first `"key":` of a line.
pub open spec fn value_after(line: Seq<char>, key: Seq<char>) -> Option<Seq<char>> {
    match find_from(line, marker(key), 0) {
        Some(i) => Some(line.skip(i + marker(key).len())),
        None => None,
    }
}

/// The number a text starts with, when it starts with a digit and its
/// digits fit a `u64`.
pub open spec fn leading_u64(rest: Seq<char>) -> Option<u64> {
    let d = rest.take(digit_run(rest) as int);
    if d.len() == 0 || digits_value(d) > u64::MAX {
        None
    } else {
        Some(digits_value(d) as u64)
    }
}

/// The number a value starts with, when its digits fit a `u64`.
pub open spec fn u64_value(line: Seq<char>, key: Seq<char>) -> Option<u64> {
    match value_after(line, key) {
        None => None,
        Some(rest) => leading_u64(rest),
    }
}

/// A value that is `true`, `false` or `null`; `None` when it is none of them.
pub open spec fn bool_value(line: Seq<char>, key: Seq<char>) -> Option<Option<bool>> {
    match value_after(line, key) {
        None => None,
        Some(rest) => if starts_with(rest, "true"@) {
            Some(Some(true))
        } else if starts_with(rest, "false"@) {
            Some(Some(false))
        } else if starts_with(rest, "null"@) {
            Some(None)
        } else {
            None
        },
    }
}

/// The value of a hexadecimal digit.
pub open spec fn hex_value(c: char) -> Option<nat> {
    if '0' <= c && c <= '9' {
        Some(((c as u32) - ('0' as u32)) as nat)
    } else if 'a' <= c && c <= 'f' {
        Some(((c as u32) - ('a' as u32) + 10) as nat)
    } else if 'A' <= c && c <= 'F' {
        Some(((c as u32) - ('A' as u32) + 10) as nat)
    } else {
        None
    }
}

/// The value of hexadecimal digits.
pub open spec fn hex_digits(s: Seq<char>) -> Option<nat>
    decreases s.len(),
{
    if s.len() == 0 {
        Some(0)
    } else {
        match (hex_digits(s.drop_last()), hex_value(s.last())) {
            (Some(a), Some(b)) => Some(a * 16 + b),
            _ => None,
        }
    }
}

/// The code a `\u` escape's four characters give (`u32::from_str_radix`
/// with radix 16, which also takes a leading `+`).
pub open spec fn hex4_value(h: Seq<char>) -> Option<nat> {
    if h.len() != 4 {
        None
    } else if h[0] == '+' {
        hex_digits(h.skip(1))
    } else {
        hex_digits(h)
    }
}

/// Whether a code is a character (not a surrogate, within Unicode).
pub open spec fn is_char_code(n: nat) -> bool {
    n < 0xD800 || (0xE000 <= n && n <= 0x10FFFF)
}

/// The text of a JSON string body up to its closing quote, escapes
/// resolved; `None` when it has no closing quote or a bad escape.
pub open spec fn unescape(s: Seq<char>) -> Option<Seq<char>>
    decreases s.len(),
{
    if s.len() == 0 {
        None
    } else if s[0] == '"' {
        Some(Seq::empty())
    } else if s[0] == '\\' {
        if s.len() < 2 {
            None
        } else {
            let e = s[1];
            let (c, used): (Option<char>, int) = if e == '"' {
                (Some('"'), 2)
            } else if e == '\\' {
                (Some('\\'), 2)
            } else if e == '/' {
                (Some('/'), 2)
            } else if e == 'n' {
                (Some('\n'), 2)
            } else if e == 'r' {
                (Some('\r'), 2)
            } else if e == 't' {
                (Some('\t'), 2)
            } else if e == 'u' && s.len() >= 6 {
                match hex4_value(s.subrange(2, 6)) {
                    Some(n) => if is_char_code(n) {
                        (Some(n as char), 6)
                    } else {
                        (None, 2)
                    },
                    None => (None, 2),
                }
            } else {
                (None, 2)
            };
            match c {
                Some(ch) => match unescape(s.skip(used)) {
                    Some(rest) => Some(seq![ch] + rest),
                    None => None,
                },
                None => None,
            }
        }
    } else {
        match unescape(s.skip(1)) {
            Some(rest) => Some(seq![s[0]] + rest),
            None => None,
        }
    }
}

/// A value that is a JSON string or `null`: `Some(None)` for `null`,
/// `None` when it is neither.
pub open spec fn string_value(line: Seq<char>, key: Seq<char>) -> Option<Option<Seq<char>>> {
    match value_after(line, key) {
        None => None,
        Some(rest) => if starts_with(rest, "null"@) {
            Some(None)
        } else if rest.len() > 0 && rest[0] == '"' {
            match unescape(rest.skip(1)) {
                Some(v) => Some(Some(v)),
                None => None,
            }
        } else {
            None
        },
    }
}

/// One history line read back: `None` when the line is unreadable. An
/// absent (or unreadable) `env` is an observation of an unknown
/// environment, as lines written before environments were recorded are.
pub open spec fn parse_line_spec(line: Seq<char>) -> Option<ObservationView> {
    match (u64_value(line, "at"@), string_value(line, "commit"@), bool_value(line, "dirty"@), string_value(
        line,
        "status"@,
    ), string_value(line, "id"@)) {
        (Some(at), Some(commit), Some(dirty), Some(Some(name)), Some(Some(id))) => match status_of_name(name) {
            Some(status) => Some(
                ObservationView {
                    id,
                    status,
                    commit,
                    dirty,
                    environment: match string_value(line, "env"@) {
                        Some(Some(e)) => Some(e),
                        _ => None,
                    },
                    at_epoch_secs: at,
                },
            ),
            None => None,
        },
        _ => None,
    }
}


/// Whether `m` occurs in `s` at `i`.
pub fn occurs_at(s: &Vec<char>, m: &Vec<char>, i: usize) -> (r: bool)
    requires
        i + m.len() <= s.len(),
    ensures
        r == (s@.subrange(i as int, i + m.len()) == m@),
{
    let mut k: usize = 0;
    while k < m.len()
        invariant
            k <= m.len(),
            i + m.len() <= s.len(),
            forall|j: int| 0 <= j < k ==> s@[i + j] == m@[j],
        decreases m.len() - k,
    {
        if s[i + k] != m[k] {
            assert(s@.subrange(i as int, i + m.len())[k as int] != m@[k as int]);
            return false;
        }
        k += 1;
    }
    assert(s@.subrange(i as int, i + m.len()) =~= m@);
    true
}

/// The first position where `m` occurs in `s` (see `find_from`).
pub fn find_first(s: &Vec<char>, m: &Vec<char>) -> (r: Option<usize>)
    ensures
        match r {
            Some(i) => find_from(s@, m@, 0) == Some(i as int) && i + m.len() <= s.len(),
            None => find_from(s@, m@, 0) is None,
        },
{
    let mut i: usize = 0;
    while i <= s.len()
        invariant
            find_from(s@, m@, 0) == find_from(s@, m@, i as int),
        decreases s.len() + 1 - i,
    {
        if m.len() > s.len() - i {
            return None;
        }
        if m.len() == 0 {
            assert(s@.subrange(i as int, i as int) =~= m@);
        }
        if occurs_at(s, m, i) {
            return Some(i);
        }
        assert(i < s.len());
        i += 1;
    }
    None
}

/// The characters of `"key":`.
fn marker_of(key: &str) -> (m: Vec<char>)
    ensures
        m@ == marker(key@),
{
    let mut m: Vec<char> = Vec::new();
    m.push('"');
    let k = chars_of(key);
    let mut i: usize = 0;
    while i < k.len()
        invariant
            i <= k.len(),
            m@ == seq!['"'] + k@.take(i as int),
        decreases k.len() - i,
    {
        m.push(k[i]);
        assert(m@ =~= seq!['"'] + k@.take(i + 1));
        i += 1;
    }
    m.push('"');
    m.push(':');
    assert(m@ =~= marker(key@));
    m
}

/// Where the value after the first `"key":` of a line starts.
fn value_start(line: &Vec<char>, key: &str) -> (r: Option<usize>)
    ensures
        match r {
            Some(p) => value_after(line@, key@) == Some(line@.skip(p as int)) && p <= line.len(),
            None => value_after(line@, key@) is None,
        },
{
    let m = marker_of(key);
    match find_first(line, &m) {
        Some(i) => Some(i + m.len()),
        None => None,
    }
}

/// Whether `lit` starts `line[p..]`.
pub fn starts_at(line: &Vec<char>, p: usize, lit: &str) -> (r: bool)
    requires
        p <= line.len(),
    ensures
        r == starts_with(line@.skip(p as int), lit@),
{
    let l = chars_of(lit);
    if l.len() > line.len() - p {
        return false;
    }
    let r = occurs_at(line, &l, p);
    assert(line@.skip(p as int).take(l@.len() as int) =~= line@.subrange(p as int, p + l.len()));
    r
}

/// The number `line[p..]` starts with (see `leading_u64`).
pub fn leading_u64_at(line: &Vec<char>, p: usize) -> (r: Option<u64>)
    requires
        p <= line.len(),
    ensures
        r == leading_u64(line@.skip(p as int)),
{
    let run = digit_run_at(line, p);
    let ghost rest = line@.skip(p as int);
    let ghost d = rest.take(run as int);
    assert(d =~= line@.subrange(p as int, p + run));
    if run == 0 {
        return None;
    }
    let mut v: u64 = 0;
    let mut i: usize = p;
    while i < p + run
        invariant
            p <= i <= p + run <= line.len(),
            forall|j: int| p <= j < p + run ==> is_digit(#[trigger] line@[j]),
            v == digits_value(line@.subrange(p as int, i as int)),
            d == line@.subrange(p as int, p + run),
            rest == line@.skip(p as int),
            d == rest.take(run as int),
            run > 0,
            digit_run(rest) == run,
        decreases p + run - i,
    {
        let ghost pre = line@.subrange(p as int, i + 1);
        assert(pre.drop_last() =~= line@.subrange(p as int, i as int));
        assert(pre.last() == line@[i as int]);
        let digit = (line[i] as u32 - '0' as u32) as u64;
        if v > (u64::MAX - digit) / 10 {
            proof {
                let rest2 = line@.subrange(i + 1, p + run);
                assert(d =~= pre + rest2);
                crate::decimal::lemma_value_concat(pre, rest2);
                crate::decimal::lemma_pow10_positive(rest2.len());
                assert(digits_value(pre) == v * 10 + digit);
                assert(v * 10 + digit > u64::MAX) by (nonlinear_arith)
                    requires
                        v > (u64::MAX - digit) / 10,
                        digit <= 9,
                ;
                assert(digits_value(pre) * pow10(rest2.len()) >= digits_value(pre)) by (nonlinear_arith)
                    requires
                        pow10(rest2.len()) >= 1,
                ;
            }
            return None;
        }
        v = v * 10 + digit;
        i += 1;
    }
    Some(v)
}

/// The number the value after `"key":` starts with (see `u64_value`).
fn extract_u64(line: &Vec<char>, key: &str) -> (r: Option<u64>)
    ensures
        r == u64_value(line@, key@),
{
    match value_start(line, key) {
        Some(p) => leading_u64_at(line, p),
        None => None,
    }
}

/// The `true`, `false` or `null` after `"key":` (see `bool_value`).
fn extract_bool_or_null(line: &Vec<char>, key: &str) -> (r: Option<Option<bool>>)
    ensures
        r == bool_value(line@, key@),
{
    let p = match value_start(line, key) {
        Some(p) => p,
        None => {
            return None;
        },
    };
    if starts_at(line, p, "true") {
        Some(Some(true))
    } else if starts_at(line, p, "false") {
        Some(Some(false))
    } else if starts_at(line, p, "null") {
        Some(None)
    } else {
        None
    }
}

/// The value of a hexadecimal digit.
fn hex_value_of(c: char) -> (r: Option<u32>)
    ensures
        match r {
            Some(v) => hex_value(c) == Some(v as nat) && v < 16,
            None => hex_value(c) is None,
        },
{
    if '0' <= c && c <= '9' {
        Some(c as u32 - '0' as u32)
    } else if 'a' <= c && c <= 'f' {
        Some(c as u32 - 'a' as u32 + 10)
    } else if 'A' <= c && c <= 'F' {
        Some(c as u32 - 'A' as u32 + 10)
    } else {
        None
    }
}

/// The code of the four characters of a `\u` escape at `line[i..i + 4]`.
fn hex4_at(line: &Vec<char>, i: usize) -> (r: Option<u32>)
    requires
        i + 4 <= line.len(),
    ensures
        match r {
            Some(v) => hex4_value(line@.subrange(i as int, i + 4)) == Some(v as nat),
            None => hex4_value(line@.subrange(i as int, i + 4)) is None,
        },
{
    let ghost h = line@.subrange(i as int, i + 4);
    let start: usize = if line[i] == '+' { i + 1 } else { i };
    assert(h[0] == line@[i as int]);
    let ghost digits = line@.subrange(start as int, i + 4);
    assert(digits == if h[0] == '+' { h.skip(1) } else { h });
    assert(hex4_value(h) == hex_digits(digits));
    assert(line@.subrange(start as int, start as int) =~= Seq::<char>::empty());
    let mut v: u32 = 0;
    let mut k: usize = start;
    while k < i + 4
        invariant
            start <= k <= i + 4 <= line.len(),
            i <= start <= i + 1,
            digits == line@.subrange(start as int, i + 4),
            hex4_value(h) == hex_digits(digits),
            h == line@.subrange(i as int, i + 4),
            hex_digits(line@.subrange(start as int, k as int)) == Some(v as nat),
            v < 0x10000u32,
            k - start <= 3 ==> v < 0x1000u32,
            k - start <= 2 ==> v < 0x100u32,
            k - start <= 1 ==> v < 0x10u32,
            k - start == 0 ==> v == 0,
        decreases i + 4 - k,
    {
        let ghost pre = line@.subrange(start as int, k + 1);
        assert(pre.drop_last() =~= line@.subrange(start as int, k as int));
        assert(pre.last() == line@[k as int]);
        match hex_value_of(line[k]) {
            Some(d) => {
                v = v * 16 + d;
            },
            None => {
                proof {
                    let post = line@.subrange(k + 1, i + 4);
                    assert(hex_value(pre.last()) is None);
                    assert(hex_digits(pre) is None);
                    assert(digits =~= pre + post);
                    lemma_hex_digits_prefix(pre, post);
                    assert(hex4_value(h) is None);
                }
                return None;
            },
        }
        k += 1;
    }
    Some(v)
}

/// Digits that do not read as hexadecimal spoil every longer string.
proof fn lemma_hex_digits_prefix(a: Seq<char>, b: Seq<char>)
    requires
        hex_digits(a) is None,
    ensures
        hex_digits(a + b) is None,
    decreases b.len(),
{
    if b.len() == 0 {
        assert(a + b =~= a);
    } else {
        lemma_hex_digits_prefix(a, b.drop_last());
        assert((a + b).drop_last() =~= a + b.drop_last());
    }
}

/// The JSON string body at `line[p..]`, escapes resolved (see `unescape`).
fn unescape_at(line: &Vec<char>, p: usize) -> (r: Option<String>)
    requires
        p <= line.len(),
    ensures
        opt_view(r) == unescape(line@.skip(p as int)),
{
    let mut value = String::new();
    let mut i: usize = p;
    while i < line.len()
        invariant
            p <= i <= line.len(),
            unescape(line@.skip(p as int)) == match unescape(line@.skip(i as int)) {
                Some(rest) => Some(value@ + rest),
                None => None,
            },
        decreases line.len() - i,
    {
        let ghost s = line@.skip(i as int);
        assert(s[0] == line@[i as int]);
        let c = line[i];
        if c == '"' {
            assert(value@ + Seq::<char>::empty() =~= value@);
            return Some(value);
        }
        if c == '\\' {
            if i + 1 >= line.len() {
                return None;
            }
            assert(s[1] == line@[i + 1]);
            let e = line[i + 1];
            let mut used: usize = 2;
            let decoded: Option<char> = if e == '"' {
                Some('"')
            } else if e == '\\' {
                Some('\\')
            } else if e == '/' {
                Some('/')
            } else if e == 'n' {
                Some('\n')
            } else if e == 'r' {
                Some('\r')
            } else if e == 't' {
                Some('\t')
            } else if e == 'u' && line.len() - i >= 6 {
                assert(s.subrange(2, 6) =~= line@.subrange(i + 2, i + 6));
                match hex4_at(line, i + 2) {
                    Some(n) => {
                        if n < 0xD800 || (0xE000 <= n && n <= 0x10FFFF) {
                            used = 6;
                            char_of_code(n)
                        } else {
                            None
                        }
                    },
                    None => None,
                }
            } else {
                None
            };
            match decoded {
                Some(ch) => {
                    let ghost before = value@;
                    push_char(&mut value, ch);
                    assert(s.skip(used as int) =~= line@.skip(i + used));
                    proof {
                        match unescape(line@.skip(i + used)) {
                            Some(rest) => {
                                assert(value@ + rest =~= before + (seq![ch] + rest));
                            },
                            None => {},
                        }
                    }
                    i += used;
                },
                None => {
                    return None;
                },
            }
        } else {
            let ghost before = value@;
            push_char(&mut value, c);
            assert(s.skip(1) =~= line@.skip(i + 1));
            proof {
                match unescape(line@.skip(i + 1)) {
                    Some(rest) => {
                        assert(value@ + rest =~= before + (seq![c] + rest));
                    },
                    None => {},
                }
            }
            i += 1;
        }
    }
    None
}

/// The character of a code (`char::from_u32`), which is documented to be
/// `None` exactly for surrogates and codes beyond Unicode.
#[verifier::external_body]
fn char_of_code(n: u32) -> (c: Option<char>)
    ensures
        is_char_code(n as nat) ==> c == Some(n as char),
        !is_char_code(n as nat) ==> c is None,
{
    char::from_u32(n)
}

/// The JSON string or `null` after `"key":` (see `string_value`).
fn extract_string_or_null(line: &Vec<char>, key: &str) -> (r: Option<Option<String>>)
    ensures
        match r {
            Some(v) => string_value(line@, key@) == Some(opt_view(v)),
            None => string_value(line@, key@) is None,
        },
{
    let p = match value_start(line, key) {
        Some(p) => p,
        None => {
            return None;
        },
    };
    if starts_at(line, p, "null") {
        return Some(None);
    }
    if p < line.len() && line[p] == '"' {
        assert(line@.skip(p as int)[0] == line@[p as int]);
        assert(line@.skip(p as int).skip(1) =~= line@.skip(p + 1));
        match unescape_at(line, p + 1) {
            Some(v) => Some(Some(v)),
            None => None,
        }
    } else {
        proof {
            if p < line.len() {
                assert(line@.skip(p as int)[0] == line@[p as int]);
            }
        }
        None
    }
}

/// One history line read back (see `parse_line_spec`).
pub fn parse_line(line: &str) -> (r: Option<Observation>)
    ensures
        match r {
            Some(o) => parse_line_spec(line@) == Some(observation_view(o)),
            None => parse_line_spec(line@) is None,
        },
{
    let l = chars_of(line);
    let at_epoch_secs = match extract_u64(&l, "at") {
        Some(v) => v,
        None => {
            return None;
        },
    };
    let commit = match extract_string_or_null(&l, "commit") {
        Some(v) => v,
        None => {
            return None;
        },
    };
    let dirty = match extract_bool_or_null(&l, "dirty") {
        Some(v) => v,
        None => {
            return None;
        },
    };
    let status = match extract_string_or_null(&l, "status") {
        Some(Some(name)) => match status_from_str(name.as_str()) {
            Some(s) => s,
            None => {
                return None;
            },
        },
        _ => {
            return None;
        },
    };
    let id = match extract_string_or_null(&l, "id") {
        Some(Some(v)) => v,
        _ => {
            return None;
        },
    };
    let environment = match extract_string_or_null(&l, "env") {
        Some(Some(e)) => Some(e),
        _ => None,
    };
    Some(Observation { id, status, commit, dirty, environment, at_epoch_secs })
}


/// A line without its carriage return.
pub open spec fn strip_cr(l: Seq<char>) -> Seq<char> {
    if l.len() > 0 && l.last() == '\r' {
        l.drop_last()
    } else {
        l
    }
}

/// The lines of a text as `str::lines` gives them: split at each line
/// feed, a carriage return before it dropped; a last line without a line
/// feed is kept whole, and an empty one is no line.
pub open spec fn split_lines(t: Seq<char>) -> Seq<Seq<char>>
    decreases t.len(),
{
    if t.len() == 0 {
        Seq::empty()
    } else {
        match find_from(t, seq!['\n'], 0) {
            Some(k) => if 0 <= k < t.len() {
                seq![strip_cr(t.take(k))] + split_lines(t.skip(k + 1))
            } else {
                Seq::empty()
            },
            None => seq![t],
        }
    }
}

/// The observations lines hold and how many non-blank lines were
/// unreadable.
pub open spec fn read_lines(ls: Seq<Seq<char>>) -> (Seq<ObservationView>, nat)
    decreases ls.len(),
{
    if ls.len() == 0 {
        (Seq::empty(), 0)
    } else {
        let rest = read_lines(ls.drop_first());
        let l = ls[0];
        if trim(l).len() == 0 {
            rest
        } else {
            match parse_line_spec(l) {
                Some(o) => (seq![o] + rest.0, rest.1),
                None => (rest.0, rest.1 + 1),
            }
        }
    }
}

/// What a history text holds. When the text is the tail of a longer file,
/// its first line is cut and dropped: that is truncation, not corruption.
pub open spec fn history_of(text: Seq<char>, truncated: bool) -> (Seq<ObservationView>, nat) {
    let body = if truncated {
        match find_from(text, seq!['\n'], 0) {
            Some(k) => text.skip(k + 1),
            None => Seq::empty(),
        }
    } else {
        text
    };
    read_lines(split_lines(body))
}

/// Whether `t` is all whitespace.
fn blank(t: &Vec<char>, from: usize, to: usize) -> (r: bool)
    requires
        from <= to <= t.len(),
    ensures
        r == (trim(t@.subrange(from as int, to as int)).len() == 0),
{
    let mut piece: Vec<char> = Vec::new();
    let mut i: usize = from;
    while i < to
        invariant
            from <= i <= to <= t.len(),
            piece@ == t@.subrange(from as int, i as int),
        decreases to - i,
    {
        piece.push(t[i]);
        assert(piece@ =~= t@.subrange(from as int, i + 1));
        i += 1;
    }
    let (lo, hi) = trim_bounds(&piece);
    lo == hi
}

/// The characters `t[from..to]` as a string.
pub fn string_between(t: &Vec<char>, from: usize, to: usize) -> (s: String)
    requires
        from <= to <= t.len(),
    ensures
        s@ == t@.subrange(from as int, to as int),
{
    let mut s = String::new();
    let mut i: usize = from;
    while i < to
        invariant
            from <= i <= to <= t.len(),
            s@ == t@.subrange(from as int, i as int),
        decreases to - i,
    {
        push_char(&mut s, t[i]);
        assert(s@ =~= t@.subrange(from as int, i + 1));
        i += 1;
    }
    s
}

/// The first line feed at or after `from`.
pub fn next_newline(t: &Vec<char>, from: usize) -> (r: Option<usize>)
    requires
        from <= t.len(),
    ensures
        match r {
            Some(k) => find_from(t@.skip(from as int), seq!['\n'], 0) == Some(k - from) && from <= k < t.len(),
            None => find_from(t@.skip(from as int), seq!['\n'], 0) is None,
        },
{
    let ghost u = t@.skip(from as int);
    let mut k: usize = from;
    while k < t.len()
        invariant
            from <= k <= t.len(),
            u == t@.skip(from as int),
            find_from(u, seq!['\n'], 0) == find_from(u, seq!['\n'], k - from),
        decreases t.len() - k,
    {
        assert(u.subrange(k - from, k - from + 1) =~= seq![t@[k as int]]);
        if t[k] == '\n' {
            return Some(k);
        }
        assert(u.subrange(k - from, k - from + 1)[0] != seq!['\n'][0]);
        k += 1;
    }
    None
}

/// The lines of a text (see `split_lines`).
pub fn lines_of(text: &str) -> (lines: Vec<String>)
    ensures
        lines@.map_values(|s: String| s@) == split_lines(text@),
{
    let all = chars_of(text);
    let mut lines: Vec<String> = Vec::new();
    let mut pos: usize = 0;
    assert(all@.skip(0) =~= all@);
    while pos < all.len()
        invariant
            pos <= all.len(),
            all@ == text@,
            split_lines(all@) == lines@.map_values(|s: String| s@) + split_lines(all@.skip(pos as int)),
        decreases all.len() - pos,
    {
        let ghost u = all@.skip(pos as int);
        let (end, next) = match next_newline(&all, pos) {
            Some(k) => (k, k + 1),
            None => (all.len(), all.len()),
        };
        let line_end: usize = if next > end && end > pos && all[end - 1] == '\r' {
            end - 1
        } else {
            end
        };
        let raw = string_between(&all, pos, line_end);
        proof {
            if next > end {
                assert(u.take(end - pos) =~= all@.subrange(pos as int, end as int));
                assert(u.skip(end - pos + 1) =~= all@.skip(next as int));
                assert(raw@ == strip_cr(u.take(end - pos)));
                assert(split_lines(u) == seq![raw@] + split_lines(all@.skip(next as int)));
            } else {
                assert(u =~= raw@);
                assert(all@.skip(next as int).len() == 0);
                assert(split_lines(all@.skip(next as int)) =~= Seq::<Seq<char>>::empty());
                assert(split_lines(u) =~= seq![raw@] + split_lines(all@.skip(next as int)));
            }
        }
        let ghost prev = lines@.map_values(|s: String| s@);
        let ghost fresh = raw@;
        lines.push(raw);
        assert(lines@.map_values(|s: String| s@) =~= prev.push(fresh));
        pos = next;
        assert(split_lines(all@) =~= lines@.map_values(|s: String| s@) + split_lines(all@.skip(pos as int)));
    }
    assert(all@.skip(pos as int).len() == 0);
    assert(split_lines(all@.skip(pos as int)) =~= Seq::<Seq<char>>::empty());
    assert(lines@.map_values(|s: String| s@) =~= split_lines(text@));
    lines
}

/// Reads a history text: one observation per readable line, a count of the
/// unreadable ones (blank lines are neither). When the text is the tail of
/// a longer file, its cut first line is dropped silently.
pub fn load_text(text: &str, truncated: bool) -> (loaded: Loaded)
    ensures
        loaded.observations@.map_values(|o: Observation| observation_view(o)) == history_of(text@, truncated).0,
        loaded.skipped_lines == history_of(text@, truncated).1,
{
    let t = chars_of(text);
    let mut pos: usize = 0;
    if truncated {
        assert(t@.skip(0) =~= t@);
        match next_newline(&t, 0) {
            Some(k) => {
                pos = k + 1;
            },
            None => {
                pos = t.len();
            },
        }
    }
    let ghost body = t@.skip(pos as int);
    assert(body == if truncated {
        match find_from(t@, seq!['\n'], 0) {
            Some(k) => t@.skip(k + 1),
            None => Seq::<char>::empty(),
        }
    } else {
        t@
    });
    let ghost total = read_lines(split_lines(body));
    let mut observations: Vec<Observation> = Vec::new();
    let mut skipped: usize = 0;
    while pos < t.len()
        invariant
            pos <= t.len(),
            total == read_lines(split_lines(body)),
            total.0 == observations@.map_values(|o: Observation| observation_view(o)) + read_lines(
                split_lines(t@.skip(pos as int)),
            ).0,
            total.1 == skipped + read_lines(split_lines(t@.skip(pos as int))).1,
            skipped <= pos,
        decreases t.len() - pos,
    {
        let ghost u = t@.skip(pos as int);
        let (end, next) = match next_newline(&t, pos) {
            Some(k) => (k, k + 1),
            None => (t.len(), t.len()),
        };
        // the line, without a carriage return before its line feed
        let line_end: usize = if next > end && end > pos && t[end - 1] == '\r' { end - 1 } else { end };
        let ghost line = t@.subrange(pos as int, line_end as int);
        proof {
            assert(u.len() > 0);
            if next > end {
                assert(u.take(end - pos) =~= t@.subrange(pos as int, end as int));
                assert(u.skip(end - pos + 1) =~= t@.skip(next as int));
                assert(line == strip_cr(u.take(end - pos)));
                assert(split_lines(u) == seq![line] + split_lines(t@.skip(next as int)));
            } else {
                assert(u =~= line);
                assert(t@.skip(next as int).len() == 0);
                assert(split_lines(t@.skip(next as int)) =~= Seq::<Seq<char>>::empty());
                assert(split_lines(u) =~= seq![line] + split_lines(t@.skip(next as int)));
            }
            assert((seq![line] + split_lines(t@.skip(next as int))).drop_first() =~= split_lines(t@.skip(next as int)));
        }
        let ghost later = read_lines(split_lines(t@.skip(next as int)));
        let ghost before = observations@.map_values(|o: Observation| observation_view(o));
        if !blank(&t, pos, line_end) {
            let line_text = string_between(&t, pos, line_end);
            match parse_line(line_text.as_str()) {
                Some(o) => {
                    observations.push(o);
                    proof {
                        assert(observations@.map_values(|o: Observation| observation_view(o)) =~= before.push(
                            observation_view(o),
                        ));
                        assert(before.push(observation_view(o)) + later.0 =~= before + (seq![observation_view(o)]
                            + later.0));
                    }
                },
                None => {
                    skipped += 1;
                },
            }
        }
        pos = next;
    }
    assert(split_lines(t@.skip(pos as int)) =~= Seq::<Seq<char>>::empty());
    assert(observations@.map_values(|o: Observation| observation_view(o)) + Seq::<ObservationView>::empty()
        =~= observations@.map_values(|o: Observation| observation_view(o)));
    Loaded { observations, skipped_lines: skipped }
}

/// The word a line starts with, after any leading whitespace.
pub open spec fn first_word(s: Seq<char>) -> Seq<char>
    decreases s.len(),
{
    if s.len() == 0 {
        s
    } else if crate::decimal::is_space(s[0]) {
        first_word(s.drop_first())
    } else {
        word_from(s)
    }
}

/// The characters up to the first whitespace.
pub open spec fn word_from(s: Seq<char>) -> Seq<char>
    decreases s.len(),
{
    if s.len() == 0 || crate::decimal::is_space(s[0]) {
        Seq::empty()
    } else {
        seq![s[0]] + word_from(s.drop_first())
    }
}

/// A word read as a hexadecimal number (`u64::from_str_radix` with radix
/// 16, which takes a leading `+`): `None` when it holds no digit or a
/// character that is not one.
pub open spec fn hex_word(w: Seq<char>) -> Option<nat> {
    let digits = if w.len() > 0 && w[0] == '+' {
        w.skip(1)
    } else {
        w
    };
    if digits.len() == 0 {
        None
    } else {
        hex_digits(digits)
    }
}

/// The hash an import-ledger line records: its first word in hexadecimal,
/// when that fits a `u64`.
pub open spec fn ledger_hash_spec(line: Seq<char>) -> Option<u64> {
    match hex_word(first_word(line)) {
        Some(v) => if v <= u64::MAX {
            Some(v as u64)
        } else {
            None
        },
        None => None,
    }
}

/// Once the digits read so far exceed a bound, more digits never bring the
/// value back under it.
proof fn lemma_hex_digits_grow(s: Seq<char>, k: int)
    requires
        0 <= k <= s.len(),
        hex_digits(s.take(k)) matches Some(v) && v > u64::MAX,
    ensures
        hex_digits(s) matches Some(w) ==> w > u64::MAX,
    decreases s.len() - k,
{
    if k < s.len() {
        let t = s.take(k + 1);
        assert(t.drop_last() =~= s.take(k));
        if hex_digits(s.take(k + 1)) is None {
            lemma_hex_digits_none(s, k + 1);
        } else {
            lemma_hex_digits_grow(s, k + 1);
        }
    } else {
        assert(s.take(k) =~= s);
    }
}

/// A prefix with a non-digit spoils the whole.
proof fn lemma_hex_digits_none(s: Seq<char>, k: int)
    requires
        0 <= k <= s.len(),
        hex_digits(s.take(k)) is None,
    ensures
        hex_digits(s) is None,
    decreases s.len() - k,
{
    if k < s.len() {
        assert(s.take(k + 1).drop_last() =~= s.take(k));
        lemma_hex_digits_none(s, k + 1);
    } else {
        assert(s.take(k) =~= s);
    }
}

/// The hash an import-ledger line records, if it records one.
pub fn ledger_hash(line: &str) -> (r: Option<u64>)
    ensures
        r == ledger_hash_spec(line@),
{
    let cs = chars_of(line);
    let mut i: usize = 0;
    assert(cs@.skip(0) =~= cs@);
    while i < cs.len() && crate::decimal::is_whitespace(cs[i])
        invariant
            i <= cs@.len(),
            cs@ == line@,
            first_word(line@) == first_word(cs@.skip(i as int)),
        decreases cs.len() - i,
    {
        assert(cs@.skip(i as int).drop_first() =~= cs@.skip(i + 1));
        i += 1;
    }
    let mut end: usize = i;
    while end < cs.len() && !crate::decimal::is_whitespace(cs[end])
        invariant
            i <= end <= cs@.len(),
            word_from(cs@.skip(i as int)) == cs@.subrange(i as int, end as int) + word_from(cs@.skip(end as int)),
        decreases cs.len() - end,
    {
        assert(cs@.skip(end as int).drop_first() =~= cs@.skip(end + 1));
        assert(cs@.subrange(i as int, end + 1) =~= cs@.subrange(i as int, end as int) + seq![cs@[end as int]]);
        end += 1;
    }
    assert(word_from(cs@.skip(end as int)) =~= Seq::<char>::empty());
    let ghost w = cs@.subrange(i as int, end as int);
    assert(first_word(line@) == w) by {
        if i == cs.len() {
            assert(cs@.skip(i as int).len() == 0);
        }
    }
    let mut start: usize = i;
    if start < end && cs[start] == '+' {
        start += 1;
    }
    let ghost digits = cs@.subrange(start as int, end as int);
    assert(digits =~= if w.len() > 0 && w[0] == '+' { w.skip(1) } else { w });
    if start == end {
        return None;
    }
    assert(ledger_hash_spec(line@) == match hex_digits(digits) {
        Some(v) => if v <= u64::MAX {
            Some(v as u64)
        } else {
            None
        },
        None => None,
    });
    let mut value: u64 = 0;
    let mut k: usize = start;
    while k < end
        invariant
            start <= k <= end <= cs@.len(),
            digits == cs@.subrange(start as int, end as int),
            hex_digits(digits.take(k - start)) == Some(value as nat),
            ledger_hash_spec(line@) == match hex_digits(digits) {
                Some(v) => if v <= u64::MAX {
                    Some(v as u64)
                } else {
                    None
                },
                None => None,
            },
        decreases end - k,
    {
        assert(digits.take(k - start + 1).drop_last() =~= digits.take(k - start));
        assert(digits.take(k - start + 1).last() == cs@[k as int]);
        match hex_value_of(cs[k]) {
            Some(d) => {
                if value > (u64::MAX - d as u64) / 16 {
                    proof {
                        assert(value as nat * 16 + d as nat > u64::MAX);
                        lemma_hex_digits_grow(digits, k - start + 1);
                    }
                    return None;
                }
                value = value * 16 + d as u64;
            },
            None => {
                proof {
                    lemma_hex_digits_none(digits, k - start + 1);
                }
                return None;
            },
        }
        k += 1;
    }
    assert(digits.take(k - start) =~= digits);
    Some(value)
}

/// The hashes an import ledger records, one per readable line.
pub open spec fn ledger_hashes_spec(lines: Seq<Seq<char>>) -> Seq<u64>
    decreases lines.len(),
{
    if lines.len() == 0 {
        Seq::empty()
    } else {
        ledger_hashes_spec(lines.drop_last()) + match ledger_hash_spec(lines.last()) {
            Some(h) => seq![h],
            None => Seq::<u64>::empty(),
        }
    }
}

/// The hashes of the files an import ledger says were imported; a line
/// that is not a ledger entry is skipped.
pub fn ledger_hashes(content: &str) -> (hashes: Vec<u64>)
    ensures
        hashes@ == ledger_hashes_spec(split_lines(content@)),
{
    let lines = lines_of(content);
    let ghost ls = lines@.map_values(|s: String| s@);
    let mut hashes: Vec<u64> = Vec::new();
    let mut i: usize = 0;
    while i < lines.len()
        invariant
            i <= lines@.len(),
            ls == lines@.map_values(|s: String| s@),
            hashes@ == ledger_hashes_spec(ls.take(i as int)),
        decreases lines.len() - i,
    {
        assert(ls.take(i + 1).drop_last() =~= ls.take(i as int));
        match ledger_hash(lines[i].as_str()) {
            Some(h) => hashes.push(h),
            None => {},
        }
        i += 1;
        assert(hashes@ =~= ledger_hashes_spec(ls.take(i as int)));
    }
    assert(ls.take(i as int) =~= ls);
    hashes
}

/// `n` as `width` lowercase hexadecimal digits (the lowest ones when it has
/// more).
pub open spec fn hex_fixed(n: nat, width: nat) -> Seq<char>
    decreases width,
{
    if width == 0 {
        Seq::empty()
    } else {
        hex_fixed(n / 16, (width - 1) as nat).push(crate::report::hex_digit(n % 16))
    }
}

/// Appends `n` as `width` lowercase hexadecimal digits.
fn push_hex_fixed(out: &mut String, n: u64, width: u32)
    ensures
        final(out)@ == old(out)@ + hex_fixed(n as nat, width as nat),
    decreases width,
{
    if width == 0 {
        assert(final(out)@ =~= old(out)@ + hex_fixed(n as nat, width as nat));
        return;
    }
    push_hex_fixed(out, n / 16, width - 1);
    push_char(out, crate::report::hex_digit_exec((n % 16) as u32));
    assert(final(out)@ =~= old(out)@ + hex_fixed(n as nat, width as nat));
}

/// One import-ledger line: the content hash as sixteen hexadecimal digits,
/// a space, and the file's name.
pub open spec fn ledger_line_spec(hash: u64, name: Seq<char>) -> Seq<char> {
    hex_fixed(hash as nat, 16) + " "@ + name
}

/// The ledger line recording an imported file.
pub fn ledger_line(hash: u64, name: &str) -> (line: String)
    ensures
        line@ == ledger_line_spec(hash, name@),
{
    let mut line = String::new();
    push_hex_fixed(&mut line, hash, 16);
    push_str(&mut line, " ");
    push_str(&mut line, name);
    assert(line@ =~= ledger_line_spec(hash, name@));
    line
}

/// The text of an import ledger: one line per imported file, its hash and
/// its name.
pub open spec fn ledger_text(entries: Seq<(u64, Seq<char>)>) -> Seq<char>
    decreases entries.len(),
{
    if entries.len() == 0 {
        Seq::empty()
    } else {
        ledger_line_spec(entries[0].0, entries[0].1) + seq!['\n'] + ledger_text(entries.drop_first())
    }
}

/// The views of ledger entries.
pub open spec fn entries_view(entries: Seq<(u64, String)>) -> Seq<(u64, Seq<char>)> {
    entries.map_values(|e: (u64, String)| (e.0, e.1@))
}

/// What recording imported files adds to the ledger: each one's line, and
/// a line break after each.
pub fn ledger_append_text(entries: &[(u64, String)]) -> (text: String)
    ensures
        text@ == ledger_text(entries_view(entries@)),
{
    let ghost es = entries_view(entries@);
    let mut text = String::new();
    let mut i: usize = 0;
    assert(es.skip(0) =~= es);
    while i < entries.len()
        invariant
            i <= entries@.len(),
            es == entries_view(entries@),
            ledger_text(es) == text@ + ledger_text(es.skip(i as int)),
        decreases entries.len() - i,
    {
        let line = ledger_line(entries[i].0, entries[i].1.as_str());
        let ghost before = text@;
        push_str(&mut text, line.as_str());
        push_char(&mut text, '\n');
        assert(es.skip(i as int).drop_first() =~= es.skip(i + 1));
        assert(es.skip(i as int)[0] == es[i as int]);
        assert(ledger_text(es.skip(i as int)) == ledger_line_spec(es[i as int].0, es[i as int].1) + seq!['\n']
            + ledger_text(es.skip(i + 1)));
        assert(text@ =~= before + ledger_line_spec(es[i as int].0, es[i as int].1) + seq!['\n']);
        i += 1;
        assert(ledger_text(es) =~= text@ + ledger_text(es.skip(i as int)));
    }
    assert(es.skip(i as int) =~= Seq::<(u64, Seq<char>)>::empty());
    assert(ledger_text(es) =~= text@);
    text
}

} // verus!
