//! Failures from a `PHPUnit` console log — the per-test identities a CI
//! keeps when no `JUnit` report was written.

use vstd::prelude::*;

use crate::decimal::is_digit;
use crate::history::{find_from, next_newline, split_lines, strip_cr};
use crate::junit::TestStatus;
use crate::text::{chars_of, starts_with, str_eq, string_of};

verus! {

/// The failures a log names, by id: each id once, in increasing order.
#[derive(Debug, PartialEq, Eq)]
pub struct Failures {
    entries: Vec<(String, TestStatus)>,
}

impl Failures {
    /// The entries, in increasing id order.
    pub closed spec fn entries(&self) -> Seq<(Seq<char>, TestStatus)> {
        self.entries@.map_values(|e: (String, TestStatus)| (e.0@, e.1))
    }

    /// The status recorded for `id`.
    pub fn get(&self, id: &str) -> (r: Option<&TestStatus>)
        ensures
            match r {
                Some(s) => exists|i: int| 0 <= i < self.entries().len() && #[trigger] self.entries()[i] == (id@, *s),
                None => forall|i: int| 0 <= i < self.entries().len() ==> (#[trigger] self.entries()[i]).0 != id@,
            },
    {
        let mut i: usize = 0;
        while i < self.entries.len()
            invariant
                i <= self.entries.len(),
                forall|j: int| 0 <= j < i ==> (#[trigger] self.entries()[j]).0 != id@,
            decreases self.entries.len() - i,
        {
            assert(self.entries()[i as int] == (self.entries@[i as int].0@, self.entries@[i as int].1));
            if str_eq(self.entries[i].0.as_str(), id) {
                return Some(&self.entries[i].1);
            }
            i += 1;
        }
        None
    }

    /// Whether `id` is named.
    pub fn contains_key(&self, id: &str) -> (r: bool)
        ensures
            r == exists|i: int| 0 <= i < self.entries().len() && (#[trigger] self.entries()[i]).0 == id@,
    {
        match self.get(id) {
            Some(_) => true,
            None => false,
        }
    }

    /// How many ids are named.
    pub fn len(&self) -> (n: usize)
        ensures
            n == self.entries().len(),
    {
        self.entries.len()
    }

    /// Whether nothing is named.
    pub fn is_empty(&self) -> (r: bool)
        ensures
            r == (self.entries().len() == 0),
    {
        self.entries.len() == 0
    }

    /// The entries as owned pairs, in increasing id order.
    pub fn to_vec(&self) -> (v: Vec<(String, TestStatus)>)
        ensures
            v@.map_values(|e: (String, TestStatus)| (e.0@, e.1)) == self.entries(),
    {
        let mut v: Vec<(String, TestStatus)> = Vec::new();
        let mut i: usize = 0;
        while i < self.entries.len()
            invariant
                i <= self.entries.len(),
                v@.map_values(|e: (String, TestStatus)| (e.0@, e.1)) == self.entries().take(i as int),
            decreases self.entries.len() - i,
        {
            let ghost before = v@.map_values(|e: (String, TestStatus)| (e.0@, e.1));
            v.push((crate::text::copy_string(&self.entries[i].0), self.entries[i].1));
            assert(v@.map_values(|e: (String, TestStatus)| (e.0@, e.1)) =~= before.push(self.entries()[i as int]));
            assert(self.entries().take(i + 1) =~= self.entries().take(i as int).push(self.entries()[i as int]));
            i += 1;
        }
        assert(self.entries().take(i as int) =~= self.entries());
        v
    }
}

/// What a console log yields. A log names only its failures; passes are
/// anonymous dots and can never become observations.
#[derive(Debug, PartialEq, Eq)]
pub struct ParsedLog {
    pub failures: Failures,
    /// The first ISO-8601 stamp found on a line, when the log carries them.
    pub at: Option<String>,
}

/// The part of a line after its last tab (the `gh run view --log` columns).
pub open spec fn after_tabs(s: Seq<char>) -> Seq<char>
    decreases s.len(),
{
    if s.len() == 0 {
        s
    } else if s.last() == '\t' {
        Seq::empty()
    } else {
        after_tabs(s.drop_last()).push(s.last())
    }
}

/// Whether a character is an ASCII letter.
pub open spec fn is_letter(c: char) -> bool {
    ('a' <= c && c <= 'z') || ('A' <= c && c <= 'Z')
}

/// `s` without ANSI escape sequences: an escape character and everything up
/// to and including the next ASCII letter are dropped.
pub open spec fn strip_ansi(s: Seq<char>) -> Seq<char>
    decreases s.len(),
{
    if s.len() == 0 {
        s
    } else if s[0] == '\u{1b}' {
        proof {
            lemma_skip_escape_shorter(s.drop_first());
        }
        strip_ansi(skip_escape(s.drop_first()))
    } else {
        seq![s[0]] + strip_ansi(s.drop_first())
    }
}

/// What follows an escape sequence's terminating letter (nothing when none
/// terminates it).
pub open spec fn skip_escape(s: Seq<char>) -> Seq<char>
    decreases s.len(),
{
    if s.len() == 0 {
        s
    } else if is_letter(s[0]) {
        s.drop_first()
    } else {
        skip_escape(s.drop_first())
    }
}

/// Skipping an escape sequence never lengthens the text.
pub proof fn lemma_skip_escape_shorter(s: Seq<char>)
    ensures
        skip_escape(s).len() <= s.len(),
    decreases s.len(),
{
    if s.len() > 0 && !is_letter(s[0]) {
        lemma_skip_escape_shorter(s.drop_first());
    }
}

/// `s` without trailing carriage returns.
pub open spec fn trim_cr(s: Seq<char>) -> Seq<char>
    decreases s.len(),
{
    if s.len() > 0 && s.last() == '\r' {
        trim_cr(s.drop_last())
    } else {
        s
    }
}

/// The number of bytes UTF-8 takes for `s`.
pub open spec fn utf8_len(s: Seq<char>) -> nat
    decreases s.len(),
{
    if s.len() == 0 {
        0
    } else {
        utf8_len(s.drop_last()) + if (s.last() as u32) < 0x80 {
            1nat
        } else if (s.last() as u32) < 0x800 {
            2nat
        } else if (s.last() as u32) < 0x10000 {
            3nat
        } else {
            4nat
        }
    }
}

/// Whether a token reads as an ISO-8601 stamp: four digits, a dash, a `T`
/// at position ten, at least nineteen bytes.
pub open spec fn is_stamp(t: Seq<char>) -> bool {
    utf8_len(t) >= 19 && t.len() >= 11 && (forall|i: int| 0 <= i <= 10 ==> (#[trigger] t[i] as u32) < 0x80)
        && is_digit(t[0]) && is_digit(t[1]) && is_digit(t[2]) && is_digit(t[3]) && t[4] == '-' && t[10] == 'T'
}

/// A line's leading stamp and the message after it, when it has one.
pub open spec fn leading_stamp(m: Seq<char>) -> Option<(Seq<char>, Seq<char>)> {
    match find_from(m, seq![' '], 0) {
        Some(k) => if is_stamp(m.take(k)) {
            Some((m.take(k), m.skip(k + 1)))
        } else {
            None
        },
        None => None,
    }
}

/// The message half of a log line: past the `gh` columns, ANSI, trailing
/// carriage returns and a leading timestamp.
pub open spec fn message_of(raw: Seq<char>) -> Seq<char> {
    let m = trim_cr(strip_ansi(after_tabs(raw)));
    match leading_stamp(m) {
        Some(p) => p.1,
        None => m,
    }
}

/// The stamp a log line carries, if any.
pub open spec fn stamp_of(raw: Seq<char>) -> Option<Seq<char>> {
    match leading_stamp(trim_cr(strip_ansi(after_tabs(raw)))) {
        Some(p) => Some(p.0),
        None => None,
    }
}

/// `s` without leading ASCII digits.
pub open spec fn skip_digits(s: Seq<char>) -> Seq<char> {
    s.skip(crate::decimal::digit_run(s) as int)
}

/// `s` without leading whitespace.
pub open spec fn skip_space(s: Seq<char>) -> Seq<char> {
    crate::decimal::trim_start(s)
}

/// What a listing header opens: `Some(Some(status))` for entries counted
/// under a status, `Some(None)` for entries that carry no run signal (risky
/// tests, warnings, deprecations); `None` when the line is no header.
pub open spec fn header_of(line: Seq<char>) -> Option<Option<TestStatus>> {
    let listed = if starts_with(line, "There was 1 "@) {
        Some(line.skip(12))
    } else if starts_with(line, "There were "@) {
        Some(line.skip(11))
    } else {
        None
    };
    match listed {
        None => None,
        Some(rest) => {
            let r = skip_space(skip_digits(rest));
            if !(r.len() > 0 && r.last() == ':') {
                None
            } else if starts_with(r, "failure"@) {
                Some(Some(TestStatus::Failed))
            } else if starts_with(r, "error"@) {
                Some(Some(TestStatus::Error))
            } else {
                Some(None)
            }
        },
    }
}

/// Whether `m` occurs in `s`.
pub open spec fn contains_seq(s: Seq<char>, m: Seq<char>) -> bool {
    find_from(s, m, 0) is Some
}

/// Whether a line is a `PHPUnit` summary.
pub open spec fn is_summary(line: Seq<char>) -> bool {
    starts_with(line, "OK ("@) || starts_with(line, "OK, but "@) || line == "FAILURES!"@ || line == "ERRORS!"@
        || line == "WARNINGS!"@ || (starts_with(line, "Tests: "@) && contains_seq(line, "Assertions: "@))
}

/// `s` with every backslash turned into a dot.
pub open spec fn dotted(s: Seq<char>) -> Seq<char> {
    s.map_values(|c: char| if c == '\\' { '.' } else { c })
}

/// `1) Fully\Qualified\ClassTest::method[ with data set "x"]` → the JUnit
/// identity: only the class half is dotted; the name half stays verbatim.
pub open spec fn numbered_identity(line: Seq<char>) -> Option<Seq<char>> {
    let d = crate::decimal::digit_run(line);
    let entry = line.skip(d as int);
    if d == 0 || !starts_with(entry, ") "@) {
        None
    } else {
        let e = entry.skip(2);
        match find_from(e, seq![':', ':'], 0) {
            Some(k) => {
                let class = e.take(k);
                if class.len() == 0 || class.contains(' ') {
                    None
                } else {
                    Some(dotted(class) + seq![':', ':'] + e.skip(k + 2))
                }
            },
            None => None,
        }
    }
}

/// What a log holds once its lines are read: the failures named in counted
/// listings (a later listing of an id wins), the first stamp, whether a
/// summary anchored it, and the listing being read.
pub struct LogState {
    pub failures: Map<Seq<char>, TestStatus>,
    pub at: Option<Seq<char>>,
    pub anchored: bool,
    pub block: Option<TestStatus>,
}

/// The state after one more line.
pub open spec fn read_line(st: LogState, raw: Seq<char>) -> LogState {
    let at = if st.at is Some {
        st.at
    } else {
        stamp_of(raw)
    };
    let line = message_of(raw);
    match header_of(line) {
        Some(listed) => LogState { at, block: listed, ..st },
        None => if is_summary(line) {
            LogState { at, anchored: true, block: None, ..st }
        } else {
            match (st.block, numbered_identity(line)) {
                (Some(status), Some(id)) => LogState { at, failures: st.failures.insert(id, status), ..st },
                _ => LogState { at, ..st },
            }
        },
    }
}

/// The state after a sequence of lines.
pub open spec fn read_log(lines: Seq<Seq<char>>) -> LogState
    decreases lines.len(),
{
    if lines.len() == 0 {
        LogState { failures: Map::empty(), at: None, anchored: false, block: None }
    } else {
        read_line(read_log(lines.drop_last()), lines.last())
    }
}


/// `t[from..to]` as its own vector.
fn slice_of(t: &Vec<char>, from: usize, to: usize) -> (r: Vec<char>)
    requires
        from <= to <= t.len(),
    ensures
        r@ == t@.subrange(from as int, to as int),
{
    let mut r: Vec<char> = Vec::new();
    let mut i: usize = from;
    while i < to
        invariant
            from <= i <= to <= t.len(),
            r@ == t@.subrange(from as int, i as int),
        decreases to - i,
    {
        r.push(t[i]);
        assert(r@ =~= t@.subrange(from as int, i + 1));
        i += 1;
    }
    r
}

/// The part of `raw` after its last tab.
fn after_last_tab(raw: &Vec<char>) -> (r: Vec<char>)
    ensures
        r@ == after_tabs(raw@),
{
    let mut i: usize = raw.len();
    assert(raw@.take(i as int) =~= raw@);
    assert(raw@.subrange(i as int, raw.len() as int) =~= Seq::<char>::empty());
    while i > 0 && raw[i - 1] != '\t'
        invariant
            i <= raw.len(),
            after_tabs(raw@) == after_tabs(raw@.take(i as int)) + raw@.subrange(i as int, raw.len() as int),
        decreases i,
    {
        let ghost t = raw@.take(i as int);
        assert(t.last() == raw@[i - 1]);
        assert(t.drop_last() =~= raw@.take(i - 1));
        assert(raw@.subrange(i - 1, raw.len() as int) =~= seq![raw@[i - 1]] + raw@.subrange(i as int, raw.len() as int));
        assert(after_tabs(t) == after_tabs(raw@.take(i - 1)).push(raw@[i - 1]));
        assert(after_tabs(raw@.take(i - 1)).push(raw@[i - 1]) + raw@.subrange(i as int, raw.len() as int) =~= after_tabs(
            raw@.take(i - 1),
        ) + raw@.subrange(i - 1, raw.len() as int));
        i -= 1;
    }
    proof {
        if i > 0 {
            assert(raw@.take(i as int).last() == raw@[i - 1]);
        }
        assert(after_tabs(raw@.take(i as int)) =~= Seq::<char>::empty());
        assert(Seq::<char>::empty() + raw@.subrange(i as int, raw.len() as int) =~= raw@.subrange(
            i as int,
            raw.len() as int,
        ));
    }
    slice_of(raw, i, raw.len())
}

/// Whether `c` is an ASCII letter.
fn letter(c: char) -> (r: bool)
    ensures
        r == is_letter(c),
{
    ('a' <= c && c <= 'z') || ('A' <= c && c <= 'Z')
}

/// `m` without ANSI escape sequences.
fn without_ansi(m: &Vec<char>) -> (r: Vec<char>)
    ensures
        r@ == strip_ansi(m@),
{
    let mut out: Vec<char> = Vec::new();
    let mut i: usize = 0;
    assert(m@.skip(0) =~= m@);
    while i < m.len()
        invariant
            i <= m.len(),
            strip_ansi(m@) == out@ + strip_ansi(m@.skip(i as int)),
        decreases m.len() - i,
    {
        let ghost u = m@.skip(i as int);
        assert(u[0] == m@[i as int]);
        assert(u.drop_first() =~= m@.skip(i + 1));
        if m[i] == '\u{1b}' {
            let mut j: usize = i + 1;
            while j < m.len() && !letter(m[j])
                invariant
                    i + 1 <= j <= m.len(),
                    skip_escape(m@.skip(i + 1)) == skip_escape(m@.skip(j as int)),
                decreases m.len() - j,
            {
                assert(m@.skip(j as int)[0] == m@[j as int]);
                assert(m@.skip(j as int).drop_first() =~= m@.skip(j + 1));
                j += 1;
            }
            if j < m.len() {
                assert(m@.skip(j as int)[0] == m@[j as int]);
                assert(m@.skip(j as int).drop_first() =~= m@.skip(j + 1));
                i = j + 1;
            } else {
                assert(m@.skip(j as int).len() == 0);
                assert(m@.skip(j as int) =~= m@.skip(m.len() as int));
                i = m.len();
            }
        } else {
            let ghost before = out@;
            out.push(m[i]);
            assert(before + strip_ansi(u) =~= out@ + strip_ansi(m@.skip(i + 1)));
            i += 1;
        }
    }
    assert(out@ + strip_ansi(m@.skip(i as int)) =~= out@);
    out
}

/// `m` without trailing carriage returns.
fn without_trailing_cr(m: &Vec<char>) -> (r: Vec<char>)
    ensures
        r@ == trim_cr(m@),
{
    let mut end: usize = m.len();
    assert(m@.take(end as int) =~= m@);
    while end > 0 && m[end - 1] == '\r'
        invariant
            end <= m.len(),
            trim_cr(m@) == trim_cr(m@.take(end as int)),
        decreases end,
    {
        assert(m@.take(end as int).last() == m@[end - 1]);
        assert(m@.take(end as int).drop_last() =~= m@.take(end - 1));
        end -= 1;
    }
    proof {
        if end > 0 {
            assert(m@.take(end as int).last() == m@[end - 1]);
        }
    }
    slice_of(m, 0, end)
}

/// The UTF-8 width of a character.
fn utf8_width(c: char) -> (w: usize)
    ensures
        w == (if (c as u32) < 0x80 { 1nat } else if (c as u32) < 0x800 { 2nat } else if (c as u32) < 0x10000 {
            3nat
        } else {
            4nat
        }),
{
    let v = c as u32;
    if v < 0x80 {
        1
    } else if v < 0x800 {
        2
    } else if v < 0x10000 {
        3
    } else {
        4
    }
}

/// Whether `t[..k]` reads as a stamp.
fn stamp_at(t: &Vec<char>, k: usize) -> (r: bool)
    requires
        k <= t.len(),
    ensures
        r == is_stamp(t@.take(k as int)),
{
    let ghost s = t@.take(k as int);
    let mut bytes: usize = 0;
    let mut i: usize = 0;
    while i < k && bytes < 19
        invariant
            i <= k <= t.len(),
            s == t@.take(k as int),
            bytes == utf8_len(s.take(i as int)),
            bytes <= 4 * i,
        decreases k - i,
    {
        assert(s.take(i + 1).drop_last() =~= s.take(i as int));
        assert(s.take(i + 1).last() == t@[i as int]);
        bytes = bytes + utf8_width(t[i]);
        i += 1;
    }
    proof {
        lemma_utf8_len_prefix(s, i as int);
    }
    if bytes < 19 {
        assert(s.take(i as int) =~= s);
        return false;
    }
    if k < 11 {
        return false;
    }
    let mut j: usize = 0;
    while j <= 10
        invariant
            j <= 11 <= k <= t.len(),
            s == t@.take(k as int),
            forall|q: int| 0 <= q < j ==> (#[trigger] s[q] as u32) < 0x80,
        decreases 11 - j,
    {
        if t[j] as u32 >= 0x80 {
            assert(s[j as int] == t@[j as int]);
            return false;
        }
        j += 1;
    }
    let d = |c: char| -> (b: bool)
        ensures
            b == is_digit(c),
        { '0' <= c && c <= '9' };
    d(t[0]) && d(t[1]) && d(t[2]) && d(t[3]) && t[4] == '-' && t[10] == 'T'
}

/// Longer texts take at least as many bytes.
proof fn lemma_utf8_len_prefix(s: Seq<char>, i: int)
    requires
        0 <= i <= s.len(),
    ensures
        utf8_len(s.take(i)) <= utf8_len(s),
    decreases s.len() - i,
{
    if i < s.len() {
        lemma_utf8_len_prefix(s, i + 1);
        assert(s.take(i + 1).drop_last() =~= s.take(i));
    } else {
        assert(s.take(i) =~= s);
    }
}

/// The message half of a raw line, and the stamp it carried.
fn clean(raw: &Vec<char>) -> (r: (Vec<char>, Option<Vec<char>>))
    ensures
        r.0@ == message_of(raw@),
        match r.1 {
            Some(v) => stamp_of(raw@) == Some(v@),
            None => stamp_of(raw@) is None,
        },
{
    let a = after_last_tab(raw);
    let b = without_ansi(&a);
    let m = without_trailing_cr(&b);
    let space = vec![' '];
    assert(space@ =~= seq![' ']);
    match crate::history::find_first(&m, &space) {
        Some(k) => {
            if stamp_at(&m, k) {
                let stamp = slice_of(&m, 0, k);
                let rest = slice_of(&m, k + 1, m.len());
                assert(rest@ =~= m@.skip(k + 1));
                assert(stamp@ =~= m@.take(k as int));
                (rest, Some(stamp))
            } else {
                (m, None)
            }
        },
        None => (m, None),
    }
}

/// Whether `lit` starts `v`.
fn starts(v: &Vec<char>, lit: &str) -> (r: bool)
    ensures
        r == starts_with(v@, lit@),
{
    let r = crate::history::starts_at(v, 0, lit);
    assert(v@.skip(0) =~= v@);
    r
}

/// What a listing header opens (see `header_of`).
fn block_header(line: &Vec<char>) -> (r: Option<Option<TestStatus>>)
    ensures
        r == header_of(line@),
{
    proof {
        reveal_strlit("There was 1 ");
        reveal_strlit("There were ");
    }
    let start: usize = if starts(line, "There was 1 ") {
        12
    } else if starts(line, "There were ") {
        11
    } else {
        return None;
    };
    let ghost rest = line@.skip(start as int);
    let run = crate::decimal::digit_run_at(line, start);
    let ghost after_digits = line@.skip(start + run);
    assert(skip_digits(rest) =~= after_digits);
    let mut p: usize = start + run;
    while p < line.len() && crate::decimal::is_whitespace(line[p])
        invariant
            start + run <= p <= line.len(),
            crate::decimal::trim_start(after_digits) == crate::decimal::trim_start(line@.skip(p as int)),
            after_digits == line@.skip(start + run),
        decreases line.len() - p,
    {
        assert(line@.skip(p as int)[0] == line@[p as int]);
        assert(line@.skip(p as int).drop_first() =~= line@.skip(p + 1));
        p += 1;
    }
    proof {
        if p < line.len() {
            assert(line@.skip(p as int)[0] == line@[p as int]);
        }
    }
    let r = slice_of(line, p, line.len());
    assert(r@ =~= line@.skip(p as int));
    if !(r.len() > 0 && r[r.len() - 1] == ':') {
        return None;
    }
    if starts(&r, "failure") {
        Some(Some(TestStatus::Failed))
    } else if starts(&r, "error") {
        Some(Some(TestStatus::Error))
    } else {
        Some(None)
    }
}

/// Whether the text equals `lit`.
fn equals(v: &Vec<char>, lit: &str) -> (r: bool)
    ensures
        r == (v@ == lit@),
{
    let l = chars_of(lit);
    crate::text::chars_eq(v.as_slice(), l.as_slice())
}

/// Whether a line is a `PHPUnit` summary (see `is_summary`).
fn summary_line(line: &Vec<char>) -> (r: bool)
    ensures
        r == is_summary(line@),
{
    if starts(line, "OK (") || starts(line, "OK, but ") || equals(line, "FAILURES!") || equals(line, "ERRORS!")
        || equals(line, "WARNINGS!") {
        return true;
    }
    if !starts(line, "Tests: ") {
        return false;
    }
    let m = chars_of("Assertions: ");
    match crate::history::find_first(line, &m) {
        Some(_) => true,
        None => false,
    }
}

/// Whether `e[..k]` holds a space.
fn has_space(e: &Vec<char>, k: usize) -> (r: bool)
    requires
        k <= e.len(),
    ensures
        r == e@.take(k as int).contains(' '),
{
    let mut i: usize = 0;
    while i < k
        invariant
            i <= k <= e.len(),
            forall|q: int| 0 <= q < i ==> e@[q] != ' ',
        decreases k - i,
    {
        if e[i] == ' ' {
            assert(e@.take(k as int)[i as int] == ' ');
            return true;
        }
        i += 1;
    }
    assert forall|q: int| 0 <= q < k implies e@.take(k as int)[q] != ' ' by {
        assert(e@.take(k as int)[q] == e@[q]);
    }
    false
}

/// `e[..k]` with backslashes turned into dots.
fn dotted_prefix(e: &Vec<char>, k: usize) -> (id: String)
    requires
        k <= e.len(),
    ensures
        id@ == dotted(e@.take(k as int)),
{
    let mut id = String::new();
    let mut i: usize = 0;
    while i < k
        invariant
            i <= k <= e.len(),
            id@ == dotted(e@.take(i as int)),
        decreases k - i,
    {
        crate::text::push_char(&mut id, if e[i] == '\\' { '.' } else { e[i] });
        assert(id@ =~= dotted(e@.take(i + 1)));
        i += 1;
    }
    id
}

/// The JUnit identity a numbered listing entry names (see
/// `numbered_identity`).
fn identity_of(line: &Vec<char>) -> (r: Option<String>)
    ensures
        match r {
            Some(id) => numbered_identity(line@) == Some(id@),
            None => numbered_identity(line@) is None,
        },
{
    let d = crate::decimal::digit_run_at(line, 0);
    assert(line@.skip(0) =~= line@);
    if d == 0 {
        return None;
    }
    assert(line@.skip(d as int) =~= line@.skip(d as int));
    if !crate::history::starts_at(line, d, ") ") {
        return None;
    }
    proof {
        reveal_strlit(") ");
    }
    let e = slice_of(line, d + 2, line.len());
    assert(e@ =~= line@.skip(d as int).skip(2));
    let sep = vec![':', ':'];
    assert(sep@ =~= seq![':', ':']);
    let k = match crate::history::find_first(&e, &sep) {
        Some(k) => k,
        None => {
            return None;
        },
    };
    proof {
        assert(crate::decimal::digit_run(line@) == d);
        assert(starts_with(line@.skip(d as int), ") "@));
        assert(line@.skip(d as int).skip(2) == e@);
        assert(find_from(e@, seq![':', ':'], 0) == Some(k as int));
    }
    if k == 0 {
        assert(e@.take(0).len() == 0);
        return None;
    }
    if has_space(&e, k) {
        return None;
    }
    let mut id = dotted_prefix(&e, k);
    let ghost class_part = id@;
    crate::text::push_char(&mut id, ':');
    crate::text::push_char(&mut id, ':');
    let mut j: usize = k + 2;
    while j < e.len()
        invariant
            k + 2 <= j <= e.len(),
            id@ == class_part + seq![':', ':'] + e@.subrange(k + 2, j as int),
        decreases e.len() - j,
    {
        let ghost before = id@;
        crate::text::push_char(&mut id, e[j]);
        assert(id@ =~= class_part + seq![':', ':'] + e@.subrange(k + 2, j + 1));
        j += 1;
    }
    assert(e@.subrange(k + 2, j as int) =~= e@.skip(k + 2));
    Some(id)
}


/// The message a log without a `PHPUnit` summary is refused with.
pub open spec fn no_summary_message() -> Seq<char> {
    "no PHPUnit summary line found — is this a PHPUnit console log?"@
}

/// Whether `v` lists exactly `m`, in increasing id order.
pub open spec fn lists_failures(v: Seq<(Seq<char>, TestStatus)>, m: Map<Seq<char>, TestStatus>) -> bool {
    &&& crate::keyed::strictly_sorted(v.map_values(|e: (Seq<char>, TestStatus)| e.0))
    &&& forall|k: Seq<char>| #[trigger] m.contains_key(k) <==> v.map_values(|e: (Seq<char>, TestStatus)| e.0).contains(k)
    &&& forall|i: int| 0 <= i < v.len() ==> m[(#[trigger] v[i]).0] == v[i].1
}

/// Parse a `PHPUnit` console log, tolerating ANSI colors, CRLF line ends,
/// the `job\tstep\t` columns of `gh run view --log`, and per-line
/// timestamps. A log without a recognizable `PHPUnit` summary is refused,
/// never guessed at.
pub fn parse_str(content: &str) -> (r: Result<ParsedLog, String>)
    ensures
        match r {
            Ok(parsed) => {
                let st = read_log(split_lines(content@));
                &&& st.anchored
                &&& lists_failures(parsed.failures.entries(), st.failures)
                &&& crate::text::opt_view(parsed.at) == st.at
            },
            Err(message) => !read_log(split_lines(content@)).anchored && message@ == no_summary_message(),
        },
{
    let all = chars_of(content);
    let ghost lines = split_lines(all@);
    let mut entries: Vec<(Vec<char>, TestStatus)> = Vec::new();
    let mut at: Option<Vec<char>> = None;
    let mut anchored = false;
    let mut block: Option<TestStatus> = None;
    let mut pos: usize = 0;
    let ghost mut done: Seq<Seq<char>> = Seq::empty();
    assert(all@.skip(0) =~= all@);
    assert(lines =~= done + split_lines(all@.skip(pos as int)));
    assert(crate::keyed::keys_of(entries@) =~= Seq::<Seq<char>>::empty());
    while pos < all.len()
        invariant
            pos <= all.len(),
            all@ == content@,
            lines == split_lines(all@),
            lines == done + split_lines(all@.skip(pos as int)),
            crate::keyed::strictly_sorted(crate::keyed::keys_of(entries@)),
            crate::keyed::lists(entries@, read_log(done).failures),
            read_log(done).at == match at {
                Some(v) => Some(v@),
                None => None::<Seq<char>>,
            },
            read_log(done).anchored == anchored,
            read_log(done).block == block,
        decreases all.len() - pos,
    {
        let ghost u = all@.skip(pos as int);
        let (end, next) = match next_newline(&all, pos) {
            Some(k) => (k, k + 1),
            None => (all.len(), all.len()),
        };
        let line_end: usize = if next > end && end > pos && all[end - 1] == '\r' { end - 1 } else { end };
        let raw = slice_of(&all, pos, line_end);
        proof {
            if next > end {
                assert(u.take(end - pos) =~= all@.subrange(pos as int, end as int));
                assert(u.skip(end - pos + 1) =~= all@.skip(next as int));
                assert(raw@ == strip_cr(u.take(end - pos)));
                assert(split_lines(u) == seq![raw@] + split_lines(all@.skip(next as int)));
            } else {
                assert(u =~= raw@);
                assert(all@.skip(next as int).len() == 0);
                assert(split_lines(all@.skip(next as int)) =~= Seq::<Seq<char>>::empty());
                assert(split_lines(u) =~= seq![raw@] + split_lines(all@.skip(next as int)));
            }
        }
        let ghost st = read_log(done);
        let ghost prev = done;
        proof {
            done = prev.push(raw@);
            assert(done.drop_last() =~= prev);
            assert(lines =~= done + split_lines(all@.skip(next as int)));
        }
        assert(read_log(done) == read_line(st, raw@));
        let (line, stamp) = clean(&raw);
        if at.is_none() {
            at = stamp;
        }
        match block_header(&line) {
            Some(listed) => {
                block = listed;
            },
            None => {
                if summary_line(&line) {
                    anchored = true;
                    block = None;
                } else {
                    match block {
                        Some(status) => match identity_of(&line) {
                            Some(id) => {
                                let key = chars_of(id.as_str());
                                crate::keyed::put_entry(&mut entries, key, status, Ghost(st.failures));
                            },
                            None => {},
                        },
                        None => {},
                    }
                }
            },
        }
        pos = next;
    }
    proof {
        assert(split_lines(all@.skip(pos as int)) =~= Seq::<Seq<char>>::empty());
        assert(done =~= lines);
    }
    if !anchored {
        return Err("no PHPUnit summary line found — is this a PHPUnit console log?".to_owned());
    }
    let mut out: Vec<(String, TestStatus)> = Vec::new();
    let mut k: usize = 0;
    while k < entries.len()
        invariant
            k <= entries.len(),
            out@.map_values(|e: (String, TestStatus)| (e.0@, e.1)) == entries@.take(k as int).map_values(
                |e: (Vec<char>, TestStatus)| (e.0@, e.1),
            ),
        decreases entries.len() - k,
    {
        let ghost before = out@.map_values(|e: (String, TestStatus)| (e.0@, e.1));
        out.push((string_of(entries[k].0.as_slice()), entries[k].1));
        assert(out@.map_values(|e: (String, TestStatus)| (e.0@, e.1)) =~= before.push((entries@[k as int].0@, entries@[k as int].1)));
        assert(entries@.take(k + 1).map_values(|e: (Vec<char>, TestStatus)| (e.0@, e.1)) =~= entries@.take(k as int).map_values(
            |e: (Vec<char>, TestStatus)| (e.0@, e.1),
        ).push((entries@[k as int].0@, entries@[k as int].1)));
        k += 1;
    }
    assert(entries@.take(k as int) =~= entries@);
    let failures = Failures { entries: out };
    let ghost ev = failures.entries();
    assert(ev =~= entries@.map_values(|e: (Vec<char>, TestStatus)| (e.0@, e.1)));
    assert(ev.map_values(|e: (Seq<char>, TestStatus)| e.0) =~= crate::keyed::keys_of(entries@));
    let at_string = match at {
        Some(v) => Some(string_of(v.as_slice())),
        None => None,
    };
    Ok(ParsedLog { failures, at: at_string })
}

/// A line that opens a listing of errors, as `PHPUnit` writes it for one
/// error ("There was 1 error:") or for several ("There were 3 errors:"):
/// whatever follows the word up to the closing colon is free.
pub open spec fn error_listing(line: Seq<char>) -> bool {
    exists|d: Seq<char>, tail: Seq<char>| #[trigger] error_listing_of(line, d, tail)
}

/// `line` lists errors, the count written as `d` (when several), the rest
/// of the line after the word being `tail`.
pub open spec fn error_listing_of(line: Seq<char>, d: Seq<char>, tail: Seq<char>) -> bool {
    tail.len() > 0 && tail.last() == ':' && (line == "There was 1 error"@ + tail || (d.len() > 0 && (forall|i: int|
        0 <= i < d.len() ==> is_digit(#[trigger] d[i])) && line == "There were "@ + d + " error"@ + tail))
}

/// Leading digits of `d + y` are those of `d` when `y` does not start with one.
proof fn lemma_digit_run_of(d: Seq<char>, y: Seq<char>)
    requires
        forall|i: int| 0 <= i < d.len() ==> is_digit(#[trigger] d[i]),
        y.len() == 0 || !is_digit(y[0]),
    ensures
        crate::decimal::digit_run(d + y) == d.len(),
    decreases d.len(),
{
    if d.len() > 0 {
        assert((d + y).drop_first() =~= d.drop_first() + y);
        lemma_digit_run_of(d.drop_first(), y);
    } else {
        assert(d + y =~= y);
    }
}

/// `p + x` starts with `p`, and what follows it is `x`.
proof fn lemma_prefix(p: Seq<char>, x: Seq<char>)
    ensures
        starts_with(p + x, p),
        (p + x).skip(p.len() as int) == x,
{
    assert((p + x).take(p.len() as int) =~= p);
    assert((p + x).skip(p.len() as int) =~= x);
}

/// An error listing opens a listing counted under the error status, for one
/// error as for several.
pub proof fn lemma_error_listing_counts_errors(line: Seq<char>)
    requires
        error_listing(line),
    ensures
        header_of(line) == Some(Some(TestStatus::Error)),
{
    reveal_strlit("There was 1 error");
    reveal_strlit("There was 1 ");
    reveal_strlit("There were ");
    reveal_strlit(" error");
    reveal_strlit("error");
    reveal_strlit("failure");
    let (d, tail) = choose|d: Seq<char>, tail: Seq<char>| error_listing_of(line, d, tail);
    let rest = "error"@ + tail;
    assert(rest.len() == 5 + tail.len());
    assert(rest[rest.len() - 1] == tail[tail.len() - 1]);
    lemma_prefix("error"@, tail);
    assert(!starts_with(rest, "failure"@)) by {
        assert(rest[0] == 'e');
        assert("failure"@[0] == 'f');
        if starts_with(rest, "failure"@) {
            assert(rest.take(7)[0] == rest[0]);
        }
    }
    assert(crate::decimal::digit_run(rest) == 0);
    assert(crate::decimal::trim_start(rest) == rest);
    assert(skip_digits(rest) =~= rest);
    if line == "There was 1 error"@ + tail {
        assert(line =~= "There was 1 "@ + rest);
        lemma_prefix("There was 1 "@, rest);
    } else {
        reveal_strlit(" ");
        let spaced = " "@ + rest;
        assert(" error"@ + tail =~= spaced);
        assert(line =~= "There were "@ + (d + spaced));
        lemma_prefix("There were "@, d + spaced);
        assert(!starts_with(line, "There was 1 "@)) by {
            if starts_with(line, "There was 1 "@) {
                assert(line.take(12)[7] == line[7]);
            }
        }
        lemma_digit_run_of(d, spaced);
        assert((d + spaced).skip(d.len() as int) =~= spaced);
        assert(spaced.drop_first() =~= rest);
        assert(crate::decimal::trim_start(spaced) == crate::decimal::trim_start(rest));
    }
}

/// A numbered entry is neither a listing header nor a summary.
proof fn lemma_entry_is_plain(line: Seq<char>)
    requires
        numbered_identity(line) is Some,
    ensures
        header_of(line) is None,
        !is_summary(line),
{
    reveal_strlit("There was 1 ");
    reveal_strlit("There were ");
    reveal_strlit("OK (");
    reveal_strlit("OK, but ");
    reveal_strlit("FAILURES!");
    reveal_strlit("ERRORS!");
    reveal_strlit("WARNINGS!");
    reveal_strlit("Tests: ");
    assert(crate::decimal::digit_run(line) > 0);
    assert(is_digit(line[0]));
    if starts_with(line, "There was 1 "@) {
        assert(line.take(12)[0] == line[0]);
    }
    if starts_with(line, "There were "@) {
        assert(line.take(11)[0] == line[0]);
    }
    if starts_with(line, "OK ("@) {
        assert(line.take(4)[0] == line[0]);
    }
    if starts_with(line, "OK, but "@) {
        assert(line.take(8)[0] == line[0]);
    }
    if line == "FAILURES!"@ {
        assert(line[0] == 'F');
    }
    if line == "ERRORS!"@ {
        assert(line[0] == 'E');
    }
    if line == "WARNINGS!"@ {
        assert(line[0] == 'W');
    }
    if starts_with(line, "Tests: "@) {
        assert(line.take(7)[0] == line[0]);
    }
}

/// A numbered entry read under an error listing is recorded as an error:
/// the test it names appears among the failures with the error status.
pub proof fn lemma_error_entry_recorded(st: LogState, header: Seq<char>, entry: Seq<char>, id: Seq<char>)
    requires
        error_listing(message_of(header)),
        numbered_identity(message_of(entry)) == Some(id),
    ensures
        read_line(read_line(st, header), entry).failures == st.failures.insert(id, TestStatus::Error),
{
    lemma_error_listing_counts_errors(message_of(header));
    lemma_entry_is_plain(message_of(entry));
}

/// A numbered entry read under a failure listing is recorded as a failure.
pub proof fn lemma_failure_entry_recorded(st: LogState, header: Seq<char>, entry: Seq<char>, id: Seq<char>)
    requires
        failure_listing(message_of(header)),
        numbered_identity(message_of(entry)) == Some(id),
    ensures
        read_line(read_line(st, header), entry).failures == st.failures.insert(id, TestStatus::Failed),
{
    lemma_failure_listing_counts_failures(message_of(header));
    lemma_entry_is_plain(message_of(entry));
}

/// A line that opens a listing of failures: "There was 1 failure:" or
/// "There were 2 failures:".
pub open spec fn failure_listing(line: Seq<char>) -> bool {
    exists|d: Seq<char>, tail: Seq<char>| #[trigger] failure_listing_of(line, d, tail)
}

/// `line` lists failures, the count written as `d` (when several), the rest
/// of the line after the word being `tail`.
pub open spec fn failure_listing_of(line: Seq<char>, d: Seq<char>, tail: Seq<char>) -> bool {
    tail.len() > 0 && tail.last() == ':' && (line == "There was 1 failure"@ + tail || (d.len() > 0 && (forall|i: int|
        0 <= i < d.len() ==> is_digit(#[trigger] d[i])) && line == "There were "@ + d + " failure"@ + tail))
}

/// A failure listing opens a listing counted under the failed status, for
/// one failure as for several.
pub proof fn lemma_failure_listing_counts_failures(line: Seq<char>)
    requires
        failure_listing(line),
    ensures
        header_of(line) == Some(Some(TestStatus::Failed)),
{
    reveal_strlit("There was 1 failure");
    reveal_strlit("There was 1 ");
    reveal_strlit("There were ");
    reveal_strlit(" failure");
    reveal_strlit("failure");
    let (d, tail) = choose|d: Seq<char>, tail: Seq<char>| failure_listing_of(line, d, tail);
    let rest = "failure"@ + tail;
    assert(rest.len() == 7 + tail.len());
    assert(rest[rest.len() - 1] == tail[tail.len() - 1]);
    lemma_prefix("failure"@, tail);
    assert(crate::decimal::digit_run(rest) == 0);
    assert(crate::decimal::trim_start(rest) == rest);
    assert(skip_digits(rest) =~= rest);
    if line == "There was 1 failure"@ + tail {
        assert(line =~= "There was 1 "@ + rest);
        lemma_prefix("There was 1 "@, rest);
    } else {
        reveal_strlit(" ");
        let spaced = " "@ + rest;
        assert(" failure"@ + tail =~= spaced);
        assert(line =~= "There were "@ + (d + spaced));
        lemma_prefix("There were "@, d + spaced);
        assert(!starts_with(line, "There was 1 "@)) by {
            if starts_with(line, "There was 1 "@) {
                assert(line.take(12)[7] == line[7]);
            }
        }
        lemma_digit_run_of(d, spaced);
        assert((d + spaced).skip(d.len() as int) =~= spaced);
        assert(spaced.drop_first() =~= rest);
        assert(crate::decimal::trim_start(spaced) == crate::decimal::trim_start(rest));
    }
}

} // verus!
