//! Presentation: the human report's lines and the machine JSON.

use vstd::prelude::*;

use crate::analyzers::explain::{Counts, Explanation, Observed, Verdict};
use crate::analyzers::flaky::{rate_percent, Analysis as FlakyAnalysis, TestOutcomes};
use crate::analyzers::history::{Analysis as HistoryAnalysis, FailingSince, HistoricFlake};
use crate::cli::ColorChoice;
use crate::format::{
    count, count_text, duration_text, paint, painted, push_duration, push_seconds,
    push_short_commit, seconds_text, short_commit_text,
};
use crate::gate::Selection;
use crate::junit::{JunitReport, TestCase, TestStatus};
use crate::runner::{signed_decimal, status_label_spec, RunOutcome};
use crate::text::{chars_of, copy_string, decimal, opt_view, push_char, push_decimal, push_str};
use crate::verify;

verus! {

/// Version of the `--json` shape. Fields are only added within a version;
/// this number is bumped when the shape changes incompatibly.
pub const JSON_SCHEMA_VERSION: u32 = 1;

/// This library's version, as the JSON reports it.
pub const SOOTH_VERSION: &'static str = "0.1.0";

/// Whether to emit ANSI colors.
#[derive(Debug, Clone, Copy)]
pub struct Style {
    pub colored: bool,
}

/// The coloring the flag, `NO_COLOR` and the terminal resolve to: an
/// explicit `--color always|never` wins over `NO_COLOR`, which wins over
/// terminal detection.
pub open spec fn colored_by(choice: ColorChoice, no_color: bool, terminal: bool) -> bool {
    match choice {
        ColorChoice::Always => true,
        ColorChoice::Never => false,
        ColorChoice::Auto => !no_color && terminal,
    }
}

impl Style {
    /// Resolve from the `--color` flag, whether `NO_COLOR` is set (and not
    /// empty), and whether stdout is a terminal.
    pub fn from_parts(choice: ColorChoice, no_color: bool, terminal: bool) -> (style: Style)
        ensures
            style.colored == colored_by(choice, no_color, terminal),
    {
        let colored = match choice {
            ColorChoice::Always => true,
            ColorChoice::Never => false,
            ColorChoice::Auto => !no_color && terminal,
        };
        Style { colored }
    }

    /// `text` in ANSI color `code`, when coloring.
    pub fn paint(self, code: &str, text: &str) -> (out: String)
        ensures
            out@ == painted(self.colored, code@, text@),
    {
        paint(self.colored, code, text)
    }

    /// `text` in green.
    pub fn green(self, text: &str) -> (out: String)
        ensures
            out@ == painted(self.colored, "32"@, text@),
    {
        paint(self.colored, "32", text)
    }

    /// `text` in red.
    pub fn red(self, text: &str) -> (out: String)
        ensures
            out@ == painted(self.colored, "31"@, text@),
    {
        paint(self.colored, "31", text)
    }

    /// `text` in yellow.
    pub fn yellow(self, text: &str) -> (out: String)
        ensures
            out@ == painted(self.colored, "33"@, text@),
    {
        paint(self.colored, "33", text)
    }

    /// `text` dimmed.
    pub fn dim(self, text: &str) -> (out: String)
        ensures
            out@ == painted(self.colored, "2"@, text@),
    {
        paint(self.colored, "2", text)
    }

    /// `text` in bold green.
    pub fn bold_green(self, text: &str) -> (out: String)
        ensures
            out@ == painted(self.colored, "1;32"@, text@),
    {
        paint(self.colored, "1;32", text)
    }

    /// `text` in bold red.
    pub fn bold_red(self, text: &str) -> (out: String)
        ensures
            out@ == painted(self.colored, "1;31"@, text@),
    {
        paint(self.colored, "1;31", text)
    }
}

/// Totals, status counts, and the slowest tests from a parsed JUnit-XML
/// report: the summary the report prints and the JSON serializes.
#[derive(Debug)]
pub struct JunitSummary {
    pub total: usize,
    pub passed: usize,
    pub failed: usize,
    pub error: usize,
    pub skipped: usize,
    /// The slowest tests, slowest first: qualified name and nanoseconds.
    pub slowest: Vec<(String, u128)>,
}

/// Cases with status `status`.
pub open spec fn has_status(status: TestStatus) -> spec_fn(TestCase) -> bool {
    |c: TestCase| c.status == status
}

/// How many of `cases` have status `status`.
pub open spec fn status_count(cases: Seq<TestCase>, status: TestStatus) -> nat {
    cases.filter(has_status(status)).len()
}

/// A case as the slowest ranking sees it: its identity and duration.
pub open spec fn timed(c: TestCase) -> (Seq<char>, nat) {
    (c@.id(), c.duration as nat)
}

/// Where an entry of duration `d` joins a list ranked slowest first: after
/// every entry at least as slow, so that equal durations keep report order.
pub open spec fn rank_slot(s: Seq<(Seq<char>, nat)>, d: nat) -> nat
    decreases s.len(),
{
    if s.len() == 0 {
        0
    } else if s[0].1 < d {
        0
    } else {
        1 + rank_slot(s.drop_first(), d)
    }
}

/// The entries ranked slowest first, equal durations in their original
/// order (a stable sort by descending duration).
pub open spec fn by_duration(entries: Seq<(Seq<char>, nat)>) -> Seq<(Seq<char>, nat)>
    decreases entries.len(),
{
    if entries.len() == 0 {
        entries
    } else {
        let ranked = by_duration(entries.drop_last());
        ranked.insert(rank_slot(ranked, entries.last().1) as int, entries.last())
    }
}

/// The `n` slowest cases, slowest first.
pub open spec fn slowest_of(cases: Seq<TestCase>, n: nat) -> Seq<(Seq<char>, nat)> {
    let ranked = by_duration(cases.map_values(|c: TestCase| timed(c)));
    if n < ranked.len() {
        ranked.take(n as int)
    } else {
        ranked
    }
}

/// The view of a `(name, nanoseconds)` list.
pub open spec fn timed_view(v: Seq<(String, u128)>) -> Seq<(Seq<char>, nat)> {
    v.map_values(|p: (String, u128)| (p.0@, p.1 as nat))
}

/// Ranking a list slowest first never loses or invents an entry.
proof fn lemma_by_duration_len(entries: Seq<(Seq<char>, nat)>)
    ensures
        by_duration(entries).len() == entries.len(),
    decreases entries.len(),
{
    if entries.len() > 0 {
        lemma_by_duration_len(entries.drop_last());
        lemma_rank_slot_bound(by_duration(entries.drop_last()), entries.last().1);
    }
}

/// The slot lies within the list.
proof fn lemma_rank_slot_bound(s: Seq<(Seq<char>, nat)>, d: nat)
    ensures
        rank_slot(s, d) <= s.len(),
    decreases s.len(),
{
    if s.len() > 0 && s[0].1 >= d {
        lemma_rank_slot_bound(s.drop_first(), d);
    }
}

/// Past a prefix of entries at least as slow as `d`, the slot is counted
/// from there.
proof fn lemma_rank_slot_skip(s: Seq<(Seq<char>, nat)>, d: nat, p: int)
    requires
        0 <= p <= s.len(),
        forall|j: int| 0 <= j < p ==> s[j].1 >= d,
    ensures
        rank_slot(s, d) == p + rank_slot(s.skip(p), d),
    decreases p,
{
    if p > 0 {
        assert(s.drop_first().skip(p - 1) =~= s.skip(p));
        lemma_rank_slot_skip(s.drop_first(), d, p - 1);
    } else {
        assert(s.skip(0) =~= s);
    }
}

/// `s` summarizes `cases`: their status totals and the `slowest` slowest
/// of them, slowest first (equal durations in report order).
pub open spec fn summarizes(s: JunitSummary, cases: Seq<TestCase>, slowest: nat) -> bool {
    &&& s.total == cases.len()
    &&& s.passed == status_count(cases, TestStatus::Passed)
    &&& s.failed == status_count(cases, TestStatus::Failed)
    &&& s.error == status_count(cases, TestStatus::Error)
    &&& s.skipped == status_count(cases, TestStatus::Skipped)
    &&& timed_view(s.slowest@) == slowest_of(cases, slowest)
}

impl JunitSummary {
    /// The summary of no report at all: every count zero, no slowest tests.
    pub fn empty() -> (summary: JunitSummary)
        ensures
            summary.total == 0 && summary.passed == 0 && summary.failed == 0,
            summary.error == 0 && summary.skipped == 0 && summary.slowest@.len() == 0,
    {
        JunitSummary { total: 0, passed: 0, failed: 0, error: 0, skipped: 0, slowest: Vec::new() }
    }

    /// The summary of a report: status totals and the `slowest` slowest
    /// tests, slowest first (equal durations in report order).
    pub fn from_report(report: &JunitReport, slowest: usize) -> (summary: JunitSummary)
        ensures
            summarizes(summary, report.test_cases@, slowest as nat),
    {
        let cases = &report.test_cases;
        let mut passed: usize = 0;
        let mut failed: usize = 0;
        let mut error: usize = 0;
        let mut skipped: usize = 0;
        let mut ranked: Vec<(String, u128)> = Vec::new();
        let ghost entries = cases@.map_values(|c: TestCase| timed(c));
        let mut i: usize = 0;
        while i < cases.len()
            invariant
                i <= cases@.len(),
                entries == cases@.map_values(|c: TestCase| timed(c)),
                passed == status_count(cases@.take(i as int), TestStatus::Passed),
                failed == status_count(cases@.take(i as int), TestStatus::Failed),
                error == status_count(cases@.take(i as int), TestStatus::Error),
                skipped == status_count(cases@.take(i as int), TestStatus::Skipped),
                passed + failed + error + skipped == i,
                timed_view(ranked@) == by_duration(entries.take(i as int)),
            decreases cases.len() - i,
        {
            let case = &cases[i];
            let ghost prefix = cases@.take(i as int);
            assert(cases@.take(i + 1) =~= prefix.push(cases@[i as int]));
            proof {
                prefix.lemma_filter_push(cases@[i as int], has_status(TestStatus::Passed));
                prefix.lemma_filter_push(cases@[i as int], has_status(TestStatus::Failed));
                prefix.lemma_filter_push(cases@[i as int], has_status(TestStatus::Error));
                prefix.lemma_filter_push(cases@[i as int], has_status(TestStatus::Skipped));
            }
            match case.status {
                TestStatus::Passed => passed += 1,
                TestStatus::Failed => failed += 1,
                TestStatus::Error => error += 1,
                TestStatus::Skipped => skipped += 1,
            }
            let d = case.duration;
            let ghost before = timed_view(ranked@);
            let mut p: usize = 0;
            while p < ranked.len() && ranked[p].1 >= d
                invariant
                    p <= ranked@.len(),
                    before == timed_view(ranked@),
                    forall|j: int| 0 <= j < p ==> before[j].1 >= d,
                decreases ranked.len() - p,
            {
                p += 1;
            }
            proof {
                lemma_rank_slot_skip(before, d as nat, p as int);
                assert(rank_slot(before.skip(p as int), d as nat) == 0);
                assert(entries.take(i + 1).drop_last() =~= entries.take(i as int));
                assert(entries.take(i + 1).last() == timed(cases@[i as int]));
            }
            let name = case.qualified_name();
            ranked.insert(p, (name, d));
            assert(timed_view(ranked@) =~= before.insert(p as int, (case@.id(), d as nat)));
            i += 1;
        }
        assert(cases@.take(i as int) =~= cases@);
        assert(entries.take(i as int) =~= entries);
        proof {
            lemma_by_duration_len(entries);
        }
        let ghost full = timed_view(ranked@);
        ranked.truncate(slowest);
        assert(timed_view(ranked@) =~= slowest_of(cases@, slowest as nat));
        JunitSummary { total: cases.len(), passed, failed, error, skipped, slowest: ranked }
    }
}

/// The characters of each line.
pub open spec fn line_views(v: Seq<String>) -> Seq<Seq<char>> {
    v.map_values(|s: String| s@)
}

/// One line per run: its number, the runner's status in green or red, and
/// how long it took.
pub open spec fn run_line(index: nat, total: nat, o: RunOutcome, colored: bool) -> Seq<char> {
    "run "@ + decimal(index + 1) + "/"@ + decimal(total) + ": "@ + painted(
        colored,
        if o.success {
            "32"@
        } else {
            "31"@
        },
        status_label_spec(o.exit_code, o.signal),
    ) + " ("@ + duration_text(o.duration as nat) + ")"@
}

/// The run lines of a whole invocation.
pub open spec fn run_lines_spec(outcomes: Seq<RunOutcome>, colored: bool) -> Seq<Seq<char>> {
    Seq::new(outcomes.len(), |i: int| run_line(i as nat, outcomes.len(), outcomes[i], colored))
}

/// One line per run. The runner's own exit code is labeled `runner exit=` on
/// purpose: a bare `exit=2` reads as sooth's own exit-code contract, where 2
/// means "sooth itself failed".
pub fn run_lines(outcomes: &[RunOutcome], style: Style) -> (lines: Vec<String>)
    ensures
        line_views(lines@) == run_lines_spec(outcomes@, style.colored),
{
    let total = outcomes.len();
    let mut lines: Vec<String> = Vec::new();
    let mut i: usize = 0;
    while i < total
        invariant
            i <= total,
            total == outcomes@.len(),
            line_views(lines@) == run_lines_spec(outcomes@, style.colored).take(i as int),
        decreases total - i,
    {
        let outcome = &outcomes[i];
        let status = outcome.status_label();
        let painted_status = if outcome.success {
            style.green(status.as_str())
        } else {
            style.red(status.as_str())
        };
        let mut line = String::new();
        push_str(&mut line, "run ");
        push_decimal(&mut line, (i + 1) as u128);
        push_str(&mut line, "/");
        push_decimal(&mut line, total as u128);
        push_str(&mut line, ": ");
        push_str(&mut line, painted_status.as_str());
        push_str(&mut line, " (");
        push_duration(&mut line, outcome.duration);
        push_str(&mut line, ")");
        assert(line@ =~= run_line(i as nat, total as nat, outcomes@[i as int], style.colored));
        let ghost prev = line_views(lines@);
        let ghost fresh = line@;
        lines.push(line);
        assert(line_views(lines@) =~= prev.push(fresh));
        i += 1;
        assert(line_views(lines@) =~= run_lines_spec(outcomes@, style.colored).take(i as int));
    }
    assert(run_lines_spec(outcomes@, style.colored).take(i as int) =~= run_lines_spec(
        outcomes@,
        style.colored,
    ));
    lines
}

/// The totals line: every count, the nonzero bad ones in color.
pub open spec fn tally_line(s: JunitSummary, colored: bool) -> Seq<char> {
    "tests: "@ + decimal(s.total as nat) + " total — "@ + painted(
        colored,
        "32"@,
        decimal(s.passed as nat) + " passed"@,
    ) + ", "@ + painted(colored && s.failed > 0, "31"@, decimal(s.failed as nat) + " failed"@)
        + ", "@ + painted(colored && s.error > 0, "31"@, count_text(s.error as nat, "error"@))
        + ", "@ + painted(colored && s.skipped > 0, "33"@, decimal(s.skipped as nat) + " skipped"@)
}

/// One line of the slowest-tests list.
pub open spec fn slow_line(index: nat, entry: (Seq<char>, nat), colored: bool) -> Seq<char> {
    "  "@ + decimal(index + 1) + ". "@ + entry.0 + " "@ + painted(
        colored,
        "2"@,
        "("@ + duration_text(entry.1) + ")"@,
    )
}

/// The summary's lines: the totals, then the slowest tests when there are
/// any to show.
pub open spec fn summary_lines_spec(s: JunitSummary, colored: bool) -> Seq<Seq<char>> {
    let slow = timed_view(s.slowest@);
    seq![tally_line(s, colored)] + if slow.len() == 0 {
        Seq::<Seq<char>>::empty()
    } else {
        seq![painted(colored, "2"@, "slowest tests:"@)] + Seq::new(
            slow.len(),
            |i: int| slow_line(i as nat, slow[i], colored),
        )
    }
}

/// The test totals plus the slowest-tests list.
pub fn summary_lines(summary: &JunitSummary, style: Style) -> (lines: Vec<String>)
    ensures
        line_views(lines@) == summary_lines_spec(*summary, style.colored),
{
    let colored = style.colored;
    let mut passed = String::new();
    push_decimal(&mut passed, summary.passed as u128);
    push_str(&mut passed, " passed");
    let mut failed = String::new();
    push_decimal(&mut failed, summary.failed as u128);
    push_str(&mut failed, " failed");
    let errors = count(summary.error, "error");
    let mut skipped = String::new();
    push_decimal(&mut skipped, summary.skipped as u128);
    push_str(&mut skipped, " skipped");
    let mut line = String::new();
    push_str(&mut line, "tests: ");
    push_decimal(&mut line, summary.total as u128);
    push_str(&mut line, " total — ");
    let p = paint(colored, "32", passed.as_str());
    push_str(&mut line, p.as_str());
    push_str(&mut line, ", ");
    let f = paint(colored && summary.failed > 0, "31", failed.as_str());
    push_str(&mut line, f.as_str());
    push_str(&mut line, ", ");
    let e = paint(colored && summary.error > 0, "31", errors.as_str());
    push_str(&mut line, e.as_str());
    push_str(&mut line, ", ");
    let k = paint(colored && summary.skipped > 0, "33", skipped.as_str());
    push_str(&mut line, k.as_str());
    assert(line@ =~= tally_line(*summary, colored));
    let mut lines: Vec<String> = Vec::new();
    lines.push(line);
    let slow = &summary.slowest;
    if slow.len() == 0 {
        assert(line_views(lines@) =~= summary_lines_spec(*summary, colored));
        return lines;
    }
    lines.push(paint(colored, "2", "slowest tests:"));
    let ghost head = line_views(lines@);
    let ghost sv = timed_view(slow@);
    let mut i: usize = 0;
    while i < slow.len()
        invariant
            i <= slow@.len(),
            sv == timed_view(slow@),
            line_views(lines@) == head + Seq::new(sv.len(), |j: int| slow_line(j as nat, sv[j], colored)).take(i as int),
        decreases slow.len() - i,
    {
        let mut entry = String::new();
        push_str(&mut entry, "(");
        push_duration(&mut entry, slow[i].1);
        push_str(&mut entry, ")");
        let dimmed = paint(colored, "2", entry.as_str());
        let mut l = String::new();
        push_str(&mut l, "  ");
        push_decimal(&mut l, (i + 1) as u128);
        push_str(&mut l, ". ");
        push_str(&mut l, slow[i].0.as_str());
        push_str(&mut l, " ");
        push_str(&mut l, dimmed.as_str());
        assert(l@ =~= slow_line(i as nat, sv[i as int], colored));
        let ghost prev = line_views(lines@);
        let ghost fresh = l@;
        lines.push(l);
        assert(line_views(lines@) =~= prev.push(fresh));
        i += 1;
        assert(line_views(lines@) =~= head + Seq::new(sv.len(), |j: int| slow_line(j as nat, sv[j], colored)).take(i as int));
    }
    assert(line_views(lines@) =~= summary_lines_spec(*summary, colored));
    lines
}

/// The sum of the runs' durations.
pub open spec fn total_nanos(outcomes: Seq<RunOutcome>) -> nat
    decreases outcomes.len(),
{
    if outcomes.len() == 0 {
        0
    } else {
        total_nanos(outcomes.drop_last()) + outcomes.last().duration as nat
    }
}

/// A nanosecond count held in a `u128`, saturated at its largest value.
pub open spec fn capped(n: nat) -> nat {
    if n > u128::MAX {
        u128::MAX as nat
    } else {
        n
    }
}

/// The total time of the runs (saturating).
pub fn total_duration(outcomes: &[RunOutcome]) -> (total: u128)
    ensures
        total == capped(total_nanos(outcomes@)),
{
    let mut total: u128 = 0;
    let mut i: usize = 0;
    while i < outcomes.len()
        invariant
            i <= outcomes@.len(),
            total == capped(total_nanos(outcomes@.take(i as int))),
        decreases outcomes.len() - i,
    {
        assert(outcomes@.take(i + 1).drop_last() =~= outcomes@.take(i as int));
        let d = outcomes[i].duration;
        if total > u128::MAX - d {
            total = u128::MAX;
        } else {
            total = total + d;
        }
        i += 1;
    }
    assert(outcomes@.take(i as int) =~= outcomes@);
    total
}

/// Runs that failed.
pub open spec fn run_failed() -> spec_fn(RunOutcome) -> bool {
    |o: RunOutcome| !o.success
}

/// How many runs failed.
pub open spec fn failed_runs(outcomes: Seq<RunOutcome>) -> nat {
    outcomes.filter(run_failed()).len()
}

/// How many runs failed, counted.
pub fn count_failed_runs(outcomes: &[RunOutcome]) -> (n: usize)
    ensures
        n == failed_runs(outcomes@),
{
    let mut n: usize = 0;
    let mut i: usize = 0;
    while i < outcomes.len()
        invariant
            i <= outcomes@.len(),
            n == failed_runs(outcomes@.take(i as int)),
            n <= i,
        decreases outcomes.len() - i,
    {
        assert(outcomes@.take(i + 1) =~= outcomes@.take(i as int).push(outcomes@[i as int]));
        proof {
            outcomes@.take(i as int).lemma_filter_push(outcomes@[i as int], run_failed());
        }
        if !outcomes[i].success {
            n += 1;
        }
        i += 1;
    }
    assert(outcomes@.take(i as int) =~= outcomes@);
    n
}

/// The closing line names the failed runs or the report's failures when the suite
/// failed; otherwise the runs and tests that passed, and a warning instead of
/// a green pass when the report held no test at all.
pub open spec fn verdict_text(
    outcomes: Seq<RunOutcome>,
    tests: Option<nat>,
    report_failures: nat,
    suite_failed: bool,
    colored: bool,
) -> Seq<char> {
    let runs = outcomes.len();
    let total = duration_text(capped(total_nanos(outcomes)));
    if suite_failed {
        let failed = failed_runs(outcomes);
        let detail = if failed > 0 {
            decimal(failed) + " of "@ + decimal(runs) + " runs failed"@
        } else {
            "the report shows "@ + count_text(report_failures, "failing test"@)
        };
        painted(colored, "1;31"@, "result: ✗ FAILED — "@ + detail + " ("@ + total + " total)"@)
    } else if tests == Some(0nat) {
        painted(
            colored,
            "33"@,
            "result: ✓ PASSED — "@ + decimal(runs) + " of "@ + decimal(runs) + " runs ("@ + total
                + " total), but the report shows 0 tests, so this run proved nothing"@,
        )
    } else {
        painted(
            colored,
            "1;32"@,
            "result: ✓ PASSED — "@ + decimal(runs) + " of "@ + decimal(runs) + " runs"@ + match tests {
                Some(t) => ", "@ + count_text(t, "test"@),
                None => Seq::<char>::empty(),
            } + " ("@ + total + " total)"@,
        )
    }
}

/// The test count of an optional summary.
pub open spec fn tests_of(summary: Option<&JunitSummary>) -> Option<nat> {
    match summary {
        Some(s) => Some(s.total as nat),
        None => None,
    }
}

/// The closing verdict line: sooth's suite-level judgement at a glance.
pub fn verdict_line(
    outcomes: &[RunOutcome],
    summary: Option<&JunitSummary>,
    report_failures: usize,
    suite_failed: bool,
    style: Style,
) -> (line: String)
    ensures
        line@ == verdict_text(outcomes@, tests_of(summary), report_failures as nat, suite_failed, style.colored),
{
    let total = total_duration(outcomes);
    let runs = outcomes.len();
    let mut text = String::new();
    if suite_failed {
        let failed = count_failed_runs(outcomes);
        push_str(&mut text, "result: ✗ FAILED — ");
        if failed > 0 {
            push_decimal(&mut text, failed as u128);
            push_str(&mut text, " of ");
            push_decimal(&mut text, runs as u128);
            push_str(&mut text, " runs failed");
        } else {
            push_str(&mut text, "the report shows ");
            let c = count(report_failures, "failing test");
            push_str(&mut text, c.as_str());
        }
        push_str(&mut text, " (");
        push_duration(&mut text, total);
        push_str(&mut text, " total)");
        let line = style.bold_red(text.as_str());
        assert(line@ =~= verdict_text(outcomes@, tests_of(summary), report_failures as nat, suite_failed, style.colored));
        return line;
    }
    let empty_report = match summary {
        Some(s) => s.total == 0,
        None => false,
    };
    push_str(&mut text, "result: ✓ PASSED — ");
    push_decimal(&mut text, runs as u128);
    push_str(&mut text, " of ");
    push_decimal(&mut text, runs as u128);
    if empty_report {
        push_str(&mut text, " runs (");
        push_duration(&mut text, total);
        push_str(&mut text, " total), but the report shows 0 tests, so this run proved nothing");
        let line = style.yellow(text.as_str());
        assert(line@ =~= verdict_text(outcomes@, tests_of(summary), report_failures as nat, suite_failed, style.colored));
        return line;
    }
    push_str(&mut text, " runs");
    match summary {
        Some(s) => {
            push_str(&mut text, ", ");
            let c = count(s.total, "test");
            push_str(&mut text, c.as_str());
        },
        None => {},
    }
    push_str(&mut text, " (");
    push_duration(&mut text, total);
    push_str(&mut text, " total)");
    let line = style.bold_green(text.as_str());
    assert(line@ =~= verdict_text(outcomes@, tests_of(summary), report_failures as nat, suite_failed, style.colored));
    line
}

/// The verdict when `--fail-on-flaky` pardoned every failure: honest about
/// the failures, explicit about why the exit is 0.
pub open spec fn pardoned_verdict_text(outcomes: Seq<RunOutcome>, pardoned: nat, colored: bool) -> Seq<char> {
    painted(
        colored,
        "33"@,
        "result: ✓ PASSED — only quarantined flakes failed ("@ + count_text(pardoned, "test"@)
            + " pardoned) ("@ + duration_text(capped(total_nanos(outcomes))) + " total)"@,
    )
}

/// The verdict line of a pardoned run.
pub fn pardoned_verdict(outcomes: &[RunOutcome], pardoned: usize, style: Style) -> (line: String)
    ensures
        line@ == pardoned_verdict_text(outcomes@, pardoned as nat, style.colored),
{
    let total = total_duration(outcomes);
    let mut text = String::new();
    push_str(&mut text, "result: ✓ PASSED — only quarantined flakes failed (");
    let c = count(pardoned, "test");
    push_str(&mut text, c.as_str());
    push_str(&mut text, " pardoned) (");
    push_duration(&mut text, total);
    push_str(&mut text, " total)");
    let line = style.yellow(text.as_str());
    assert(line@ =~= pardoned_verdict_text(outcomes@, pardoned as nat, style.colored));
    line
}

/// What stood behind a history label — how many observations from earlier
/// runs, and how many of those were made on a dirty or unknown tree and so
/// can never be evidence.
#[derive(Debug, Clone, Copy, PartialEq, Eq, Structural)]
pub struct PriorEvidence {
    pub observations: usize,
    pub unusable: usize,
}

/// The passes that ran on top of the plain run report. `None` is "this pass
/// did not run"; the lines and the JSON agree on that.
#[derive(Default)]
pub struct Analyses<'a> {
    /// The active pass (`--runs N`).
    pub flaky: Option<&'a FlakyAnalysis>,
    /// The passive pass (the accumulated history).
    pub history: Option<&'a HistoryAnalysis>,
    /// What backed the history pass.
    pub history_observations: Option<PriorEvidence>,
    pub verify: Option<&'a verify::Verdict>,
    pub pardoned: Option<&'a [String]>,
    pub explanation: Option<&'a [Explanation]>,
    /// The selection, when `--changed` chose the tests.
    pub gate: Option<&'a Selection>,
}

/// The items joined by `sep`.
pub open spec fn joined(items: Seq<Seq<char>>, sep: Seq<char>) -> Seq<char>
    decreases items.len(),
{
    if items.len() == 0 {
        Seq::empty()
    } else if items.len() == 1 {
        items[0]
    } else {
        joined(items.drop_last(), sep) + sep + items.last()
    }
}

/// Join strings with a separator.
pub fn join(items: &Vec<String>, sep: &str) -> (out: String)
    ensures
        out@ == joined(line_views(items@), sep@),
{
    let mut out = String::new();
    let mut i: usize = 0;
    while i < items.len()
        invariant
            i <= items@.len(),
            out@ == joined(line_views(items@).take(i as int), sep@),
        decreases items.len() - i,
    {
        let ghost before = line_views(items@).take(i as int);
        assert(line_views(items@).take(i + 1).drop_last() =~= before);
        if i > 0 {
            push_str(&mut out, sep);
        }
        push_str(&mut out, items[i].as_str());
        i += 1;
        assert(out@ =~= joined(line_views(items@).take(i as int), sep@));
    }
    assert(line_views(items@).take(i as int) =~= line_views(items@));
    out
}

/// `amount noun` when the amount is not zero.
pub open spec fn headline_part(amount: nat, singular: Seq<char>, plural: Seq<char>) -> Seq<Seq<char>> {
    if amount == 0 {
        Seq::empty()
    } else {
        seq![decimal(amount) + " "@ + if amount == 1 {
            singular
        } else {
            plural
        }]
    }
}

/// Nothing failed that was not already known as a flake.
pub open spec fn only_known(c: Counts) -> bool {
    c.known_flakes + c.failing_since + c.quarantined + c.new > 0 && c.failing_since == 0 && c.new
        == 0
}

/// `3 failures — 1 known flake, 2 new`; the all-clear sentence when nothing
/// in the run is new.
pub open spec fn headline_text(c: Counts) -> Seq<char> {
    let failures = count_text((c.known_flakes + c.failing_since + c.quarantined + c.new) as nat, "failure"@);
    if only_known(c) {
        failures + " — all known flakes, nothing new"@
    } else {
        failures + " — "@ + joined(
            headline_part(c.known_flakes as nat, "known flake"@, "known flakes"@) + headline_part(
                c.failing_since as nat,
                "regression"@,
                "regressions"@,
            ) + headline_part(c.quarantined as nat, "quarantined"@, "quarantined"@) + headline_part(
                c.new as nat,
                "new"@,
                "new"@,
            ),
            ", "@,
        )
    }
}

/// Appends `amount noun` to the parts when the amount is not zero.
fn push_part(parts: &mut Vec<String>, amount: usize, singular: &str, plural: &str)
    ensures
        line_views(final(parts)@) == line_views(old(parts)@) + headline_part(amount as nat, singular@, plural@),
{
    if amount > 0 {
        let mut part = String::new();
        push_decimal(&mut part, amount as u128);
        push_str(&mut part, " ");
        if amount == 1 {
            push_str(&mut part, singular);
        } else {
            push_str(&mut part, plural);
        }
        let ghost prev = line_views(parts@);
        let ghost fresh = part@;
        parts.push(part);
        assert(line_views(parts@) =~= prev.push(fresh));
        assert(line_views(parts@) =~= prev + headline_part(amount as nat, singular@, plural@));
    } else {
        assert(line_views(parts@) =~= line_views(parts@) + headline_part(amount as nat, singular@, plural@));
    }
}

/// The headline of the explanation section.
pub fn explanation_headline(counts: &Counts) -> (line: String)
    requires
        counts.known_flakes + counts.failing_since + counts.quarantined + counts.new <= usize::MAX,
    ensures
        line@ == headline_text(*counts),
{
    let failures = count(counts.total(), "failure");
    let mut line = String::new();
    push_str(&mut line, failures.as_str());
    if counts.only_known_flakes() {
        push_str(&mut line, " — all known flakes, nothing new");
        assert(line@ =~= headline_text(*counts));
        return line;
    }
    let mut parts: Vec<String> = Vec::new();
    push_part(&mut parts, counts.known_flakes, "known flake", "known flakes");
    push_part(&mut parts, counts.failing_since, "regression", "regressions");
    push_part(&mut parts, counts.quarantined, "quarantined", "quarantined");
    push_part(&mut parts, counts.new, "new", "new");
    push_str(&mut line, " — ");
    let joined_parts = join(&parts, ", ");
    push_str(&mut line, joined_parts.as_str());
    assert(line_views(parts@) =~= headline_part(counts.known_flakes as nat, "known flake"@, "known flakes"@)
        + headline_part(counts.failing_since as nat, "regression"@, "regressions"@) + headline_part(
        counts.quarantined as nat,
        "quarantined"@,
        "quarantined"@,
    ) + headline_part(counts.new as nat, "new"@, "new"@));
    assert(line@ =~= headline_text(*counts));
    line
}

/// What this invocation saw, in words.
pub open spec fn observed_part(o: Observed) -> Seq<char> {
    match o {
        Observed::Flaky { failed_runs, observed_runs } => "flaky ("@ + decimal(failed_runs as nat)
            + " of "@ + decimal(observed_runs as nat) + " runs now)"@,
        Observed::FlakyReordered { failed_runs, observed_runs, first_reordered } => "flaky or order-dependent ("@
            + decimal(failed_runs as nat) + " of "@ + decimal(observed_runs as nat) + " runs now; run "@ + decimal(
            first_reordered as nat,
        ) + " did not share run 1's order)"@,
        Observed::Broken { observed_runs } => "broken (failed all "@ + decimal(observed_runs as nat)
            + " runs now)"@,
        Observed::Monotone { flipped_after_run, started_green } => (if started_green {
            "green up to run "@
        } else {
            "red up to run "@
        }) + decimal(flipped_after_run as nat) + (if started_green {
            ", then red for every later run"@
        } else {
            ", then green for every later run"@
        }) + " (the environment may have changed between runs)"@,
        Observed::Lone { absent_runs } => "failed its only observed run (absent from the other "@ + decimal(
            absent_runs as nat,
        ) + " — a name that changes per run hides flakiness)"@,
        Observed::Real => "real (reproduced on re-run)"@,
        Observed::FlakyOrOrder => "flaky or order-dependent (passed on re-run in isolation)"@,
        Observed::FailedDifferently { suite, isolation } => "failed differently on re-run ("@ + suite@
            + " in the suite, "@ + isolation@ + " in isolation — not a reproduction)"@,
        Observed::Unverified => "unverified (the re-run did not cover it)"@,
    }
}

/// `; every failure in ENV` when the failures were confined to one
/// environment.
pub open spec fn confined_text(env: Option<Seq<char>>) -> Seq<char> {
    match env {
        Some(e) => "; every failure in "@ + e,
        None => Seq::empty(),
    }
}

/// What the history and the quarantine list say, in words.
pub open spec fn history_part(v: Verdict, quarantined: bool) -> Seq<char> {
    match v {
        Verdict::KnownFlake { failed_runs, observed_runs, failures_confined_to } => "known flake ("@
            + decimal(failed_runs as nat) + " of "@ + decimal(observed_runs as nat) + " in history, "@
            + decimal(rate_percent(failed_runs as nat, observed_runs as nat) as nat) + "%"@
            + confined_text(opt_view(failures_confined_to)) + ")"@ + if quarantined {
            ", quarantined"@
        } else {
            Seq::<char>::empty()
        },
        Verdict::FailingSince { commit, failed_runs } => "failing since "@ + short_commit_text(commit@)
            + " (the last "@ + decimal(failed_runs as nat) + " observed runs)"@ + if quarantined {
            ", quarantined"@
        } else {
            Seq::<char>::empty()
        },
        Verdict::Unknown => if quarantined {
            "quarantined (listed in "@ + crate::quarantine::FILE_NAME@ + ")"@
        } else {
            "new (nothing in history)"@
        },
    }
}

/// The marker of a failure's line and its color: `✗` for a real or new
/// failure, `▼` for a regression, `~` for a flake, `⊘` for a failure only
/// the quarantine list knows.
pub open spec fn marker_of(e: Explanation) -> (Seq<char>, Seq<char>) {
    if e.observed == Some(Observed::Real) || e.observed matches Some(Observed::Broken { .. })
        || e.observed matches Some(Observed::Lone { .. }) || e.observed matches Some(
        Observed::FailedDifferently { .. },
    ) {
        ("✗"@, "1;31"@)
    } else if e.verdict is FailingSince {
        ("▼"@, "31"@)
    } else if e.verdict is KnownFlake || e.observed == Some(Observed::FlakyOrOrder)
        || e.observed matches Some(Observed::Flaky { .. }) || e.observed matches Some(
        Observed::FlakyReordered { .. },
    ) || e.observed matches Some(Observed::Monotone { .. }) {
        ("~"@, "33"@)
    } else if e.quarantined {
        ("⊘"@, "33"@)
    } else {
        ("✗"@, "1;31"@)
    }
}

/// One failure's line: marker, identity, what this invocation saw, then
/// what the history and the quarantine list say.
pub open spec fn explanation_line(e: Explanation, colored: bool) -> Seq<char> {
    "  "@ + painted(
        colored,
        marker_of(e).1,
        marker_of(e).0 + " "@ + e.id@ + " — "@ + observed_prefix(e.observed) + history_part(
            e.verdict,
            e.quarantined,
        ),
    )
}

/// Appends a count as a decimal numeral.
fn push_count(out: &mut String, n: usize)
    ensures
        final(out)@ == old(out)@ + decimal(n as nat),
{
    push_decimal(out, n as u128);
}

/// What this invocation saw, followed by a comma, when it saw anything.
pub open spec fn observed_prefix(o: Option<Observed>) -> Seq<char> {
    match o {
        Some(o) => observed_part(o) + ", "@,
        None => Seq::<char>::empty(),
    }
}

/// Appends what this invocation saw (see `observed_prefix`).
fn push_observed(text: &mut String, observed: &Option<Observed>)
    ensures
        final(text)@ == old(text)@ + observed_prefix(*observed),
{
    match observed {
        Some(Observed::Flaky { failed_runs, observed_runs }) => {
            push_str(text, "flaky (");
            push_count(text, *failed_runs);
            push_str(text, " of ");
            push_count(text, *observed_runs);
            push_str(text, " runs now)");
        },
        Some(Observed::FlakyReordered { failed_runs, observed_runs, first_reordered }) => {
            push_str(text, "flaky or order-dependent (");
            push_count(text, *failed_runs);
            push_str(text, " of ");
            push_count(text, *observed_runs);
            push_str(text, " runs now; run ");
            push_count(text, *first_reordered);
            push_str(text, " did not share run 1's order)");
        },
        Some(Observed::Broken { observed_runs }) => {
            push_str(text, "broken (failed all ");
            push_count(text, *observed_runs);
            push_str(text, " runs now)");
        },
        Some(Observed::Monotone { flipped_after_run, started_green }) => {
            if *started_green {
                push_str(text, "green up to run ");
            } else {
                push_str(text, "red up to run ");
            }
            push_count(text, *flipped_after_run);
            if *started_green {
                push_str(text, ", then red for every later run");
            } else {
                push_str(text, ", then green for every later run");
            }
            push_str(text, " (the environment may have changed between runs)");
        },
        Some(Observed::Lone { absent_runs }) => {
            push_str(text, "failed its only observed run (absent from the other ");
            push_count(text, *absent_runs);
            push_str(text, " — a name that changes per run hides flakiness)");
        },
        Some(Observed::Real) => {
            push_str(text, "real (reproduced on re-run)");
        },
        Some(Observed::FlakyOrOrder) => {
            push_str(text, "flaky or order-dependent (passed on re-run in isolation)");
        },
        Some(Observed::FailedDifferently { suite, isolation }) => {
            push_str(text, "failed differently on re-run (");
            push_str(text, suite.as_str());
            push_str(text, " in the suite, ");
            push_str(text, isolation.as_str());
            push_str(text, " in isolation — not a reproduction)");
        },
        Some(Observed::Unverified) => {
            push_str(text, "unverified (the re-run did not cover it)");
        },
        None => {},
    }
    if observed.is_some() {
        push_str(text, ", ");
    }
    assert(final(text)@ =~= old(text)@ + observed_prefix(*observed));
}

/// Appends what the history and the quarantine list say (see
/// `history_part`).
fn push_history_part(text: &mut String, verdict: &Verdict, quarantined: bool)
    ensures
        final(text)@ == old(text)@ + history_part(*verdict, quarantined),
{
    match verdict {
        Verdict::KnownFlake { failed_runs, observed_runs, failures_confined_to } => {
            push_str(text, "known flake (");
            push_count(text, *failed_runs);
            push_str(text, " of ");
            push_count(text, *observed_runs);
            push_str(text, " in history, ");
            let rate = crate::analyzers::flaky::failure_rate_percent(*failed_runs, *observed_runs);
            push_decimal(text, rate as u128);
            push_str(text, "%");
            match failures_confined_to {
                Some(env) => {
                    push_str(text, "; every failure in ");
                    push_str(text, env.as_str());
                },
                None => {},
            }
            push_str(text, ")");
            if quarantined {
                push_str(text, ", quarantined");
            }
        },
        Verdict::FailingSince { commit, failed_runs } => {
            push_str(text, "failing since ");
            push_short_commit(text, commit.as_str());
            push_str(text, " (the last ");
            push_count(text, *failed_runs);
            push_str(text, " observed runs)");
            if quarantined {
                push_str(text, ", quarantined");
            }
        },
        Verdict::Unknown => {
            if quarantined {
                push_str(text, "quarantined (listed in ");
                push_str(text, crate::quarantine::FILE_NAME);
                push_str(text, ")");
            } else {
                push_str(text, "new (nothing in history)");
            }
        },
    }
    assert(final(text)@ =~= old(text)@ + history_part(*verdict, quarantined));
}

/// The marker of a failure's line and its color code.
fn marker(e: &Explanation) -> (m: (&'static str, &'static str))
    ensures
        m.0@ == marker_of(*e).0,
        m.1@ == marker_of(*e).1,
{
    let real_or_broken = match e.observed {
        Some(Observed::Real) => true,
        Some(Observed::Broken { .. }) => true,
        Some(Observed::Lone { .. }) => true,
        Some(Observed::FailedDifferently { .. }) => true,
        _ => false,
    };
    let flaky_seen = match e.observed {
        Some(Observed::FlakyOrOrder) => true,
        Some(Observed::Flaky { .. }) => true,
        Some(Observed::FlakyReordered { .. }) => true,
        Some(Observed::Monotone { .. }) => true,
        _ => false,
    };
    let regression = match &e.verdict {
        Verdict::FailingSince { .. } => true,
        _ => false,
    };
    let known = match &e.verdict {
        Verdict::KnownFlake { .. } => true,
        _ => false,
    };
    if real_or_broken {
        ("✗", "1;31")
    } else if regression {
        ("▼", "31")
    } else if known || flaky_seen {
        ("~", "33")
    } else if e.quarantined {
        ("⊘", "33")
    } else {
        ("✗", "1;31")
    }
}

/// One failure's line.
pub fn explanation_line_of(e: &Explanation, style: Style) -> (line: String)
    ensures
        line@ == explanation_line(*e, style.colored),
{
    let (m, code) = marker(e);
    let mut text = String::new();
    push_str(&mut text, m);
    push_str(&mut text, " ");
    push_str(&mut text, e.id.as_str());
    push_str(&mut text, " — ");
    push_observed(&mut text, &e.observed);
    push_history_part(&mut text, &e.verdict, e.quarantined);
    let painted_text = paint(style.colored, code, text.as_str());
    let mut line = String::new();
    push_str(&mut line, "  ");
    push_str(&mut line, painted_text.as_str());
    assert(text@ =~= marker_of(*e).0 + " "@ + e.id@ + " — "@ + observed_prefix(e.observed)
        + history_part(e.verdict, e.quarantined));
    assert(line@ =~= explanation_line(*e, style.colored));
    line
}

/// The note on what a "new" label rests on when it rests on nothing: a
/// history that was not consulted, one with no earlier observations, or one
/// whose earlier observations all came from a dirty tree.
pub open spec fn gap_note(prior: Option<PriorEvidence>) -> Seq<Seq<char>> {
    match prior {
        None => seq![
            "note: the run history was not consulted: failures are labeled from the quarantine list alone"@,
        ],
        Some(p) => if p.observations == 0 {
            seq![
                "note: the history holds no observations from earlier runs yet: every failure reads as new until they accumulate"@,
            ]
        } else if p.unusable >= p.observations {
            seq![
                "note: all "@ + count_text(p.observations as nat, "earlier observation"@)
                    + " were made on a dirty tree and cannot be evidence — commit or stash to let sooth prove flakiness"@,
            ]
        } else {
            Seq::empty()
        },
    }
}

/// The gap note's lines, dimmed.
pub open spec fn gap_lines_spec(prior: Option<PriorEvidence>, colored: bool) -> Seq<Seq<char>> {
    gap_note(prior).map_values(|n: Seq<char>| painted(colored, "2"@, n))
}

/// The gap note, if the evidence calls for one.
pub fn gap_lines(prior: Option<PriorEvidence>, style: Style) -> (lines: Vec<String>)
    ensures
        line_views(lines@) == gap_lines_spec(prior, style.colored),
{
    let mut lines: Vec<String> = Vec::new();
    let mut note = String::new();
    match prior {
        None => {
            push_str(&mut note, "note: the run history was not consulted: failures are labeled from the quarantine list alone");
        },
        Some(p) => {
            if p.observations == 0 {
                push_str(&mut note, "note: the history holds no observations from earlier runs yet: every failure reads as new until they accumulate");
            } else if p.unusable >= p.observations {
                push_str(&mut note, "note: all ");
                let c = count(p.observations, "earlier observation");
                push_str(&mut note, c.as_str());
                push_str(&mut note, " were made on a dirty tree and cannot be evidence — commit or stash to let sooth prove flakiness");
            } else {
                assert(line_views(lines@) =~= gap_lines_spec(prior, style.colored));
                return lines;
            }
        },
    }
    let line = paint(style.colored, "2", note.as_str());
    let ghost fresh = line@;
    lines.push(line);
    assert(line_views(lines@) =~= seq![fresh]);
    assert(line_views(lines@) =~= gap_lines_spec(prior, style.colored));
    lines
}

/// The counts of a list of explanations.
pub open spec fn counts_of(es: Seq<Explanation>) -> Counts {
    Counts {
        known_flakes: crate::analyzers::explain::count_in(es, 0) as usize,
        failing_since: crate::analyzers::explain::count_in(es, 1) as usize,
        quarantined: crate::analyzers::explain::count_in(es, 2) as usize,
        new: crate::analyzers::explain::count_in(es, 3) as usize,
    }
}

/// The explanation section: the headline, one line per failure, then the
/// gap note; nothing when there is nothing to explain.
pub open spec fn explanation_lines_spec(
    explanation: Option<Seq<Explanation>>,
    prior: Option<PriorEvidence>,
    colored: bool,
) -> Seq<Seq<char>> {
    match explanation {
        None => Seq::empty(),
        Some(es) => if es.len() == 0 {
            Seq::empty()
        } else {
            seq![
                painted(
                    colored,
                    if only_known(counts_of(es)) {
                        "33"@
                    } else {
                        "1;31"@
                    },
                    headline_text(counts_of(es)),
                ),
            ] + es.map_values(|e: Explanation| explanation_line(e, colored)) + gap_lines_spec(
                prior,
                colored,
            )
        },
    }
}

/// The view of an optional list of explanations.
pub open spec fn explanations_view(e: Option<&[Explanation]>) -> Option<Seq<Explanation>> {
    match e {
        Some(es) => Some(es@),
        None => None,
    }
}

/// The run's failures, each labeled with what sooth already knew about it.
pub fn explanation_lines(analyses: &Analyses, style: Style) -> (lines: Vec<String>)
    ensures
        line_views(lines@) == explanation_lines_spec(
            explanations_view(analyses.explanation),
            analyses.history_observations,
            style.colored,
        ),
{
    let mut lines: Vec<String> = Vec::new();
    let explanations = match analyses.explanation {
        Some(es) => es,
        None => {
            assert(line_views(lines@) =~= Seq::<Seq<char>>::empty());
            return lines;
        },
    };
    if explanations.len() == 0 {
        assert(line_views(lines@) =~= Seq::<Seq<char>>::empty());
        return lines;
    }
    let counts = Counts::of(explanations);
    assert(counts == counts_of(explanations@));
    let headline = explanation_headline(&counts);
    let first = if counts.only_known_flakes() {
        style.yellow(headline.as_str())
    } else {
        style.bold_red(headline.as_str())
    };
    lines.push(first);
    let ghost head = line_views(lines@);
    let mut i: usize = 0;
    while i < explanations.len()
        invariant
            i <= explanations@.len(),
            line_views(lines@) == head + explanations@.take(i as int).map_values(
                |e: Explanation| explanation_line(e, style.colored),
            ),
        decreases explanations.len() - i,
    {
        let line = explanation_line_of(&explanations[i], style);
        let ghost prev = line_views(lines@);
        let ghost fresh = line@;
        lines.push(line);
        assert(line_views(lines@) =~= prev.push(fresh));
        i += 1;
        assert(line_views(lines@) =~= head + explanations@.take(i as int).map_values(
            |e: Explanation| explanation_line(e, style.colored),
        ));
    }
    assert(explanations@.take(i as int) =~= explanations@);
    let gap = gap_lines(analyses.history_observations, style);
    let ghost body = line_views(lines@);
    let mut k: usize = 0;
    while k < gap.len()
        invariant
            k <= gap@.len(),
            line_views(lines@) == body + line_views(gap@).take(k as int),
        decreases gap.len() - k,
    {
        let line = copy_string(&gap[k]);
        let ghost prev = line_views(lines@);
        let ghost fresh = line@;
        lines.push(line);
        assert(line_views(lines@) =~= prev.push(fresh));
        k += 1;
        assert(line_views(lines@) =~= body + line_views(gap@).take(k as int));
    }
    assert(line_views(gap@).take(k as int) =~= line_views(gap@));
    assert(line_views(lines@) =~= explanation_lines_spec(
        explanations_view(analyses.explanation),
        analyses.history_observations,
        style.colored,
    ));
    lines
}

/// Why a run whose failures are all known still exits 1: the pardon rests on
/// the committed list, never on sooth's own evidence.
pub open spec fn pardon_gap_text(colored: bool) -> Seq<char> {
    painted(
        colored,
        "33"@,
        "note: not every failure above is in "@ + crate::quarantine::FILE_NAME@
            + ", so --fail-on-flaky pardoned nothing — add the ids to pardon them"@,
    )
}

/// The pardon-gap note.
pub fn pardon_gap_line(style: Style) -> (line: String)
    ensures
        line@ == pardon_gap_text(style.colored),
{
    let mut text = String::new();
    push_str(&mut text, "note: not every failure above is in ");
    push_str(&mut text, crate::quarantine::FILE_NAME);
    push_str(&mut text, ", so --fail-on-flaky pardoned nothing — add the ids to pardon them");
    let line = style.yellow(text.as_str());
    assert(line@ =~= pardon_gap_text(style.colored));
    line
}

/// The failures `--fail-on-flaky` pardoned via the quarantine file.
pub open spec fn pardoned_lines_spec(pardoned: Option<Seq<String>>, colored: bool) -> Seq<Seq<char>> {
    match pardoned {
        None => Seq::empty(),
        Some(ids) => seq![
            painted(
                colored,
                "33"@,
                "quarantined failures (pardoned by "@ + crate::quarantine::FILE_NAME@ + "):"@,
            ),
        ] + ids.map_values(|id: String| "  - "@ + id@),
    }
}

/// The view of an optional list of strings.
pub open spec fn strings_view(v: Option<&[String]>) -> Option<Seq<String>> {
    match v {
        Some(ids) => Some(ids@),
        None => None,
    }
}

/// The pardoned failures' lines.
pub fn pardoned_lines(pardoned: Option<&[String]>, style: Style) -> (lines: Vec<String>)
    ensures
        line_views(lines@) == pardoned_lines_spec(strings_view(pardoned), style.colored),
{
    let mut lines: Vec<String> = Vec::new();
    let ids = match pardoned {
        Some(ids) => ids,
        None => {
            assert(line_views(lines@) =~= Seq::<Seq<char>>::empty());
            return lines;
        },
    };
    let mut heading = String::new();
    push_str(&mut heading, "quarantined failures (pardoned by ");
    push_str(&mut heading, crate::quarantine::FILE_NAME);
    push_str(&mut heading, "):");
    lines.push(style.yellow(heading.as_str()));
    let ghost head = line_views(lines@);
    let mut i: usize = 0;
    while i < ids.len()
        invariant
            i <= ids@.len(),
            line_views(lines@) == head + ids@.take(i as int).map_values(|id: String| "  - "@ + id@),
        decreases ids.len() - i,
    {
        let mut line = String::new();
        push_str(&mut line, "  - ");
        push_str(&mut line, ids[i].as_str());
        let ghost prev = line_views(lines@);
        let ghost fresh = line@;
        lines.push(line);
        assert(line_views(lines@) =~= prev.push(fresh));
        i += 1;
        assert(line_views(lines@) =~= head + ids@.take(i as int).map_values(|id: String| "  - "@ + id@));
    }
    assert(ids@.take(i as int) =~= ids@);
    assert(line_views(lines@) =~= pardoned_lines_spec(strings_view(pardoned), style.colored));
    lines
}

/// The ids the explanation section already labeled.
pub open spec fn explained_ids(explanation: Option<Seq<Explanation>>) -> Seq<Seq<char>> {
    match explanation {
        Some(es) => es.map_values(|e: Explanation| e.id@),
        None => Seq::empty(),
    }
}

/// Proven flakes the explanation did not already label.
pub open spec fn flake_unexplained(ids: Seq<Seq<char>>) -> spec_fn(HistoricFlake) -> bool {
    |f: HistoricFlake| !ids.contains(f.outcomes.id@)
}

/// Regression pointers the explanation did not already label.
pub open spec fn since_unexplained(ids: Seq<Seq<char>>) -> spec_fn(FailingSince) -> bool {
    |f: FailingSince| !ids.contains(f.id@)
}

/// One proven flake of the history section.
pub open spec fn flake_line(index: nat, f: HistoricFlake, colored: bool) -> Seq<char> {
    let failed = f.outcomes.failed as nat;
    let observed = (f.outcomes.passed + f.outcomes.failed) as nat;
    "  "@ + decimal(index + 1) + ". "@ + f.outcomes.id@ + " "@ + painted(
        colored,
        "31"@,
        "failed "@ + decimal(failed) + " of "@ + decimal(observed) + " observed runs ("@ + decimal(
            rate_percent(failed, observed) as nat,
        ) + "%"@ + confined_text(opt_view(f.failures_confined_to)) + ")"@,
    )
}

/// One regression pointer of the history section.
pub open spec fn since_line(f: FailingSince, colored: bool) -> Seq<char> {
    "  ▼ "@ + f.id@ + " "@ + painted(
        colored,
        "2"@,
        "(since "@ + short_commit_text(f.commit@) + ", failed the last "@ + decimal(
            f.failed_runs as nat,
        ) + " observed runs)"@,
    )
}

/// The heading of the proven flakes: "also" when some failures of this run
/// were already explained.
pub open spec fn flake_heading(ids: Seq<Seq<char>>) -> Seq<char> {
    if ids.len() == 0 {
        "flaky per history (mixed outcomes on one commit):"@
    } else {
        "also flaky per history (these did not fail this run):"@
    }
}

/// The history section: proven flakes ranked, then regression pointers,
/// leaving out the tests the explanation already labeled. Nothing when there
/// is nothing to say.
pub open spec fn history_lines_spec(
    history: Option<HistoryAnalysis>,
    explanation: Option<Seq<Explanation>>,
    colored: bool,
) -> Seq<Seq<char>> {
    match history {
        None => Seq::empty(),
        Some(h) => {
            let ids = explained_ids(explanation);
            let flakes = h.flaky@.filter(flake_unexplained(ids));
            let since = h.failing_since@.filter(since_unexplained(ids));
            (if flakes.len() > 0 {
                seq![painted(colored, "1;31"@, flake_heading(ids))] + Seq::new(
                    flakes.len(),
                    |j: int| flake_line(j as nat, flakes[j], colored),
                )
            } else {
                Seq::<Seq<char>>::empty()
            }) + (if since.len() > 0 {
                seq![painted(colored, "31"@, "failing since a commit boundary:"@)]
                    + since.map_values(|f: FailingSince| since_line(f, colored))
            } else {
                Seq::<Seq<char>>::empty()
            })
        },
    }
}

/// Failed over observed in percent, computed without overflow.
fn percent(failed: usize, passed: usize) -> (r: u32)
    ensures
        r == rate_percent(failed as nat, (passed + failed) as nat),
{
    let observed: u128 = passed as u128 + failed as u128;
    if observed == 0 {
        return 0;
    }
    let numerator: u128 = 200 * (failed as u128) + observed;
    let r: u128 = numerator / (2 * observed);
    if r > u32::MAX as u128 {
        u32::MAX
    } else {
        r as u32
    }
}

/// Whether an id is among `ids`.
fn listed_in(ids: &Vec<String>, id: &str) -> (r: bool)
    ensures
        r == line_views(ids@).contains(id@),
{
    let mut i: usize = 0;
    while i < ids.len()
        invariant
            i <= ids@.len(),
            forall|j: int| 0 <= j < i ==> line_views(ids@)[j] != id@,
        decreases ids.len() - i,
    {
        if crate::text::str_eq(ids[i].as_str(), id) {
            assert(line_views(ids@)[i as int] == id@);
            return true;
        }
        i += 1;
    }
    false
}

/// The ids of the explanations, as strings.
fn explanation_ids(explanation: Option<&[Explanation]>) -> (ids: Vec<String>)
    ensures
        line_views(ids@) == explained_ids(explanations_view(explanation)),
{
    let mut ids: Vec<String> = Vec::new();
    match explanation {
        Some(es) => {
            let mut i: usize = 0;
            while i < es.len()
                invariant
                    i <= es@.len(),
                    line_views(ids@) == es@.take(i as int).map_values(|e: Explanation| e.id@),
                decreases es.len() - i,
            {
                let id = copy_string(&es[i].id);
                let ghost prev = line_views(ids@);
                let ghost fresh = id@;
                ids.push(id);
                assert(line_views(ids@) =~= prev.push(fresh));
                i += 1;
                assert(line_views(ids@) =~= es@.take(i as int).map_values(|e: Explanation| e.id@));
            }
            assert(es@.take(i as int) =~= es@);
        },
        None => {},
    }
    assert(line_views(ids@) =~= explained_ids(explanations_view(explanation)));
    ids
}

/// The line of one proven flake.
fn flake_line_of(index: usize, f: &HistoricFlake, style: Style) -> (line: String)
    ensures
        line@ == flake_line(index as nat, *f, style.colored),
{
    let mut detail = String::new();
    push_str(&mut detail, "failed ");
    push_count(&mut detail, f.outcomes.failed);
    push_str(&mut detail, " of ");
    push_decimal(&mut detail, f.outcomes.passed as u128 + f.outcomes.failed as u128);
    push_str(&mut detail, " observed runs (");
    let rate = percent(f.outcomes.failed, f.outcomes.passed);
    push_decimal(&mut detail, rate as u128);
    push_str(&mut detail, "%");
    match &f.failures_confined_to {
        Some(env) => {
            push_str(&mut detail, "; every failure in ");
            push_str(&mut detail, env.as_str());
        },
        None => {},
    }
    push_str(&mut detail, ")");
    let red = style.red(detail.as_str());
    let mut line = String::new();
    push_str(&mut line, "  ");
    push_decimal(&mut line, index as u128 + 1);
    push_str(&mut line, ". ");
    push_str(&mut line, f.outcomes.id.as_str());
    push_str(&mut line, " ");
    push_str(&mut line, red.as_str());
    assert(line@ =~= flake_line(index as nat, *f, style.colored));
    line
}

/// The line of one regression pointer.
fn since_line_of(f: &FailingSince, style: Style) -> (line: String)
    ensures
        line@ == since_line(*f, style.colored),
{
    let mut detail = String::new();
    push_str(&mut detail, "(since ");
    push_short_commit(&mut detail, f.commit.as_str());
    push_str(&mut detail, ", failed the last ");
    push_count(&mut detail, f.failed_runs);
    push_str(&mut detail, " observed runs)");
    let dimmed = style.dim(detail.as_str());
    let mut line = String::new();
    push_str(&mut line, "  ▼ ");
    push_str(&mut line, f.id.as_str());
    push_str(&mut line, " ");
    push_str(&mut line, dimmed.as_str());
    assert(line@ =~= since_line(*f, style.colored));
    line
}

/// The view of an optional history analysis.
pub open spec fn history_view(h: Option<&HistoryAnalysis>) -> Option<HistoryAnalysis> {
    match h {
        Some(a) => Some(*a),
        None => None,
    }
}

/// The history pass's findings, without the tests this run's explanation
/// already carries.
pub fn history_lines(analyses: &Analyses, style: Style) -> (lines: Vec<String>)
    ensures
        line_views(lines@) == history_lines_spec(
            history_view(analyses.history),
            explanations_view(analyses.explanation),
            style.colored,
        ),
{
    let mut lines: Vec<String> = Vec::new();
    let pass = match analyses.history {
        Some(h) => h,
        None => {
            assert(line_views(lines@) =~= Seq::<Seq<char>>::empty());
            return lines;
        },
    };
    let ids = explanation_ids(analyses.explanation);
    let ghost idv = line_views(ids@);
    let ghost flakes = pass.flaky@.filter(flake_unexplained(idv));
    let mut flake_body: Vec<String> = Vec::new();
    let mut i: usize = 0;
    while i < pass.flaky.len()
        invariant
            i <= pass.flaky@.len(),
            idv == line_views(ids@),
            line_views(flake_body@) == Seq::new(
                pass.flaky@.take(i as int).filter(flake_unexplained(idv)).len(),
                |j: int| flake_line(j as nat, pass.flaky@.take(i as int).filter(flake_unexplained(idv))[j], style.colored),
            ),
            flake_body@.len() <= i,
        decreases pass.flaky.len() - i,
    {
        let ghost before = pass.flaky@.take(i as int);
        assert(pass.flaky@.take(i + 1) =~= before.push(pass.flaky@[i as int]));
        proof {
            before.lemma_filter_push(pass.flaky@[i as int], flake_unexplained(idv));
        }
        let f = &pass.flaky[i];
        if !listed_in(&ids, f.outcomes.id.as_str()) {
            let line = flake_line_of(flake_body.len(), f, style);
            let ghost prev = line_views(flake_body@);
            let ghost fresh = line@;
            flake_body.push(line);
            assert(line_views(flake_body@) =~= prev.push(fresh));
        }
        i += 1;
        assert(line_views(flake_body@) =~= Seq::new(
            pass.flaky@.take(i as int).filter(flake_unexplained(idv)).len(),
            |j: int| flake_line(j as nat, pass.flaky@.take(i as int).filter(flake_unexplained(idv))[j], style.colored),
        ));
    }
    assert(pass.flaky@.take(i as int) =~= pass.flaky@);
    let mut since_body: Vec<String> = Vec::new();
    let mut k: usize = 0;
    while k < pass.failing_since.len()
        invariant
            k <= pass.failing_since@.len(),
            idv == line_views(ids@),
            line_views(since_body@) == pass.failing_since@.take(k as int).filter(since_unexplained(idv)).map_values(
                |f: FailingSince| since_line(f, style.colored),
            ),
        decreases pass.failing_since.len() - k,
    {
        let ghost before = pass.failing_since@.take(k as int);
        assert(pass.failing_since@.take(k + 1) =~= before.push(pass.failing_since@[k as int]));
        proof {
            before.lemma_filter_push(pass.failing_since@[k as int], since_unexplained(idv));
        }
        let f = &pass.failing_since[k];
        if !listed_in(&ids, f.id.as_str()) {
            let line = since_line_of(f, style);
            let ghost prev = line_views(since_body@);
            let ghost fresh = line@;
            since_body.push(line);
            assert(line_views(since_body@) =~= prev.push(fresh));
        }
        k += 1;
        assert(line_views(since_body@) =~= pass.failing_since@.take(k as int).filter(since_unexplained(idv)).map_values(
            |f: FailingSince| since_line(f, style.colored),
        ));
    }
    assert(pass.failing_since@.take(k as int) =~= pass.failing_since@);
    if flake_body.len() > 0 {
        let heading = if ids.len() == 0 {
            style.bold_red("flaky per history (mixed outcomes on one commit):")
        } else {
            style.bold_red("also flaky per history (these did not fail this run):")
        };
        lines.push(heading);
        lines.append(&mut flake_body);
    }
    let ghost mid = line_views(lines@);
    if since_body.len() > 0 {
        lines.push(style.red("failing since a commit boundary:"));
        lines.append(&mut since_body);
    }
    assert(line_views(lines@) =~= history_lines_spec(
        history_view(analyses.history),
        explanations_view(analyses.explanation),
        style.colored,
    ));
    lines
}

/// One flaky test of the in-run section.
pub open spec fn flaky_test_line(index: nat, t: TestOutcomes, colored: bool) -> Seq<char> {
    let failed = t.failed as nat;
    let observed = (t.passed + t.failed) as nat;
    "  "@ + decimal(index + 1) + ". "@ + t.id@ + " "@ + painted(
        colored,
        "31"@,
        "failed "@ + decimal(failed) + " of "@ + decimal(observed) + " observed runs ("@ + decimal(
            rate_percent(failed, observed) as nat,
        ) + "%)"@,
    )
}

/// One broken test of the in-run section.
pub open spec fn broken_line(t: TestOutcomes, colored: bool) -> Seq<char> {
    "  - "@ + t.id@ + " "@ + painted(
        colored,
        "2"@,
        "(failed all "@ + decimal((t.passed + t.failed) as nat) + " observed runs)"@,
    )
}

/// What the repeated runs showed: the flaky tests ranked, then the broken
/// ones. Nothing when the pass did not run or found neither.
pub open spec fn flaky_lines_spec(analysis: Option<FlakyAnalysis>, colored: bool) -> Seq<Seq<char>> {
    match analysis {
        None => Seq::empty(),
        Some(a) => (if a.flaky@.len() > 0 {
            seq![painted(colored, "1;31"@, "flaky tests (mixed outcomes):"@)] + Seq::new(
                a.flaky@.len(),
                |j: int| flaky_test_line(j as nat, a.flaky@[j], colored),
            )
        } else {
            Seq::<Seq<char>>::empty()
        }) + (if a.broken@.len() > 0 {
            seq![painted(colored, "31"@, "consistently failing (broken, not flaky):"@)]
                + a.broken@.map_values(|t: TestOutcomes| broken_line(t, colored))
        } else {
            Seq::<Seq<char>>::empty()
        }),
    }
}

/// The line of one flaky test.
fn flaky_test_line_of(index: usize, t: &TestOutcomes, style: Style) -> (line: String)
    ensures
        line@ == flaky_test_line(index as nat, *t, style.colored),
{
    let mut detail = String::new();
    push_str(&mut detail, "failed ");
    push_count(&mut detail, t.failed);
    push_str(&mut detail, " of ");
    push_decimal(&mut detail, t.passed as u128 + t.failed as u128);
    push_str(&mut detail, " observed runs (");
    let rate = percent(t.failed, t.passed);
    push_decimal(&mut detail, rate as u128);
    push_str(&mut detail, "%)");
    let red = style.red(detail.as_str());
    let mut line = String::new();
    push_str(&mut line, "  ");
    push_decimal(&mut line, index as u128 + 1);
    push_str(&mut line, ". ");
    push_str(&mut line, t.id.as_str());
    push_str(&mut line, " ");
    push_str(&mut line, red.as_str());
    assert(line@ =~= flaky_test_line(index as nat, *t, style.colored));
    line
}

/// The line of one broken test.
fn broken_line_of(t: &TestOutcomes, style: Style) -> (line: String)
    ensures
        line@ == broken_line(*t, style.colored),
{
    let mut detail = String::new();
    push_str(&mut detail, "(failed all ");
    push_decimal(&mut detail, t.passed as u128 + t.failed as u128);
    push_str(&mut detail, " observed runs)");
    let dimmed = style.dim(detail.as_str());
    let mut line = String::new();
    push_str(&mut line, "  - ");
    push_str(&mut line, t.id.as_str());
    push_str(&mut line, " ");
    push_str(&mut line, dimmed.as_str());
    assert(line@ =~= broken_line(*t, style.colored));
    line
}

/// The in-run flakiness section's lines.
pub fn flaky_lines(analysis: Option<&FlakyAnalysis>, style: Style) -> (lines: Vec<String>)
    ensures
        line_views(lines@) == flaky_lines_spec(flaky_view(analysis), style.colored),
{
    let mut lines: Vec<String> = Vec::new();
    let a = match analysis {
        Some(a) => a,
        None => {
            assert(line_views(lines@) =~= Seq::<Seq<char>>::empty());
            return lines;
        },
    };
    if a.flaky.len() > 0 {
        lines.push(style.bold_red("flaky tests (mixed outcomes):"));
        let ghost head = line_views(lines@);
        let mut i: usize = 0;
        while i < a.flaky.len()
            invariant
                i <= a.flaky@.len(),
                line_views(lines@) == head + Seq::new(
                    i as nat,
                    |j: int| flaky_test_line(j as nat, a.flaky@[j], style.colored),
                ),
            decreases a.flaky.len() - i,
        {
            let line = flaky_test_line_of(i, &a.flaky[i], style);
            let ghost prev = line_views(lines@);
            let ghost fresh = line@;
            lines.push(line);
            assert(line_views(lines@) =~= prev.push(fresh));
            i += 1;
            assert(line_views(lines@) =~= head + Seq::new(
                i as nat,
                |j: int| flaky_test_line(j as nat, a.flaky@[j], style.colored),
            ));
        }
    }
    let ghost flaky_part = if a.flaky@.len() > 0 {
        seq![painted(style.colored, "1;31"@, "flaky tests (mixed outcomes):"@)] + Seq::new(
            a.flaky@.len(),
            |j: int| flaky_test_line(j as nat, a.flaky@[j], style.colored),
        )
    } else {
        Seq::<Seq<char>>::empty()
    };
    assert(line_views(lines@) =~= flaky_part);
    if a.broken.len() > 0 {
        lines.push(style.red("consistently failing (broken, not flaky):"));
        let ghost head = line_views(lines@);
        let mut k: usize = 0;
        while k < a.broken.len()
            invariant
                k <= a.broken@.len(),
                line_views(lines@) == head + a.broken@.take(k as int).map_values(
                    |t: TestOutcomes| broken_line(t, style.colored),
                ),
            decreases a.broken.len() - k,
        {
            let line = broken_line_of(&a.broken[k], style);
            let ghost prev = line_views(lines@);
            let ghost fresh = line@;
            lines.push(line);
            assert(line_views(lines@) =~= prev.push(fresh));
            k += 1;
            assert(line_views(lines@) =~= head + a.broken@.take(k as int).map_values(
                |t: TestOutcomes| broken_line(t, style.colored),
            ));
        }
        assert(a.broken@.take(k as int) =~= a.broken@);
    }
    let ghost broken_part = if a.broken@.len() > 0 {
        seq![painted(style.colored, "31"@, "consistently failing (broken, not flaky):"@)]
            + a.broken@.map_values(|t: TestOutcomes| broken_line(t, style.colored))
    } else {
        Seq::<Seq<char>>::empty()
    };
    assert(line_views(lines@) =~= flaky_part + broken_part);
    assert(flaky_lines_spec(flaky_view(analysis), style.colored) == flaky_part + broken_part);
    lines
}

/// A list of ids under a heading; nothing when the list is empty.
pub open spec fn id_section(ids: Seq<String>, heading: Seq<char>) -> Seq<Seq<char>> {
    if ids.len() > 0 {
        seq![heading] + ids.map_values(|id: String| "  - "@ + id@)
    } else {
        Seq::empty()
    }
}

/// What verification found: the real failures, the flaky or
/// order-dependent ones, and the ones the re-run did not cover. Nothing when
/// verification did not run.
pub open spec fn verification_lines_spec(verdict: Option<verify::Verdict>, colored: bool) -> Seq<Seq<char>> {
    match verdict {
        None => Seq::empty(),
        Some(v) => id_section(v.real@, painted(colored, "1;31"@, "real failures (reproduced on re-run):"@))
            + id_section(
            v.flaky_or_order@,
            painted(colored, "33"@, "flaky or order-dependent (passed on re-run in isolation):"@),
        ) + id_section(v.unverified@, painted(colored, "2"@, "unverified (the re-run did not cover these):"@)),
    }
}

/// Appends a list of ids under a heading, when the list is not empty.
fn push_id_section(lines: &mut Vec<String>, ids: &Vec<String>, heading: String)
    ensures
        line_views(final(lines)@) == line_views(old(lines)@) + id_section(ids@, heading@),
{
    if ids.len() == 0 {
        assert(line_views(old(lines)@) + id_section(ids@, heading@) =~= line_views(old(lines)@));
        return;
    }
    let ghost start = line_views(lines@);
    let ghost h = heading@;
    lines.push(heading);
    assert(line_views(lines@) =~= start + seq![h]);
    let mut i: usize = 0;
    while i < ids.len()
        invariant
            i <= ids@.len(),
            line_views(lines@) == start + seq![h] + ids@.take(i as int).map_values(|id: String| "  - "@ + id@),
        decreases ids.len() - i,
    {
        let mut line = String::new();
        push_str(&mut line, "  - ");
        push_str(&mut line, ids[i].as_str());
        let ghost prev = line_views(lines@);
        let ghost fresh = line@;
        lines.push(line);
        assert(line_views(lines@) =~= prev.push(fresh));
        i += 1;
        assert(line_views(lines@) =~= start + seq![h] + ids@.take(i as int).map_values(|id: String| "  - "@ + id@));
    }
    assert(ids@.take(i as int) =~= ids@);
    assert(line_views(lines@) =~= start + id_section(ids@, h));
}

/// The verification section's lines.
pub fn verification_lines(verdict: Option<&verify::Verdict>, style: Style) -> (lines: Vec<String>)
    ensures
        line_views(lines@) == verification_lines_spec(verdict_view(verdict), style.colored),
{
    let mut lines: Vec<String> = Vec::new();
    match verdict {
        None => {
            assert(line_views(lines@) =~= Seq::<Seq<char>>::empty());
        },
        Some(v) => {
            push_id_section(&mut lines, &v.real, style.bold_red("real failures (reproduced on re-run):"));
            push_id_section(
                &mut lines,
                &v.flaky_or_order,
                style.yellow("flaky or order-dependent (passed on re-run in isolation):"),
            );
            push_id_section(&mut lines, &v.unverified, style.dim("unverified (the re-run did not cover these):"));
            assert(line_views(lines@) =~= verification_lines_spec(verdict_view(verdict), style.colored));
        },
    }
    lines
}

/// A control character (`char::is_control`: the C0 and C1 blocks and DEL).
pub open spec fn is_control(c: char) -> bool {
    c <= '\u{1f}' || ('\u{7f}' <= c && c <= '\u{9f}')
}

/// The lowercase hexadecimal digit of `d` (below sixteen).
pub open spec fn hex_digit(d: nat) -> char {
    if d < 10 {
        crate::text::digit_char(d)
    } else if d == 10 {
        'a'
    } else if d == 11 {
        'b'
    } else if d == 12 {
        'c'
    } else if d == 13 {
        'd'
    } else if d == 14 {
        'e'
    } else {
        'f'
    }
}

/// `n` as four lowercase hexadecimal digits.
pub open spec fn hex4(n: nat) -> Seq<char> {
    seq![hex_digit((n / 4096) % 16), hex_digit((n / 256) % 16), hex_digit((n / 16) % 16), hex_digit(n % 16)]
}

/// How one character is written inside a JSON string.
pub open spec fn escape_char(c: char) -> Seq<char> {
    if c == '"' {
        seq!['\\', '"']
    } else if c == '\\' {
        seq!['\\', '\\']
    } else if c == '\n' {
        seq!['\\', 'n']
    } else if c == '\r' {
        seq!['\\', 'r']
    } else if c == '\t' {
        seq!['\\', 't']
    } else if is_control(c) {
        seq!['\\', 'u'] + hex4((c as u32) as nat)
    } else {
        seq![c]
    }
}

/// `s` written inside a JSON string.
pub open spec fn escaped(s: Seq<char>) -> Seq<char>
    decreases s.len(),
{
    if s.len() == 0 {
        Seq::empty()
    } else {
        escaped(s.drop_last()) + escape_char(s.last())
    }
}

/// The hexadecimal digit of `d`.
pub fn hex_digit_exec(d: u32) -> (c: char)
    requires
        d < 16,
    ensures
        c == hex_digit(d as nat),
{
    if d < 10 {
        crate::text::digit(d as u64)
    } else if d == 10 {
        'a'
    } else if d == 11 {
        'b'
    } else if d == 12 {
        'c'
    } else if d == 13 {
        'd'
    } else if d == 14 {
        'e'
    } else {
        'f'
    }
}

/// Escape `value` for a JSON string: quotes, backslashes and the common
/// whitespace escapes, every other control character as `\u00XX`.
pub fn json_escape(value: &str) -> (escaped_value: String)
    ensures
        escaped_value@ == escaped(value@),
{
    let chars = chars_of(value);
    let mut out = String::new();
    let mut i: usize = 0;
    while i < chars.len()
        invariant
            i <= chars.len(),
            chars@ == value@,
            out@ == escaped(chars@.take(i as int)),
        decreases chars.len() - i,
    {
        let c = chars[i];
        assert(chars@.take(i + 1).drop_last() =~= chars@.take(i as int));
        let ghost before = out@;
        if c == '"' {
            push_str(&mut out, "\\\"");
            proof { reveal_strlit("\\\""); }
            assert(out@ =~= before + escape_char(c));
        } else if c == '\\' {
            push_str(&mut out, "\\\\");
            proof { reveal_strlit("\\\\"); }
        } else if c == '\n' {
            push_str(&mut out, "\\n");
            proof { reveal_strlit("\\n"); }
        } else if c == '\r' {
            push_str(&mut out, "\\r");
            proof { reveal_strlit("\\r"); }
        } else if c == '\t' {
            push_str(&mut out, "\\t");
            proof { reveal_strlit("\\t"); }
        } else if c <= '\u{1f}' || ('\u{7f}' <= c && c <= '\u{9f}') {
            let n = c as u32;
            let h1 = hex_digit_exec((n / 4096) % 16);
            let h2 = hex_digit_exec((n / 256) % 16);
            let h3 = hex_digit_exec((n / 16) % 16);
            let h4 = hex_digit_exec(n % 16);
            push_char(&mut out, '\\');
            push_char(&mut out, 'u');
            push_char(&mut out, h1);
            push_char(&mut out, h2);
            push_char(&mut out, h3);
            push_char(&mut out, h4);
            assert(hex4((c as u32) as nat) == seq![h1, h2, h3, h4]);
            assert(out@ =~= before + seq!['\\', 'u', h1, h2, h3, h4]);
            assert(is_control(c));
            assert(out@ =~= before + escape_char(c));
        } else {
            push_char(&mut out, c);
        }
        assert(out@ =~= before + escape_char(c));
        i += 1;
    }
    assert(chars@.take(i as int) =~= chars@);
    out
}


/// `true` or `false`.
pub open spec fn bool_text(b: bool) -> Seq<char> {
    if b {
        "true"@
    } else {
        "false"@
    }
}

/// A JSON string holding `s`.
pub open spec fn quoted(s: Seq<char>) -> Seq<char> {
    "\""@ + escaped(s) + "\""@
}

/// Appends `true` or `false`.
fn push_bool(out: &mut String, b: bool)
    ensures
        final(out)@ == old(out)@ + bool_text(b),
{
    if b {
        push_str(out, "true");
    } else {
        push_str(out, "false");
    }
}

/// Appends `s` as a JSON string.
fn push_quoted(out: &mut String, s: &str)
    ensures
        final(out)@ == old(out)@ + quoted(s@),
{
    push_str(out, "\"");
    let e = json_escape(s);
    push_str(out, e.as_str());
    push_str(out, "\"");
    assert(final(out)@ =~= old(out)@ + quoted(s@));
}

/// One run in the JSON.
pub open spec fn run_entry(o: RunOutcome) -> Seq<char> {
    "{\"exit_code\":"@ + match o.exit_code {
        Some(c) => signed_decimal(c as int),
        None => "null"@,
    } + ",\"success\":"@ + bool_text(o.success) + ",\"duration_seconds\":"@ + seconds_text(
        o.duration as nat,
    ) + "}"@
}

/// One of the slowest tests in the JSON.
pub open spec fn slow_entry(e: (Seq<char>, nat)) -> Seq<char> {
    "{\"name\":"@ + quoted(e.0) + ",\"duration_seconds\":"@ + seconds_text(e.1) + "}"@
}

/// One test's outcome counts in the JSON.
pub open spec fn outcome_entry(t: TestOutcomes) -> Seq<char> {
    "{\"name\":"@ + quoted(t.id@) + ",\"failed_runs\":"@ + decimal(t.failed as nat)
        + ",\"observed_runs\":"@ + decimal((t.passed + t.failed) as nat) + "}"@
}

/// One regression pointer in the JSON.
pub open spec fn since_entry(f: FailingSince) -> Seq<char> {
    "{\"name\":"@ + quoted(f.id@) + ",\"commit\":"@ + quoted(f.commit@) + ",\"failed_runs\":"@
        + decimal(f.failed_runs as nat) + "}"@
}

/// A comma-joined array body of quoted ids.
pub open spec fn id_entries(ids: Seq<String>) -> Seq<char> {
    joined(ids.map_values(|s: String| quoted(s@)), ","@)
}

/// One explained failure in the JSON: `verdict` names the category it was
/// counted in, `quarantined` the label beside it.
pub open spec fn explanation_entry(e: Explanation) -> Seq<char> {
    let head = "{\"name\":"@ + quoted(e.id@) + ",\"verdict\":"@;
    match e.verdict {
        Verdict::KnownFlake { failed_runs, observed_runs, .. } => head + "\"known_flake\",\"quarantined\":"@
            + bool_text(e.quarantined) + ",\"failed_runs\":"@ + decimal(failed_runs as nat)
            + ",\"observed_runs\":"@ + decimal(observed_runs as nat) + "}"@,
        Verdict::FailingSince { commit, failed_runs } => head + "\"failing_since\",\"quarantined\":"@
            + bool_text(e.quarantined) + ",\"commit\":"@ + quoted(commit@) + ",\"failed_runs\":"@
            + decimal(failed_runs as nat) + "}"@,
        Verdict::Unknown => head + if e.quarantined {
            "\"quarantined\""@
        } else {
            "\"new\""@
        } + ",\"quarantined\":"@ + bool_text(e.quarantined) + "}"@,
    }
}

/// The explanation object both JSON shapes share.
pub open spec fn explanation_object_text(es: Seq<Explanation>) -> Seq<char> {
    let c = counts_of(es);
    "{\"failures\":["@ + joined(es.map_values(|e: Explanation| explanation_entry(e)), ","@)
        + "],\"counts\":{\"known_flakes\":"@ + decimal(c.known_flakes as nat)
        + ",\"failing_since\":"@ + decimal(c.failing_since as nat) + ",\"quarantined\":"@ + decimal(
        c.quarantined as nat,
    ) + ",\"new\":"@ + decimal(c.new as nat) + "},\"only_known_flakes\":"@ + bool_text(
        only_known(c),
    ) + "}"@
}

/// The active pass's members, when it ran.
pub open spec fn active_text(flaky: Option<FlakyAnalysis>) -> Seq<char> {
    match flaky {
        Some(a) => ",\"flaky\":["@ + joined(a.flaky@.map_values(|t: TestOutcomes| outcome_entry(t)), ","@)
            + "],\"broken\":["@ + joined(a.broken@.map_values(|t: TestOutcomes| outcome_entry(t)), ","@)
            + "],\"reordered_runs\":["@ + joined(a.reordered_runs@.map_values(|r: usize| decimal(r as nat)), ","@)
            + "]"@,
        None => Seq::empty(),
    }
}

/// The history pass's member, when it ran.
pub open spec fn history_text(history: Option<HistoryAnalysis>) -> Seq<char> {
    match history {
        Some(h) => ",\"history\":{\"flaky\":["@ + joined(
            h.flaky@.map_values(|f: HistoricFlake| flake_entry(f)),
            ","@,
        ) + "],\"failing_since\":["@ + joined(
            h.failing_since@.map_values(|f: FailingSince| since_entry(f)),
            ","@,
        ) + "]}"@,
        None => Seq::empty(),
    }
}

/// Verification's member, when it ran.
pub open spec fn verification_text(v: Option<verify::Verdict>) -> Seq<char> {
    match v {
        Some(v) => ",\"verification\":{\"real\":["@ + id_entries(v.real@)
            + "],\"flaky_or_order_dependent\":["@ + id_entries(v.flaky_or_order@) + "],\"unverified\":["@
            + id_entries(v.unverified@) + "]}"@,
        None => Seq::empty(),
    }
}

/// The quarantine member, when `--fail-on-flaky` pardoned the run.
pub open spec fn quarantine_text(pardoned: Option<Seq<String>>) -> Seq<char> {
    match pardoned {
        Some(ids) => ",\"quarantine\":{\"pardoned\":["@ + id_entries(ids) + "]}"@,
        None => Seq::empty(),
    }
}

/// The explanation member, when the run failed and had failures to label.
pub open spec fn explanation_member(explanation: Option<Seq<Explanation>>) -> Seq<char> {
    match explanation {
        Some(es) => ",\"explanation\":"@ + explanation_object_text(es),
        None => Seq::empty(),
    }
}

/// The selection member, when `--changed` selected the tests.
pub open spec fn gate_text(gate: Option<Selection>) -> Seq<char> {
    match gate {
        Some(g) => ",\"gate\":{\"base\":"@ + quoted(g.base@) + ",\"files\":["@ + id_entries(g.files@)
            + "]}"@,
        None => Seq::empty(),
    }
}

/// The head every JSON document starts with.
pub open spec fn json_head() -> Seq<char> {
    "{\"schema_version\":"@ + decimal(JSON_SCHEMA_VERSION as nat) + ",\"sooth_version\":\""@
        + SOOTH_VERSION@ + "\""@
}

/// The whole machine output of a run: the runs, the report's summary, and a
/// member for each pass that ran.
pub open spec fn json_text(
    outcomes: Seq<RunOutcome>,
    s: JunitSummary,
    flaky: Option<FlakyAnalysis>,
    history: Option<HistoryAnalysis>,
    verification: Option<verify::Verdict>,
    pardoned: Option<Seq<String>>,
    explanation: Option<Seq<Explanation>>,
    gate: Option<Selection>,
) -> Seq<char> {
    json_head() + ",\"runs\":["@ + joined(outcomes.map_values(|o: RunOutcome| run_entry(o)), ","@)
        + "],\"junit\":{\"total\":"@ + decimal(s.total as nat) + ",\"passed\":"@ + decimal(
        s.passed as nat,
    ) + ",\"failed\":"@ + decimal(s.failed as nat) + ",\"errors\":"@ + decimal(s.error as nat)
        + ",\"skipped\":"@ + decimal(s.skipped as nat) + ",\"slowest\":["@ + joined(
        timed_view(s.slowest@).map_values(|e: (Seq<char>, nat)| slow_entry(e)),
        ","@,
    ) + "]}"@ + active_text(flaky) + history_text(history) + verification_text(verification)
        + quarantine_text(pardoned) + explanation_member(explanation) + gate_text(gate) + "}"@
}

/// The run entries.
fn run_entries(outcomes: &[RunOutcome]) -> (out: String)
    ensures
        out@ == joined(outcomes@.map_values(|o: RunOutcome| run_entry(o)), ","@),
{
    let mut entries: Vec<String> = Vec::new();
    let mut i: usize = 0;
    while i < outcomes.len()
        invariant
            i <= outcomes@.len(),
            line_views(entries@) == outcomes@.take(i as int).map_values(|o: RunOutcome| run_entry(o)),
        decreases outcomes.len() - i,
    {
        let o = &outcomes[i];
        let mut e = String::new();
        push_str(&mut e, "{\"exit_code\":");
        match o.exit_code {
            Some(c) => crate::runner::push_signed(&mut e, c),
            None => push_str(&mut e, "null"),
        }
        push_str(&mut e, ",\"success\":");
        push_bool(&mut e, o.success);
        push_str(&mut e, ",\"duration_seconds\":");
        push_seconds(&mut e, o.duration);
        push_str(&mut e, "}");
        assert(e@ =~= run_entry(*o));
        let ghost prev = line_views(entries@);
        let ghost fresh = e@;
        entries.push(e);
        assert(line_views(entries@) =~= prev.push(fresh));
        i += 1;
        assert(line_views(entries@) =~= outcomes@.take(i as int).map_values(|o: RunOutcome| run_entry(o)));
    }
    assert(outcomes@.take(i as int) =~= outcomes@);
    join(&entries, ",")
}

/// The slowest-test entries.
fn slow_entries(slow: &Vec<(String, u128)>) -> (out: String)
    ensures
        out@ == joined(timed_view(slow@).map_values(|e: (Seq<char>, nat)| slow_entry(e)), ","@),
{
    let mut entries: Vec<String> = Vec::new();
    let mut i: usize = 0;
    while i < slow.len()
        invariant
            i <= slow@.len(),
            line_views(entries@) == timed_view(slow@).take(i as int).map_values(
                |e: (Seq<char>, nat)| slow_entry(e),
            ),
        decreases slow.len() - i,
    {
        let mut e = String::new();
        push_str(&mut e, "{\"name\":");
        push_quoted(&mut e, slow[i].0.as_str());
        push_str(&mut e, ",\"duration_seconds\":");
        push_seconds(&mut e, slow[i].1);
        push_str(&mut e, "}");
        assert(e@ =~= slow_entry(timed_view(slow@)[i as int]));
        let ghost prev = line_views(entries@);
        let ghost fresh = e@;
        entries.push(e);
        assert(line_views(entries@) =~= prev.push(fresh));
        i += 1;
        assert(line_views(entries@) =~= timed_view(slow@).take(i as int).map_values(
            |e: (Seq<char>, nat)| slow_entry(e),
        ));
    }
    assert(timed_view(slow@).take(i as int) =~= timed_view(slow@));
    join(&entries, ",")
}

/// One outcome entry.
fn outcome_entry_of(t: &TestOutcomes) -> (e: String)
    ensures
        e@ == outcome_entry(*t),
{
    let mut e = String::new();
    push_str(&mut e, "{\"name\":");
    push_quoted(&mut e, t.id.as_str());
    push_str(&mut e, ",\"failed_runs\":");
    push_count(&mut e, t.failed);
    push_str(&mut e, ",\"observed_runs\":");
    push_decimal(&mut e, t.passed as u128 + t.failed as u128);
    push_str(&mut e, "}");
    assert(e@ =~= outcome_entry(*t));
    e
}

/// One proven flake in the JSON: its outcome counts and the one
/// environment every failure came from, or `null`.
pub open spec fn flake_entry(f: HistoricFlake) -> Seq<char> {
    "{\"name\":"@ + quoted(f.outcomes.id@) + ",\"failed_runs\":"@ + decimal(f.outcomes.failed as nat)
        + ",\"observed_runs\":"@ + decimal((f.outcomes.passed + f.outcomes.failed) as nat)
        + ",\"failures_confined_to\":"@ + match f.failures_confined_to {
        Some(env) => quoted(env@),
        None => "null"@,
    } + "}"@
}

/// The JSON entry of one proven flake.
fn flake_entry_of(f: &HistoricFlake) -> (e: String)
    ensures
        e@ == flake_entry(*f),
{
    let mut e = String::new();
    push_str(&mut e, "{\"name\":");
    push_quoted(&mut e, f.outcomes.id.as_str());
    push_str(&mut e, ",\"failed_runs\":");
    push_count(&mut e, f.outcomes.failed);
    push_str(&mut e, ",\"observed_runs\":");
    push_decimal(&mut e, f.outcomes.passed as u128 + f.outcomes.failed as u128);
    push_str(&mut e, ",\"failures_confined_to\":");
    match &f.failures_confined_to {
        Some(env) => push_quoted(&mut e, env.as_str()),
        None => push_str(&mut e, "null"),
    }
    push_str(&mut e, "}");
    assert(e@ =~= flake_entry(*f));
    e
}

/// A comma-joined array body of per-test outcome counts: the shape the
/// in-run flaky and broken lists serialize to.
pub fn outcome_entries(tests: &[TestOutcomes]) -> (out: String)
    ensures
        out@ == joined(tests@.map_values(|t: TestOutcomes| outcome_entry(t)), ","@),
{
    let mut entries: Vec<String> = Vec::new();
    let mut i: usize = 0;
    while i < tests.len()
        invariant
            i <= tests@.len(),
            line_views(entries@) == tests@.take(i as int).map_values(|t: TestOutcomes| outcome_entry(t)),
        decreases tests.len() - i,
    {
        let e = outcome_entry_of(&tests[i]);
        let ghost prev = line_views(entries@);
        let ghost fresh = e@;
        entries.push(e);
        assert(line_views(entries@) =~= prev.push(fresh));
        i += 1;
        assert(line_views(entries@) =~= tests@.take(i as int).map_values(|t: TestOutcomes| outcome_entry(t)));
    }
    assert(tests@.take(i as int) =~= tests@);
    join(&entries, ",")
}

/// The outcome entries of the proven flakes.
fn flake_entries(flakes: &Vec<HistoricFlake>) -> (out: String)
    ensures
        out@ == joined(flakes@.map_values(|f: HistoricFlake| flake_entry(f)), ","@),
{
    let mut entries: Vec<String> = Vec::new();
    let mut i: usize = 0;
    while i < flakes.len()
        invariant
            i <= flakes@.len(),
            line_views(entries@) == flakes@.take(i as int).map_values(|f: HistoricFlake| flake_entry(f)),
        decreases flakes.len() - i,
    {
        let e = flake_entry_of(&flakes[i]);
        let ghost prev = line_views(entries@);
        let ghost fresh = e@;
        entries.push(e);
        assert(line_views(entries@) =~= prev.push(fresh));
        i += 1;
        assert(line_views(entries@) =~= flakes@.take(i as int).map_values(|f: HistoricFlake| flake_entry(f)));
    }
    assert(flakes@.take(i as int) =~= flakes@);
    join(&entries, ",")
}

/// The regression-pointer entries.
fn since_entries(since: &Vec<FailingSince>) -> (out: String)
    ensures
        out@ == joined(since@.map_values(|f: FailingSince| since_entry(f)), ","@),
{
    let mut entries: Vec<String> = Vec::new();
    let mut i: usize = 0;
    while i < since.len()
        invariant
            i <= since@.len(),
            line_views(entries@) == since@.take(i as int).map_values(|f: FailingSince| since_entry(f)),
        decreases since.len() - i,
    {
        let f = &since[i];
        let mut e = String::new();
        push_str(&mut e, "{\"name\":");
        push_quoted(&mut e, f.id.as_str());
        push_str(&mut e, ",\"commit\":");
        push_quoted(&mut e, f.commit.as_str());
        push_str(&mut e, ",\"failed_runs\":");
        push_count(&mut e, f.failed_runs);
        push_str(&mut e, "}");
        assert(e@ =~= since_entry(*f));
        let ghost prev = line_views(entries@);
        let ghost fresh = e@;
        entries.push(e);
        assert(line_views(entries@) =~= prev.push(fresh));
        i += 1;
        assert(line_views(entries@) =~= since@.take(i as int).map_values(|f: FailingSince| since_entry(f)));
    }
    assert(since@.take(i as int) =~= since@);
    join(&entries, ",")
}

/// A comma-joined JSON array body of quoted ids.
pub fn json_ids(ids: &[String]) -> (out: String)
    ensures
        out@ == id_entries(ids@),
{
    let mut entries: Vec<String> = Vec::new();
    let mut i: usize = 0;
    while i < ids.len()
        invariant
            i <= ids@.len(),
            line_views(entries@) == ids@.take(i as int).map_values(|s: String| quoted(s@)),
        decreases ids.len() - i,
    {
        let mut e = String::new();
        push_quoted(&mut e, ids[i].as_str());
        let ghost prev = line_views(entries@);
        let ghost fresh = e@;
        entries.push(e);
        assert(line_views(entries@) =~= prev.push(fresh));
        i += 1;
        assert(line_views(entries@) =~= ids@.take(i as int).map_values(|s: String| quoted(s@)));
    }
    assert(ids@.take(i as int) =~= ids@);
    join(&entries, ",")
}

/// One explained failure's entry.
fn explanation_entry_of(e: &Explanation) -> (out: String)
    ensures
        out@ == explanation_entry(*e),
{
    let mut out = String::new();
    push_str(&mut out, "{\"name\":");
    push_quoted(&mut out, e.id.as_str());
    push_str(&mut out, ",\"verdict\":");
    match &e.verdict {
        Verdict::KnownFlake { failed_runs, observed_runs, .. } => {
            push_str(&mut out, "\"known_flake\",\"quarantined\":");
            push_bool(&mut out, e.quarantined);
            push_str(&mut out, ",\"failed_runs\":");
            push_count(&mut out, *failed_runs);
            push_str(&mut out, ",\"observed_runs\":");
            push_count(&mut out, *observed_runs);
            push_str(&mut out, "}");
        },
        Verdict::FailingSince { commit, failed_runs } => {
            push_str(&mut out, "\"failing_since\",\"quarantined\":");
            push_bool(&mut out, e.quarantined);
            push_str(&mut out, ",\"commit\":");
            push_quoted(&mut out, commit.as_str());
            push_str(&mut out, ",\"failed_runs\":");
            push_count(&mut out, *failed_runs);
            push_str(&mut out, "}");
        },
        Verdict::Unknown => {
            if e.quarantined {
                push_str(&mut out, "\"quarantined\"");
            } else {
                push_str(&mut out, "\"new\"");
            }
            push_str(&mut out, ",\"quarantined\":");
            push_bool(&mut out, e.quarantined);
            push_str(&mut out, "}");
        },
    }
    assert(out@ =~= explanation_entry(*e));
    out
}

/// The explanation object both JSON shapes share.
pub fn explanation_object(explanations: &[Explanation]) -> (out: String)
    ensures
        out@ == explanation_object_text(explanations@),
{
    let mut entries: Vec<String> = Vec::new();
    let mut i: usize = 0;
    while i < explanations.len()
        invariant
            i <= explanations@.len(),
            line_views(entries@) == explanations@.take(i as int).map_values(
                |e: Explanation| explanation_entry(e),
            ),
        decreases explanations.len() - i,
    {
        let e = explanation_entry_of(&explanations[i]);
        let ghost prev = line_views(entries@);
        let ghost fresh = e@;
        entries.push(e);
        assert(line_views(entries@) =~= prev.push(fresh));
        i += 1;
        assert(line_views(entries@) =~= explanations@.take(i as int).map_values(
            |e: Explanation| explanation_entry(e),
        ));
    }
    assert(explanations@.take(i as int) =~= explanations@);
    let counts = Counts::of(explanations);
    let mut out = String::new();
    push_str(&mut out, "{\"failures\":[");
    let body = join(&entries, ",");
    push_str(&mut out, body.as_str());
    push_str(&mut out, "],\"counts\":{\"known_flakes\":");
    push_count(&mut out, counts.known_flakes);
    push_str(&mut out, ",\"failing_since\":");
    push_count(&mut out, counts.failing_since);
    push_str(&mut out, ",\"quarantined\":");
    push_count(&mut out, counts.quarantined);
    push_str(&mut out, ",\"new\":");
    push_count(&mut out, counts.new);
    push_str(&mut out, "},\"only_known_flakes\":");
    push_bool(&mut out, counts.only_known_flakes());
    push_str(&mut out, "}");
    assert(counts == counts_of(explanations@));
    assert(out@ =~= explanation_object_text(explanations@));
    out
}

/// Appends the head every JSON document starts with.
fn push_json_head(out: &mut String)
    ensures
        final(out)@ == old(out)@ + json_head(),
{
    push_str(out, "{\"schema_version\":");
    push_decimal(out, JSON_SCHEMA_VERSION as u128);
    push_str(out, ",\"sooth_version\":\"");
    push_str(out, SOOTH_VERSION);
    push_str(out, "\"");
    assert(final(out)@ =~= old(out)@ + json_head());
}

/// The view of an optional flaky analysis.
pub open spec fn flaky_view(a: Option<&FlakyAnalysis>) -> Option<FlakyAnalysis> {
    match a {
        Some(a) => Some(*a),
        None => None,
    }
}

/// The view of an optional verification verdict.
pub open spec fn verdict_view(v: Option<&verify::Verdict>) -> Option<verify::Verdict> {
    match v {
        Some(v) => Some(*v),
        None => None,
    }
}

/// The view of an optional gate selection.
pub open spec fn gate_view(g: Option<&Selection>) -> Option<Selection> {
    match g {
        Some(g) => Some(*g),
        None => None,
    }
}

/// Appends the active pass's members.
fn push_active(out: &mut String, flaky: Option<&FlakyAnalysis>)
    ensures
        final(out)@ == old(out)@ + active_text(flaky_view(flaky)),
{
    match flaky {
        Some(pass) => {
            push_str(out, ",\"flaky\":[");
            let f = outcome_entries(pass.flaky.as_slice());
            push_str(out, f.as_str());
            push_str(out, "],\"broken\":[");
            let b = outcome_entries(pass.broken.as_slice());
            push_str(out, b.as_str());
            push_str(out, "],\"reordered_runs\":[");
            let r = run_numbers(&pass.reordered_runs);
            push_str(out, r.as_str());
            push_str(out, "]");
        },
        None => {},
    }
    assert(final(out)@ =~= old(out)@ + active_text(flaky_view(flaky)));
}

/// Run numbers, comma-separated.
fn run_numbers(runs: &Vec<usize>) -> (out: String)
    ensures
        out@ == joined(runs@.map_values(|r: usize| decimal(r as nat)), ","@),
{
    let mut entries: Vec<String> = Vec::new();
    let mut i: usize = 0;
    while i < runs.len()
        invariant
            i <= runs@.len(),
            line_views(entries@) == runs@.take(i as int).map_values(|r: usize| decimal(r as nat)),
        decreases runs.len() - i,
    {
        let mut e = String::new();
        push_decimal(&mut e, runs[i] as u128);
        let ghost prev = line_views(entries@);
        let ghost fresh = e@;
        entries.push(e);
        assert(line_views(entries@) =~= prev.push(fresh));
        i += 1;
        assert(line_views(entries@) =~= runs@.take(i as int).map_values(|r: usize| decimal(r as nat)));
    }
    assert(runs@.take(i as int) =~= runs@);
    join(&entries, ",")
}

/// Appends the history pass's member.
fn push_history_member(out: &mut String, history: Option<&HistoryAnalysis>)
    ensures
        final(out)@ == old(out)@ + history_text(history_view(history)),
{
    match history {
        Some(pass) => {
            push_str(out, ",\"history\":{\"flaky\":[");
            let f = flake_entries(&pass.flaky);
            push_str(out, f.as_str());
            push_str(out, "],\"failing_since\":[");
            let s = since_entries(&pass.failing_since);
            push_str(out, s.as_str());
            push_str(out, "]}");
        },
        None => {},
    }
    assert(final(out)@ =~= old(out)@ + history_text(history_view(history)));
}

/// Appends verification's member.
fn push_verification(out: &mut String, verdict: Option<&verify::Verdict>)
    ensures
        final(out)@ == old(out)@ + verification_text(verdict_view(verdict)),
{
    match verdict {
        Some(v) => {
            push_str(out, ",\"verification\":{\"real\":[");
            let r = json_ids(v.real.as_slice());
            push_str(out, r.as_str());
            push_str(out, "],\"flaky_or_order_dependent\":[");
            let f = json_ids(v.flaky_or_order.as_slice());
            push_str(out, f.as_str());
            push_str(out, "],\"unverified\":[");
            let u = json_ids(v.unverified.as_slice());
            push_str(out, u.as_str());
            push_str(out, "]}");
        },
        None => {},
    }
    assert(final(out)@ =~= old(out)@ + verification_text(verdict_view(verdict)));
}

/// Appends the quarantine member.
fn push_quarantine(out: &mut String, pardoned: Option<&[String]>)
    ensures
        final(out)@ == old(out)@ + quarantine_text(strings_view(pardoned)),
{
    match pardoned {
        Some(ids) => {
            push_str(out, ",\"quarantine\":{\"pardoned\":[");
            let p = json_ids(ids);
            push_str(out, p.as_str());
            push_str(out, "]}");
        },
        None => {},
    }
    assert(final(out)@ =~= old(out)@ + quarantine_text(strings_view(pardoned)));
}

/// Appends the explanation member.
fn push_explanation_member(out: &mut String, explanation: Option<&[Explanation]>)
    ensures
        final(out)@ == old(out)@ + explanation_member(explanations_view(explanation)),
{
    match explanation {
        Some(es) => {
            push_str(out, ",\"explanation\":");
            let o = explanation_object(es);
            push_str(out, o.as_str());
        },
        None => {},
    }
    assert(final(out)@ =~= old(out)@ + explanation_member(explanations_view(explanation)));
}

/// Appends the selection member.
fn push_gate(out: &mut String, gate: Option<&Selection>)
    ensures
        final(out)@ == old(out)@ + gate_text(gate_view(gate)),
{
    match gate {
        Some(g) => {
            push_str(out, ",\"gate\":{\"base\":");
            push_quoted(out, g.base.as_str());
            push_str(out, ",\"files\":[");
            let f = json_ids(g.files.as_slice());
            push_str(out, f.as_str());
            push_str(out, "]}");
        },
        None => {},
    }
    assert(final(out)@ =~= old(out)@ + gate_text(gate_view(gate)));
}

/// Appends the members of the passes that ran.
fn push_pass_members(out: &mut String, analyses: &Analyses)
    ensures
        final(out)@ == old(out)@ + active_text(flaky_view(analyses.flaky)) + history_text(
            history_view(analyses.history),
        ) + verification_text(verdict_view(analyses.verify)) + quarantine_text(
            strings_view(analyses.pardoned),
        ) + explanation_member(explanations_view(analyses.explanation)) + gate_text(
            gate_view(analyses.gate),
        ),
{
    push_active(out, analyses.flaky);
    push_history_member(out, analyses.history);
    push_verification(out, analyses.verify);
    push_quarantine(out, analyses.pardoned);
    push_explanation_member(out, analyses.explanation);
    push_gate(out, analyses.gate);
    assert(final(out)@ =~= old(out)@ + active_text(flaky_view(analyses.flaky)) + history_text(
        history_view(analyses.history),
    ) + verification_text(verdict_view(analyses.verify)) + quarantine_text(
        strings_view(analyses.pardoned),
    ) + explanation_member(explanations_view(analyses.explanation)) + gate_text(
        gate_view(analyses.gate),
    ));
}

/// The machine output of a run: the run outcomes plus the report summary,
/// versioned by `schema_version`, with a member for each pass that ran.
pub fn to_json(outcomes: &[RunOutcome], summary: &JunitSummary, analyses: &Analyses) -> (json: String)
    ensures
        json@ == json_text(
            outcomes@,
            *summary,
            flaky_view(analyses.flaky),
            history_view(analyses.history),
            verdict_view(analyses.verify),
            strings_view(analyses.pardoned),
            explanations_view(analyses.explanation),
            gate_view(analyses.gate),
        ),
{
    let mut out = String::new();
    push_json_head(&mut out);
    push_str(&mut out, ",\"runs\":[");
    let runs = run_entries(outcomes);
    push_str(&mut out, runs.as_str());
    push_str(&mut out, "],\"junit\":{\"total\":");
    push_count(&mut out, summary.total);
    push_str(&mut out, ",\"passed\":");
    push_count(&mut out, summary.passed);
    push_str(&mut out, ",\"failed\":");
    push_count(&mut out, summary.failed);
    push_str(&mut out, ",\"errors\":");
    push_count(&mut out, summary.error);
    push_str(&mut out, ",\"skipped\":");
    push_count(&mut out, summary.skipped);
    push_str(&mut out, ",\"slowest\":[");
    let slow = slow_entries(&summary.slowest);
    push_str(&mut out, slow.as_str());
    push_str(&mut out, "]}");
    push_pass_members(&mut out, analyses);
    push_str(&mut out, "}");
    assert(out@ =~= json_text(
        outcomes@,
        *summary,
        flaky_view(analyses.flaky),
        history_view(analyses.history),
        verdict_view(analyses.verify),
        strings_view(analyses.pardoned),
        explanations_view(analyses.explanation),
        gate_view(analyses.gate),
    ));
    out
}

/// The whole machine output of `sooth explain`: no runs and no totals, since
/// explain observes no run.
pub open spec fn explanation_json_text(report_path: Seq<char>, es: Seq<Explanation>) -> Seq<char> {
    json_head() + ",\"report\":"@ + quoted(report_path) + ",\"explanation\":"@
        + explanation_object_text(es) + "}"@
}

/// The machine output of `sooth explain` for the report at `report_path`.
pub fn explanation_json(report_path: &str, explanations: &[Explanation]) -> (json: String)
    ensures
        json@ == explanation_json_text(report_path@, explanations@),
{
    let mut out = String::new();
    push_json_head(&mut out);
    push_str(&mut out, ",\"report\":");
    push_quoted(&mut out, report_path);
    push_str(&mut out, ",\"explanation\":");
    let o = explanation_object(explanations);
    push_str(&mut out, o.as_str());
    push_str(&mut out, "}");
    assert(out@ =~= explanation_json_text(report_path@, explanations@));
    out
}

} // verus!
