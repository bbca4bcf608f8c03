//! What one invocation concludes from what it observed: which flags it
//! refuses, whether the suite failed, what the quarantine pardons, which
//! failures get explained, and the messages that tell the user why.
//!
//! Exit codes distinguish whose fault a failure is (grep-style): `0` — every
//! run passed; `1` — at least one run failed (nonzero runner exit *or*
//! failures in the parsed report — both must agree for a `0`); `2` — sooth
//! itself failed (spawn error, unparsable report, bad flags).

use vstd::prelude::*;

use crate::analyzers::explain::{
    explain, observed_spec, passes_fit, same_observed, verdict_spec, verdict_view, Explanation, Passes,
};
use crate::cli::RunArgs;
use crate::format::{count_text, duration_text, push_duration};
use crate::junit::{any_failing, failing_in, JunitReport};
use crate::keyed::{insert_key_sorted, keyseq, strictly_sorted};
use crate::preset::{selection_spec, supports_selection};
use crate::report::{counts_of, only_known, Analyses};
use crate::runner::{status_label_spec, RunOutcome};
use crate::text::{chars_of, copy_string, decimal, opt_view, push_decimal, push_str, string_of};
use crate::analyzers::flaky::{collapse, run_outcomes};
use crate::analyzers::history::Analysis as HistoryAnalysis;
use crate::cli::LogFormat;
use crate::history::{observation_view, Observation, ObservationView};
use crate::junit::{error_message, error_view, parse_spec, result_view, EventView, JunitError, TestStatus};
use crate::phpunit_log::ParsedLog;
use crate::report::{
    explanation_lines, explanation_lines_spec, explanations_view, gap_lines, gap_lines_spec, history_lines,
    history_lines_spec, history_view, line_views, pardon_gap_line, pardon_gap_text, run_lines, run_lines_spec,
    summary_lines, summary_lines_spec, to_json, verdict_line, pardoned_verdict, JunitSummary, PriorEvidence, Style,
};
use crate::verify::{failed_ids, failing_id, sig_ids};
use crate::text::strings;

verus! {

/// Exit code for "sooth itself failed", as opposed to "the tests failed" (1).
pub const EXIT_SOOTH_ERROR: u8 = 2;

/// How many of the slowest tests the summary shows when `--slowest` is not
/// given.
pub const DEFAULT_SLOWEST: usize = 10;

/// The flag `sooth` cannot honor, if any. `--json`, `--slowest` and
/// `--fail-on-flaky` need a report; `--changed` needs a preset and more than one
/// run; verification needs a preset that can select tests, and a single run.
pub open spec fn rejection(args: RunArgs) -> Option<Seq<char>> {
    let reportless = args.junit is None && args.preset is None;
    if reportless && args.json is Some {
        Some("`--json` requires a report: `--junit <PATH>` or `--preset <RUNNER>`"@)
    } else if reportless && args.slowest is Some {
        Some("`--slowest` requires a report: `--junit <PATH>` or `--preset <RUNNER>`"@)
    } else if reportless && args.fail_on_flaky {
        Some("`--fail-on-flaky` requires a report: `--junit <PATH>` or `--preset <RUNNER>`"@)
    } else if args.changed is Some && args.preset is None {
        Some(
            "`--changed` needs `--preset <RUNNER>`: which files are tests and how to run only them is runner knowledge"@,
        )
    } else if args.changed is Some && args.runs == 1 {
        Some("a gate of one run proves nothing — pass `--runs` (20 is a good start)"@)
    } else if args.verify && args.preset is None {
        Some(
            "`--verify` needs `--preset <RUNNER>`: it re-invokes the runner on the failed tests, which sooth can only do for a known runner"@,
        )
    } else if args.verify && selection_spec(args.preset->0, Seq::empty()) is None {
        Some(
            "`--verify` is not supported for this preset yet — sooth cannot restrict its runner to a subset of tests"@,
        )
    } else if args.verify && args.runs > 1 {
        Some("`--verify` re-runs the failures itself; use it with a single run (drop `--runs`)"@)
    } else {
        None
    }
}

/// A flag `sooth` cannot honor, if any: rejecting loudly beats silently
/// ignoring.
pub fn rejected_flag(args: &RunArgs) -> (r: Option<&'static str>)
    ensures
        match r {
            Some(reason) => rejection(*args) == Some(reason@),
            None => rejection(*args) is None,
        },
{
    let reportless = args.junit.is_none() && args.preset.is_none();
    if reportless && args.json.is_some() {
        return Some("`--json` requires a report: `--junit <PATH>` or `--preset <RUNNER>`");
    }
    if reportless && args.slowest.is_some() {
        return Some("`--slowest` requires a report: `--junit <PATH>` or `--preset <RUNNER>`");
    }
    if reportless && args.fail_on_flaky {
        return Some("`--fail-on-flaky` requires a report: `--junit <PATH>` or `--preset <RUNNER>`");
    }
    if args.changed.is_some() {
        if args.preset.is_none() {
            return Some(
                "`--changed` needs `--preset <RUNNER>`: which files are tests and how to run only them is runner knowledge",
            );
        }
        if args.runs == 1 {
            return Some("a gate of one run proves nothing — pass `--runs` (20 is a good start)");
        }
    }
    if args.verify {
        match args.preset {
            None => {
                return Some(
                    "`--verify` needs `--preset <RUNNER>`: it re-invokes the runner on the failed tests, which sooth can only do for a known runner",
                );
            },
            Some(preset) => {
                if !supports_selection(preset) {
                    return Some(
                        "`--verify` is not supported for this preset yet — sooth cannot restrict its runner to a subset of tests",
                    );
                }
            },
        }
        if args.runs > 1 {
            return Some("`--verify` re-runs the failures itself; use it with a single run (drop `--runs`)");
        }
    }
    None
}

/// The suite failed: some run exited nonzero, or some run's report shows a
/// failing or erroring test. A failure is never upgraded to success.
pub open spec fn suite_failed_spec(outcomes: Seq<RunOutcome>, reports: Seq<JunitReport>) -> bool {
    (exists|i: int| 0 <= i < outcomes.len() && !(#[trigger] outcomes[i]).success) || (exists|j: int|
        0 <= j < reports.len() && any_failing((#[trigger] reports[j]).test_cases@))
}

/// Whether the suite failed, combining both signals: a nonzero runner exit
/// *or* failures in the parsed reports — sooth exits 0 only when the runner
/// and its reports agree that everything passed.
pub fn suite_failed(outcomes: &[RunOutcome], reports: &[JunitReport]) -> (r: bool)
    ensures
        r == suite_failed_spec(outcomes@, reports@),
{
    let mut i: usize = 0;
    while i < outcomes.len()
        invariant
            i <= outcomes@.len(),
            forall|k: int| 0 <= k < i ==> (#[trigger] outcomes@[k]).success,
        decreases outcomes.len() - i,
    {
        if !outcomes[i].success {
            return true;
        }
        i += 1;
    }
    let mut j: usize = 0;
    while j < reports.len()
        invariant
            j <= reports@.len(),
            forall|k: int| 0 <= k < outcomes@.len() ==> (#[trigger] outcomes@[k]).success,
            forall|k: int| 0 <= k < j ==> !any_failing((#[trigger] reports@[k]).test_cases@),
        decreases reports.len() - j,
    {
        if reports[j].has_failures() {
            return true;
        }
        j += 1;
    }
    false
}

/// The most failing tests any one report shows.
pub open spec fn worst_failures(reports: Seq<JunitReport>) -> nat
    decreases reports.len(),
{
    if reports.len() == 0 {
        0
    } else {
        let rest = worst_failures(reports.drop_last());
        let here = failing_in(reports.last().test_cases@);
        if here > rest {
            here
        } else {
            rest
        }
    }
}

/// The `--slowest` count a run shows.
pub open spec fn slowest_count(args: RunArgs) -> nat {
    match args.slowest {
        Some(n) => n as nat,
        None => DEFAULT_SLOWEST as nat,
    }
}

/// What a run's reports amount to: the summary of the last report, and the
/// flaky pass when the suite ran more than once.
pub fn summarize_reports(args: &RunArgs, reports: &Vec<JunitReport>) -> (r: (
    Option<JunitSummary>,
    Option<crate::analyzers::flaky::Analysis>,
))
    ensures
        match r.0 {
            Some(s) => reports@.len() > 0 && crate::report::summarizes(
                s,
                reports@.last().test_cases@,
                slowest_count(*args),
            ),
            None => reports@.len() == 0,
        },
        match r.1 {
            Some(a) => args.runs > 1 && reports@.len() > 0 && crate::analyzers::flaky::analyzes(a, reports@),
            None => !(args.runs > 1 && reports@.len() > 0),
        },
{
    let slowest = match args.slowest {
        Some(n) => n,
        None => DEFAULT_SLOWEST,
    };
    let summary = if reports.len() > 0 {
        Some(JunitSummary::from_report(&reports[reports.len() - 1], slowest))
    } else {
        None
    };
    let flaky = if args.runs > 1 && reports.len() > 0 {
        Some(crate::analyzers::flaky::analyze(reports))
    } else {
        None
    };
    (summary, flaky)
}

/// The worst run's failing count, over all reports: the mismatch note and
/// the verdict must not claim "0 failing" because the last run was green.
pub fn report_failures(reports: &[JunitReport]) -> (n: usize)
    ensures
        n == worst_failures(reports@),
{
    let mut n: usize = 0;
    let mut i: usize = 0;
    while i < reports.len()
        invariant
            i <= reports@.len(),
            n == worst_failures(reports@.take(i as int)),
        decreases reports.len() - i,
    {
        assert(reports@.take(i + 1).drop_last() =~= reports@.take(i as int));
        let here = reports[i].failing_count();
        if here > n {
            n = here;
        }
        i += 1;
    }
    assert(reports@.take(i as int) =~= reports@);
    n
}

/// One report's failing ids, collapsed per id, in id order.
pub open spec fn failing_ids_of(r: JunitReport) -> Seq<Seq<char>> {
    sig_ids(r.test_cases@).filter(failing_id(r.test_cases@))
}

/// Every id that failed in some report.
pub open spec fn failing_union(reports: Seq<JunitReport>) -> Set<Seq<char>>
    decreases reports.len(),
{
    if reports.len() == 0 {
        Set::empty()
    } else {
        failing_union(reports.drop_last()).union(failing_ids_of(reports.last()).to_set())
    }
}

/// Every id that failed in some report, in id order.
pub open spec fn union_ids(reports: Seq<JunitReport>) -> Seq<Seq<char>> {
    choose|s: Seq<Seq<char>>| strictly_sorted(s) && s.to_set() == failing_union(reports)
}

/// Every run's failing ids, each once, in id order: run 1's failures are
/// not forgiven by a green run 2.
pub fn all_failed_ids(reports: &[JunitReport]) -> (out: Vec<String>)
    ensures
        strings(out@) == union_ids(reports@),
        strictly_sorted(strings(out@)),
        strings(out@).to_set() == failing_union(reports@),
{
    let mut keys: Vec<Vec<char>> = Vec::new();
    let mut i: usize = 0;
    assert(keyseq(keys@).to_set() =~= failing_union(reports@.take(0)));
    while i < reports.len()
        invariant
            i <= reports@.len(),
            strictly_sorted(keyseq(keys@)),
            keyseq(keys@).to_set() == failing_union(reports@.take(i as int)),
        decreases reports.len() - i,
    {
        let ids = failed_ids(&reports[i]);
        let ghost base = keyseq(keys@).to_set();
        let mut k: usize = 0;
        while k < ids.len()
            invariant
                k <= ids@.len(),
                strictly_sorted(keyseq(keys@)),
                keyseq(keys@).to_set() == base.union(strings(ids@).take(k as int).to_set()),
            decreases ids.len() - k,
        {
            let key = chars_of(ids[k].as_str());
            insert_key_sorted(&mut keys, key);
            proof {
                let t = strings(ids@).take(k as int);
                assert(strings(ids@).take(k + 1) =~= t.push(strings(ids@)[k as int]));
                t.lemma_push_to_set_commute(strings(ids@)[k as int]);
            }
            k += 1;
            assert(keyseq(keys@).to_set() =~= base.union(strings(ids@).take(k as int).to_set()));
        }
        assert(strings(ids@).take(k as int) =~= strings(ids@));
        assert(reports@.take(i + 1).drop_last() =~= reports@.take(i as int));
        assert(reports@.take(i + 1).last() == reports@[i as int]);
        i += 1;
        assert(keyseq(keys@).to_set() =~= failing_union(reports@.take(i as int)));
    }
    assert(reports@.take(i as int) =~= reports@);
    let mut out: Vec<String> = Vec::new();
    let mut j: usize = 0;
    while j < keys.len()
        invariant
            j <= keys@.len(),
            strings(out@) == keyseq(keys@).take(j as int),
        decreases keys.len() - j,
    {
        let s = string_of(keys[j].as_slice());
        let ghost prev = strings(out@);
        out.push(s);
        assert(strings(out@) =~= prev.push(keyseq(keys@)[j as int]));
        j += 1;
        assert(strings(out@) =~= keyseq(keys@).take(j as int));
    }
    assert(keyseq(keys@).take(j as int) =~= keyseq(keys@));
    proof {
        let u = union_ids(reports@);
        assert(strictly_sorted(keyseq(keys@)) && keyseq(keys@).to_set() == failing_union(reports@));
        assert(strictly_sorted(u) && u.to_set() == failing_union(reports@));
        crate::keyed::lemma_sorted_unique(keyseq(keys@), u);
    }
    out
}

/// Label a failing run's failures with what sooth already knew about them:
/// nothing for a green suite or a red one whose reports name no failure
/// (sooth does not guess which test failed); otherwise every run's failing
/// ids, in id order, each explained.
pub fn explain_failures(suite_red: bool, reports: &[JunitReport], passes: Passes, quarantine: &Vec<String>) -> (r:
    Option<Vec<Explanation>>)
    requires
        passes_fit(passes),
    ensures
        !suite_red ==> r is None,
        suite_red && failing_union(reports@).len() == 0 ==> r is None,
        suite_red && failing_union(reports@).len() > 0 ==> r is Some,
        r matches Some(out) ==> {
            let ids = union_ids(reports@);
            &&& out@.len() == ids.len()
            &&& forall|i: int|
                0 <= i < out@.len() ==> {
                    &&& (#[trigger] out@[i]).id@ == ids[i]
                    &&& same_observed(out@[i].observed, observed_spec(ids[i], passes))
                    &&& verdict_view(out@[i].verdict) == verdict_spec(ids[i], passes)
                    &&& out@[i].quarantined == strings(quarantine@).contains(ids[i])
                }
        },
{
    if !suite_red {
        return None;
    }
    let failed = all_failed_ids(reports);
    proof {
        assert(strings(failed@).no_duplicates()) by {
            assert forall|a: int, b: int| 0 <= a < b < strings(failed@).len() implies strings(failed@)[a]
                != strings(failed@)[b] by {
                crate::keyed::lemma_sorted_distinct(strings(failed@), a, b);
            }
        }
        strings(failed@).unique_seq_to_set();
    }
    if failed.len() == 0 {
        return None;
    }
    let out = explain(&failed, passes, quarantine);
    Some(out)
}

/// The quarantine pardons a red suite only when every run has a report,
/// no run was killed by a signal, every failed run's report names a
/// failure, and every failing id of every run is listed — all or nothing.
pub open spec fn pardonable(quarantine: Seq<Seq<char>>, outcomes: Seq<RunOutcome>, reports: Seq<JunitReport>) -> bool {
    &&& reports.len() > 0
    &&& reports.len() == outcomes.len()
    &&& forall|i: int| 0 <= i < outcomes.len() ==> (#[trigger] outcomes[i]).signal is None
    &&& forall|i: int|
        0 <= i < outcomes.len() ==> (#[trigger] outcomes[i]).success || failing_ids_of(reports[i]).len()
            > 0
    &&& forall|j: int| 0 <= j < union_ids(reports).len() ==> quarantine.contains(#[trigger] union_ids(reports)[j])
    &&& union_ids(reports).len() > 0
}

/// The pardon decision itself: all-or-nothing over every run. A
/// signal-killed run is a crash, never a pardonable flake, and a failed run
/// its report cannot explain is never pardoned.
pub fn quarantine_pardon(quarantine: &Vec<String>, outcomes: &[RunOutcome], reports: &[JunitReport]) -> (r:
    Option<Vec<String>>)
    ensures
        match r {
            Some(ids) => pardonable(strings(quarantine@), outcomes@, reports@) && strings(ids@) == union_ids(reports@)
                && forall|j: int| 0 <= j < ids@.len() ==> strings(quarantine@).contains(#[trigger] ids@[j]@),
            None => !pardonable(strings(quarantine@), outcomes@, reports@),
        },
{
    if reports.len() == 0 || reports.len() != outcomes.len() {
        return None;
    }
    let mut i: usize = 0;
    while i < outcomes.len()
        invariant
            i <= outcomes@.len(),
            reports@.len() == outcomes@.len(),
            forall|k: int| 0 <= k < i ==> (#[trigger] outcomes@[k]).signal is None,
            forall|k: int|
                0 <= k < i ==> (#[trigger] outcomes@[k]).success || failing_ids_of(reports@[k]).len() > 0,
        decreases outcomes.len() - i,
    {
        if outcomes[i].signal.is_some() {
            return None;
        }
        if !outcomes[i].success {
            let failing = failed_ids(&reports[i]);
            if failing.len() == 0 {
                return None;
            }
        }
        i += 1;
    }
    let all = all_failed_ids(reports);
    let mut k: usize = 0;
    while k < all.len()
        invariant
            k <= all@.len(),
            strings(all@) == union_ids(reports@),
            forall|j: int| 0 <= j < k ==> strings(quarantine@).contains(#[trigger] union_ids(reports@)[j]),
        decreases all.len() - k,
    {
        if !crate::analyzers::explain::lists_id(quarantine, all[k].as_str()) {
            assert(strings(all@)[k as int] == all@[k as int]@);
            assert(!strings(quarantine@).contains(union_ids(reports@)[k as int]));
            return None;
        }
        k += 1;
    }
    if all.len() == 0 {
        return None;
    }
    assert forall|j: int| 0 <= j < all@.len() implies strings(quarantine@).contains(#[trigger] all@[j]@) by {
        assert(strings(all@)[j] == all@[j]@);
    }
    Some(all)
}

/// Only finitely many ids fail across the reports.
proof fn lemma_failing_union_finite(reports: Seq<JunitReport>)
    ensures
        failing_union(reports).finite(),
    decreases reports.len(),
{
    broadcast use vstd::set::group_set_axioms, vstd::seq_lib::seq_to_set_is_finite;

    if reports.len() > 0 {
        lemma_failing_union_finite(reports.drop_last());
    }
}

/// Each report's failing ids are among the ids failing across the reports.
proof fn lemma_failing_union_holds(reports: Seq<JunitReport>, r: int, k: Seq<char>)
    requires
        0 <= r < reports.len(),
        failing_ids_of(reports[r]).contains(k),
    ensures
        failing_union(reports).contains(k),
    decreases reports.len(),
{
    if r < reports.len() - 1 {
        assert(reports.drop_last()[r] == reports[r]);
        lemma_failing_union_holds(reports.drop_last(), r, k);
    } else {
        assert(failing_ids_of(reports.last()).to_set().contains(k));
    }
}

/// An id failing across the reports failed or errored in some row of some
/// report.
proof fn lemma_failing_union_has_row(reports: Seq<JunitReport>, k: Seq<char>)
    requires
        failing_union(reports).contains(k),
    ensures
        exists|r: int, c: int|
            0 <= r < reports.len() && 0 <= c < reports[r].test_cases@.len()
                && (#[trigger] reports[r].test_cases@[c]).status.is_failure() && reports[r].test_cases@[c]@.id() == k,
    decreases reports.len(),
{
    let d = reports.drop_last();
    if failing_union(d).contains(k) {
        lemma_failing_union_has_row(d, k);
        let (r, c) = choose|r: int, c: int|
            0 <= r < d.len() && 0 <= c < d[r].test_cases@.len() && (#[trigger] d[r].test_cases@[c]).status.is_failure()
                && d[r].test_cases@[c]@.id() == k;
        assert(reports[r] == d[r]);
        assert(reports[r].test_cases@[c] == d[r].test_cases@[c]);
    } else {
        let last = reports.last();
        let cases = last.test_cases@;
        assert(failing_ids_of(last).to_set().contains(k));
        assert(failing_ids_of(last).contains(k));
        sig_ids(cases).lemma_filter_contains_rev(failing_id(cases), k);
        let j = choose|j: int| 0 <= j < failing_ids_of(last).len() && failing_ids_of(last)[j] == k;
        sig_ids(cases).lemma_filter_pred(failing_id(cases), j);
        crate::verify::lemma_sig_ids(cases);
        assert(sig_ids(cases).to_set().contains(k));
        crate::verify::lemma_signature_is_worst(cases, k);
        let c = choose|c: int| 0 <= c < cases.len() && #[trigger] cases[c]@.id() == k && cases[c].status == crate::verify::signatures(cases)[k].0;
        assert(reports[reports.len() - 1] == last);
        assert(reports[reports.len() - 1].test_cases@[c] == cases[c]);
    }
}

/// The quarantine pardons a red suite whenever every run has a report, no
/// run was killed by a signal, every failed run's report holds a failing
/// row, some row failed, and every row that failed or errored in any report
/// names a quarantined id.
pub proof fn lemma_pardon_when_every_failure_quarantined(
    quarantine: Seq<Seq<char>>,
    outcomes: Seq<RunOutcome>,
    reports: Seq<JunitReport>,
)
    requires
        reports.len() > 0,
        reports.len() == outcomes.len(),
        forall|i: int| 0 <= i < outcomes.len() ==> (#[trigger] outcomes[i]).signal is None,
        forall|i: int|
            0 <= i < outcomes.len() ==> (#[trigger] outcomes[i]).success || exists|c: int|
                0 <= c < reports[i].test_cases@.len() && (#[trigger] reports[i].test_cases@[c]).status.is_failure(),
        exists|r: int, c: int|
            0 <= r < reports.len() && 0 <= c < reports[r].test_cases@.len()
                && (#[trigger] reports[r].test_cases@[c]).status.is_failure(),
        forall|r: int, c: int|
            0 <= r < reports.len() && 0 <= c < reports[r].test_cases@.len()
                && (#[trigger] reports[r].test_cases@[c]).status.is_failure() ==> quarantine.contains(
                reports[r].test_cases@[c]@.id(),
            ),
    ensures
        pardonable(quarantine, outcomes, reports),
{
    lemma_failing_union_finite(reports);
    crate::keyed::lemma_sorted_exists(failing_union(reports));
    assert forall|i: int| 0 <= i < outcomes.len() implies (#[trigger] outcomes[i]).success || failing_ids_of(
        reports[i],
    ).len() > 0 by {
        if !outcomes[i].success {
            let c = choose|c: int|
                0 <= c < reports[i].test_cases@.len() && (#[trigger] reports[i].test_cases@[c]).status.is_failure();
            crate::verify::lemma_failing_row_listed(reports[i].test_cases@, c);
        }
    }
    assert forall|j: int| 0 <= j < union_ids(reports).len() implies quarantine.contains(
        #[trigger] union_ids(reports)[j],
    ) by {
        let k = union_ids(reports)[j];
        assert(union_ids(reports).to_set().contains(k));
        lemma_failing_union_has_row(reports, k);
    }
    let (r, c) = choose|r: int, c: int|
        0 <= r < reports.len() && 0 <= c < reports[r].test_cases@.len()
            && (#[trigger] reports[r].test_cases@[c]).status.is_failure();
    crate::verify::lemma_failing_row_listed(reports[r].test_cases@, c);
    lemma_failing_union_holds(reports, r, reports[r].test_cases@[c]@.id());
    assert(union_ids(reports).to_set().contains(reports[r].test_cases@[c]@.id()));
}

/// A pardon covers every failure: when the quarantine pardons a red suite,
/// every row that failed or errored in any run's report names a
/// quarantined id. One unlisted failure anywhere, and nothing is pardoned.
pub proof fn lemma_pardon_covers_every_failure(
    quarantine: Seq<Seq<char>>,
    outcomes: Seq<RunOutcome>,
    reports: Seq<JunitReport>,
)
    requires
        pardonable(quarantine, outcomes, reports),
    ensures
        forall|r: int, c: int|
            0 <= r < reports.len() && 0 <= c < reports[r].test_cases@.len()
                && (#[trigger] reports[r].test_cases@[c]).status.is_failure() ==> quarantine.contains(
                reports[r].test_cases@[c]@.id(),
            ),
{
    lemma_failing_union_finite(reports);
    crate::keyed::lemma_sorted_exists(failing_union(reports));
    assert forall|r: int, c: int|
        0 <= r < reports.len() && 0 <= c < reports[r].test_cases@.len()
            && (#[trigger] reports[r].test_cases@[c]).status.is_failure() implies quarantine.contains(
            reports[r].test_cases@[c]@.id(),
        ) by {
        let k = reports[r].test_cases@[c]@.id();
        crate::verify::lemma_failing_row_listed(reports[r].test_cases@, c);
        lemma_failing_union_holds(reports, r, k);
        assert(union_ids(reports).to_set().contains(k));
        assert(union_ids(reports).contains(k));
        let j = choose|j: int| 0 <= j < union_ids(reports).len() && union_ids(reports)[j] == k;
        assert(quarantine.contains(union_ids(reports)[j]));
    }
}

/// The failures pardoned by the quarantine file: `Some` — and the run exits
/// 0 — only when `--fail-on-flaky` is set, the suite failed, and the
/// quarantine pardons every failure.
pub fn pardoned_failures(
    args: &RunArgs,
    suite_red: bool,
    quarantine: &Vec<String>,
    outcomes: &[RunOutcome],
    reports: &[JunitReport],
) -> (r: Option<Vec<String>>)
    ensures
        !args.fail_on_flaky || !suite_red ==> r is None,
        args.fail_on_flaky && suite_red ==> match r {
            Some(ids) => pardonable(strings(quarantine@), outcomes@, reports@) && strings(ids@) == union_ids(reports@)
                && forall|j: int| 0 <= j < ids@.len() ==> strings(quarantine@).contains(#[trigger] ids@[j]@),
            None => !pardonable(strings(quarantine@), outcomes@, reports@),
        },
{
    if !args.fail_on_flaky || !suite_red {
        return None;
    }
    quarantine_pardon(quarantine, outcomes, reports)
}

/// Whether some explanation is not quarantined.
pub open spec fn some_unlisted(es: Seq<Explanation>) -> bool {
    exists|i: int| 0 <= i < es.len() && !(#[trigger] es[i]).quarantined
}

/// The run failed on nothing but known flakes while the quarantine pardoned
/// none of them under `--fail-on-flaky`: "nothing new" and exit 1 would
/// otherwise read as a contradiction.
pub open spec fn pardon_gap_spec(fail_on_flaky: bool, pardoned: bool, explanation: Option<Seq<Explanation>>) -> bool {
    fail_on_flaky && !pardoned && match explanation {
        Some(es) => only_known(counts_of(es)) && some_unlisted(es),
        None => false,
    }
}

/// Whether the pardon-gap note is owed.
pub fn pardon_gap(args: &RunArgs, analyses: &Analyses) -> (r: bool)
    ensures
        r == pardon_gap_spec(
            args.fail_on_flaky,
            analyses.pardoned is Some,
            crate::report::explanations_view(analyses.explanation),
        ),
{
    if !args.fail_on_flaky || analyses.pardoned.is_some() {
        return false;
    }
    let es = match analyses.explanation {
        Some(es) => es,
        None => return false,
    };
    let counts = crate::analyzers::explain::Counts::of(es);
    assert(es@.len() == es.len());
    assert(counts == counts_of(es@));
    if !counts.only_known_flakes() {
        return false;
    }
    let mut i: usize = 0;
    while i < es.len()
        invariant
            i <= es@.len(),
            forall|k: int| 0 <= k < i ==> (#[trigger] es@[k]).quarantined,
            only_known(counts_of(es@)),
            args.fail_on_flaky,
            analyses.pardoned is None,
            analyses.explanation == Some(es),
        decreases es.len() - i,
    {
        if !es[i].quarantined {
            assert(!es@[i as int].quarantined);
            return true;
        }
        i += 1;
    }
    false
}

/// The note when the runner's exit and the report disagree, in either
/// direction. The exit code is settled elsewhere; this explains it.
pub open spec fn disagreement_text(runs_failed: bool, report_failures: nat, has_reports: bool) -> Option<Seq<char>> {
    if report_failures > 0 && !runs_failed {
        Some(
            "the runner exited 0 but the report shows "@ + decimal(report_failures)
                + " failing test(s) — exiting 1 (the runner and its report must agree for a 0)"@,
        )
    } else if runs_failed && report_failures == 0 && has_reports {
        Some("the runner failed but the report shows 0 failing tests — exiting 1 (a failure is never upgraded to a pass)"@)
    } else {
        None
    }
}

/// The disagreement note, if the runner and its report disagree.
pub fn disagreement(runs_failed: bool, report_failures: usize, has_reports: bool) -> (r: Option<String>)
    ensures
        match r {
            Some(m) => disagreement_text(runs_failed, report_failures as nat, has_reports) == Some(m@),
            None => disagreement_text(runs_failed, report_failures as nat, has_reports) is None,
        },
{
    if report_failures > 0 && !runs_failed {
        let mut m = String::new();
        push_str(&mut m, "the runner exited 0 but the report shows ");
        push_decimal(&mut m, report_failures as u128);
        push_str(&mut m, " failing test(s) — exiting 1 (the runner and its report must agree for a 0)");
        assert(m@ =~= "the runner exited 0 but the report shows "@ + decimal(report_failures as nat)
            + " failing test(s) — exiting 1 (the runner and its report must agree for a 0)"@);
        Some(m)
    } else if runs_failed && report_failures == 0 && has_reports {
        let mut m = String::new();
        push_str(&mut m, "the runner failed but the report shows 0 failing tests — exiting 1 (a failure is never upgraded to a pass)");
        assert(m@ =~= "the runner failed but the report shows 0 failing tests — exiting 1 (a failure is never upgraded to a pass)"@);
        Some(m)
    } else {
        None
    }
}

/// The index of the last failed run.
pub open spec fn last_failed(outcomes: Seq<RunOutcome>) -> Option<int>
    decreases outcomes.len(),
{
    if outcomes.len() == 0 {
        None
    } else if !outcomes.last().success {
        Some(outcomes.len() - 1)
    } else {
        last_failed(outcomes.drop_last())
    }
}

/// The run facts worth keeping when a report is unusable and a run failed:
/// the last failed run (counted against the requested runs), its status and
/// duration, and where the real story is.
pub open spec fn crash_text(outcomes: Seq<RunOutcome>, requested_runs: nat) -> Option<Seq<char>> {
    match last_failed(outcomes) {
        Some(i) => Some(
            "run "@ + decimal((i + 1) as nat) + " of "@ + decimal(requested_runs) + " failed ("@
                + status_label_spec(outcomes[i].exit_code, outcomes[i].signal) + ", "@ + duration_text(
                outcomes[i].duration as nat,
            ) + ") — the runner's own output above likely explains the unusable report"@,
        ),
        None => None,
    }
}

/// Where a failed run ends the search from the back.
proof fn lemma_last_failed(outcomes: Seq<RunOutcome>, n: int)
    requires
        0 <= n <= outcomes.len(),
        forall|k: int| n <= k < outcomes.len() ==> (#[trigger] outcomes[k]).success,
    ensures
        last_failed(outcomes) == last_failed(outcomes.take(n)),
    decreases outcomes.len() - n,
{
    if n < outcomes.len() {
        assert(outcomes.drop_last().take(n) =~= outcomes.take(n));
        lemma_last_failed(outcomes.drop_last(), n);
    } else {
        assert(outcomes.take(n) =~= outcomes);
    }
}

/// When the report is unusable and a run failed, the facts sooth already
/// measured; `None` when every run succeeded.
pub fn crash_context(outcomes: &[RunOutcome], requested_runs: u32) -> (r: Option<String>)
    ensures
        match r {
            Some(m) => crash_text(outcomes@, requested_runs as nat) == Some(m@),
            None => crash_text(outcomes@, requested_runs as nat) is None,
        },
{
    let mut n: usize = outcomes.len();
    while n > 0
        invariant
            n <= outcomes@.len(),
            forall|k: int| n <= k < outcomes@.len() ==> (#[trigger] outcomes@[k]).success,
        decreases n,
    {
        if !outcomes[n - 1].success {
            proof {
                lemma_last_failed(outcomes@, n as int);
                assert(outcomes@.take(n as int).last() == outcomes@[n - 1]);
            }
            let o = &outcomes[n - 1];
            let mut m = String::new();
            push_str(&mut m, "run ");
            push_decimal(&mut m, n as u128);
            push_str(&mut m, " of ");
            push_decimal(&mut m, requested_runs as u128);
            push_str(&mut m, " failed (");
            let label = o.status_label();
            push_str(&mut m, label.as_str());
            push_str(&mut m, ", ");
            push_duration(&mut m, o.duration);
            push_str(&mut m, ") — the runner's own output above likely explains the unusable report");
            assert(Some(m@) == crash_text(outcomes@, requested_runs as nat));
            return Some(m);
        }
        n -= 1;
    }
    proof {
        lemma_last_failed(outcomes@, 0);
        assert(outcomes@.take(0).len() == 0);
    }
    None
}

/// The message for a preset-managed report the command never wrote.
pub open spec fn missing_report_text(program: Seq<char>) -> Seq<char> {
    "the test command wrote no JUnit-XML report — is the reporter available, and is `"@ + program
        + "` the test runner itself rather than a wrapper like `python -m`, `npm` or `php artisan`?"@
}

/// The message for a report that could not be read or parsed.
pub open spec fn parse_failure_text(path: Seq<char>, error: Seq<char>) -> Seq<char> {
    "failed to parse JUnit-XML report `"@ + path + "`: "@ + error
}

/// A run's report, or why it is unusable. `preset_program` is the wrapped
/// program when the report is preset-managed: a missing file then means the
/// runner wrote nothing, which deserves an actionable message instead of a
/// parse error about a temp path the user never chose. `parsed` is what
/// reading and parsing the file gave.
pub fn load_report(
    path: &str,
    preset_program: Option<&str>,
    exists: bool,
    parsed: Result<JunitReport, JunitError>,
) -> (r: Result<JunitReport, String>)
    ensures
        preset_program matches Some(p) ==> (!exists ==> (r matches Err(m) && m@ == missing_report_text(p@))),
        !(preset_program is Some && !exists) ==> match parsed {
            Ok(report) => r == Ok::<JunitReport, String>(report),
            Err(e) => r matches Err(m) && m@ == parse_failure_text(path@, error_message(error_view(e))),
        },
{
    match preset_program {
        Some(program) => {
            if !exists {
                let mut m = String::new();
                push_str(&mut m, "the test command wrote no JUnit-XML report — is the reporter available, and is `");
                push_str(&mut m, program);
                push_str(&mut m, "` the test runner itself rather than a wrapper like `python -m`, `npm` or `php artisan`?");
                assert(m@ =~= missing_report_text(program@));
                return Err(m);
            }
        },
        None => {},
    }
    match parsed {
        Ok(report) => Ok(report),
        Err(e) => Err(parse_failure(path, &e)),
    }
}

/// The parse-failure message for `path`.
pub fn parse_failure(path: &str, e: &JunitError) -> (m: String)
    ensures
        m@ == parse_failure_text(path@, error_message(error_view(*e))),
{
    let mut m = String::new();
    push_str(&mut m, "failed to parse JUnit-XML report `");
    push_str(&mut m, path);
    push_str(&mut m, "`: ");
    let detail = e.message();
    push_str(&mut m, detail.as_str());
    assert(m@ =~= parse_failure_text(path@, error_message(error_view(*e))));
    m
}

/// The message for a user's report that the run did not touch.
pub open spec fn stale_report_text(path: Seq<char>) -> Seq<char> {
    "the JUnit-XML report at `"@ + path
        + "` was not touched by this run — it predates the test command. Is the runner writing its report to this path?"@
}

/// A user's report whose state (modification time and size) is the same
/// before and after the run was not written by it.
pub open spec fn is_stale(before: Option<(u128, u64)>, after: Option<(u128, u64)>) -> bool {
    before is Some && after == before
}

/// The stale-report message, when the run left the report untouched.
pub fn stale_report(path: &str, before: Option<(u128, u64)>, after: Option<(u128, u64)>) -> (r: Option<String>)
    ensures
        is_stale(before, after) ==> (r matches Some(m) && m@ == stale_report_text(path@)),
        !is_stale(before, after) ==> r is None,
{
    let stale = match (before, after) {
        (Some(b), Some(a)) => b.0 == a.0 && b.1 == a.1,
        _ => false,
    };
    if !stale {
        return None;
    }
    let mut m = String::new();
    push_str(&mut m, "the JUnit-XML report at `");
    push_str(&mut m, path);
    push_str(&mut m, "` was not touched by this run — it predates the test command. Is the runner writing its report to this path?");
    assert(m@ =~= stale_report_text(path@));
    Some(m)
}

/// The observation of one test's outcome, made on `commit` (with its
/// dirtiness) in `environment` at `at_epoch_secs`.
pub open spec fn observed_as(
    entry: (Seq<char>, TestStatus),
    commit: Option<Seq<char>>,
    dirty: Option<bool>,
    environment: Seq<char>,
    at_epoch_secs: u64,
) -> ObservationView {
    ObservationView {
        id: entry.0,
        status: entry.1,
        commit,
        dirty,
        environment: Some(environment),
        at_epoch_secs,
    }
}

/// The view of an outcome list.
pub open spec fn entries_view(v: Seq<(String, TestStatus)>) -> Seq<(Seq<char>, TestStatus)> {
    v.map_values(|e: (String, TestStatus)| (e.0@, e.1))
}

/// One run's outcomes as history observations.
pub fn observations_for(
    outcomes: &Vec<(String, TestStatus)>,
    commit: &Option<String>,
    dirty: Option<bool>,
    environment: &str,
    at_epoch_secs: u64,
) -> (out: Vec<Observation>)
    ensures
        out@.map_values(|o: Observation| observation_view(o)) == entries_view(outcomes@).map_values(
            |e: (Seq<char>, TestStatus)| observed_as(e, opt_view(*commit), dirty, environment@, at_epoch_secs),
        ),
{
    let mut out: Vec<Observation> = Vec::new();
    let mut i: usize = 0;
    while i < outcomes.len()
        invariant
            i <= outcomes@.len(),
            out@.map_values(|o: Observation| observation_view(o)) == entries_view(outcomes@).take(i as int).map_values(
                |e: (Seq<char>, TestStatus)| observed_as(e, opt_view(*commit), dirty, environment@, at_epoch_secs),
            ),
        decreases outcomes.len() - i,
    {
        let o = Observation {
            id: copy_string(&outcomes[i].0),
            status: outcomes[i].1,
            commit: crate::text::copy_opt_string(commit),
            dirty,
            environment: Some(environment.to_string()),
            at_epoch_secs,
        };
        let ghost prev = out@.map_values(|o: Observation| observation_view(o));
        let ghost fresh = observation_view(o);
        out.push(o);
        assert(out@.map_values(|o: Observation| observation_view(o)) =~= prev.push(fresh));
        i += 1;
        assert(out@.map_values(|o: Observation| observation_view(o)) =~= entries_view(outcomes@).take(i as int).map_values(
            |e: (Seq<char>, TestStatus)| observed_as(e, opt_view(*commit), dirty, environment@, at_epoch_secs),
        ));
    }
    assert(entries_view(outcomes@).take(i as int) =~= entries_view(outcomes@));
    out
}

/// An asserted commit is a clean checkout of it; without one, the tree's
/// state is unknown.
pub open spec fn asserted_dirty(commit: Option<Seq<char>>) -> Option<bool> {
    match commit {
        Some(_) => Some(false),
        None => None,
    }
}

/// An imported report's outcomes as observations: of the asserted commit,
/// clean when one is asserted, in the given environment.
pub fn imported_observations(
    outcomes: &Vec<(String, TestStatus)>,
    commit: &Option<String>,
    environment: &str,
    at_epoch_secs: u64,
) -> (out: Vec<Observation>)
    ensures
        out@.map_values(|o: Observation| observation_view(o)) == entries_view(outcomes@).map_values(
            |e: (Seq<char>, TestStatus)|
                observed_as(e, opt_view(*commit), asserted_dirty(opt_view(*commit)), environment@, at_epoch_secs),
        ),
{
    let dirty = match commit {
        Some(_) => Some(false),
        None => None,
    };
    observations_for(outcomes, commit, dirty, environment, at_epoch_secs)
}

/// Whether a file with this content hash is skipped: the ledger records it,
/// or an earlier file of the same batch had the same content.
pub fn already_imported(ledger: &Vec<u64>, earlier: &Vec<u64>, hash: u64) -> (r: bool)
    ensures
        r == (ledger@.contains(hash) || earlier@.contains(hash)),
{
    contains_hash(ledger, hash) || contains_hash(earlier, hash)
}

/// Whether `hashes` holds `hash`.
fn contains_hash(hashes: &Vec<u64>, hash: u64) -> (r: bool)
    ensures
        r == hashes@.contains(hash),
{
    let mut i: usize = 0;
    while i < hashes.len()
        invariant
            i <= hashes.len(),
            forall|j: int| 0 <= j < i ==> hashes@[j] != hash,
        decreases hashes.len() - i,
    {
        if hashes[i] == hash {
            assert(hashes@[i as int] == hash);
            return true;
        }
        i += 1;
    }
    false
}

/// When an imported report's observations were made: the report's own
/// timestamp, else the file's modification time, else now.
pub fn import_time(stamped: Option<u64>, modified: Option<u64>, now: u64) -> (t: u64)
    ensures
        t == match stamped {
            Some(s) => s,
            None => match modified {
                Some(m) => m,
                None => now,
            },
        },
{
    match stamped {
        Some(s) => s,
        None => match modified {
            Some(m) => m,
            None => now,
        },
    }
}

/// Observations made on a dirty or unknown tree.
pub open spec fn unusable() -> spec_fn(Observation) -> bool {
    |o: Observation| o.dirty != Some(false)
}

/// What the history's first `len - recorded` observations (those from
/// earlier runs) amount to as evidence.
pub open spec fn prior_spec(observations: Seq<Observation>, recorded: nat) -> PriorEvidence {
    let prior = if observations.len() >= recorded {
        (observations.len() - recorded) as nat
    } else {
        0
    };
    PriorEvidence {
        observations: prior as usize,
        unusable: observations.take(prior as int).filter(unusable()).len() as usize,
    }
}

/// The evidence the earlier observations carry: this run's own
/// `recorded` observations are already in the history, and only earlier
/// ones can make a failure read as anything but new.
pub fn prior_evidence(observations: &Vec<Observation>, recorded: usize) -> (p: PriorEvidence)
    ensures
        p == prior_spec(observations@, recorded as nat),
{
    let prior: usize = if observations.len() >= recorded {
        observations.len() - recorded
    } else {
        0
    };
    let mut bad: usize = 0;
    let mut i: usize = 0;
    while i < prior
        invariant
            i <= prior,
            prior <= observations@.len(),
            bad == observations@.take(i as int).filter(unusable()).len(),
            bad <= i,
        decreases prior - i,
    {
        assert(observations@.take(i + 1) =~= observations@.take(i as int).push(observations@[i as int]));
        proof {
            observations@.take(i as int).lemma_filter_push(observations@[i as int], unusable());
        }
        if observations[i].dirty != Some(false) {
            bad += 1;
        }
        i += 1;
    }
    PriorEvidence { observations: prior, unusable: bad }
}

/// What a run's report says per test, as `run_outcomes` lists it: each
/// collapsed id once, in increasing order, with its collapsed status.
pub open spec fn lists_outcomes(v: Seq<(String, TestStatus)>, report: JunitReport) -> bool {
    &&& v.len() == collapse(report.test_cases@).dom().len()
    &&& strictly_sorted(v.map_values(|e: (String, TestStatus)| e.0@))
    &&& forall|k: Seq<char>| #[trigger] collapse(report.test_cases@).contains_key(k)
        <==> v.map_values(|e: (String, TestStatus)| e.0@).contains(k)
    &&& forall|i: int| 0 <= i < v.len() ==> collapse(report.test_cases@)[#[trigger] v[i].0@] == v[i].1
}

/// An import file, parsed as what it claims to be.
pub enum Parsed {
    /// A JUnit-XML report.
    Junit(Result<JunitReport, JunitError>),
    /// A console log.
    Log(Result<ParsedLog, String>),
}

/// Parse an import file: as a PHPUnit console log when `log` says so, else
/// as JUnit XML.
pub fn parse_import(content: &str, log: Option<LogFormat>) -> (p: Parsed)
    ensures
        log is Some ==> (p matches Parsed::Log(r) && match r {
            Ok(parsed) => {
                let st = crate::phpunit_log::read_log(crate::history::split_lines(content@));
                &&& st.anchored
                &&& crate::phpunit_log::lists_failures(parsed.failures.entries(), st.failures)
                &&& opt_view(parsed.at) == st.at
            },
            Err(message) => !crate::phpunit_log::read_log(crate::history::split_lines(content@)).anchored
                && message@ == crate::phpunit_log::no_summary_message(),
        }),
        log is None ==> (p matches Parsed::Junit(r) && result_view(r) == parse_spec(
            crate::junit::xml_events(content@, content.len() as nat),
        )),
{
    match log {
        Some(LogFormat::Phpunit) => Parsed::Log(crate::phpunit_log::parse_str(content)),
        None => Parsed::Junit(crate::junit::parse_str(content)),
    }
}

/// What one import file yields: its per-test outcomes plus the timestamp
/// the content itself carries; `None` is a green console log, which names
/// no tests.
pub type FileYield = Option<(Vec<(String, TestStatus)>, Option<String>)>;

/// The message for a console log that could not be parsed.
pub open spec fn log_failure_text(path: Seq<char>, error: Seq<char>) -> Seq<char> {
    "failed to parse PHPUnit log `"@ + path + "`: "@ + error
}

/// The outcomes one parsed import file yields, or why it cannot be
/// imported. A JUnit-XML report names its timestamp nowhere this reader
/// looks, so its yield carries none.
pub fn import_yield(path: &str, parsed: Parsed) -> (r: Result<FileYield, String>)
    ensures
        match parsed {
            Parsed::Log(Ok(log)) => if log.failures.entries().len() == 0 {
                r == Ok::<FileYield, String>(None)
            } else {
                r matches Ok(Some((outcomes, at))) && entries_view(outcomes@) == log.failures.entries() && at == log.at
            },
            Parsed::Log(Err(e)) => r matches Err(m) && m@ == log_failure_text(path@, e@),
            Parsed::Junit(Ok(report)) => r matches Ok(Some((outcomes, at))) && at is None && lists_outcomes(outcomes@, report),
            Parsed::Junit(Err(e)) => r matches Err(m) && m@ == parse_failure_text(path@, error_message(error_view(e))),
        },
{
    match parsed {
        Parsed::Log(Ok(log)) => {
            if log.failures.is_empty() {
                Ok(None)
            } else {
                let v = log.failures.to_vec();
                assert(entries_view(v@) =~= log.failures.entries());
                Ok(Some((v, log.at)))
            }
        },
        Parsed::Log(Err(e)) => {
            let mut m = String::new();
            push_str(&mut m, "failed to parse PHPUnit log `");
            push_str(&mut m, path);
            push_str(&mut m, "`: ");
            push_str(&mut m, e.as_str());
            assert(m@ =~= log_failure_text(path@, e@));
            Err(m)
        },
        Parsed::Junit(Ok(report)) => {
            let v = run_outcomes(&report);
            Ok(Some((v, None)))
        },
        Parsed::Junit(Err(e)) => Err(parse_failure(path, &e)),
    }
}

/// Where a time `t` joins a list ordered by time: after every entry at or
/// before it, so equal times keep their order.
pub open spec fn time_slot(times: Seq<u64>, t: u64) -> nat
    decreases times.len(),
{
    if times.len() == 0 {
        0
    } else if times[0] > t {
        0
    } else {
        1 + time_slot(times.drop_first(), t)
    }
}

/// The positions of `times` in ascending time order, equal times in their
/// original order (a stable sort by time).
pub open spec fn time_order(times: Seq<u64>) -> Seq<usize>
    decreases times.len(),
{
    if times.len() == 0 {
        Seq::empty()
    } else {
        let order = time_order(times.drop_last());
        order.insert(
            time_slot(order.map_values(|k: usize| times[k as int]), times.last()) as int,
            (times.len() - 1) as usize,
        )
    }
}

/// Past a prefix at or before `t`, the slot is counted from there.
proof fn lemma_time_slot_skip(s: Seq<u64>, t: u64, p: int)
    requires
        0 <= p <= s.len(),
        forall|j: int| 0 <= j < p ==> s[j] <= t,
    ensures
        time_slot(s, t) == p + time_slot(s.skip(p), t),
    decreases p,
{
    if p > 0 {
        assert(s.drop_first().skip(p - 1) =~= s.skip(p));
        lemma_time_slot_skip(s.drop_first(), t, p - 1);
    } else {
        assert(s.skip(0) =~= s);
    }
}

/// The time order holds each earlier position once.
proof fn lemma_time_order(times: Seq<u64>)
    ensures
        time_order(times).len() == times.len(),
        forall|i: int| 0 <= i < times.len() ==> (#[trigger] time_order(times)[i]) < times.len(),
    decreases times.len(),
{
    if times.len() > 0 {
        let order = time_order(times.drop_last());
        lemma_time_order(times.drop_last());
        let vals = order.map_values(|k: usize| times[k as int]);
        lemma_time_slot_bound(vals, times.last());
    }
}

/// The slot lies within the list.
proof fn lemma_time_slot_bound(s: Seq<u64>, t: u64)
    ensures
        time_slot(s, t) <= s.len(),
    decreases s.len(),
{
    if s.len() > 0 && s[0] <= t {
        lemma_time_slot_bound(s.drop_first(), t);
    }
}

/// The order in which import files are recorded: ascending time, so the
/// history stays readable front to back, equal times in argument order.
pub fn import_order(times: &Vec<u64>) -> (order: Vec<usize>)
    ensures
        order@ == time_order(times@),
{
    let mut order: Vec<usize> = Vec::new();
    let mut i: usize = 0;
    while i < times.len()
        invariant
            i <= times@.len(),
            order@ == time_order(times@.take(i as int)),
            forall|j: int| 0 <= j < order@.len() ==> (#[trigger] order@[j]) < i,
        decreases times.len() - i,
    {
        let ghost prefix = times@.take(i as int);
        let ghost vals = order@.map_values(|k: usize| prefix[k as int]);
        let t = times[i];
        let mut p: usize = 0;
        while p < order.len() && times[order[p]] <= t
            invariant
                p <= order@.len(),
                i < times@.len(),
                prefix == times@.take(i as int),
                vals == order@.map_values(|k: usize| prefix[k as int]),
                forall|j: int| 0 <= j < order@.len() ==> (#[trigger] order@[j]) < i,
                forall|j: int| 0 <= j < p ==> vals[j] <= t,
            decreases order.len() - p,
        {
            assert(vals[p as int] == times@[order@[p as int] as int]);
            p += 1;
        }
        proof {
            lemma_time_slot_skip(vals, t, p as int);
            if p < order@.len() {
                assert(vals[p as int] == times@[order@[p as int] as int]);
            }
            assert(time_slot(vals.skip(p as int), t) == 0);
            let next = times@.take(i + 1);
            assert(next.drop_last() =~= prefix);
            assert(next.last() == t);
            assert(order@.map_values(|k: usize| next[k as int]) =~= vals);
        }
        order.insert(p, i);
        i += 1;
        assert(order@ == time_order(times@.take(i as int)));
    }
    assert(times@.take(i as int) =~= times@);
    order
}

/// `PATH: N observation(s)`: what one import file added.
pub open spec fn imported_text(path: Seq<char>, n: nat) -> Seq<char> {
    path + ": "@ + count_text(n, "observation"@)
}

/// The line for an import file that brought observations.
pub fn imported_line(path: &str, n: usize) -> (line: String)
    ensures
        line@ == imported_text(path@, n as nat),
{
    let mut line = String::new();
    push_str(&mut line, path);
    push_str(&mut line, ": ");
    let c = crate::format::count(n, "observation");
    push_str(&mut line, c.as_str());
    assert(line@ =~= imported_text(path@, n as nat));
    line
}

/// The line for an import file whose exact content was imported before.
pub fn skipped_line(path: &str) -> (line: String)
    ensures
        line@ == path@ + ": skipped (already imported)"@,
{
    let mut line = String::new();
    push_str(&mut line, path);
    push_str(&mut line, ": skipped (already imported)");
    line
}

/// The line for a green console log.
pub fn green_log_line(path: &str) -> (line: String)
    ensures
        line@ == path@ + ": no failures to record — a green log names no tests"@,
{
    let mut line = String::new();
    push_str(&mut line, path);
    push_str(&mut line, ": no failures to record — a green log names no tests");
    line
}

/// `history now holds N observation(s)`.
pub open spec fn holds_text(n: nat) -> Seq<char> {
    "history now holds "@ + count_text(n, "observation"@)
}

/// The closing line of `history` and `import`.
pub fn holds_line(n: usize) -> (line: String)
    ensures
        line@ == holds_text(n as nat),
{
    let mut line = String::new();
    push_str(&mut line, "history now holds ");
    let c = crate::format::count(n, "observation");
    push_str(&mut line, c.as_str());
    assert(line@ =~= holds_text(n as nat));
    line
}

/// Appends every line of `more`.
fn append_lines(lines: &mut Vec<String>, more: Vec<String>)
    ensures
        line_views(final(lines)@) == line_views(old(lines)@) + line_views(more@),
{
    let mut more = more;
    let ghost a = line_views(lines@);
    let ghost b = line_views(more@);
    lines.append(&mut more);
    assert(line_views(lines@) =~= a + b);
}

/// What `history` prints: the empty-history sentence, or the findings (with
/// "nothing stands out" when there are none), the note on dirty evidence,
/// and how many observations the history holds.
pub open spec fn history_report_spec(count: nat, prior: PriorEvidence, analysis: HistoryAnalysis, colored: bool) -> Seq<Seq<char>> {
    if count == 0 {
        seq!["the history is empty — every `sooth run` and `sooth import` adds to it"@]
    } else {
        (if analysis.flaky@.len() == 0 && analysis.failing_since@.len() == 0 {
            seq!["nothing stands out: no proven flakes, no failing-since pointers"@]
        } else {
            Seq::<Seq<char>>::empty()
        }) + history_lines_spec(Some(analysis), None, colored) + gap_lines_spec(Some(prior), colored) + seq![
            holds_text(count),
        ]
    }
}

/// The lines of `sooth history`, over `count` observations whose evidence
/// is `prior` and whose classification is `analysis`.
pub fn history_report(count: usize, prior: PriorEvidence, analysis: &HistoryAnalysis, style: Style) -> (lines: Vec<
    String,
>)
    ensures
        line_views(lines@) == history_report_spec(count as nat, prior, *analysis, style.colored),
{
    let mut lines: Vec<String> = Vec::new();
    if count == 0 {
        lines.push("the history is empty — every `sooth run` and `sooth import` adds to it".to_string());
        assert(line_views(lines@) =~= history_report_spec(count as nat, prior, *analysis, style.colored));
        return lines;
    }
    if analysis.is_empty() {
        lines.push("nothing stands out: no proven flakes, no failing-since pointers".to_string());
    }
    let ghost head = line_views(lines@);
    let analyses = Analyses {
        flaky: None,
        history: Some(analysis),
        history_observations: None,
        verify: None,
        pardoned: None,
        explanation: None,
        gate: None,
    };
    append_lines(&mut lines, history_lines(&analyses, style));
    append_lines(&mut lines, gap_lines(Some(prior), style));
    let ghost before = line_views(lines@);
    let last = holds_line(count);
    let ghost fresh = last@;
    lines.push(last);
    assert(line_views(lines@) =~= before.push(fresh));
    assert(line_views(lines@) =~= history_report_spec(count as nat, prior, *analysis, style.colored));
    lines
}

/// What `import` prints after recording: the findings and how many
/// observations the history now holds.
pub fn import_report(count: usize, analysis: &HistoryAnalysis, style: Style) -> (lines: Vec<String>)
    ensures
        line_views(lines@) == history_lines_spec(Some(*analysis), None, style.colored) + seq![holds_text(count as nat)],
{
    let analyses = Analyses {
        flaky: None,
        history: Some(analysis),
        history_observations: None,
        verify: None,
        pardoned: None,
        explanation: None,
        gate: None,
    };
    let mut lines = history_lines(&analyses, style);
    let ghost before = line_views(lines@);
    let last = holds_line(count);
    let ghost fresh = last@;
    lines.push(last);
    assert(line_views(lines@) =~= before.push(fresh));
    lines
}

/// The human report's sections, in the one order every output mode uses:
/// the runs, the totals, one line per failure, the pardon-gap note when
/// owed, then what is known but did not fail.
pub open spec fn sections_spec(
    args: RunArgs,
    outcomes: Seq<RunOutcome>,
    summary: JunitSummary,
    explanation: Option<Seq<Explanation>>,
    prior: Option<PriorEvidence>,
    pardoned: bool,
    history: Option<HistoryAnalysis>,
    colored: bool,
) -> Seq<Seq<char>> {
    run_lines_spec(outcomes, colored) + summary_lines_spec(summary, colored) + explanation_lines_spec(
        explanation,
        prior,
        colored,
    ) + (if pardon_gap_spec(args.fail_on_flaky, pardoned, explanation) {
        seq![pardon_gap_text(colored)]
    } else {
        Seq::<Seq<char>>::empty()
    }) + history_lines_spec(history, explanation, colored)
}

/// The human report's sections.
pub fn sections(
    args: &RunArgs,
    outcomes: &[RunOutcome],
    summary: &JunitSummary,
    analyses: &Analyses,
    style: Style,
) -> (lines: Vec<String>)
    ensures
        line_views(lines@) == sections_spec(
            *args,
            outcomes@,
            *summary,
            explanations_view(analyses.explanation),
            analyses.history_observations,
            analyses.pardoned is Some,
            history_view(analyses.history),
            style.colored,
        ),
{
    let mut lines = run_lines(outcomes, style);
    append_lines(&mut lines, summary_lines(summary, style));
    append_lines(&mut lines, explanation_lines(analyses, style));
    let ghost before = line_views(lines@);
    if pardon_gap(args, analyses) {
        let note = pardon_gap_line(style);
        let ghost fresh = note@;
        lines.push(note);
        assert(line_views(lines@) =~= before.push(fresh));
    }
    append_lines(&mut lines, history_lines(analyses, style));
    assert(line_views(lines@) =~= sections_spec(
        *args,
        outcomes@,
        *summary,
        explanations_view(analyses.explanation),
        analyses.history_observations,
        analyses.pardoned is Some,
        history_view(analyses.history),
        style.colored,
    ));
    lines
}

/// The closing verdict line, pardon-aware: a pardoned run explains why it
/// exits 0 instead of claiming a clean pass.
pub open spec fn closing_spec(
    pardoned: Option<nat>,
    outcomes: Seq<RunOutcome>,
    tests: Option<nat>,
    report_failures: nat,
    failed: bool,
    colored: bool,
) -> Seq<char> {
    match pardoned {
        Some(n) => crate::report::pardoned_verdict_text(outcomes, n, colored),
        None => crate::report::verdict_text(outcomes, tests, report_failures, failed, colored),
    }
}

/// How many failures were pardoned, when the run was.
pub open spec fn pardoned_count(p: Option<&[String]>) -> Option<nat> {
    match p {
        Some(ids) => Some(ids@.len()),
        None => None,
    }
}

/// The closing verdict line.
pub fn closing_verdict(
    analyses: &Analyses,
    outcomes: &[RunOutcome],
    summary: Option<&JunitSummary>,
    report_failures: usize,
    failed: bool,
    style: Style,
) -> (line: String)
    ensures
        line@ == closing_spec(
            pardoned_count(analyses.pardoned),
            outcomes@,
            crate::report::tests_of(summary),
            report_failures as nat,
            failed,
            style.colored,
        ),
{
    match analyses.pardoned {
        Some(ids) => pardoned_verdict(outcomes, ids.len(), style),
        None => verdict_line(outcomes, summary, report_failures, failed, style),
    }
}

/// The run's output in the shape the flags ask for: what goes to stdout
/// first, the JSON document to write to a file (with its path), and what
/// goes to stdout once the file is written.
pub struct RunOutput {
    pub lines: Vec<String>,
    pub json_file: Option<(String, String)>,
    pub closing: Vec<String>,
}

/// The run's output. Bare `--json`: sooth's own stdout is exactly one line
/// of JSON. `--json=PATH`: the human report, the JSON to the file, then the
/// verdict. No JSON: the human report and the verdict. Without a report:
/// the run lines and the verdict.
pub fn run_output(
    args: &RunArgs,
    outcomes: &[RunOutcome],
    summary: Option<&JunitSummary>,
    analyses: &Analyses,
    report_failures: usize,
    failed: bool,
    style: Style,
) -> (out: RunOutput)
    ensures
        match summary {
            Some(s) => match args.json {
                Some(None) => line_views(out.lines@) == seq![
                    crate::report::json_text(
                        outcomes@,
                        *s,
                        crate::report::flaky_view(analyses.flaky),
                        history_view(analyses.history),
                        crate::report::verdict_view(analyses.verify),
                        crate::report::strings_view(analyses.pardoned),
                        explanations_view(analyses.explanation),
                        crate::report::gate_view(analyses.gate),
                    ),
                ] && out.json_file is None && out.closing@.len() == 0,
                Some(Some(path)) => {
                    &&& line_views(out.lines@) == sections_spec(
                        *args,
                        outcomes@,
                        *s,
                        explanations_view(analyses.explanation),
                        analyses.history_observations,
                        analyses.pardoned is Some,
                        history_view(analyses.history),
                        style.colored,
                    )
                    &&& out.json_file matches Some((p, j)) && p@ == path@ && j@ == crate::report::json_text(
                        outcomes@,
                        *s,
                        crate::report::flaky_view(analyses.flaky),
                        history_view(analyses.history),
                        crate::report::verdict_view(analyses.verify),
                        crate::report::strings_view(analyses.pardoned),
                        explanations_view(analyses.explanation),
                        crate::report::gate_view(analyses.gate),
                    )
                    &&& line_views(out.closing@) == seq![
                        closing_spec(
                            pardoned_count(analyses.pardoned),
                            outcomes@,
                            Some(s.total as nat),
                            report_failures as nat,
                            failed,
                            style.colored,
                        ),
                    ]
                },
                None => line_views(out.lines@) == sections_spec(
                    *args,
                    outcomes@,
                    *s,
                    explanations_view(analyses.explanation),
                    analyses.history_observations,
                    analyses.pardoned is Some,
                    history_view(analyses.history),
                    style.colored,
                ) + seq![
                    closing_spec(
                        pardoned_count(analyses.pardoned),
                        outcomes@,
                        Some(s.total as nat),
                        report_failures as nat,
                        failed,
                        style.colored,
                    ),
                ] && out.json_file is None && out.closing@.len() == 0,
            },
            None => line_views(out.lines@) == run_lines_spec(outcomes@, style.colored) + seq![
                crate::report::verdict_text(outcomes@, None, report_failures as nat, failed, style.colored),
            ] && out.json_file is None && out.closing@.len() == 0,
        },
{
    let mut closing: Vec<String> = Vec::new();
    match summary {
        Some(s) => match &args.json {
            Some(None) => {
                let mut lines: Vec<String> = Vec::new();
                lines.push(to_json(outcomes, s, analyses));
                assert(line_views(lines@).len() == 1);
                RunOutput { lines, json_file: None, closing }
            },
            Some(Some(path)) => {
                let lines = sections(args, outcomes, s, analyses, style);
                let json = to_json(outcomes, s, analyses);
                let verdict = closing_verdict(analyses, outcomes, summary, report_failures, failed, style);
                let ghost fresh = verdict@;
                closing.push(verdict);
                assert(line_views(closing@) =~= seq![fresh]);
                RunOutput { lines, json_file: Some((copy_string(path), json)), closing }
            },
            None => {
                let mut lines = sections(args, outcomes, s, analyses, style);
                let ghost before = line_views(lines@);
                let verdict = closing_verdict(analyses, outcomes, summary, report_failures, failed, style);
                let ghost fresh = verdict@;
                lines.push(verdict);
                assert(line_views(lines@) =~= before.push(fresh));
                RunOutput { lines, json_file: None, closing }
            },
        },
        None => {
            let mut lines = run_lines(outcomes, style);
            let ghost before = line_views(lines@);
            let verdict = verdict_line(outcomes, None, report_failures, failed, style);
            let ghost fresh = verdict@;
            lines.push(verdict);
            assert(line_views(lines@) =~= before.push(fresh));
            RunOutput { lines, json_file: None, closing }
        },
    }
}

} // verus!
