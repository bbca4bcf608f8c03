//! Failure re-verification: after a failing run, re-run *only the failed
//! tests* and classify them.

use vstd::prelude::*;

use crate::analyzers::flaky::lemma_filter_step;
use crate::junit::{JunitReport, TestCase, TestStatus};
use crate::keyed::{find_slot, keys_of, lemma_filter_sorted, strictly_sorted};
use crate::text::{strings, chars_of, copy_opt_string, copy_string, lex_lt, opt_view, string_of, str_eq};

verus! {

/// How many times a failed test is re-run.
pub const VERIFY_RUNS: u32 = 2;

/// The signature a failure carries: its kind (assertion failure vs error)
/// and the exception class from the report's `type` attribute, when the
/// runner writes one.
#[derive(Debug, Clone, PartialEq, Eq)]
pub struct FailureSignature {
    pub status: TestStatus,
    pub failure_type: Option<String>,
}

/// The mathematical content of a signature: kind and class.
pub open spec fn sig_view(s: FailureSignature) -> (TestStatus, Option<Seq<char>>) {
    (s.status, opt_view(s.failure_type))
}

/// The signature a test case carries.
pub open spec fn case_sig(c: TestCase) -> (TestStatus, Option<Seq<char>>) {
    (c.status, opt_view(c.failure_type))
}

/// The signature as the report names it: the exception class, or the kind
/// when the report carries no `type`.
pub open spec fn describe(s: (TestStatus, Option<Seq<char>>)) -> Seq<char> {
    match s.1 {
        Some(class) => class,
        None => if s.0 == TestStatus::Error {
            "an error"@
        } else {
            "a failure"@
        },
    }
}

impl FailureSignature {
    /// The signature as the report names it (see `describe`).
    fn describe(&self) -> (d: String)
        ensures
            d@ == describe(sig_view(*self)),
    {
        match &self.failure_type {
            Some(class) => copy_string(class),
            None => match self.status {
                TestStatus::Error => "an error".to_owned(),
                _ => "a failure".to_owned(),
            },
        }
    }
}

/// Whether two failures read as the same one. Absent metadata never
/// manufactures a difference: kinds must match, classes only when both
/// sides carry one.
pub open spec fn same_failure(suite: (TestStatus, Option<Seq<char>>), isolation: (TestStatus, Option<Seq<char>>)) -> bool {
    suite.0 == isolation.0 && match (suite.1, isolation.1) {
        (Some(left), Some(right)) => left == right,
        _ => true,
    }
}

/// `same_failure` on executable signatures.
fn same_failure_exec(suite: &FailureSignature, isolation: &FailureSignature) -> (r: bool)
    ensures
        r == same_failure(sig_view(*suite), sig_view(*isolation)),
{
    suite.status == isolation.status && match (&suite.failure_type, &isolation.failure_type) {
        (Some(left), Some(right)) => str_eq(left.as_str(), right.as_str()),
        _ => true,
    }
}

/// A failure whose re-run failed with a different signature: an artifact of
/// isolation, not a reproduction.
#[derive(Debug, Clone, PartialEq, Eq)]
pub struct DifferentFailure {
    pub id: String,
    /// What the suite's run saw, as described.
    pub suite: String,
    /// What the re-run saw instead.
    pub isolation: String,
}

/// What re-verification concluded about the run's failures.
#[derive(Debug, Default, PartialEq, Eq)]
pub struct Verdict {
    /// Failed the suite and failed every verification run it appeared in,
    /// with the same signature.
    pub real: Vec<String>,
    /// Failed the suite but passed at least one verification run.
    pub flaky_or_order: Vec<String>,
    /// Failed every verification run, but with a different signature than
    /// the suite saw — nothing was reproduced.
    pub failed_differently: Vec<DifferentFailure>,
    /// Failed the suite but never appeared in a verification report.
    pub unverified: Vec<String>,
}

/// A failed test carrying both halves of its identity: `id` is the joined
/// `classname::name` that reports, history, and quarantine key on; `name`
/// is the raw `name` attribute selection needs. The halves travel
/// separately — a name may itself contain `::`, so the join is one-way.
#[derive(Debug, PartialEq, Eq)]
pub struct FailedTest {
    pub id: String,
    pub name: String,
    /// What the suite's run saw, for the re-run to reproduce — or not.
    pub signature: FailureSignature,
}

/// One run's signature per test id: duplicate rows collapse to the worst
/// status (the first row reaching it wins), with the `type` riding along.
pub open spec fn signatures(cases: Seq<TestCase>) -> Map<Seq<char>, (TestStatus, Option<Seq<char>>)>
    decreases cases.len(),
{
    if cases.len() == 0 {
        Map::empty()
    } else {
        let m = signatures(cases.drop_last());
        let c = cases.last();
        if m.contains_key(c@.id()) && m[c@.id()].0.rank() >= c.status.rank() {
            m
        } else {
            m.insert(c@.id(), case_sig(c))
        }
    }
}

/// `v` lists the keys of `m`, each with the index of a case of `cases`
/// carrying its signature.
pub open spec fn indexes(v: Seq<(Vec<char>, usize)>, cases: Seq<TestCase>, m: Map<Seq<char>, (TestStatus, Option<Seq<char>>)>) -> bool {
    &&& forall|k: Seq<char>| #[trigger] m.contains_key(k) <==> keys_of(v).contains(k)
    &&& forall|j: int| 0 <= j < v.len() ==> (#[trigger] v[j]).1 < cases.len() && m[v[j].0@] == case_sig(cases[v[j].1 as int])
}

/// One run's signatures as a sorted association list from id to the index
/// of the case carrying the signature.
fn run_signatures(report: &JunitReport) -> (out: Vec<(Vec<char>, usize)>)
    ensures
        strictly_sorted(keys_of(out@)),
        indexes(out@, report.test_cases@, signatures(report.test_cases@)),
{
    let cases = &report.test_cases;
    let mut out: Vec<(Vec<char>, usize)> = Vec::new();
    let mut i: usize = 0;
    while i < cases.len()
        invariant
            i <= cases.len(),
            cases == &report.test_cases,
            strictly_sorted(keys_of(out@)),
            indexes(out@, cases@, signatures(cases@.take(i as int))),
            forall|j: int| 0 <= j < out@.len() ==> (#[trigger] out@[j]).1 < i,
        decreases cases.len() - i,
    {
        let ghost before = out@;
        let ghost m = signatures(cases@.take(i as int));
        assert(cases@.take((i + 1) as int).drop_last() =~= cases@.take(i as int));
        assert(cases@.take((i + 1) as int).last() == cases@[i as int]);
        let id = cases[i].qualified_name();
        let key = chars_of(id.as_str());
        let ghost kv = key@;
        let status = cases[i].status;
        let (slot, found) = find_slot(&out, key.as_slice());
        if found {
            let held = out[slot].1;
            assert(m[kv] == case_sig(cases@[held as int]));
            if status.severity() > cases[held].status.severity() {
                out.set(slot, (key, i));
                proof {
                    let m2 = m.insert(kv, case_sig(cases@[i as int]));
                    assert(keys_of(out@) =~= keys_of(before));
                    assert forall|k: Seq<char>| #[trigger] m2.contains_key(k) <==> keys_of(out@).contains(k) by {
                        if k == kv {
                            assert(keys_of(out@)[slot as int] == k);
                        }
                    }
                    assert forall|j: int| 0 <= j < out@.len() implies (#[trigger] out@[j]).1 < cases@.len()
                        && m2[out@[j].0@] == case_sig(cases@[out@[j].1 as int]) by {
                        if j != slot {
                            crate::keyed::lemma_sorted_distinct(keys_of(out@), j, slot as int);
                            assert(out@[j] == before[j]);
                        }
                    }
                }
            } else {
                proof {
                    assert(signatures(cases@.take((i + 1) as int)) == m);
                }
            }
        } else {
            out.insert(slot, (key, i));
            proof {
                let m2 = m.insert(kv, case_sig(cases@[i as int]));
                assert(keys_of(out@) =~= keys_of(before).insert(slot as int, kv));
                assert forall|a: int, b: int| 0 <= a < b < keys_of(out@).len() implies lex_lt(
                    #[trigger] keys_of(out@)[a],
                    #[trigger] keys_of(out@)[b],
                ) by {
                    if a < slot && b > slot {
                        crate::text::lemma_lex_transitive(before[a].0@, kv, before[b - 1].0@);
                    }
                }
                assert forall|k: Seq<char>| #[trigger] m2.contains_key(k) <==> keys_of(out@).contains(k) by {
                    if k == kv {
                        assert(keys_of(out@)[slot as int] == k);
                    } else if m.contains_key(k) {
                        let j = choose|j: int| 0 <= j < keys_of(before).len() && keys_of(before)[j] == k;
                        if j < slot {
                            assert(keys_of(out@)[j] == k);
                        } else {
                            assert(keys_of(out@)[j + 1] == k);
                        }
                    } else if keys_of(out@).contains(k) {
                        let j = choose|j: int| 0 <= j < keys_of(out@).len() && keys_of(out@)[j] == k;
                        if j < slot {
                            assert(keys_of(before)[j] == k);
                        } else if j > slot {
                            assert(keys_of(before)[j - 1] == k);
                        }
                    }
                }
                assert forall|j: int| 0 <= j < out@.len() implies (#[trigger] out@[j]).1 < cases@.len()
                    && m2[out@[j].0@] == case_sig(cases@[out@[j].1 as int]) by {
                    if j < slot {
                        assert(out@[j] == before[j]);
                        assert(lex_lt(before[j].0@, kv));
                        crate::text::lemma_lex_irreflexive(kv);
                    } else if j > slot {
                        assert(out@[j] == before[j - 1]);
                        assert(lex_lt(kv, before[j - 1].0@));
                        crate::text::lemma_lex_irreflexive(kv);
                    }
                }
            }
        }
        i += 1;
    }
    assert(cases@.take(i as int) =~= cases@);
    out
}


/// The signatures of each verification run.
pub open spec fn runs_of(reports: Seq<JunitReport>) -> Seq<Map<Seq<char>, (TestStatus, Option<Seq<char>>)>> {
    reports.map_values(|r: JunitReport| signatures(r.test_cases@))
}

/// What the runs say about one failed test: whether any run re-ran it (a
/// skip carries no signal), whether any run passed it, and the first
/// failing signature that differs from the suite's.
pub open spec fn scan(
    runs: Seq<Map<Seq<char>, (TestStatus, Option<Seq<char>>)>>,
    id: Seq<char>,
    suite: (TestStatus, Option<Seq<char>>),
) -> (bool, bool, Option<(TestStatus, Option<Seq<char>>)>)
    decreases runs.len(),
{
    if runs.len() == 0 {
        (false, false, None)
    } else {
        let prior = scan(runs.drop_last(), id, suite);
        let run = runs.last();
        if run.contains_key(id) && run[id].0 == TestStatus::Passed {
            (true, true, prior.2)
        } else if run.contains_key(id) && run[id].0.is_failure() {
            (true, prior.1, if prior.2 is None && !same_failure(suite, run[id]) {
                Some(run[id])
            } else {
                prior.2
            })
        } else {
            prior
        }
    }
}

/// What the scan of the runs finds, run by run: the test was re-run when
/// some run passed or failed it, it passed when some run passed it, and the
/// signature kept is that of the first run that failed it differently from
/// the suite; none is kept exactly when every run that failed it failed it
/// the suite's way.
pub proof fn lemma_scan_finds(
    runs: Seq<Map<Seq<char>, (TestStatus, Option<Seq<char>>)>>,
    id: Seq<char>,
    suite: (TestStatus, Option<Seq<char>>),
)
    ensures
        scan(runs, id, suite).0 <==> exists|r: int|
            0 <= r < runs.len() && #[trigger] runs[r].contains_key(id) && (runs[r][id].0 == TestStatus::Passed
                || runs[r][id].0.is_failure()),
        scan(runs, id, suite).1 <==> exists|r: int|
            0 <= r < runs.len() && #[trigger] runs[r].contains_key(id) && runs[r][id].0 == TestStatus::Passed,
        scan(runs, id, suite).2 is None <==> forall|r: int|
            0 <= r < runs.len() && #[trigger] runs[r].contains_key(id) && runs[r][id].0.is_failure()
                ==> same_failure(suite, runs[r][id]),
        scan(runs, id, suite).2 matches Some(x) ==> exists|r: int|
            0 <= r < runs.len() && #[trigger] runs[r].contains_key(id) && runs[r][id].0.is_failure()
                && !same_failure(suite, runs[r][id]) && runs[r][id] == x && forall|q: int|
                0 <= q < r && #[trigger] runs[q].contains_key(id) && runs[q][id].0.is_failure() ==> same_failure(
                    suite,
                    runs[q][id],
                ),
    decreases runs.len(),
{
    if runs.len() > 0 {
        let d = runs.drop_last();
        let n = d.len() as int;
        lemma_scan_finds(d, id, suite);
        assert forall|r: int| 0 <= r < n implies #[trigger] d[r] == runs[r] by {}
        assert(runs[n] == runs.last());
        let prior = scan(d, id, suite);
        if exists|r: int|
            0 <= r < n && #[trigger] d[r].contains_key(id) && (d[r][id].0 == TestStatus::Passed || d[r][id].0.is_failure()) {
            let r = choose|r: int|
                0 <= r < n && #[trigger] d[r].contains_key(id) && (d[r][id].0 == TestStatus::Passed
                    || d[r][id].0.is_failure());
            assert(runs[r].contains_key(id));
        }
        if exists|r: int| 0 <= r < n && #[trigger] d[r].contains_key(id) && d[r][id].0 == TestStatus::Passed {
            let r = choose|r: int| 0 <= r < n && #[trigger] d[r].contains_key(id) && d[r][id].0 == TestStatus::Passed;
            assert(runs[r].contains_key(id));
        }
        if exists|r: int|
            0 <= r < n && #[trigger] d[r].contains_key(id) && d[r][id].0.is_failure() && !same_failure(suite, d[r][id]) {
            let r = choose|r: int|
                0 <= r < n && #[trigger] d[r].contains_key(id) && d[r][id].0.is_failure() && !same_failure(suite, d[r][id]);
            assert(runs[r].contains_key(id));
        }
        assert forall|r: int|
            0 <= r < runs.len() && #[trigger] runs[r].contains_key(id) implies r == n || d[r].contains_key(id) by {
            if r < n {
                assert(d[r] == runs[r]);
            }
        }
        if let Some(x) = prior.2 {
            let r = choose|r: int|
                0 <= r < n && #[trigger] d[r].contains_key(id) && d[r][id].0.is_failure() && !same_failure(suite, d[r][id])
                    && d[r][id] == x && forall|q: int|
                    0 <= q < r && #[trigger] d[q].contains_key(id) && d[q][id].0.is_failure() ==> same_failure(suite, d[q][id]);
            assert(runs[r].contains_key(id));
            assert forall|q: int| 0 <= q < r && #[trigger] runs[q].contains_key(id) && runs[q][id].0.is_failure() implies same_failure(
                suite,
                runs[q][id],
            ) by {
                assert(d[q] == runs[q]);
                assert(d[q].contains_key(id));
            }
        } else {
            if runs[n].contains_key(id) && runs[n][id].0.is_failure() && !same_failure(suite, runs[n][id]) {
                assert forall|q: int| 0 <= q < n && #[trigger] runs[q].contains_key(id) && runs[q][id].0.is_failure() implies same_failure(
                    suite,
                    runs[q][id],
                ) by {
                    assert(d[q] == runs[q]);
                    assert(d[q].contains_key(id));
                }
            }
        }
    }
}

/// What the classification means: a failed test is real only when some run
/// failed it and every run that failed it failed it the suite's way, with no
/// run passing it; it failed differently when no run passed it and some run
/// failed it another way, and then the signature reported is that of the
/// first such run; it is flaky or order-dependent exactly when some run
/// passed it; it is unverified exactly when no run passed or failed it.
pub proof fn lemma_reverify_means(runs: Seq<Map<Seq<char>, (TestStatus, Option<Seq<char>>)>>, t: FailedTest)
    ensures
        reverify(runs, t) is Real ==> (exists|r: int|
            0 <= r < runs.len() && #[trigger] runs[r].contains_key(t.id@) && runs[r][t.id@].0.is_failure()) && (
        forall|r: int|
            0 <= r < runs.len() && #[trigger] runs[r].contains_key(t.id@) ==> runs[r][t.id@].0 != TestStatus::Passed
                && (runs[r][t.id@].0.is_failure() ==> same_failure(sig_view(t.signature), runs[r][t.id@]))),
        reverify(runs, t) matches Reverified::Different(x) ==> (forall|r: int|
            0 <= r < runs.len() && #[trigger] runs[r].contains_key(t.id@) ==> runs[r][t.id@].0 != TestStatus::Passed)
            && exists|r: int|
            0 <= r < runs.len() && #[trigger] runs[r].contains_key(t.id@) && runs[r][t.id@].0.is_failure()
                && !same_failure(sig_view(t.signature), runs[r][t.id@]) && runs[r][t.id@] == x && forall|q: int|
                0 <= q < r && #[trigger] runs[q].contains_key(t.id@) && runs[q][t.id@].0.is_failure()
                    ==> same_failure(sig_view(t.signature), runs[q][t.id@]),
        reverify(runs, t) is FlakyOrOrder <==> exists|r: int|
            0 <= r < runs.len() && #[trigger] runs[r].contains_key(t.id@) && runs[r][t.id@].0 == TestStatus::Passed,
        reverify(runs, t) is Unverified <==> forall|r: int|
            0 <= r < runs.len() && #[trigger] runs[r].contains_key(t.id@) ==> runs[r][t.id@].0 != TestStatus::Passed
                && !runs[r][t.id@].0.is_failure(),
{
    lemma_scan_finds(runs, t.id@, sig_view(t.signature));
}

/// The bucket a failed test lands in.
pub enum Reverified {
    /// Never re-run.
    Unverified,
    /// Passed at least one re-run.
    FlakyOrOrder,
    /// Failed every re-run, the first differing signature being this one.
    Different((TestStatus, Option<Seq<char>>)),
    /// Failed every re-run the same way.
    Real,
}

/// How the runs classify a failed test: a pass outranks a differing
/// failure, which outranks a reproduction.
pub open spec fn reverify(runs: Seq<Map<Seq<char>, (TestStatus, Option<Seq<char>>)>>, t: FailedTest) -> Reverified {
    let s = scan(runs, t.id@, sig_view(t.signature));
    if !s.0 {
        Reverified::Unverified
    } else if s.1 {
        Reverified::FlakyOrOrder
    } else {
        match s.2 {
            Some(isolation) => Reverified::Different(isolation),
            None => Reverified::Real,
        }
    }
}

/// Failed tests in one bucket.
pub open spec fn in_bucket(
    runs: Seq<Map<Seq<char>, (TestStatus, Option<Seq<char>>)>>,
    b: int,
) -> spec_fn(FailedTest) -> bool {
    |t: FailedTest| match reverify(runs, t) {
        Reverified::Unverified => b == 0,
        Reverified::FlakyOrOrder => b == 1,
        Reverified::Different(_) => b == 2,
        Reverified::Real => b == 3,
    }
}

/// A failed test's id.
pub open spec fn id_fn() -> spec_fn(FailedTest) -> Seq<char> {
    |t: FailedTest| t.id@
}

/// What a differing failure reports: id, suite signature, re-run signature.
pub open spec fn different_fn(runs: Seq<Map<Seq<char>, (TestStatus, Option<Seq<char>>)>>) -> spec_fn(FailedTest) -> (Seq<char>, Seq<char>, Seq<char>) {
    |t: FailedTest| (t.id@, describe(sig_view(t.signature)), describe(reverify(runs, t)->Different_0))
}

/// The view of a differing failure.
pub open spec fn different_view(d: DifferentFailure) -> (Seq<char>, Seq<char>, Seq<char>) {
    (d.id@, d.suite@, d.isolation@)
}

/// The signature of one failed test in one run's signature list, folded
/// into the running scan.
fn scan_run(
    list: &Vec<(Vec<char>, usize)>,
    report: &JunitReport,
    key: &Vec<char>,
    suite: &FailureSignature,
    seen: &mut bool,
    passed: &mut bool,
    mismatch: &mut Option<FailureSignature>,
    Ghost(prior): Ghost<Seq<Map<Seq<char>, (TestStatus, Option<Seq<char>>)>>>,
)
    requires
        strictly_sorted(keys_of(list@)),
        indexes(list@, report.test_cases@, signatures(report.test_cases@)),
        (*old(seen), *old(passed), match *old(mismatch) {
            Some(m) => Some(sig_view(m)),
            None => None,
        }) == scan(prior, key@, sig_view(*suite)),
    ensures
        (*final(seen), *final(passed), match *final(mismatch) {
            Some(m) => Some(sig_view(m)),
            None => None,
        }) == scan(prior.push(signatures(report.test_cases@)), key@, sig_view(*suite)),
{
    let ghost run = signatures(report.test_cases@);
    let ghost all = prior.push(run);
    assert(all.drop_last() =~= prior);
    let (slot, found) = find_slot(list, key.as_slice());
    if found {
        let idx = list[slot].1;
        let case = &report.test_cases[idx];
        assert(run[key@] == case_sig(*case));
        if case.status == TestStatus::Passed {
            *seen = true;
            *passed = true;
        } else if case.status.failing() {
            *seen = true;
            if mismatch.is_none() {
                let isolation = FailureSignature { status: case.status, failure_type: copy_opt_string(&case.failure_type) };
                if !same_failure_exec(suite, &isolation) {
                    *mismatch = Some(isolation);
                }
            }
        }
    } else {
        assert(!run.contains_key(key@));
    }
}

/// Classify each originally-failed test against the verification reports;
/// order is preserved within each bucket.
pub fn classify(failed: &Vec<FailedTest>, verify_reports: &Vec<JunitReport>) -> (v: Verdict)
    ensures
        strings(v.unverified@) == failed@.filter(in_bucket(runs_of(verify_reports@), 0)).map_values(id_fn()),
        strings(v.flaky_or_order@) == failed@.filter(in_bucket(runs_of(verify_reports@), 1)).map_values(id_fn()),
        v.failed_differently@.map_values(|d: DifferentFailure| different_view(d)) == failed@.filter(
            in_bucket(runs_of(verify_reports@), 2),
        ).map_values(different_fn(runs_of(verify_reports@))),
        strings(v.real@) == failed@.filter(in_bucket(runs_of(verify_reports@), 3)).map_values(id_fn()),
{
    let ghost runs = runs_of(verify_reports@);
    let mut per_run: Vec<Vec<(Vec<char>, usize)>> = Vec::new();
    let mut r: usize = 0;
    while r < verify_reports.len()
        invariant
            r <= verify_reports.len(),
            per_run@.len() == r,
            forall|q: int| 0 <= q < r ==> strictly_sorted(keys_of(#[trigger] per_run@[q]@)) && indexes(
                per_run@[q]@,
                verify_reports@[q].test_cases@,
                signatures(verify_reports@[q].test_cases@),
            ),
        decreases verify_reports.len() - r,
    {
        per_run.push(run_signatures(&verify_reports[r]));
        r += 1;
    }

    let mut unverified: Vec<String> = Vec::new();
    let mut flaky_or_order: Vec<String> = Vec::new();
    let mut failed_differently: Vec<DifferentFailure> = Vec::new();
    let mut reproduced: Vec<String> = Vec::new();
    let mut k: usize = 0;
    while k < failed.len()
        invariant
            k <= failed.len(),
            runs == runs_of(verify_reports@),
            per_run@.len() == verify_reports@.len(),
            forall|q: int| 0 <= q < per_run@.len() ==> strictly_sorted(keys_of(#[trigger] per_run@[q]@)) && indexes(
                per_run@[q]@,
                verify_reports@[q].test_cases@,
                signatures(verify_reports@[q].test_cases@),
            ),
            strings(unverified@) == failed@.take(k as int).filter(in_bucket(runs, 0)).map_values(id_fn()),
            strings(flaky_or_order@) == failed@.take(k as int).filter(in_bucket(runs, 1)).map_values(id_fn()),
            failed_differently@.map_values(|d: DifferentFailure| different_view(d)) == failed@.take(k as int).filter(
                in_bucket(runs, 2),
            ).map_values(different_fn(runs)),
            strings(reproduced@) == failed@.take(k as int).filter(in_bucket(runs, 3)).map_values(id_fn()),
        decreases failed.len() - k,
    {
        let test = &failed[k];
        let key = chars_of(test.id.as_str());
        let mut seen = false;
        let mut passed = false;
        let mut mismatch: Option<FailureSignature> = None;
        let mut r: usize = 0;
        while r < per_run.len()
            invariant
                r <= per_run.len(),
                runs == runs_of(verify_reports@),
                per_run@.len() == verify_reports@.len(),
                forall|q: int| 0 <= q < per_run@.len() ==> strictly_sorted(keys_of(#[trigger] per_run@[q]@)) && indexes(
                    per_run@[q]@,
                    verify_reports@[q].test_cases@,
                    signatures(verify_reports@[q].test_cases@),
                ),
                (seen, passed, match mismatch {
                    Some(m) => Some(sig_view(m)),
                    None => None,
                }) == scan(runs.take(r as int), key@, sig_view(test.signature)),
            decreases per_run.len() - r,
        {
            scan_run(
                &per_run[r],
                &verify_reports[r],
                &key,
                &test.signature,
                &mut seen,
                &mut passed,
                &mut mismatch,
                Ghost(runs.take(r as int)),
            );
            assert(runs.take(r + 1) =~= runs.take(r as int).push(signatures(verify_reports@[r as int].test_cases@)));
            r += 1;
        }
        assert(runs.take(r as int) =~= runs);
        assert(key@ == test.id@);
        let ghost t = failed@[k as int];
        assert(*test == t);
        let ghost uv = strings(unverified@);
        let ghost fv = strings(flaky_or_order@);
        let ghost dv = failed_differently@.map_values(|d: DifferentFailure| different_view(d));
        let ghost rv = strings(reproduced@);
        proof {
            lemma_filter_step(failed@, k as int, in_bucket(runs, 0), id_fn());
            lemma_filter_step(failed@, k as int, in_bucket(runs, 1), id_fn());
            lemma_filter_step(failed@, k as int, in_bucket(runs, 2), different_fn(runs));
            lemma_filter_step(failed@, k as int, in_bucket(runs, 3), id_fn());
        }
        if !seen {
            unverified.push(copy_string(&test.id));
            assert(strings(unverified@) =~= uv.push(test.id@));
        } else if passed {
            flaky_or_order.push(copy_string(&test.id));
            assert(strings(flaky_or_order@) =~= fv.push(test.id@));
        } else {
            match mismatch {
                Some(isolation) => {
                    let d = DifferentFailure {
                        id: copy_string(&test.id),
                        suite: test.signature.describe(),
                        isolation: isolation.describe(),
                    };
                    failed_differently.push(d);
                    assert(failed_differently@.map_values(|d: DifferentFailure| different_view(d)) =~= dv.push(
                        different_fn(runs)(t),
                    ));
                },
                None => {
                    reproduced.push(copy_string(&test.id));
                    assert(strings(reproduced@) =~= rv.push(test.id@));
                },
            }
        }
        k += 1;
    }
    assert(failed@.take(k as int) =~= failed@);
    Verdict { real: reproduced, flaky_or_order, failed_differently, unverified }
}

/// Every failed test lands in exactly one bucket: the four buckets'
/// sizes add up to the number of failures.
pub proof fn lemma_buckets_partition(
    failed: Seq<FailedTest>,
    runs: Seq<Map<Seq<char>, (TestStatus, Option<Seq<char>>)>>,
)
    ensures
        failed.filter(in_bucket(runs, 0)).len() + failed.filter(in_bucket(runs, 1)).len()
            + failed.filter(in_bucket(runs, 2)).len() + failed.filter(in_bucket(runs, 3)).len()
            == failed.len(),
        forall|b: int, c: int, t: FailedTest| 0 <= b < c < 4 ==> !(#[trigger] in_bucket(runs, b)(t) && #[trigger] in_bucket(runs, c)(t)),
    decreases failed.len(),
{
    if failed.len() > 0 {
        let init = failed.drop_last();
        lemma_buckets_partition(init, runs);
        assert(failed =~= init.push(failed.last()));
        init.lemma_filter_push(failed.last(), in_bucket(runs, 0));
        init.lemma_filter_push(failed.last(), in_bucket(runs, 1));
        init.lemma_filter_push(failed.last(), in_bucket(runs, 2));
        init.lemma_filter_push(failed.last(), in_bucket(runs, 3));
    }
}


/// The ids of one report's signatures, in increasing order.
pub open spec fn sig_ids(cases: Seq<TestCase>) -> Seq<Seq<char>> {
    choose|s: Seq<Seq<char>>| strictly_sorted(s) && s.to_set() == signatures(cases).dom()
}

/// Only finitely many ids carry a signature.
proof fn lemma_signatures_finite(cases: Seq<TestCase>)
    ensures
        signatures(cases).dom().finite(),
    decreases cases.len(),
{
    broadcast use vstd::set::group_set_axioms;

    if cases.len() > 0 {
        lemma_signatures_finite(cases.drop_last());
    }
}

/// A report's signature ids are well defined: they list every id carrying
/// a signature, each once, in increasing order.
pub proof fn lemma_sig_ids(cases: Seq<TestCase>)
    ensures
        strictly_sorted(sig_ids(cases)),
        sig_ids(cases).to_set() == signatures(cases).dom(),
{
    lemma_signatures_finite(cases);
    crate::keyed::lemma_sorted_exists(signatures(cases).dom());
}

/// A report lists among its failing ids every id some row of it failed or
/// errored.
pub proof fn lemma_failing_row_listed(cases: Seq<TestCase>, c: int)
    requires
        0 <= c < cases.len(),
        cases[c].status.is_failure(),
    ensures
        sig_ids(cases).filter(failing_id(cases)).contains(cases[c]@.id()),
{
    let k = cases[c]@.id();
    lemma_signature_is_worst(cases, k);
    lemma_sig_ids(cases);
    assert(signatures(cases).dom().contains(k));
    assert(sig_ids(cases).to_set().contains(k));
    assert(sig_ids(cases).contains(k));
    let j = choose|j: int| 0 <= j < sig_ids(cases).len() && sig_ids(cases)[j] == k;
    assert(signatures(cases)[k].0.rank() >= cases[c].status.rank());
    sig_ids(cases).lemma_filter_contains(failing_id(cases), j);
}

/// The raw name of the first case carrying `id`, or `id` itself when none
/// does.
pub open spec fn name_for(cases: Seq<TestCase>, id: Seq<char>) -> Seq<char>
    decreases cases.len(),
{
    if cases.len() == 0 {
        id
    } else if cases[0]@.id() == id {
        cases[0].name@
    } else {
        name_for(cases.drop_first(), id)
    }
}

/// Ids whose collapsed signature is a failure or an error.
pub open spec fn failing_id(cases: Seq<TestCase>) -> spec_fn(Seq<char>) -> bool {
    |k: Seq<char>| signatures(cases)[k].0.is_failure()
}

/// What a failed test carries: id, raw name, collapsed signature.
pub open spec fn failed_fn(cases: Seq<TestCase>) -> spec_fn(Seq<char>) -> (Seq<char>, Seq<char>, (TestStatus, Option<Seq<char>>)) {
    |k: Seq<char>| (k, name_for(cases, k), signatures(cases)[k])
}

/// The view of a failed test.
pub open spec fn failed_view(t: FailedTest) -> (Seq<char>, Seq<char>, (TestStatus, Option<Seq<char>>)) {
    (t.id@, t.name@, sig_view(t.signature))
}

/// The raw name of the first case carrying `id` (see `name_for`).
fn name_of(cases: &Vec<TestCase>, id: &Vec<char>) -> (n: String)
    ensures
        n@ == name_for(cases@, id@),
{
    let mut i: usize = 0;
    assert(cases@.skip(0) =~= cases@);
    while i < cases.len()
        invariant
            i <= cases.len(),
            name_for(cases@, id@) == name_for(cases@.skip(i as int), id@),
        decreases cases.len() - i,
    {
        let q = cases[i].qualified_name();
        let qc = chars_of(q.as_str());
        assert(cases@.skip(i as int)[0] == cases@[i as int]);
        if crate::text::chars_eq(qc.as_slice(), id.as_slice()) {
            return copy_string(&cases[i].name);
        }
        assert(cases@.skip(i as int).drop_first() =~= cases@.skip(i + 1));
        i += 1;
    }
    assert(cases@.skip(i as int).len() == 0);
    string_of(id.as_slice())
}

/// The suite's failed tests, collapsed per report (worst status wins), in
/// id order.
pub fn failed_tests(report: &JunitReport) -> (out: Vec<FailedTest>)
    ensures
        out@.map_values(|t: FailedTest| failed_view(t)) == sig_ids(report.test_cases@).filter(
            failing_id(report.test_cases@),
        ).map_values(failed_fn(report.test_cases@)),
        strictly_sorted(sig_ids(report.test_cases@)),
        sig_ids(report.test_cases@).to_set() == signatures(report.test_cases@).dom(),
{
    let ghost cases = report.test_cases@;
    let sigs = run_signatures(report);
    let ghost keys = keys_of(sigs@);
    proof {
        assert forall|x: Seq<char>| #[trigger] keys.to_set().contains(x) <==> signatures(cases).dom().contains(x) by {
        }
        assert(keys.to_set() =~= signatures(cases).dom());
        crate::keyed::lemma_sorted_unique(keys, sig_ids(cases));
    }
    let mut out: Vec<FailedTest> = Vec::new();
    let mut i: usize = 0;
    while i < sigs.len()
        invariant
            i <= sigs.len(),
            cases == report.test_cases@,
            keys == keys_of(sigs@),
            keys == sig_ids(cases),
            indexes(sigs@, cases, signatures(cases)),
            out@.map_values(|t: FailedTest| failed_view(t)) == keys.take(i as int).filter(failing_id(cases)).map_values(
                failed_fn(cases),
            ),
        decreases sigs.len() - i,
    {
        let ghost before = out@.map_values(|t: FailedTest| failed_view(t));
        proof {
            lemma_filter_step(keys, i as int, failing_id(cases), failed_fn(cases));
            assert(keys[i as int] == sigs@[i as int].0@);
        }
        let idx = sigs[i].1;
        let case = &report.test_cases[idx];
        assert(signatures(cases)[keys[i as int]] == case_sig(*case));
        if case.status.failing() {
            let name = name_of(&report.test_cases, &sigs[i].0);
            let signature = FailureSignature { status: case.status, failure_type: copy_opt_string(&case.failure_type) };
            out.push(FailedTest { id: string_of(sigs[i].0.as_slice()), name, signature });
            assert(out@.map_values(|t: FailedTest| failed_view(t)) =~= before.push(failed_fn(cases)(keys[i as int])));
        }
        i += 1;
    }
    assert(keys.take(i as int) =~= keys);
    out
}

/// The suite's failed identities, collapsed per report (worst status wins),
/// in id order: strictly ascending.
pub fn failed_ids(report: &JunitReport) -> (out: Vec<String>)
    ensures
        strings(out@) == sig_ids(report.test_cases@).filter(failing_id(report.test_cases@)),
        strictly_sorted(strings(out@)),
        forall|k: Seq<char>| #[trigger] strings(out@).contains(k) <==> exists|i: int|
            0 <= i < report.test_cases@.len() && #[trigger] report.test_cases@[i]@.id() == k
                && report.test_cases@[i].status.is_failure(),
{
    let tests = failed_tests(report);
    proof {
        lemma_filter_sorted(sig_ids(report.test_cases@), failing_id(report.test_cases@));
    }
    let ghost want = sig_ids(report.test_cases@).filter(failing_id(report.test_cases@));
    let ghost tv = tests@.map_values(|t: FailedTest| failed_view(t));
    assert(tv.len() == want.len());
    let mut out: Vec<String> = Vec::new();
    let mut i: usize = 0;
    while i < tests.len()
        invariant
            i <= tests.len(),
            tv == tests@.map_values(|t: FailedTest| failed_view(t)),
            tv == want.map_values(failed_fn(report.test_cases@)),
            strings(out@) == want.take(i as int),
            want.len() == tests@.len(),
        decreases tests.len() - i,
    {
        assert(tv[i as int] == failed_view(tests@[i as int]));
        assert(tv[i as int] == failed_fn(report.test_cases@)(want[i as int]));
        assert(tv[i as int].0 == want[i as int]);
        let ghost before = strings(out@);
        out.push(copy_string(&tests[i].id));
        assert(strings(out@) =~= before.push(tests@[i as int].id@));
        assert(want.take(i + 1) =~= want.take(i as int).push(want[i as int]));
        i += 1;
    }
    assert(want.take(i as int) =~= want);
    proof {
        let cases = report.test_cases@;
        let ids = sig_ids(cases);
        assert forall|k: Seq<char>| #[trigger] strings(out@).contains(k) <==> exists|i: int|
            0 <= i < cases.len() && #[trigger] cases[i]@.id() == k && cases[i].status.is_failure() by {
            lemma_signature_is_worst(cases, k);
            if strings(out@).contains(k) {
                ids.lemma_filter_contains_rev(failing_id(cases), k);
                assert(ids.to_set().contains(k));
                let j = choose|j: int| 0 <= j < want.len() && want[j] == k;
                ids.lemma_filter_pred(failing_id(cases), j);
                let w = choose|w: int| 0 <= w < cases.len() && #[trigger] cases[w]@.id() == k
                    && cases[w].status == signatures(cases)[k].0;
                assert(cases[w].status.is_failure());
            }
            if exists|i: int| 0 <= i < cases.len() && #[trigger] cases[i]@.id() == k && cases[i].status.is_failure() {
                let i = choose|i: int| 0 <= i < cases.len() && #[trigger] cases[i]@.id() == k
                    && cases[i].status.is_failure();
                assert(signatures(cases).dom().contains(k));
                assert(ids.to_set().contains(k));
                let j = choose|j: int| 0 <= j < ids.len() && ids[j] == k;
                assert(signatures(cases)[k].0.rank() >= cases[i].status.rank());
                ids.lemma_filter_contains(failing_id(cases), j);
            }
        }
    }
    out
}

/// Duplicate rows of one id collapse to their worst status: an id has a
/// signature exactly when some row carries it, and that signature's status
/// is one of those rows' statuses and ranks at least as high as each.
pub proof fn lemma_signature_is_worst(cases: Seq<TestCase>, k: Seq<char>)
    ensures
        signatures(cases).contains_key(k) <==> exists|i: int| 0 <= i < cases.len() && #[trigger] cases[i]@.id() == k,
        signatures(cases).contains_key(k) ==> exists|i: int|
            0 <= i < cases.len() && #[trigger] cases[i]@.id() == k && cases[i].status == signatures(cases)[k].0,
        signatures(cases).contains_key(k) ==> forall|i: int|
            0 <= i < cases.len() && #[trigger] cases[i]@.id() == k ==> cases[i].status.rank()
                <= signatures(cases)[k].0.rank(),
    decreases cases.len(),
{
    if cases.len() > 0 {
        let d = cases.drop_last();
        let c = cases.last();
        let n = d.len() as int;
        lemma_signature_is_worst(d, k);
        assert forall|i: int| 0 <= i < n implies #[trigger] d[i] == cases[i] by {}
        assert(cases[n] == c);
        if exists|i: int| 0 <= i < n && #[trigger] d[i]@.id() == k {
            let i = choose|i: int| 0 <= i < n && #[trigger] d[i]@.id() == k;
            assert(cases[i]@.id() == k);
        }
        if exists|i: int| 0 <= i < n && #[trigger] d[i]@.id() == k && d[i].status == signatures(d)[k].0 {
            let i = choose|i: int| 0 <= i < n && #[trigger] d[i]@.id() == k && d[i].status == signatures(d)[k].0;
            assert(cases[i]@.id() == k);
        }
        assert forall|i: int| 0 <= i < cases.len() && #[trigger] cases[i]@.id() == k implies i == n || d[i]@.id() == k by {
            if i < n {
                assert(d[i] == cases[i]);
            }
        }
        if exists|i: int| 0 <= i < cases.len() && #[trigger] cases[i]@.id() == k {
            let i = choose|i: int| 0 <= i < cases.len() && #[trigger] cases[i]@.id() == k;
            if i < n {
                assert(d[i]@.id() == k);
            }
        }
    }
}

} // verus!
