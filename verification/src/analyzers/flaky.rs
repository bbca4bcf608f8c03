//! Flaky detection over repeated fixed-order runs.
//!
//! A test is *flaky* iff it shows mixed outcomes across the observed runs;
//! failed-every-run is *broken*, never flaky. Skipped observations carry no
//! signal and are excluded from the rate.

use vstd::prelude::*;

use crate::junit::{JunitReport, TestCase, TestStatus};
use crate::keyed::{find_slot, keep_shared, keys_contain, keys_eq, keyseq, keys_of, lists, strictly_sorted};
use crate::text::{chars_eq, chars_lt, chars_of, lemma_lex_total, lemma_lex_transitive, lex_lt, string_of};

verus! {

/// Each test's worst status in one run: rows sharing an id (data-provider
/// rows, retry reporters) collapse to the highest-ranked status and count
/// once.
pub open spec fn collapse(cases: Seq<TestCase>) -> Map<Seq<char>, TestStatus>
    decreases cases.len(),
{
    if cases.len() == 0 {
        Map::empty()
    } else {
        let m = collapse(cases.drop_last());
        let c = cases.last()@;
        if m.contains_key(c.id()) && m[c.id()].rank() >= c.status.rank() {
            m
        } else {
            m.insert(c.id(), c.status)
        }
    }
}

/// One run's collapsed outcomes as a sorted association list.
pub fn collapse_report(report: &JunitReport) -> (out: Vec<(Vec<char>, TestStatus)>)
    ensures
        strictly_sorted(keys_of(out@)),
        lists(out@, collapse(report.test_cases@)),
{
    let cases = &report.test_cases;
    let mut out: Vec<(Vec<char>, TestStatus)> = Vec::new();
    let mut i: usize = 0;
    while i < cases.len()
        invariant
            i <= cases.len(),
            strictly_sorted(keys_of(out@)),
            lists(out@, collapse(cases@.take(i as int))),
        decreases cases.len() - i,
    {
        let ghost before = out@;
        let ghost m = collapse(cases@.take(i as int));
        assert(cases@.take((i + 1) as int).drop_last() =~= cases@.take(i as int));
        let id = cases[i].qualified_name();
        let key = chars_of(id.as_str());
        let status = cases[i].status;
        let (slot, found) = find_slot(&out, key.as_slice());
        if found {
            if status.severity() > out[slot].1.severity() {
                out.set(slot, (key, status));
                proof {
                    assert(keys_of(out@) =~= keys_of(before));
                    assert forall|k: Seq<char>| #[trigger] m.insert(key@, status).contains_key(k)
                        <==> keys_of(out@).contains(k) by {
                        if k == key@ {
                            assert(keys_of(out@)[slot as int] == k);
                        }
                    }
                    assert forall|j: int| 0 <= j < out@.len() implies m.insert(key@, status)[
                        #[trigger] out@[j].0@] == out@[j].1 by {
                        if j != slot {
                            crate::keyed::lemma_sorted_distinct(keys_of(out@), j, slot as int);
                        }
                    }
                }
            } else {
                assert(m[key@] == out@[slot as int].1);
            }
        } else {
            out.insert(slot, (key, status));
            proof {
                assert(keys_of(out@) =~= keys_of(before).insert(slot as int, key@));
                assert forall|a: int, b: int| 0 <= a < b < keys_of(out@).len() implies lex_lt(
                    #[trigger] keys_of(out@)[a],
                    #[trigger] keys_of(out@)[b],
                ) by {
                    if a < slot && b > slot {
                        crate::text::lemma_lex_transitive(before[a].0@, key@, before[b - 1].0@);
                    } else if a < slot && b == slot {
                    } else if a == slot {
                    } else if b < slot {
                    } else {
                    }
                }
                assert forall|k: Seq<char>| #[trigger] m.insert(key@, status).contains_key(k)
                    <==> keys_of(out@).contains(k) by {
                    if k == key@ {
                        assert(keys_of(out@)[slot as int] == k);
                    } else if m.contains_key(k) {
                        let j = choose|j: int| 0 <= j < keys_of(before).len() && keys_of(before)[j] == k;
                        if j < slot {
                            assert(keys_of(out@)[j] == k);
                        } else {
                            assert(keys_of(out@)[j + 1] == k);
                        }
                    } else if keys_of(out@).contains(k) {
                        let j = choose|j: int| 0 <= j < keys_of(out@).len() && keys_of(out@)[j] == k;
                        if j < slot {
                            assert(keys_of(before)[j] == k);
                        } else if j > slot {
                            assert(keys_of(before)[j - 1] == k);
                        }
                    }
                }
                assert forall|j: int| 0 <= j < out@.len() implies m.insert(key@, status)[
                    #[trigger] out@[j].0@] == out@[j].1 by {
                    if j < slot {
                        assert(out@[j] == before[j]);
                        assert(lex_lt(before[j].0@, key@));
                        crate::text::lemma_lex_irreflexive(key@);
                    } else if j > slot {
                        assert(out@[j] == before[j - 1]);
                        assert(lex_lt(key@, before[j - 1].0@));
                        crate::text::lemma_lex_irreflexive(key@);
                    }
                }
            }
        }
        i += 1;
    }
    assert(cases@.take(i as int) =~= cases@);
    out
}

/// One run's outcome per test id, sorted by id: duplicate ids within the
/// report collapse to the worst status and count once — the shape history
/// records per run.
pub fn run_outcomes(report: &JunitReport) -> (out: Vec<(String, TestStatus)>)
    ensures
        out@.len() == collapse(report.test_cases@).dom().len(),
        strictly_sorted(out@.map_values(|e: (String, TestStatus)| e.0@)),
        forall|k: Seq<char>| #[trigger] collapse(report.test_cases@).contains_key(k)
            <==> out@.map_values(|e: (String, TestStatus)| e.0@).contains(k),
        forall|i: int| 0 <= i < out@.len() ==> collapse(report.test_cases@)[#[trigger] out@[i].0@]
            == out@[i].1,
{
    let keyed = collapse_report(report);
    let mut out: Vec<(String, TestStatus)> = Vec::new();
    let mut i: usize = 0;
    while i < keyed.len()
        invariant
            i <= keyed.len(),
            out@.len() == i,
            forall|j: int| 0 <= j < i ==> #[trigger] out@[j].0@ == keyed@[j].0@ && out@[j].1 == keyed@[j].1,
        decreases keyed.len() - i,
    {
        out.push((string_of(keyed[i].0.as_slice()), keyed[i].1));
        i += 1;
    }
    let ghost m = collapse(report.test_cases@);
    assert(out@.map_values(|e: (String, TestStatus)| e.0@) =~= keys_of(keyed@));
    proof {
        lemma_list_len(keyed@, m);
    }
    out
}

/// A sorted listing of a map is as long as the map.
pub proof fn lemma_list_len<V>(v: Seq<(Vec<char>, V)>, m: Map<Seq<char>, V>)
    requires
        strictly_sorted(keys_of(v)),
        lists(v, m),
    ensures
        m.dom().finite(),
        m.dom().len() == v.len(),
{
    let ks = keys_of(v);
    assert forall|i: int, j: int| 0 <= i < ks.len() && 0 <= j < ks.len() && i != j implies ks[i]
        != ks[j] by {
        crate::keyed::lemma_sorted_distinct(ks, i, j);
    }
    assert(ks.no_duplicates());
    ks.unique_seq_to_set();
    assert(m.dom() =~= ks.to_set());
}



/// One test's aggregated outcomes across the observed runs.
#[derive(Debug, Clone, PartialEq, Eq)]
pub struct TestOutcomes {
    /// The test's identity (`classname::name`).
    pub id: String,
    /// Runs in which the test passed.
    pub passed: usize,
    /// Runs in which the test failed or errored.
    pub failed: usize,
}

/// `(id, passed, failed)` of a `TestOutcomes`.
pub open spec fn outcomes_view(t: TestOutcomes) -> (Seq<char>, nat, nat) {
    (t.id@, t.passed as nat, t.failed as nat)
}

/// Failed over observed in percent, rounded half up; zero when nothing was
/// observed (and capped at `u32::MAX`).
pub open spec fn rate_percent(failed: nat, observed: nat) -> u32 {
    if observed == 0 {
        0
    } else {
        let r = (200 * failed + observed) / (2 * observed);
        if r > u32::MAX {
            u32::MAX
        } else {
            r as u32
        }
    }
}

/// Failed over observed, in percent (rounded) — the one rate formula every
/// pass reports with.
pub fn failure_rate_percent(failed: usize, observed: usize) -> (r: u32)
    ensures
        r == rate_percent(failed as nat, observed as nat),
{
    if observed == 0 {
        return 0;
    }
    let numerator: u128 = 200 * (failed as u128) + (observed as u128);
    let r: u128 = numerator / (2 * (observed as u128));
    if r > u32::MAX as u128 {
        u32::MAX
    } else {
        r as u32
    }
}

impl TestOutcomes {
    /// Runs that carried signal (passed or failed; skips are excluded).
    pub fn observed(&self) -> (n: usize)
        requires
            self.passed + self.failed <= usize::MAX,
        ensures
            n == self.passed + self.failed,
    {
        self.passed + self.failed
    }

    /// Failure rate over the observed runs, in percent (rounded).
    pub fn failure_rate_percent(&self) -> (r: u32)
        requires
            self.passed + self.failed <= usize::MAX,
        ensures
            r == rate_percent(self.failed as nat, (self.passed + self.failed) as nat),
    {
        failure_rate_percent(self.failed, self.observed())
    }
}

/// A mixed-outcome test whose sequence flipped exactly once and never came
/// back: the suite's environment changed under the repeat, which is a
/// different finding than flakiness.
#[derive(Debug, Clone, PartialEq, Eq)]
pub struct MonotoneFlip {
    pub outcomes: TestOutcomes,
    /// The 1-based run of the last observation in the opening state.
    pub flipped_after_run: usize,
    /// Whether the opening state was green (green→red) or red (red→green).
    pub started_green: bool,
}

/// A failing test observed in exactly one run while absent from others:
/// neither "flaky" nor "broken" can honestly be claimed from one sighting.
#[derive(Debug, Clone, PartialEq, Eq)]
pub struct LoneFailure {
    /// The test's identity (`classname::name`).
    pub id: String,
    /// Runs of this invocation in which the id never appeared at all.
    pub absent_runs: usize,
}

/// The outcome of the flaky pass: what is flaky, what merely flipped once,
/// what was seen only once, and what is simply broken.
#[derive(Debug, Default, PartialEq, Eq)]
pub struct Analysis {
    /// Mixed outcomes that bounced — the actual flakes, sorted by failure
    /// rate (highest first), then by id.
    pub flaky: Vec<TestOutcomes>,
    /// Failed every observed run — broken, not flaky.
    pub broken: Vec<TestOutcomes>,
    /// Mixed outcomes that flipped once and never returned.
    pub monotone: Vec<MonotoneFlip>,
    /// Failed the single run they appeared in, absent from the rest.
    pub lone_failures: Vec<LoneFailure>,
    /// Runs (1-based) that reported their shared tests in a different order
    /// than run 1.
    pub reordered_runs: Vec<usize>,
}

impl Analysis {
    /// Nothing to report: no flaky, broken, monotone or lone test.
    pub fn is_empty(&self) -> (r: bool)
        ensures
            r == (self.flaky@.len() == 0 && self.broken@.len() == 0 && self.monotone@.len() == 0
                && self.lone_failures@.len() == 0),
    {
        self.flaky.len() == 0 && self.broken.len() == 0 && self.monotone.len() == 0
            && self.lone_failures.len() == 0
    }
}

/// The run after which a mixed sequence flipped for good, when it did:
/// exactly one direction change, and the new state seen at least twice.
pub fn monotone_flip(obs: &[(usize, bool)]) -> (r: Option<(usize, bool)>)
    ensures
        r == monotone(obs@),
{
    let mut change_at: Option<usize> = None;
    let mut i: usize = 0;
    while i + 1 < obs.len()
        invariant
            i <= obs.len(),
            obs.len() >= 1 ==> i < obs.len(),
            match change_at {
                None => forall|k: int| 0 <= k < i ==> #[trigger] obs@[k].1 == obs@[k + 1].1,
                Some(j) => j < i && obs@[j as int].1 != obs@[j + 1].1 && forall|k: int|
                    0 <= k < i && k != j ==> #[trigger] obs@[k].1 == obs@[k + 1].1,
            },
        decreases obs.len() - i,
    {
        if obs[i].1 != obs[i + 1].1 {
            if let Some(j) = change_at {
                proof {
                    assert forall|x: int| !only_change(obs@, x) by {
                        if only_change(obs@, x) {
                            if x != j as int {
                                assert(obs@[j as int].1 == obs@[j + 1].1);
                            } else {
                                assert(obs@[i as int].1 == obs@[i + 1].1);
                            }
                        }
                    }
                }
                return None;
            }
            change_at = Some(i);
        }
        i += 1;
    }
    match change_at {
        None => {
            proof {
                assert forall|x: int| !only_change(obs@, x) by {
                    if only_change(obs@, x) {
                        assert(obs@[x].1 == obs@[x + 1].1);
                    }
                }
            }
            None
        },
        Some(j) => {
            proof {
                assert(only_change(obs@, j as int));
                let c = choose|x: int| only_change(obs@, x);
                if c != j as int {
                    assert(obs@[j as int].1 == obs@[j + 1].1);
                }
            }
            if obs.len() - j > 2 {
                Some((obs[j].0, !obs[0].1))
            } else {
                None
            }
        },
    }
}

/// The collapsed outcomes of each run's report.
pub open spec fn runs_of(reports: Seq<JunitReport>) -> Seq<Map<Seq<char>, TestStatus>> {
    reports.map_values(|r: JunitReport| collapse(r.test_cases@))
}

/// Every id some run reported.
pub open spec fn all_ids(runs: Seq<Map<Seq<char>, TestStatus>>) -> Set<Seq<char>> {
    Set::new(|k: Seq<char>| exists|i: int| 0 <= i < runs.len() && #[trigger] runs[i].contains_key(k))
}

/// The ids every analysis walks, in increasing order.
pub open spec fn id_order(runs: Seq<Map<Seq<char>, TestStatus>>) -> Seq<Seq<char>> {
    choose|s: Seq<Seq<char>>| strictly_sorted(s) && s.to_set() == all_ids(runs)
}

/// Whether a run's status for `id` carries signal (passed, failed or errored).
pub open spec fn signal(run: Map<Seq<char>, TestStatus>, id: Seq<char>) -> bool {
    run.contains_key(id) && run[id] != TestStatus::Skipped
}

/// The signal-bearing observations of `id`, in run order: the 1-based run
/// number and whether the test failed there.
pub open spec fn observations(runs: Seq<Map<Seq<char>, TestStatus>>, id: Seq<char>) -> Seq<(usize, bool)>
    decreases runs.len(),
{
    if runs.len() == 0 {
        Seq::empty()
    } else {
        let earlier = observations(runs.drop_last(), id);
        if signal(runs.last(), id) {
            earlier.push((runs.len() as usize, runs.last()[id].is_failure()))
        } else {
            earlier
        }
    }
}

/// How many observations are failures.
pub open spec fn failures(obs: Seq<(usize, bool)>) -> nat
    decreases obs.len(),
{
    if obs.len() == 0 {
        0
    } else {
        failures(obs.drop_last()) + if obs.last().1 { 1nat } else { 0nat }
    }
}

/// How many runs never reported `id` at all.
pub open spec fn absences(runs: Seq<Map<Seq<char>, TestStatus>>, id: Seq<char>) -> nat
    decreases runs.len(),
{
    if runs.len() == 0 {
        0
    } else {
        absences(runs.drop_last(), id) + if runs.last().contains_key(id) { 0nat } else { 1nat }
    }
}

/// `j` is the one place where the outcome sequence changes.
pub open spec fn only_change(obs: Seq<(usize, bool)>, j: int) -> bool {
    &&& 0 <= j < obs.len() - 1
    &&& obs[j].1 != obs[j + 1].1
    &&& forall|k: int| 0 <= k < obs.len() - 1 && k != j ==> #[trigger] obs[k].1 == obs[k + 1].1
}

/// The run after which a mixed sequence flipped for good, and whether it
/// started green: exactly one change of outcome, and the new outcome seen
/// at least twice.
pub open spec fn monotone(obs: Seq<(usize, bool)>) -> Option<(usize, bool)> {
    if exists|j: int| only_change(obs, j) {
        let j = choose|j: int| only_change(obs, j);
        if obs.len() - j > 2 {
            Some((obs[j].0, !obs[0].1))
        } else {
            None
        }
    } else {
        None
    }
}

/// What the sequence of one test's observations supports.
pub enum Class {
    /// Never failed: not reported.
    Healthy,
    /// Mixed outcomes that bounced.
    Flaky,
    /// Mixed outcomes that flipped once and stayed.
    Monotone { flipped_after_run: usize, started_green: bool },
    /// One failing sighting while absent from other runs.
    Lone { absent_runs: nat },
    /// Failed every observation.
    Broken,
}

/// The class of `id` across `runs`.
pub open spec fn class_of(runs: Seq<Map<Seq<char>, TestStatus>>, id: Seq<char>) -> Class {
    let obs = observations(runs, id);
    let failed = failures(obs);
    let passed = obs.len() - failed;
    if failed == 0 {
        Class::Healthy
    } else if passed > 0 {
        match monotone(obs) {
            Some((run, green)) => Class::Monotone { flipped_after_run: run, started_green: green },
            None => Class::Flaky,
        }
    } else if obs.len() == 1 && absences(runs, id) > 0 {
        Class::Lone { absent_runs: absences(runs, id) }
    } else {
        Class::Broken
    }
}

/// `(id, passed, failed)` of a test across `runs`.
pub open spec fn outcomes_spec(runs: Seq<Map<Seq<char>, TestStatus>>, id: Seq<char>) -> (Seq<char>, nat, nat) {
    let obs = observations(runs, id);
    (id, (obs.len() - failures(obs)) as nat, failures(obs))
}


/// Each run's association list holds exactly that run's outcomes.
pub open spec fn well_listed(per_run: Seq<Vec<(Vec<char>, TestStatus)>>, runs: Seq<Map<Seq<char>, TestStatus>>) -> bool {
    &&& per_run.len() == runs.len()
    &&& forall|r: int| 0 <= r < runs.len() ==> strictly_sorted(keys_of(#[trigger] per_run[r]@))
    &&& forall|r: int| 0 <= r < runs.len() ==> lists(#[trigger] per_run[r]@, runs[r])
}

/// The observations of one id across the runs, with its failure and
/// absence counts.
fn observe(
    per_run: &Vec<Vec<(Vec<char>, TestStatus)>>,
    id: &[char],
    Ghost(runs): Ghost<Seq<Map<Seq<char>, TestStatus>>>,
) -> (r: (Vec<(usize, bool)>, usize, usize))
    requires
        well_listed(per_run@, runs),
    ensures
        r.0@ == observations(runs, id@),
        r.1 == failures(r.0@),
        r.2 == absences(runs, id@),
        r.1 <= r.0@.len() <= runs.len(),
{
    let mut obs: Vec<(usize, bool)> = Vec::new();
    let mut failed: usize = 0;
    let mut absent: usize = 0;
    let mut r: usize = 0;
    while r < per_run.len()
        invariant
            r <= per_run.len(),
            well_listed(per_run@, runs),
            obs@ == observations(runs.take(r as int), id@),
            failed == failures(obs@),
            absent == absences(runs.take(r as int), id@),
            failed <= obs@.len() <= r,
            absent <= r,
        decreases per_run.len() - r,
    {
        assert(runs.take((r + 1) as int).drop_last() =~= runs.take(r as int));
        assert(runs.take((r + 1) as int).last() == runs[r as int]);
        let (slot, found) = find_slot(&per_run[r], id);
        let ghost run = runs[r as int];
        proof {
            assert(strictly_sorted(keys_of(per_run@[r as int]@)));
            assert(lists(per_run@[r as int]@, run));
        }
        if found {
            let status = per_run[r][slot].1;
            proof {
                assert(keys_of(per_run@[r as int]@)[slot as int] == id@);
                assert(run.contains_key(id@));
                assert(run[id@] == status);
            }
            match status {
                TestStatus::Skipped => {},
                _ => {
                    let ghost before = obs@;
                    let is_failure = status.failing();
                    obs.push((r + 1, is_failure));
                    assert(obs@.drop_last() == before);
                    if is_failure {
                        failed += 1;
                    }
                },
            }
        } else {
            proof {
                assert(!run.contains_key(id@));
            }
            absent += 1;
        }
        r += 1;
    }
    assert(runs.take(r as int) =~= runs);
    (obs, failed, absent)
}

/// Every id any run reported, sorted.
fn collect_ids(
    per_run: &Vec<Vec<(Vec<char>, TestStatus)>>,
    Ghost(runs): Ghost<Seq<Map<Seq<char>, TestStatus>>>,
) -> (ids: Vec<Vec<char>>)
    requires
        well_listed(per_run@, runs),
    ensures
        strictly_sorted(ids@.map_values(|k: Vec<char>| k@)),
        ids@.map_values(|k: Vec<char>| k@).to_set() == all_ids(runs),
{
    let mut ids: Vec<Vec<char>> = Vec::new();
    let mut r: usize = 0;
    while r < per_run.len()
        invariant
            r <= per_run.len(),
            well_listed(per_run@, runs),
            strictly_sorted(ids@.map_values(|k: Vec<char>| k@)),
            ids@.map_values(|k: Vec<char>| k@).to_set() == all_ids(runs.take(r as int)),
        decreases per_run.len() - r,
    {
        let run = &per_run[r];
        let mut e: usize = 0;
        while e < run.len()
            invariant
                r < per_run.len(),
                run == per_run@[r as int],
                e <= run.len(),
                strictly_sorted(ids@.map_values(|k: Vec<char>| k@)),
                ids@.map_values(|k: Vec<char>| k@).to_set() == all_ids(runs.take(r as int)).union(
                    keys_of(run@).take(e as int).to_set(),
                ),
            decreases run.len() - e,
        {
            let key = run[e].0.clone();
            let ghost prev = ids@.map_values(|k: Vec<char>| k@).to_set();
            insert_key(&mut ids, key);
            proof {
                assert(keys_of(run@).take((e + 1) as int) =~= keys_of(run@).take(e as int).push(
                    run@[e as int].0@,
                ));
                keys_of(run@).take(e as int).lemma_push_to_set_commute(run@[e as int].0@);
                assert(keys_of(run@).take((e + 1) as int).to_set() =~= keys_of(run@).take(
                    e as int,
                ).to_set().insert(run@[e as int].0@));
                assert(ids@.map_values(|k: Vec<char>| k@).to_set() =~= all_ids(runs.take(r as int)).union(
                    keys_of(run@).take((e + 1) as int).to_set(),
                ));
            }
            e += 1;
        }
        proof {
            assert(keys_of(run@).take(e as int) =~= keys_of(run@));
            assert(lists(run@, runs[r as int]));
            assert forall|k: Seq<char>| #[trigger] all_ids(runs.take((r + 1) as int)).contains(k) <==> all_ids(
                runs.take(r as int),
            ).union(keys_of(run@).to_set()).contains(k) by {
                if all_ids(runs.take((r + 1) as int)).contains(k) {
                    let i = choose|i: int| 0 <= i < runs.take((r + 1) as int).len()
                        && #[trigger] runs.take((r + 1) as int)[i].contains_key(k);
                    if i < r {
                        assert(runs.take(r as int)[i] == runs[i]);
                        assert(all_ids(runs.take(r as int)).contains(k));
                    } else {
                        assert(runs[r as int].contains_key(k));
                        assert(keys_of(run@).contains(k));
                    }
                }
                if all_ids(runs.take(r as int)).contains(k) {
                    let i = choose|i: int| 0 <= i < runs.take(r as int).len()
                        && #[trigger] runs.take(r as int)[i].contains_key(k);
                    assert(runs.take((r + 1) as int)[i] == runs[i]);
                }
                if keys_of(run@).to_set().contains(k) {
                    assert(runs[r as int].contains_key(k));
                    assert(runs.take((r + 1) as int)[r as int] == runs[r as int]);
                }
            }
            assert(all_ids(runs.take((r + 1) as int)) =~= all_ids(runs.take(r as int)).union(
                keys_of(run@).to_set(),
            ));
        }
        r += 1;
    }
    assert(runs.take(r as int) =~= runs);
    ids
}


/// The ranking order of the flaky lists: higher failure rate first, then
/// increasing id.
pub open spec fn ranks_before(a: (Seq<char>, nat, nat), b: (Seq<char>, nat, nat)) -> bool {
    let ra = rate_percent(a.2, a.1 + a.2);
    let rb = rate_percent(b.2, b.1 + b.2);
    ra > rb || (ra == rb && lex_lt(a.0, b.0))
}

/// Every element ranks before every later one.
pub open spec fn ranked(s: Seq<(Seq<char>, nat, nat)>) -> bool {
    forall|i: int, j: int| 0 <= i < j < s.len() ==> ranks_before(#[trigger] s[i], #[trigger] s[j])
}

/// No two elements share an id.
pub open spec fn distinct_ids(s: Seq<(Seq<char>, nat, nat)>) -> bool {
    forall|i: int, j: int| 0 <= i < s.len() && 0 <= j < s.len() && i != j ==> #[trigger] s[i].0 != #[trigger] s[j].0
}

pub proof fn lemma_ranks_transitive(a: (Seq<char>, nat, nat), b: (Seq<char>, nat, nat), c: (Seq<char>, nat, nat))
    requires
        ranks_before(a, b),
        ranks_before(b, c),
    ensures
        ranks_before(a, c),
{
    if lex_lt(a.0, b.0) && lex_lt(b.0, c.0) {
        lemma_lex_transitive(a.0, b.0, c.0);
    }
}

pub proof fn lemma_ranks_total(a: (Seq<char>, nat, nat), b: (Seq<char>, nat, nat))
    requires
        a.0 != b.0,
    ensures
        ranks_before(a, b) || ranks_before(b, a),
{
    lemma_lex_total(a.0, b.0);
}

/// A copy of a `TestOutcomes`.
pub fn copy_outcomes(t: &TestOutcomes) -> (out: TestOutcomes)
    ensures
        outcomes_view(out) == outcomes_view(*t),
        out.passed == t.passed,
        out.failed == t.failed,
{
    TestOutcomes { id: t.id.clone(), passed: t.passed, failed: t.failed }
}

/// Sorts outcomes by failure rate (highest first), then id.
pub fn rank_outcomes(input: &Vec<TestOutcomes>) -> (out: Vec<TestOutcomes>)
    requires
        distinct_ids(input@.map_values(|t: TestOutcomes| outcomes_view(t))),
        forall|i: int| 0 <= i < input@.len() ==> #[trigger] input@[i].passed + input@[i].failed
            <= usize::MAX,
    ensures
        ranked(out@.map_values(|t: TestOutcomes| outcomes_view(t))),
        out@.map_values(|t: TestOutcomes| outcomes_view(t)).to_multiset() == input@.map_values(
            |t: TestOutcomes| outcomes_view(t),
        ).to_multiset(),
        forall|i: int| 0 <= i < out@.len() ==> #[trigger] out@[i].passed + out@[i].failed <= usize::MAX,
{
    broadcast use vstd::seq_lib::group_to_multiset_ensures;

    let ghost inv = input@.map_values(|t: TestOutcomes| outcomes_view(t));
    let mut out: Vec<TestOutcomes> = Vec::new();
    let mut k: usize = 0;
    while k < input.len()
        invariant
            k <= input.len(),
            inv == input@.map_values(|t: TestOutcomes| outcomes_view(t)),
            distinct_ids(inv),
            forall|i: int| 0 <= i < input@.len() ==> #[trigger] input@[i].passed + input@[i].failed
                <= usize::MAX,
            forall|i: int| 0 <= i < out@.len() ==> #[trigger] out@[i].passed + out@[i].failed
                <= usize::MAX,
            ranked(out@.map_values(|t: TestOutcomes| outcomes_view(t))),
            out@.map_values(|t: TestOutcomes| outcomes_view(t)).to_multiset() == inv.take(
                k as int,
            ).to_multiset(),
        decreases input.len() - k,
    {
        let x = copy_outcomes(&input[k]);
        let xv = Ghost(outcomes_view(x));
        let ov = Ghost(out@.map_values(|t: TestOutcomes| outcomes_view(t)));
        proof {
            assert(xv@ == inv[k as int]);
            // x's id differs from every id already placed
            assert forall|q: int| 0 <= q < ov@.len() implies #[trigger] ov@[q].0 != xv@.0 by {
                assert(inv.take(k as int).to_multiset().count(ov@[q]) > 0) by {
                    assert(ov@.to_multiset().count(ov@[q]) > 0) by {
                        vstd::seq_lib::to_multiset_contains(ov@, ov@[q]);
                    }
                }
                assert(inv.take(k as int).contains(ov@[q])) by {
                    vstd::seq_lib::to_multiset_contains(inv.take(k as int), ov@[q]);
                }
                let w = choose|w: int| 0 <= w < k && inv.take(k as int)[w] == ov@[q];
                assert(inv[w] == ov@[q]);
            }
        }
        let rate_x = x.failure_rate_percent();
        let mut p: usize = 0;
        let mut stop = false;
        while p < out.len() && !stop
            invariant
                p <= out.len(),
                ov@ == out@.map_values(|t: TestOutcomes| outcomes_view(t)),
                forall|i: int| 0 <= i < out@.len() ==> #[trigger] out@[i].passed + out@[i].failed
                    <= usize::MAX,
                xv@ == outcomes_view(x),
                rate_x == rate_percent(xv@.2, xv@.1 + xv@.2),
                forall|q: int| 0 <= q < p ==> ranks_before(#[trigger] ov@[q], xv@),
                forall|q: int| 0 <= q < ov@.len() ==> #[trigger] ov@[q].0 != xv@.0,
                stop ==> p < out.len() && ranks_before(xv@, ov@[p as int]),
            decreases out.len() - p + if stop { 0int } else { 1int },
        {
            let rate_p = out[p].failure_rate_percent();
            let placed_before = rate_p > rate_x || (rate_p == rate_x && crate::text::str_lt(
                out[p].id.as_str(),
                x.id.as_str(),
            ));
            proof {
                assert(ov@[p as int] == outcomes_view(out@[p as int]));
            }
            if placed_before {
                p += 1;
            } else {
                proof {
                    lemma_ranks_total(ov@[p as int], xv@);
                }
                stop = true;
            }
        }
        proof {
            assert forall|q: int| p <= q < ov@.len() implies ranks_before(xv@, #[trigger] ov@[q]) by {
                if q > p {
                    lemma_ranks_transitive(xv@, ov@[p as int], ov@[q]);
                }
            }
        }
        out.insert(p, x);
        proof {
            let nv = out@.map_values(|t: TestOutcomes| outcomes_view(t));
            assert(nv =~= ov@.insert(p as int, xv@));
            assert forall|a: int, b: int| 0 <= a < b < nv.len() implies ranks_before(
                #[trigger] nv[a],
                #[trigger] nv[b],
            ) by {
                if a < p && b > p {
                    lemma_ranks_transitive(ov@[a], xv@, ov@[b - 1]);
                }
            }
            assert(inv.take((k + 1) as int) =~= inv.take(k as int).push(inv[k as int]));
            vstd::seq_lib::to_multiset_insert(ov@, p as int, xv@);
            vstd::seq_lib::to_multiset_build(inv.take(k as int), inv[k as int]);
            assert(nv.to_multiset() == inv.take((k + 1) as int).to_multiset());
        }
        k += 1;
    }
    assert(inv.take(k as int) =~= inv);
    out
}

/// Inserts `key` into a strictly sorted list of keys unless present.
pub fn insert_key(ids: &mut Vec<Vec<char>>, key: Vec<char>)
    requires
        strictly_sorted(old(ids)@.map_values(|k: Vec<char>| k@)),
    ensures
        strictly_sorted(final(ids)@.map_values(|k: Vec<char>| k@)),
        final(ids)@.map_values(|k: Vec<char>| k@).to_set() == old(ids)@.map_values(
            |k: Vec<char>| k@,
        ).to_set().insert(key@),
{
    let ghost before = ids@.map_values(|k: Vec<char>| k@);
    let mut i: usize = 0;
    let mut stop = false;
    while i < ids.len() && !stop
        invariant
            i <= ids.len(),
            ids@.map_values(|k: Vec<char>| k@) == before,
            strictly_sorted(before),
            forall|j: int| 0 <= j < i ==> lex_lt(#[trigger] before[j], key@),
            stop ==> i < ids.len() && lex_lt(key@, before[i as int]),
        decreases ids.len() - i + if stop { 0int } else { 1int },
    {
        if !chars_lt(ids[i].as_slice(), key.as_slice()) {
            if chars_eq(ids[i].as_slice(), key.as_slice()) {
                proof {
                    assert(before[i as int] == key@);
                    assert(before.to_set().insert(key@) =~= before.to_set());
                }
                return;
            }
            proof {
                lemma_lex_total(before[i as int], key@);
            }
            stop = true;
        } else {
            i += 1;
        }
    }
    let ghost slot = i as int;
    proof {
        assert forall|j: int| slot <= j < before.len() implies lex_lt(key@, #[trigger] before[j]) by {
            if j > slot {
                lemma_lex_transitive(key@, before[slot], before[j]);
            }
        }
    }
    ids.insert(i, key);
    proof {
        let after = ids@.map_values(|k: Vec<char>| k@);
        assert(after =~= before.insert(slot, key@));
        assert forall|a: int, b: int| 0 <= a < b < after.len() implies lex_lt(
            #[trigger] after[a],
            #[trigger] after[b],
        ) by {
            if a < slot && b > slot {
                lemma_lex_transitive(before[a], key@, before[b - 1]);
            }
        }
        assert forall|k: Seq<char>| #[trigger] after.to_set().contains(k) <==> before.to_set().insert(
            key@,
        ).contains(k) by {
            if k == key@ {
                assert(after[slot] == k);
            } else if before.to_set().contains(k) {
                let j = choose|j: int| 0 <= j < before.len() && before[j] == k;
                if j < slot {
                    assert(after[j] == k);
                } else {
                    assert(after[j + 1] == k);
                }
            } else if after.to_set().contains(k) {
                let j = choose|j: int| 0 <= j < after.len() && after[j] == k;
                if j < slot {
                    assert(before[j] == k);
                } else if j > slot {
                    assert(before[j - 1] == k);
                }
            }
        }
        assert(after.to_set() =~= before.to_set().insert(key@));
    }
}



/// The ids a run reported, in report order, first occurrence only.
pub open spec fn execution_order(r: JunitReport) -> Seq<Seq<char>> {
    r.test_cases@.map_values(|c: TestCase| c@.id()).remove_duplicates(Seq::empty())
}

/// Whether `other` lists the tests it shares with `first` in a different
/// relative order. Only the shared subset is compared, so a run cut short is
/// not a reordering; fewer than two shared tests carry no order signal.
pub open spec fn reordered(first: Seq<Seq<char>>, other: Seq<Seq<char>>) -> bool {
    let shared = |k: Seq<char>| first.contains(k) && other.contains(k);
    first.filter(shared).len() >= 2 && first.filter(shared) != other.filter(shared)
}

/// Runs (1-based) whose shared tests appear in a different relative order
/// than run 1.
pub open spec fn reordered_list(reports: Seq<JunitReport>) -> Seq<usize> {
    if reports.len() == 0 {
        Seq::empty()
    } else {
        let first = execution_order(reports[0]);
        Seq::new((reports.len() - 1) as nat, |j: int| (j + 1) as usize).filter(
            |i: usize| reordered(first, execution_order(reports[i as int])),
        ).map_values(|i: usize| (i + 1) as usize)
    }
}

/// The ids a run reported, in report order, first occurrence only.
pub fn report_order(report: &JunitReport) -> (out: Vec<Vec<char>>)
    ensures
        keyseq(out@) == execution_order(*report),
{
    let ghost ids = report.test_cases@.map_values(|c: TestCase| c@.id());
    let mut out: Vec<Vec<char>> = Vec::new();
    let mut i: usize = 0;
    while i < report.test_cases.len()
        invariant
            i <= report.test_cases.len(),
            ids == report.test_cases@.map_values(|c: TestCase| c@.id()),
            keyseq(out@) == ids.take(i as int).remove_duplicates(Seq::empty()),
        decreases report.test_cases.len() - i,
    {
        let id = report.test_cases[i].qualified_name();
        let key = chars_of(id.as_str());
        proof {
            assert(ids.take(i + 1) =~= ids.take(i as int) + seq![ids[i as int]]);
            ids.take(i as int).lemma_remove_duplicates_append(ids[i as int], Seq::empty());
            ids.take(i as int).lemma_remove_duplicates_properties(Seq::empty());
            assert(ids.take(i as int) + Seq::<Seq<char>>::empty() =~= ids.take(i as int));
        }
        if !keys_contain(&out, key.as_slice()) {
            let ghost before = keyseq(out@);
            out.push(key);
            assert(keyseq(out@) =~= before + seq![ids[i as int]]);
        }
        i += 1;
    }
    assert(ids.take(i as int) =~= ids);
    out
}

/// Runs whose shared tests appear in a different relative order than run 1.
pub fn reordered_runs(reports: &Vec<JunitReport>) -> (out: Vec<usize>)
    ensures
        out@ == reordered_list(reports@),
{
    let mut out: Vec<usize> = Vec::new();
    if reports.len() == 0 {
        return out;
    }
    let first = report_order(&reports[0]);
    let ghost fv = execution_order(reports@[0]);
    let ghost idx = Seq::new((reports.len() - 1) as nat, |j: int| (j + 1) as usize);
    let ghost pred = |i: usize| reordered(fv, execution_order(reports@[i as int]));
    let ghost f = |i: usize| (i + 1) as usize;
    let mut i: usize = 1;
    while i < reports.len()
        invariant
            1 <= i <= reports.len(),
            keyseq(first@) == fv,
            fv == execution_order(reports@[0]),
            idx == Seq::new((reports.len() - 1) as nat, |j: int| (j + 1) as usize),
            pred == (|i: usize| reordered(fv, execution_order(reports@[i as int]))),
            f == (|i: usize| (i + 1) as usize),
            out@ == idx.take(i - 1).filter(pred).map_values(f),
        decreases reports.len() - i,
    {
        let other = report_order(&reports[i]);
        let ghost ov = keyseq(other@);
        let ghost shared = |k: Seq<char>| fv.contains(k) && ov.contains(k);
        let kept_first = keep_shared(&first, &other, Ghost(shared));
        proof {
            assert forall|k: Seq<char>| keyseq(other@).contains(k) implies (#[trigger] shared(k) <==> keyseq(
                first@,
            ).contains(k)) by {}
        }
        let kept_other = keep_shared(&other, &first, Ghost(shared));
        let differs = kept_first.len() >= 2 && !keys_eq(&kept_first, &kept_other);
        proof {
            assert(idx[i - 1] == i);
            lemma_filter_step(idx, i - 1, pred, f);
            assert(keyseq(kept_first@).len() == kept_first@.len());
            assert(differs == pred(i));
        }
        if differs {
            out.push(i + 1);
        }
        i += 1;
    }
    assert(idx.take(i - 1) =~= idx);
    out
}

/// Ids of the given class.
pub open spec fn flaky_pred(runs: Seq<Map<Seq<char>, TestStatus>>) -> spec_fn(Seq<char>) -> bool {
    |id: Seq<char>| class_of(runs, id) is Flaky
}

/// Ids of the given class.
pub open spec fn broken_pred(runs: Seq<Map<Seq<char>, TestStatus>>) -> spec_fn(Seq<char>) -> bool {
    |id: Seq<char>| class_of(runs, id) is Broken
}

/// Ids of the given class.
pub open spec fn monotone_pred(runs: Seq<Map<Seq<char>, TestStatus>>) -> spec_fn(Seq<char>) -> bool {
    |id: Seq<char>| class_of(runs, id) is Monotone
}

/// Ids of the given class.
pub open spec fn lone_pred(runs: Seq<Map<Seq<char>, TestStatus>>) -> spec_fn(Seq<char>) -> bool {
    |id: Seq<char>| class_of(runs, id) is Lone
}

/// The outcomes of an id.
pub open spec fn outcomes_fn(runs: Seq<Map<Seq<char>, TestStatus>>) -> spec_fn(Seq<char>) -> (Seq<char>, nat, nat) {
    |id: Seq<char>| outcomes_spec(runs, id)
}

/// The monotone entry of an id.
pub open spec fn monotone_fn(runs: Seq<Map<Seq<char>, TestStatus>>) -> spec_fn(Seq<char>) -> ((Seq<char>, nat, nat), usize, bool) {
    |id: Seq<char>| (outcomes_spec(runs, id), class_of(runs, id)->flipped_after_run, class_of(runs, id)->started_green)
}

/// The lone entry of an id.
pub open spec fn lone_fn(runs: Seq<Map<Seq<char>, TestStatus>>) -> spec_fn(Seq<char>) -> (Seq<char>, nat) {
    |id: Seq<char>| (id, class_of(runs, id)->absent_runs)
}

/// The flaky tests, in id order (before ranking).
pub open spec fn flaky_pool(runs: Seq<Map<Seq<char>, TestStatus>>) -> Seq<(Seq<char>, nat, nat)> {
    id_order(runs).filter(flaky_pred(runs)).map_values(outcomes_fn(runs))
}

/// The broken tests, in id order.
pub open spec fn broken_list(runs: Seq<Map<Seq<char>, TestStatus>>) -> Seq<(Seq<char>, nat, nat)> {
    id_order(runs).filter(broken_pred(runs)).map_values(outcomes_fn(runs))
}

/// The monotone flips, in id order.
pub open spec fn monotone_list(runs: Seq<Map<Seq<char>, TestStatus>>) -> Seq<((Seq<char>, nat, nat), usize, bool)> {
    id_order(runs).filter(monotone_pred(runs)).map_values(monotone_fn(runs))
}

/// The lone failures, in id order.
pub open spec fn lone_list(runs: Seq<Map<Seq<char>, TestStatus>>) -> Seq<(Seq<char>, nat)> {
    id_order(runs).filter(lone_pred(runs)).map_values(lone_fn(runs))
}

/// The view of a monotone flip.
pub open spec fn monotone_view(m: MonotoneFlip) -> ((Seq<char>, nat, nat), usize, bool) {
    (outcomes_view(m.outcomes), m.flipped_after_run, m.started_green)
}

/// The view of a lone failure.
pub open spec fn lone_view(l: LoneFailure) -> (Seq<char>, nat) {
    (l.id@, l.absent_runs as nat)
}

pub proof fn lemma_filter_step<A, B>(ids: Seq<A>, k: int, p: spec_fn(A) -> bool, f: spec_fn(A) -> B)
    requires
        0 <= k < ids.len(),
    ensures
        ids.take(k + 1).filter(p).map_values(f) == if p(ids[k]) {
            ids.take(k).filter(p).map_values(f).push(f(ids[k]))
        } else {
            ids.take(k).filter(p).map_values(f)
        },
{
    assert(ids.take(k + 1) =~= ids.take(k).push(ids[k]));
    ids.take(k).lemma_filter_push(ids[k], p);
    if p(ids[k]) {
        ids.take(k).filter(p).lemma_push_map_commute(f, ids[k]);
    }
}

/// `a` is what the flaky pass finds in `reports`: the flaky tests ranked
/// (highest failure rate first, then by id), the broken ones, the one-time
/// flips, the lone failures, and the runs that left run 1's order.
pub open spec fn analyzes(a: Analysis, reports: Seq<JunitReport>) -> bool {
    &&& ranked(a.flaky@.map_values(|t: TestOutcomes| outcomes_view(t)))
    &&& a.flaky@.map_values(|t: TestOutcomes| outcomes_view(t)).to_multiset() == flaky_pool(
        runs_of(reports),
    ).to_multiset()
    &&& a.broken@.map_values(|t: TestOutcomes| outcomes_view(t)) == broken_list(runs_of(reports))
    &&& a.monotone@.map_values(|m: MonotoneFlip| monotone_view(m)) == monotone_list(runs_of(reports))
    &&& a.lone_failures@.map_values(|l: LoneFailure| lone_view(l)) == lone_list(runs_of(reports))
    &&& a.reordered_runs@ == reordered_list(reports)
}

/// Aggregate per-test outcomes across the runs' reports and split them by
/// what the *sequence* supports: flaky (bounced), monotone (flipped once,
/// never back), lone (one sighting), or broken (failed every observed run).
/// Tests that passed every run — the healthy majority — are not reported.
pub fn analyze(reports: &Vec<JunitReport>) -> (a: Analysis)
    ensures
        analyzes(a, reports@),
{
    let ghost runs = runs_of(reports@);
    let mut per_run: Vec<Vec<(Vec<char>, TestStatus)>> = Vec::new();
    let mut r: usize = 0;
    while r < reports.len()
        invariant
            r <= reports.len(),
            runs == runs_of(reports@),
            well_listed(per_run@, runs.take(r as int)),
        decreases reports.len() - r,
    {
        let run = collapse_report(&reports[r]);
        per_run.push(run);
        proof {
            assert forall|q: int| 0 <= q < r + 1 implies strictly_sorted(keys_of(#[trigger] per_run@[q]@))
                && lists(per_run@[q]@, runs.take(r + 1)[q]) by {
                if q < r {
                    assert(runs.take(r as int)[q] == runs.take(r + 1)[q]);
                }
            }
        }
        r += 1;
    }
    assert(runs.take(r as int) =~= runs);
    let ids = collect_ids(&per_run, Ghost(runs));
    let ghost idv = ids@.map_values(|k: Vec<char>| k@);
    proof {
        crate::keyed::lemma_sorted_unique(idv, id_order(runs));
    }
    assert(idv == id_order(runs));

    let mut pool: Vec<TestOutcomes> = Vec::new();
    let mut broken: Vec<TestOutcomes> = Vec::new();
    let mut monotone: Vec<MonotoneFlip> = Vec::new();
    let mut lone_failures: Vec<LoneFailure> = Vec::new();
    let mut k: usize = 0;
    while k < ids.len()
        invariant
            k <= ids.len(),
            idv == ids@.map_values(|k: Vec<char>| k@),
            strictly_sorted(idv),
            well_listed(per_run@, runs),
            runs.len() == reports.len(),
            pool@.map_values(|t: TestOutcomes| outcomes_view(t)) == idv.take(k as int).filter(
                flaky_pred(runs),
            ).map_values(outcomes_fn(runs)),
            broken@.map_values(|t: TestOutcomes| outcomes_view(t)) == idv.take(k as int).filter(
                broken_pred(runs),
            ).map_values(outcomes_fn(runs)),
            monotone@.map_values(|m: MonotoneFlip| monotone_view(m)) == idv.take(k as int).filter(
                monotone_pred(runs),
            ).map_values(monotone_fn(runs)),
            lone_failures@.map_values(|l: LoneFailure| lone_view(l)) == idv.take(k as int).filter(
                lone_pred(runs),
            ).map_values(lone_fn(runs)),
            strictly_sorted(pool@.map_values(|t: TestOutcomes| t.id@)),
            forall|i: int, j: int| 0 <= i < pool@.len() && k <= j < idv.len() ==> lex_lt(
                #[trigger] pool@[i].id@,
                #[trigger] idv[j],
            ),
            forall|i: int| 0 <= i < pool@.len() ==> #[trigger] pool@[i].passed + pool@[i].failed
                <= usize::MAX,
        decreases ids.len() - k,
    {
        let id = &ids[k];
        let ghost idk = idv[k as int];
        assert(id@ == idk);
        let (obs, failed, absent) = observe(&per_run, id.as_slice(), Ghost(runs));
        let passed = obs.len() - failed;
        let ghost pv = pool@.map_values(|t: TestOutcomes| outcomes_view(t));
        let ghost old_ps = pool@.map_values(|t: TestOutcomes| t.id@);
        let ghost bv = broken@.map_values(|t: TestOutcomes| outcomes_view(t));
        let ghost mv = monotone@.map_values(|m: MonotoneFlip| monotone_view(m));
        let ghost lv = lone_failures@.map_values(|l: LoneFailure| lone_view(l));
        proof {
            lemma_filter_step(idv, k as int, flaky_pred(runs), outcomes_fn(runs));
            lemma_filter_step(idv, k as int, broken_pred(runs), outcomes_fn(runs));
            lemma_filter_step(idv, k as int, monotone_pred(runs), monotone_fn(runs));
            lemma_filter_step(idv, k as int, lone_pred(runs), lone_fn(runs));
            assert(outcomes_spec(runs, idk) == (idk, passed as nat, failed as nat));
        }
        if failed > 0 {
            if passed > 0 {
                match monotone_flip(obs.as_slice()) {
                    Some((run, green)) => {
                        let outcomes = TestOutcomes { id: string_of(id.as_slice()), passed, failed };
                        monotone.push(MonotoneFlip { outcomes, flipped_after_run: run, started_green: green });
                        proof {
                            assert(monotone@.map_values(|m: MonotoneFlip| monotone_view(m)) =~= mv.push(
                                monotone_fn(runs)(idk),
                            ));
                        }
                    },
                    None => {
                        let outcomes = TestOutcomes { id: string_of(id.as_slice()), passed, failed };
                        pool.push(outcomes);
                        proof {
                            assert(pool@.map_values(|t: TestOutcomes| outcomes_view(t)) =~= pv.push(
                                outcomes_fn(runs)(idk),
                            ));
                            let ps = pool@.map_values(|t: TestOutcomes| t.id@);
                            assert forall|a: int, b: int| 0 <= a < b < ps.len() implies lex_lt(
                                #[trigger] ps[a],
                                #[trigger] ps[b],
                            ) by {
                                assert(ps[a] == pool@[a].id@);
                                assert(ps[b] == pool@[b].id@);
                                if b == ps.len() - 1 {
                                    assert(pool@[a].id@ == old_ps[a]);
                                    assert(lex_lt(old_ps[a], idv[k as int]));
                                } else {
                                    assert(pool@[b].id@ == old_ps[b]);
                                    assert(pool@[a].id@ == old_ps[a]);
                                }
                            }
                            assert forall|i: int, j: int| 0 <= i < pool@.len() && k + 1 <= j < idv.len()
                                implies lex_lt(#[trigger] pool@[i].id@, #[trigger] idv[j]) by {
                                if i == pool@.len() - 1 {
                                    assert(lex_lt(idv[k as int], idv[j]));
                                } else {
                                    assert(lex_lt(pool@[i].id@, idv[k as int]));
                                    crate::text::lemma_lex_transitive(pool@[i].id@, idv[k as int], idv[j]);
                                }
                            }
                        }
                    },
                }
            } else if obs.len() == 1 && absent > 0 {
                lone_failures.push(LoneFailure { id: string_of(id.as_slice()), absent_runs: absent });
                proof {
                    assert(lone_failures@.map_values(|l: LoneFailure| lone_view(l)) =~= lv.push(
                        lone_fn(runs)(idk),
                    ));
                }
            } else {
                let outcomes = TestOutcomes { id: string_of(id.as_slice()), passed, failed };
                broken.push(outcomes);
                proof {
                    assert(broken@.map_values(|t: TestOutcomes| outcomes_view(t)) =~= bv.push(
                        outcomes_fn(runs)(idk),
                    ));
                }
            }
        }
        proof {
            assert forall|i: int, j: int| 0 <= i < pool@.len() && k + 1 <= j < idv.len() implies lex_lt(
                #[trigger] pool@[i].id@,
                #[trigger] idv[j],
            ) by {
                if i < pv.len() {
                    assert(lex_lt(pool@[i].id@, idv[k as int]));
                    crate::text::lemma_lex_transitive(pool@[i].id@, idv[k as int], idv[j]);
                }
            }
        }
        k += 1;
    }
    assert(idv.take(k as int) =~= idv);
    proof {
        let pv = pool@.map_values(|t: TestOutcomes| outcomes_view(t));
        let ps = pool@.map_values(|t: TestOutcomes| t.id@);
        assert forall|i: int, j: int| 0 <= i < pv.len() && 0 <= j < pv.len() && i != j implies #[trigger] pv[i].0
            != #[trigger] pv[j].0 by {
            assert(pv[i].0 == ps[i]);
            assert(pv[j].0 == ps[j]);
            crate::keyed::lemma_sorted_distinct(ps, i, j);
        }
    }
    let flaky = rank_outcomes(&pool);
    Analysis { flaky, broken, monotone, lone_failures, reordered_runs: reordered_runs(reports) }
}

} // verus!
