//! Classification of a red run's failures against the evidence sooth already
//! has: the accumulated history and the quarantine list.

use vstd::prelude::*;

use crate::analyzers::flaky::{Analysis as FlakyAnalysis, LoneFailure, MonotoneFlip, TestOutcomes};
use crate::analyzers::history::{Analysis as HistoryAnalysis, FailingSince, HistoricFlake};
use crate::text::{strings, copy_opt_string, copy_string, opt_view, str_eq};
use crate::verify;

verus! {

/// What the accumulated evidence says about one failure.
#[derive(Debug, Clone, PartialEq, Eq)]
pub enum Verdict {
    KnownFlake {
        failed_runs: usize,
        observed_runs: usize,
        /// The single environment every failure came from, when a second
        /// environment also observed the test.
        failures_confined_to: Option<String>,
    },
    FailingSince {
        commit: String,
        failed_runs: usize,
    },
    Unknown,
}

/// The mathematical content of a verdict.
pub enum Evidence {
    KnownFlake { failed_runs: nat, observed_runs: nat, confined: Option<Seq<char>> },
    FailingSince { commit: Seq<char>, failed_runs: nat },
    Unknown,
}

/// The view of a verdict.
pub open spec fn verdict_view(v: Verdict) -> Evidence {
    match v {
        Verdict::KnownFlake { failed_runs, observed_runs, failures_confined_to } => Evidence::KnownFlake {
            failed_runs: failed_runs as nat,
            observed_runs: observed_runs as nat,
            confined: opt_view(failures_confined_to),
        },
        Verdict::FailingSince { commit, failed_runs } => Evidence::FailingSince {
            commit: commit@,
            failed_runs: failed_runs as nat,
        },
        Verdict::Unknown => Evidence::Unknown,
    }
}

/// What *this* invocation saw, as opposed to what the history remembers. The
/// repeat and verify variants never mix: verification requires a single run.
#[derive(Debug, Clone, PartialEq, Eq)]
pub enum Observed {
    /// Mixed outcomes across this invocation's runs.
    Flaky { failed_runs: usize, observed_runs: usize },
    /// Mixed outcomes across runs that did not all list their tests in run
    /// 1's order, so order-dependence looks just like a flake;
    /// `first_reordered` is the first such run (1-based).
    FlakyReordered { failed_runs: usize, observed_runs: usize, first_reordered: usize },
    /// Failed every run of this invocation.
    Broken { observed_runs: usize },
    /// Flipped once across this invocation's runs and never came back:
    /// `started_green` for green up to run `flipped_after_run`, then red.
    Monotone { flipped_after_run: usize, started_green: bool },
    /// Failed the one run it appeared in, absent from `absent_runs` others.
    Lone { absent_runs: usize },
    /// Verification reproduced the failure.
    Real,
    /// Verification passed it in isolation.
    FlakyOrOrder,
    /// Verification failed it every time, but not the way the suite did:
    /// `suite` and `isolation` describe the two failures.
    FailedDifferently { suite: String, isolation: String },
    /// Verification never actually re-ran it.
    Unverified,
}

/// One failure of the run being explained, with everything sooth knows about
/// it on one value: what this invocation saw, what the history remembers, and
/// whether the team already listed it.
#[derive(Debug, Clone, PartialEq, Eq)]
pub struct Explanation {
    /// The test's identity (`classname::name`).
    pub id: String,
    pub observed: Option<Observed>,
    pub verdict: Verdict,
    pub quarantined: bool,
}

/// How the failures divide over the verdicts — a partition, so the four
/// counts sum to the failure count.
#[derive(Debug, Default, Clone, Copy, PartialEq, Eq, Structural)]
pub struct Counts {
    pub known_flakes: usize,
    pub failing_since: usize,
    /// Quarantined failures the history could not classify.
    pub quarantined: usize,
    pub new: usize,
}

/// The category an explanation is counted in: known flake, regression,
/// quarantined, new.
pub open spec fn category(e: Explanation) -> int {
    match e.verdict {
        Verdict::KnownFlake { .. } => 0,
        Verdict::FailingSince { .. } => 1,
        Verdict::Unknown => if e.quarantined {
            2
        } else {
            3
        },
    }
}

/// Explanations counted in category `c`.
pub open spec fn in_category(c: int) -> spec_fn(Explanation) -> bool {
    |e: Explanation| category(e) == c
}

/// How many explanations fall in category `c`.
pub open spec fn count_in(es: Seq<Explanation>, c: int) -> nat {
    es.filter(in_category(c)).len()
}

impl Counts {
    /// Count the explanations per category.
    pub fn of(explanations: &[Explanation]) -> (counts: Counts)
        ensures
            counts.known_flakes == count_in(explanations@, 0),
            counts.failing_since == count_in(explanations@, 1),
            counts.quarantined == count_in(explanations@, 2),
            counts.new == count_in(explanations@, 3),
            counts.known_flakes + counts.failing_since + counts.quarantined + counts.new == explanations@.len(),
    {
        let mut counts = Counts { known_flakes: 0, failing_since: 0, quarantined: 0, new: 0 };
        let mut i: usize = 0;
        while i < explanations.len()
            invariant
                i <= explanations.len(),
                counts.known_flakes == count_in(explanations@.take(i as int), 0),
                counts.failing_since == count_in(explanations@.take(i as int), 1),
                counts.quarantined == count_in(explanations@.take(i as int), 2),
                counts.new == count_in(explanations@.take(i as int), 3),
                counts.known_flakes + counts.failing_since + counts.quarantined + counts.new == i,
            decreases explanations.len() - i,
        {
            let ghost pre = explanations@.take(i as int);
            let ghost e = explanations@[i as int];
            proof {
                assert(explanations@.take(i + 1) =~= pre.push(e));
                pre.lemma_filter_push(e, in_category(0));
                pre.lemma_filter_push(e, in_category(1));
                pre.lemma_filter_push(e, in_category(2));
                pre.lemma_filter_push(e, in_category(3));
            }
            match &explanations[i].verdict {
                Verdict::KnownFlake { .. } => counts.known_flakes += 1,
                Verdict::FailingSince { .. } => counts.failing_since += 1,
                Verdict::Unknown => {
                    if explanations[i].quarantined {
                        counts.quarantined += 1;
                    } else {
                        counts.new += 1;
                    }
                },
            }
            i += 1;
        }
        assert(explanations@.take(i as int) =~= explanations@);
        counts
    }

    /// All counted failures.
    pub fn total(&self) -> (n: usize)
        requires
            self.known_flakes + self.failing_since + self.quarantined + self.new <= usize::MAX,
        ensures
            n == self.known_flakes + self.failing_since + self.quarantined + self.new,
    {
        self.known_flakes + self.failing_since + self.quarantined + self.new
    }

    /// Nothing failed that sooth or the team did not already know as a flake.
    /// A regression is known too, but it is a real failure and never counts.
    pub fn only_known_flakes(&self) -> (r: bool)
        requires
            self.known_flakes + self.failing_since + self.quarantined + self.new <= usize::MAX,
        ensures
            r == (self.known_flakes + self.failing_since + self.quarantined + self.new > 0
                && self.failing_since == 0 && self.new == 0),
    {
        self.total() > 0 && self.failing_since == 0 && self.new == 0
    }
}

/// The four categories partition the explanations: their counts sum to
/// the number of explanations.
pub proof fn lemma_counts_partition(es: Seq<Explanation>)
    ensures
        count_in(es, 0) + count_in(es, 1) + count_in(es, 2) + count_in(es, 3) == es.len(),
    decreases es.len(),
{
    if es.len() > 0 {
        let init = es.drop_last();
        lemma_counts_partition(init);
        assert(es =~= init.push(es.last()));
        init.lemma_filter_push(es.last(), in_category(0));
        init.lemma_filter_push(es.last(), in_category(1));
        init.lemma_filter_push(es.last(), in_category(2));
        init.lemma_filter_push(es.last(), in_category(3));
    }
}

/// The four counts in terms of the explanations: a known flake or a
/// regression is counted as such whether or not it is quarantined; the
/// quarantine splits only the failures the history could not classify.
pub proof fn lemma_counts_by_verdict(es: Seq<Explanation>)
    ensures
        count_in(es, 0) == es.filter(|e: Explanation| e.verdict is KnownFlake).len(),
        count_in(es, 1) == es.filter(|e: Explanation| e.verdict is FailingSince).len(),
        count_in(es, 2) == es.filter(|e: Explanation| e.verdict is Unknown && e.quarantined).len(),
        count_in(es, 3) == es.filter(|e: Explanation| e.verdict is Unknown && !e.quarantined).len(),
{
    assert(in_category(0) =~= |e: Explanation| e.verdict is KnownFlake);
    assert(in_category(1) =~= |e: Explanation| e.verdict is FailingSince);
    assert(in_category(2) =~= |e: Explanation| e.verdict is Unknown && e.quarantined);
    assert(in_category(3) =~= |e: Explanation| e.verdict is Unknown && !e.quarantined);
}

/// The passes whose findings are folded into the per-test lines.
#[derive(Default, Clone, Copy)]
pub struct Passes<'a> {
    pub active: Option<&'a FlakyAnalysis>,
    pub verify: Option<&'a verify::Verdict>,
    pub history: Option<&'a HistoryAnalysis>,
}

/// The ids of a list of test outcomes.
pub open spec fn outcome_ids(v: Seq<TestOutcomes>) -> Seq<Seq<char>> {
    v.map_values(|t: TestOutcomes| t.id@)
}

/// The ids of a list of proven flakes.
pub open spec fn flake_ids(v: Seq<HistoricFlake>) -> Seq<Seq<char>> {
    v.map_values(|h: HistoricFlake| h.outcomes.id@)
}

/// The ids of a list of regression pointers.
pub open spec fn since_ids(v: Seq<FailingSince>) -> Seq<Seq<char>> {
    v.map_values(|f: FailingSince| f.id@)
}

/// Every outcome's counts add up within `usize`.
pub open spec fn counts_fit(v: Seq<TestOutcomes>) -> bool {
    forall|i: int| 0 <= i < v.len() ==> #[trigger] v[i].passed + v[i].failed <= usize::MAX
}

/// The passes' counts add up within `usize`.
pub open spec fn passes_fit(passes: Passes) -> bool {
    &&& (passes.active matches Some(a) ==> counts_fit(a.flaky@) && counts_fit(a.broken@))
    &&& (passes.history matches Some(h) ==> counts_fit(h.flaky@.map_values(|f: HistoricFlake| f.outcomes)))
}

/// The ids of a list of one-time flips.
pub open spec fn monotone_ids(v: Seq<MonotoneFlip>) -> Seq<Seq<char>> {
    v.map_values(|m: MonotoneFlip| m.outcomes.id@)
}

/// The ids of a list of lone failures.
pub open spec fn lone_ids(v: Seq<LoneFailure>) -> Seq<Seq<char>> {
    v.map_values(|l: LoneFailure| l.id@)
}

/// The ids of a list of failures that failed differently on re-run.
pub open spec fn different_ids(v: Seq<verify::DifferentFailure>) -> Seq<Seq<char>> {
    v.map_values(|d: verify::DifferentFailure| d.id@)
}

/// Two sightings are the same: the same variant with the same counts, and
/// descriptions with the same text.
pub open spec fn same_observed(a: Option<Observed>, b: Option<Observed>) -> bool {
    match (a, b) {
        (
            Some(Observed::FailedDifferently { suite: s1, isolation: i1 }),
            Some(Observed::FailedDifferently { suite: s2, isolation: i2 }),
        ) => s1@ == s2@ && i1@ == i2@,
        _ => a == b,
    }
}

/// What this invocation saw about one id: the repeat pass first (flaky,
/// broken, flipped once, seen once), then verification (real, flaky or
/// order-dependent, unverified).
pub open spec fn observed_spec(id: Seq<char>, passes: Passes) -> Option<Observed> {
    let repeat = match passes.active {
        Some(a) => match outcome_ids(a.flaky@).index_of_first(id) {
            Some(i) => if a.reordered_runs@.len() == 0 {
                Some(
                    Observed::Flaky {
                        failed_runs: a.flaky@[i].failed,
                        observed_runs: (a.flaky@[i].passed + a.flaky@[i].failed) as usize,
                    },
                )
            } else {
                Some(
                    Observed::FlakyReordered {
                        failed_runs: a.flaky@[i].failed,
                        observed_runs: (a.flaky@[i].passed + a.flaky@[i].failed) as usize,
                        first_reordered: a.reordered_runs@[0],
                    },
                )
            },
            None => match outcome_ids(a.broken@).index_of_first(id) {
                Some(i) => Some(Observed::Broken {
                    observed_runs: (a.broken@[i].passed + a.broken@[i].failed) as usize,
                }),
                None => match monotone_ids(a.monotone@).index_of_first(id) {
                    Some(i) => Some(
                        Observed::Monotone {
                            flipped_after_run: a.monotone@[i].flipped_after_run,
                            started_green: a.monotone@[i].started_green,
                        },
                    ),
                    None => match lone_ids(a.lone_failures@).index_of_first(id) {
                        Some(i) => Some(Observed::Lone { absent_runs: a.lone_failures@[i].absent_runs }),
                        None => None,
                    },
                },
            },
        },
        None => None,
    };
    if repeat is Some {
        repeat
    } else {
        match passes.verify {
            Some(v) => if strings(v.real@).contains(id) {
                Some(Observed::Real)
            } else if strings(v.flaky_or_order@).contains(id) {
                Some(Observed::FlakyOrOrder)
            } else {
                match different_ids(v.failed_differently@).index_of_first(id) {
                    Some(i) => Some(
                        Observed::FailedDifferently {
                            suite: v.failed_differently@[i].suite,
                            isolation: v.failed_differently@[i].isolation,
                        },
                    ),
                    None => if strings(v.unverified@).contains(id) {
                        Some(Observed::Unverified)
                    } else {
                        None
                    },
                }
            },
            None => None,
        }
    }
}

/// What the history says about one id: flaky proof wins over a
/// regression pointer, as in the history pass itself.
pub open spec fn evidence_for(id: Seq<char>, history: HistoryAnalysis) -> Evidence {
    match flake_ids(history.flaky@).index_of_first(id) {
        Some(i) => Evidence::KnownFlake {
            failed_runs: history.flaky@[i].outcomes.failed as nat,
            observed_runs: (history.flaky@[i].outcomes.passed + history.flaky@[i].outcomes.failed) as nat,
            confined: opt_view(history.flaky@[i].failures_confined_to),
        },
        None => match since_ids(history.failing_since@).index_of_first(id) {
            Some(j) => Evidence::FailingSince {
                commit: history.failing_since@[j].commit@,
                failed_runs: history.failing_since@[j].failed_runs as nat,
            },
            None => Evidence::Unknown,
        },
    }
}

/// The verdict for one id; without a history nothing is known.
pub open spec fn verdict_spec(id: Seq<char>, passes: Passes) -> Evidence {
    match passes.history {
        Some(h) => evidence_for(id, *h),
        None => Evidence::Unknown,
    }
}

/// An index found by a linear scan is the first occurrence.
proof fn lemma_first(s: Seq<Seq<char>>, id: Seq<char>, r: Option<usize>)
    requires
        match r {
            Some(i) => i < s.len() && s[i as int] == id && forall|j: int| 0 <= j < i ==> s[j] != id,
            None => forall|j: int| 0 <= j < s.len() ==> s[j] != id,
        },
    ensures
        match r {
            Some(i) => s.index_of_first(id) == Some(i as int),
            None => s.index_of_first(id) is None,
        },
{
    s.index_of_first_ensures(id);
    match s.index_of_first(id) {
        Some(k) => {
            if let Some(i) = r {
                if k < i {
                    assert(s[k] != id);
                } else if k > i {
                    assert(s[i as int] != id);
                }
            } else {
                assert(s[k] != id);
            }
        },
        None => {
            if let Some(i) = r {
                assert(s.contains(s[i as int]));
            }
        },
    }
}

/// The first outcome carrying `id`.
fn find_outcome(v: &Vec<TestOutcomes>, id: &str) -> (r: Option<usize>)
    ensures
        match r {
            Some(i) => outcome_ids(v@).index_of_first(id@) == Some(i as int) && i < v@.len(),
            None => outcome_ids(v@).index_of_first(id@) is None,
        },
{
    let ghost ids = outcome_ids(v@);
    let mut i: usize = 0;
    while i < v.len()
        invariant
            i <= v.len(),
            ids == outcome_ids(v@),
            forall|j: int| 0 <= j < i ==> ids[j] != id@,
        decreases v.len() - i,
    {
        assert(ids[i as int] == v@[i as int].id@);
        if str_eq(v[i].id.as_str(), id) {
            proof {
                lemma_first(ids, id@, Some(i));
            }
            return Some(i);
        }
        i += 1;
    }
    proof {
        lemma_first(ids, id@, None);
    }
    None
}

/// The first one-time flip carrying `id`.
fn find_monotone(v: &Vec<MonotoneFlip>, id: &str) -> (r: Option<usize>)
    ensures
        match r {
            Some(i) => monotone_ids(v@).index_of_first(id@) == Some(i as int) && i < v@.len(),
            None => monotone_ids(v@).index_of_first(id@) is None,
        },
{
    let ghost ids = monotone_ids(v@);
    let mut i: usize = 0;
    while i < v.len()
        invariant
            i <= v.len(),
            ids == monotone_ids(v@),
            forall|j: int| 0 <= j < i ==> ids[j] != id@,
        decreases v.len() - i,
    {
        assert(ids[i as int] == v@[i as int].outcomes.id@);
        if str_eq(v[i].outcomes.id.as_str(), id) {
            proof {
                lemma_first(ids, id@, Some(i));
            }
            return Some(i);
        }
        i += 1;
    }
    proof {
        lemma_first(ids, id@, None);
    }
    None
}

/// The first failure that failed differently carrying `id`.
fn find_different(v: &Vec<verify::DifferentFailure>, id: &str) -> (r: Option<usize>)
    ensures
        match r {
            Some(i) => different_ids(v@).index_of_first(id@) == Some(i as int) && i < v@.len(),
            None => different_ids(v@).index_of_first(id@) is None,
        },
{
    let ghost ids = different_ids(v@);
    let mut i: usize = 0;
    while i < v.len()
        invariant
            i <= v.len(),
            ids == different_ids(v@),
            forall|j: int| 0 <= j < i ==> ids[j] != id@,
        decreases v.len() - i,
    {
        assert(ids[i as int] == v@[i as int].id@);
        if str_eq(v[i].id.as_str(), id) {
            proof {
                lemma_first(ids, id@, Some(i));
            }
            return Some(i);
        }
        i += 1;
    }
    proof {
        lemma_first(ids, id@, None);
    }
    None
}

/// The first lone failure carrying `id`.
fn find_lone(v: &Vec<LoneFailure>, id: &str) -> (r: Option<usize>)
    ensures
        match r {
            Some(i) => lone_ids(v@).index_of_first(id@) == Some(i as int) && i < v@.len(),
            None => lone_ids(v@).index_of_first(id@) is None,
        },
{
    let ghost ids = lone_ids(v@);
    let mut i: usize = 0;
    while i < v.len()
        invariant
            i <= v.len(),
            ids == lone_ids(v@),
            forall|j: int| 0 <= j < i ==> ids[j] != id@,
        decreases v.len() - i,
    {
        assert(ids[i as int] == v@[i as int].id@);
        if str_eq(v[i].id.as_str(), id) {
            proof {
                lemma_first(ids, id@, Some(i));
            }
            return Some(i);
        }
        i += 1;
    }
    proof {
        lemma_first(ids, id@, None);
    }
    None
}

/// The first proven flake carrying `id`.
fn find_flake(v: &Vec<HistoricFlake>, id: &str) -> (r: Option<usize>)
    ensures
        match r {
            Some(i) => flake_ids(v@).index_of_first(id@) == Some(i as int) && i < v@.len(),
            None => flake_ids(v@).index_of_first(id@) is None,
        },
{
    let ghost ids = flake_ids(v@);
    let mut i: usize = 0;
    while i < v.len()
        invariant
            i <= v.len(),
            ids == flake_ids(v@),
            forall|j: int| 0 <= j < i ==> ids[j] != id@,
        decreases v.len() - i,
    {
        assert(ids[i as int] == v@[i as int].outcomes.id@);
        if str_eq(v[i].outcomes.id.as_str(), id) {
            proof {
                lemma_first(ids, id@, Some(i));
            }
            return Some(i);
        }
        i += 1;
    }
    proof {
        lemma_first(ids, id@, None);
    }
    None
}

/// The first regression pointer carrying `id`.
fn find_since(v: &Vec<FailingSince>, id: &str) -> (r: Option<usize>)
    ensures
        match r {
            Some(i) => since_ids(v@).index_of_first(id@) == Some(i as int) && i < v@.len(),
            None => since_ids(v@).index_of_first(id@) is None,
        },
{
    let ghost ids = since_ids(v@);
    let mut i: usize = 0;
    while i < v.len()
        invariant
            i <= v.len(),
            ids == since_ids(v@),
            forall|j: int| 0 <= j < i ==> ids[j] != id@,
        decreases v.len() - i,
    {
        assert(ids[i as int] == v@[i as int].id@);
        if str_eq(v[i].id.as_str(), id) {
            proof {
                lemma_first(ids, id@, Some(i));
            }
            return Some(i);
        }
        i += 1;
    }
    proof {
        lemma_first(ids, id@, None);
    }
    None
}

/// Whether `v` lists `id`.
pub fn lists_id(v: &Vec<String>, id: &str) -> (r: bool)
    ensures
        r == strings(v@).contains(id@),
{
    let ghost ids = strings(v@);
    let mut i: usize = 0;
    while i < v.len()
        invariant
            i <= v.len(),
            ids == strings(v@),
            forall|j: int| 0 <= j < i ==> ids[j] != id@,
        decreases v.len() - i,
    {
        assert(ids[i as int] == v@[i as int]@);
        if str_eq(v[i].as_str(), id) {
            assert(ids.contains(ids[i as int]));
            return true;
        }
        i += 1;
    }
    false
}

/// What this invocation saw about one id. The active pass and verification
/// cannot both have run, so the first match is the only match.
fn observed_for(id: &str, passes: &Passes) -> (o: Option<Observed>)
    requires
        passes_fit(*passes),
    ensures
        same_observed(o, observed_spec(id@, *passes)),
{
    if let Some(active) = passes.active {
        if let Some(i) = find_outcome(&active.flaky, id) {
            let test = &active.flaky[i];
            assert(test.passed + test.failed <= usize::MAX);
            if active.reordered_runs.len() == 0 {
                return Some(Observed::Flaky { failed_runs: test.failed, observed_runs: test.observed() });
            }
            return Some(
                Observed::FlakyReordered {
                    failed_runs: test.failed,
                    observed_runs: test.observed(),
                    first_reordered: active.reordered_runs[0],
                },
            );
        }
        if let Some(i) = find_outcome(&active.broken, id) {
            let test = &active.broken[i];
            assert(test.passed + test.failed <= usize::MAX);
            return Some(Observed::Broken { observed_runs: test.observed() });
        }
        if let Some(i) = find_monotone(&active.monotone, id) {
            let flip = &active.monotone[i];
            return Some(
                Observed::Monotone { flipped_after_run: flip.flipped_after_run, started_green: flip.started_green },
            );
        }
        if let Some(i) = find_lone(&active.lone_failures, id) {
            return Some(Observed::Lone { absent_runs: active.lone_failures[i].absent_runs });
        }
    }
    match passes.verify {
        Some(verdict) => {
            if lists_id(&verdict.real, id) {
                Some(Observed::Real)
            } else if lists_id(&verdict.flaky_or_order, id) {
                Some(Observed::FlakyOrOrder)
            } else if let Some(i) = find_different(&verdict.failed_differently, id) {
                let d = &verdict.failed_differently[i];
                Some(Observed::FailedDifferently { suite: copy_string(&d.suite), isolation: copy_string(&d.isolation) })
            } else if lists_id(&verdict.unverified, id) {
                Some(Observed::Unverified)
            } else {
                None
            }
        },
        None => None,
    }
}

/// Flaky proof wins over a regression pointer, as in the history pass itself.
fn verdict_for(id: &str, history: &HistoryAnalysis) -> (v: Verdict)
    requires
        counts_fit(history.flaky@.map_values(|f: HistoricFlake| f.outcomes)),
    ensures
        verdict_view(v) == evidence_for(id@, *history),
{
    if let Some(i) = find_flake(&history.flaky, id) {
        let test = &history.flaky[i];
        assert(history.flaky@.map_values(|f: HistoricFlake| f.outcomes)[i as int] == test.outcomes);
        return Verdict::KnownFlake {
            failed_runs: test.outcomes.failed,
            observed_runs: test.outcomes.observed(),
            failures_confined_to: copy_opt_string(&test.failures_confined_to),
        };
    }
    if let Some(j) = find_since(&history.failing_since, id) {
        let test = &history.failing_since[j];
        return Verdict::FailingSince { commit: copy_string(&test.commit), failed_runs: test.failed_runs };
    }
    Verdict::Unknown
}

/// Every pass's view of the run's failures, gathered per test. A `None`
/// history means it was not consulted, which is not an empty one — the
/// caller reports the difference.
pub fn explain(failed_ids: &Vec<String>, passes: Passes, quarantine: &Vec<String>) -> (out: Vec<Explanation>)
    requires
        passes_fit(passes),
    ensures
        out@.len() == failed_ids@.len(),
        forall|i: int| 0 <= i < out@.len() ==> {
            &&& (#[trigger] out@[i]).id@ == failed_ids@[i]@
            &&& same_observed(out@[i].observed, observed_spec(failed_ids@[i]@, passes))
            &&& verdict_view(out@[i].verdict) == verdict_spec(failed_ids@[i]@, passes)
            &&& out@[i].quarantined == strings(quarantine@).contains(failed_ids@[i]@)
        },
{
    let mut out: Vec<Explanation> = Vec::new();
    let mut i: usize = 0;
    while i < failed_ids.len()
        invariant
            i <= failed_ids.len(),
            passes_fit(passes),
            out@.len() == i,
            forall|k: int| 0 <= k < i ==> {
                &&& (#[trigger] out@[k]).id@ == failed_ids@[k]@
                &&& same_observed(out@[k].observed, observed_spec(failed_ids@[k]@, passes))
                &&& verdict_view(out@[k].verdict) == verdict_spec(failed_ids@[k]@, passes)
                &&& out@[k].quarantined == strings(quarantine@).contains(failed_ids@[k]@)
            },
        decreases failed_ids.len() - i,
    {
        let id = failed_ids[i].as_str();
        let observed = observed_for(id, &passes);
        let verdict = match passes.history {
            Some(history) => verdict_for(id, history),
            None => Verdict::Unknown,
        };
        let quarantined = lists_id(quarantine, id);
        out.push(Explanation { id: copy_string(&failed_ids[i]), observed, verdict, quarantined });
        i += 1;
    }
    out
}

} // verus!
