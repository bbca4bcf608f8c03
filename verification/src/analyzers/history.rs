//! Classification of the accumulated run history.
//!
//! Flaky requires proof: mixed outcomes on one *clean* commit. A green→red
//! flip at a commit boundary is a regression pointer ("failing since"),
//! never flaky. Observations on dirty or unknown code count in the totals
//! but can never be evidence. One new red observation concludes nothing.

use vstd::prelude::*;

use crate::analyzers::flaky::{lemma_filter_step, outcomes_view, rate_percent, TestOutcomes};
use crate::history::{Observation, WINDOW_PER_TEST};
use crate::junit::TestStatus;
use crate::keyed::{find_key, keyseq, strictly_sorted};
use crate::text::{chars_of, lex_lt, opt_view, string_of};

verus! {

/// Whether an observation carries signal (skips carry none).
pub open spec fn is_signal(o: Observation) -> bool {
    o.status != TestStatus::Skipped
}

/// Whether an observation is a failure or an error.
pub open spec fn is_red(o: Observation) -> bool {
    o.status.is_failure()
}

/// The observations at the given indices.
pub open spec fn pick(obs: Seq<Observation>, idx: Seq<usize>) -> Seq<Observation> {
    idx.map_values(|j: usize| obs[j as int])
}

/// The signal-carrying observations of one test, in file order.
pub open spec fn of_test(obs: Seq<Observation>, id: Seq<char>) -> Seq<Observation> {
    obs.filter(test_pred(id))
}

/// The signal-carrying observations of one test.
pub open spec fn test_pred(id: Seq<char>) -> spec_fn(Observation) -> bool {
    |o: Observation| o.id@ == id && is_signal(o)
}

/// How many of `s` were made no later than `t`.
pub open spec fn at_most(s: Seq<Observation>, t: u64) -> nat
    decreases s.len(),
{
    if s.len() == 0 {
        0
    } else {
        at_most(s.drop_last(), t) + if s.last().at_epoch_secs <= t { 1nat } else { 0nat }
    }
}

/// `s` in time order: stably sorted by `at`, so observations sharing a
/// timestamp (one run stamps all of its observations alike) keep their file
/// order.
pub open spec fn in_time_order(s: Seq<Observation>) -> Seq<Observation>
    decreases s.len(),
{
    if s.len() == 0 {
        s
    } else {
        let sorted = in_time_order(s.drop_last());
        sorted.insert(at_most(sorted, s.last().at_epoch_secs) as int, s.last())
    }
}

/// The most recent `WINDOW_PER_TEST` observations of a time-ordered sequence.
pub open spec fn window(s: Seq<Observation>) -> Seq<Observation> {
    if s.len() > WINDOW_PER_TEST {
        s.skip(s.len() - WINDOW_PER_TEST)
    } else {
        s
    }
}

/// The observations the analysis judges one test by.
pub open spec fn test_window(obs: Seq<Observation>, id: Seq<char>) -> Seq<Observation> {
    window(in_time_order(of_test(obs, id)))
}

/// How many observations are red.
pub open spec fn reds(s: Seq<Observation>) -> nat
    decreases s.len(),
{
    if s.len() == 0 {
        0
    } else {
        reds(s.drop_last()) + if is_red(s.last()) { 1nat } else { 0nat }
    }
}

/// Proof of flakiness: one clean commit observed both passing and failing.
pub open spec fn proves_flaky(w: Seq<Observation>) -> bool {
    exists|i: int, j: int|
        0 <= i < w.len() && 0 <= j < w.len() && #[trigger] w[i].is_clean() && #[trigger] w[j].is_clean()
            && w[i].commit_view() == w[j].commit_view() && !is_red(w[i]) && is_red(w[j])
}

/// The length of the trailing run of red observations.
pub open spec fn streak(w: Seq<Observation>) -> nat
    decreases w.len(),
{
    if w.len() == 0 || !is_red(w.last()) {
        0
    } else {
        streak(w.drop_last()) + 1
    }
}

/// The commit of the earliest clean observation of `s`.
pub open spec fn first_clean_commit(s: Seq<Observation>) -> Option<Seq<char>>
    decreases s.len(),
{
    if s.len() == 0 {
        None
    } else if s[0].is_clean() {
        s[0].commit_view()
    } else {
        first_clean_commit(s.drop_first())
    }
}

/// What a test's window says.
pub enum Judgement {
    /// Nothing stands out (too few observations, no failure, or no anchor).
    Nothing,
    /// Proven flaky.
    Flaky,
    /// Regression pointer: the trailing failure streak and the commit of its
    /// earliest clean red.
    FailingSince { commit: Seq<char>, failed_runs: nat },
}

/// The judgement of a window: flaky evidence wins over a trailing streak;
/// a streak needs at least two reds and a clean red to carry its address.
pub open spec fn judge(w: Seq<Observation>) -> Judgement {
    if w.len() < 2 || reds(w) == 0 {
        Judgement::Nothing
    } else if proves_flaky(w) {
        Judgement::Flaky
    } else {
        let n = streak(w);
        if n < 2 {
            Judgement::Nothing
        } else {
            match first_clean_commit(w.skip(w.len() - n)) {
                Some(c) => Judgement::FailingSince { commit: c, failed_runs: n },
                None => Judgement::Nothing,
            }
        }
    }
}

/// The environments a window observed (unlabelled ones as `None`).
pub open spec fn envs(w: Seq<Observation>) -> Set<Option<Seq<char>>> {
    w.map_values(|o: Observation| o.env_view()).to_set()
}

/// The environments a window's failures came from.
pub open spec fn failing_envs(w: Seq<Observation>) -> Set<Option<Seq<char>>> {
    w.filter(|o: Observation| is_red(o)).map_values(|o: Observation| o.env_view()).to_set()
}

/// The one environment every failure came from, when a second environment
/// also observed the test; unlabelled observations are their own unknown
/// environment and never carry the claim.
pub open spec fn confined_to(w: Seq<Observation>) -> Option<Seq<char>> {
    if envs(w).len() < 2 || failing_envs(w).len() != 1 {
        None
    } else {
        failing_envs(w).choose()
    }
}

/// Every id with at least one signal-carrying observation.
pub open spec fn signal_ids(obs: Seq<Observation>) -> Set<Seq<char>> {
    Set::new(|k: Seq<char>| exists|i: int| 0 <= i < obs.len() && #[trigger] obs[i].id@ == k && is_signal(obs[i]))
}

/// Those ids in increasing order.
pub open spec fn history_ids(obs: Seq<Observation>) -> Seq<Seq<char>> {
    choose|s: Seq<Seq<char>>| strictly_sorted(s) && s.to_set() == signal_ids(obs)
}



/// A test that stopped passing at a commit boundary and never recovered.
#[derive(Debug, Clone, PartialEq, Eq)]
pub struct FailingSince {
    /// The test's identity (`classname::name`).
    pub id: String,
    /// The first commit the trailing failure streak was observed on.
    pub commit: String,
    /// Length of that trailing streak.
    pub failed_runs: usize,
}

/// A proven flake, plus where its failures came from.
#[derive(Debug, Clone, PartialEq, Eq)]
pub struct HistoricFlake {
    pub outcomes: TestOutcomes,
    /// The single environment every failure was observed in, when more than
    /// one environment observed this test at all.
    pub failures_confined_to: Option<String>,
}

/// The outcome of the history pass.
#[derive(Debug, Default, PartialEq, Eq)]
pub struct Analysis {
    /// Proven flaky — at least one clean commit observed both passing and
    /// failing; sorted by failure rate (highest first), then id.
    pub flaky: Vec<HistoricFlake>,
    /// Regression pointers, sorted by streak length (longest first), then id.
    pub failing_since: Vec<FailingSince>,
}

impl Analysis {
    /// Nothing to report.
    pub fn is_empty(&self) -> (r: bool)
        ensures
            r == (self.flaky@.len() == 0 && self.failing_since@.len() == 0),
    {
        self.flaky.len() == 0 && self.failing_since.len() == 0
    }
}

/// The view of a proven flake: its outcomes and the confining environment.
pub open spec fn flake_view(h: HistoricFlake) -> ((Seq<char>, nat, nat), Option<Seq<char>>) {
    (outcomes_view(h.outcomes), opt_view(h.failures_confined_to))
}

/// The view of a regression pointer: id, commit, streak length.
pub open spec fn since_view(f: FailingSince) -> (Seq<char>, Seq<char>, nat) {
    (f.id@, f.commit@, f.failed_runs as nat)
}

/// Proven flakes.
pub open spec fn flake_pred(obs: Seq<Observation>) -> spec_fn(Seq<char>) -> bool {
    |id: Seq<char>| judge(test_window(obs, id)) is Flaky
}

/// Regression pointers.
pub open spec fn since_pred(obs: Seq<Observation>) -> spec_fn(Seq<char>) -> bool {
    |id: Seq<char>| judge(test_window(obs, id)) is FailingSince
}

/// What a proven flake reports: its window's counts and confinement.
pub open spec fn flake_fn(obs: Seq<Observation>) -> spec_fn(Seq<char>) -> ((Seq<char>, nat, nat), Option<Seq<char>>) {
    |id: Seq<char>| {
        let w = test_window(obs, id);
        ((id, (w.len() - reds(w)) as nat, reds(w)), confined_to(w))
    }
}

/// What a regression pointer reports.
pub open spec fn since_fn(obs: Seq<Observation>) -> spec_fn(Seq<char>) -> (Seq<char>, Seq<char>, nat) {
    |id: Seq<char>| {
        let j = judge(test_window(obs, id));
        (id, j->commit, j->failed_runs)
    }
}

/// The proven flakes, in id order (before ranking).
pub open spec fn flake_pool(obs: Seq<Observation>) -> Seq<((Seq<char>, nat, nat), Option<Seq<char>>)> {
    history_ids(obs).filter(flake_pred(obs)).map_values(flake_fn(obs))
}

/// The regression pointers, in id order (before ranking).
pub open spec fn since_pool(obs: Seq<Observation>) -> Seq<(Seq<char>, Seq<char>, nat)> {
    history_ids(obs).filter(since_pred(obs)).map_values(since_fn(obs))
}

/// Flake ranking: by the outcomes' failure rate, then id.
pub open spec fn flakes_ranked(s: Seq<((Seq<char>, nat, nat), Option<Seq<char>>)>) -> bool {
    forall|i: int, j: int| 0 <= i < j < s.len() ==> crate::analyzers::flaky::ranks_before(#[trigger] s[i].0, #[trigger] s[j].0)
}

/// Regression ranking: longest streak first, then id.
pub open spec fn since_before(a: (Seq<char>, Seq<char>, nat), b: (Seq<char>, Seq<char>, nat)) -> bool {
    a.2 > b.2 || (a.2 == b.2 && lex_lt(a.0, b.0))
}

/// Every element ranks before every later one.
pub open spec fn since_ranked(s: Seq<(Seq<char>, Seq<char>, nat)>) -> bool {
    forall|i: int, j: int| 0 <= i < j < s.len() ==> since_before(#[trigger] s[i], #[trigger] s[j])
}


/// A copy of a proven flake.
fn copy_flake(h: &HistoricFlake) -> (out: HistoricFlake)
    ensures
        flake_view(out) == flake_view(*h),
        out.outcomes.passed == h.outcomes.passed,
        out.outcomes.failed == h.outcomes.failed,
{
    HistoricFlake {
        outcomes: crate::analyzers::flaky::copy_outcomes(&h.outcomes),
        failures_confined_to: crate::text::copy_opt_string(&h.failures_confined_to),
    }
}

/// Sorts proven flakes by failure rate (highest first), then id.
fn rank_flakes(input: &Vec<HistoricFlake>) -> (out: Vec<HistoricFlake>)
    requires
        forall|i: int, j: int| 0 <= i < input@.len() && 0 <= j < input@.len() && i != j ==> #[trigger] input@[i].outcomes.id@ != #[trigger] input@[j].outcomes.id@,
        forall|i: int| 0 <= i < input@.len() ==> #[trigger] input@[i].outcomes.passed + input@[i].outcomes.failed <= usize::MAX,
    ensures
        flakes_ranked(out@.map_values(|h: HistoricFlake| flake_view(h))),
        out@.map_values(|h: HistoricFlake| flake_view(h)).to_multiset() == input@.map_values(|h: HistoricFlake| flake_view(h)).to_multiset(),
{
    broadcast use vstd::seq_lib::group_to_multiset_ensures;

    let ghost inv = input@.map_values(|h: HistoricFlake| flake_view(h));
    let mut out: Vec<HistoricFlake> = Vec::new();
    let mut k: usize = 0;
    while k < input.len()
        invariant
            k <= input.len(),
            inv == input@.map_values(|h: HistoricFlake| flake_view(h)),
            forall|i: int, j: int| 0 <= i < input@.len() && 0 <= j < input@.len() && i != j ==> #[trigger] input@[i].outcomes.id@ != #[trigger] input@[j].outcomes.id@,
            forall|i: int| 0 <= i < input@.len() ==> #[trigger] input@[i].outcomes.passed + input@[i].outcomes.failed <= usize::MAX,
            forall|i: int| 0 <= i < out@.len() ==> #[trigger] out@[i].outcomes.passed + out@[i].outcomes.failed <= usize::MAX,
            flakes_ranked(out@.map_values(|h: HistoricFlake| flake_view(h))),
            out@.map_values(|h: HistoricFlake| flake_view(h)).to_multiset() == inv.take(k as int).to_multiset(),
        decreases input.len() - k,
    {
        let x = copy_flake(&input[k]);
        let xv = Ghost(flake_view(x));
        let ov = Ghost(out@.map_values(|h: HistoricFlake| flake_view(h)));
        proof {
            assert(xv@ == inv[k as int]);
            assert forall|q: int| 0 <= q < ov@.len() implies #[trigger] ov@[q].0.0 != xv@.0.0 by {
                vstd::seq_lib::to_multiset_contains(ov@, ov@[q]);
                vstd::seq_lib::to_multiset_contains(inv.take(k as int), ov@[q]);
                let w = choose|w: int| 0 <= w < k && inv.take(k as int)[w] == ov@[q];
                assert(inv[w] == ov@[q]);
                assert(inv[w].0.0 == input@[w].outcomes.id@);
            }
        }
        let rate_x = x.outcomes.failure_rate_percent();
        let mut p: usize = 0;
        let mut stop = false;
        while p < out.len() && !stop
            invariant
                p <= out.len(),
                ov@ == out@.map_values(|h: HistoricFlake| flake_view(h)),
                forall|i: int| 0 <= i < out@.len() ==> #[trigger] out@[i].outcomes.passed + out@[i].outcomes.failed <= usize::MAX,
                xv@ == flake_view(x),
                rate_x == rate_percent(xv@.0.2, xv@.0.1 + xv@.0.2),
                forall|q: int| 0 <= q < p ==> crate::analyzers::flaky::ranks_before(#[trigger] ov@[q].0, xv@.0),
                forall|q: int| 0 <= q < ov@.len() ==> #[trigger] ov@[q].0.0 != xv@.0.0,
                stop ==> p < out.len() && crate::analyzers::flaky::ranks_before(xv@.0, ov@[p as int].0),
            decreases out.len() - p + if stop { 0int } else { 1int },
        {
            let rate_p = out[p].outcomes.failure_rate_percent();
            let placed_before = rate_p > rate_x || (rate_p == rate_x && crate::text::str_lt(
                out[p].outcomes.id.as_str(),
                x.outcomes.id.as_str(),
            ));
            proof {
                assert(ov@[p as int] == flake_view(out@[p as int]));
            }
            if placed_before {
                p += 1;
            } else {
                proof {
                    crate::analyzers::flaky::lemma_ranks_total(ov@[p as int].0, xv@.0);
                }
                stop = true;
            }
        }
        proof {
            assert forall|q: int| p <= q < ov@.len() implies crate::analyzers::flaky::ranks_before(xv@.0, #[trigger] ov@[q].0) by {
                if q > p {
                    crate::analyzers::flaky::lemma_ranks_transitive(xv@.0, ov@[p as int].0, ov@[q].0);
                }
            }
        }
        out.insert(p, x);
        proof {
            let nv = out@.map_values(|h: HistoricFlake| flake_view(h));
            assert(nv =~= ov@.insert(p as int, xv@));
            assert forall|a: int, b: int| 0 <= a < b < nv.len() implies crate::analyzers::flaky::ranks_before(
                #[trigger] nv[a].0,
                #[trigger] nv[b].0,
            ) by {
                if a < p && b > p {
                    crate::analyzers::flaky::lemma_ranks_transitive(ov@[a].0, xv@.0, ov@[b - 1].0);
                }
            }
            assert(inv.take((k + 1) as int) =~= inv.take(k as int).push(inv[k as int]));
            vstd::seq_lib::to_multiset_insert(ov@, p as int, xv@);
            vstd::seq_lib::to_multiset_build(inv.take(k as int), inv[k as int]);
        }
        k += 1;
    }
    assert(inv.take(k as int) =~= inv);
    out
}

/// Sorts regression pointers by streak length (longest first), then id.
fn rank_since(input: &Vec<FailingSince>) -> (out: Vec<FailingSince>)
    requires
        forall|i: int, j: int| 0 <= i < input@.len() && 0 <= j < input@.len() && i != j ==> #[trigger] input@[i].id@ != #[trigger] input@[j].id@,
    ensures
        since_ranked(out@.map_values(|f: FailingSince| since_view(f))),
        out@.map_values(|f: FailingSince| since_view(f)).to_multiset() == input@.map_values(|f: FailingSince| since_view(f)).to_multiset(),
{
    broadcast use vstd::seq_lib::group_to_multiset_ensures;

    let ghost inv = input@.map_values(|f: FailingSince| since_view(f));
    let mut out: Vec<FailingSince> = Vec::new();
    let mut k: usize = 0;
    while k < input.len()
        invariant
            k <= input.len(),
            inv == input@.map_values(|f: FailingSince| since_view(f)),
            forall|i: int, j: int| 0 <= i < input@.len() && 0 <= j < input@.len() && i != j ==> #[trigger] input@[i].id@ != #[trigger] input@[j].id@,
            since_ranked(out@.map_values(|f: FailingSince| since_view(f))),
            out@.map_values(|f: FailingSince| since_view(f)).to_multiset() == inv.take(k as int).to_multiset(),
        decreases input.len() - k,
    {
        let x = FailingSince {
            id: input[k].id.clone(),
            commit: input[k].commit.clone(),
            failed_runs: input[k].failed_runs,
        };
        let xv = Ghost(since_view(x));
        let ov = Ghost(out@.map_values(|f: FailingSince| since_view(f)));
        proof {
            assert(xv@ == inv[k as int]);
            assert forall|q: int| 0 <= q < ov@.len() implies #[trigger] ov@[q].0 != xv@.0 by {
                vstd::seq_lib::to_multiset_contains(ov@, ov@[q]);
                vstd::seq_lib::to_multiset_contains(inv.take(k as int), ov@[q]);
                let w = choose|w: int| 0 <= w < k && inv.take(k as int)[w] == ov@[q];
                assert(inv[w] == ov@[q]);
            }
        }
        let mut p: usize = 0;
        let mut stop = false;
        while p < out.len() && !stop
            invariant
                p <= out.len(),
                ov@ == out@.map_values(|f: FailingSince| since_view(f)),
                xv@ == since_view(x),
                forall|q: int| 0 <= q < p ==> since_before(#[trigger] ov@[q], xv@),
                forall|q: int| 0 <= q < ov@.len() ==> #[trigger] ov@[q].0 != xv@.0,
                stop ==> p < out.len() && since_before(xv@, ov@[p as int]),
            decreases out.len() - p + if stop { 0int } else { 1int },
        {
            let placed_before = out[p].failed_runs > x.failed_runs || (out[p].failed_runs == x.failed_runs
                && crate::text::str_lt(out[p].id.as_str(), x.id.as_str()));
            proof {
                assert(ov@[p as int] == since_view(out@[p as int]));
            }
            if placed_before {
                p += 1;
            } else {
                proof {
                    crate::text::lemma_lex_total(ov@[p as int].0, xv@.0);
                }
                stop = true;
            }
        }
        proof {
            assert forall|q: int| p <= q < ov@.len() implies since_before(xv@, #[trigger] ov@[q]) by {
                if q > p && lex_lt(xv@.0, ov@[p as int].0) && lex_lt(ov@[p as int].0, ov@[q].0) {
                    crate::text::lemma_lex_transitive(xv@.0, ov@[p as int].0, ov@[q].0);
                }
            }
        }
        out.insert(p, x);
        proof {
            let nv = out@.map_values(|f: FailingSince| since_view(f));
            assert(nv =~= ov@.insert(p as int, xv@));
            assert forall|a: int, b: int| 0 <= a < b < nv.len() implies since_before(#[trigger] nv[a], #[trigger] nv[b]) by {
                if a < p && b > p && lex_lt(ov@[a].0, xv@.0) && lex_lt(xv@.0, ov@[b - 1].0) {
                    crate::text::lemma_lex_transitive(ov@[a].0, xv@.0, ov@[b - 1].0);
                }
            }
            assert(inv.take((k + 1) as int) =~= inv.take(k as int).push(inv[k as int]));
            vstd::seq_lib::to_multiset_insert(ov@, p as int, xv@);
            vstd::seq_lib::to_multiset_build(inv.take(k as int), inv[k as int]);
        }
        k += 1;
    }
    assert(inv.take(k as int) =~= inv);
    out
}

/// The most recent `WINDOW_PER_TEST` of a list of indices.
fn window_of(order: &Vec<usize>) -> (out: Vec<usize>)
    ensures
        out@ == if order@.len() > WINDOW_PER_TEST {
            order@.skip(order@.len() - WINDOW_PER_TEST)
        } else {
            order@
        },
{
    let start: usize = if order.len() > WINDOW_PER_TEST { order.len() - WINDOW_PER_TEST } else { 0 };
    let mut out: Vec<usize> = Vec::new();
    let mut i: usize = start;
    while i < order.len()
        invariant
            start <= i <= order.len(),
            out@ == order@.subrange(start as int, i as int),
        decreases order.len() - i,
    {
        out.push(order[i]);
        i += 1;
    }
    assert(order@.skip(start as int) =~= order@.subrange(start as int, order@.len() as int));
    assert(order@.skip(0) =~= order@);
    out
}

/// The window of a time-ordered list of indices picks the window of the
/// observations.
proof fn lemma_pick_window(obs: Seq<Observation>, order: Seq<usize>)
    ensures
        pick(obs, if order.len() > WINDOW_PER_TEST {
            order.skip(order.len() - WINDOW_PER_TEST)
        } else {
            order
        }) == window(pick(obs, order)),
{
    if order.len() > WINDOW_PER_TEST {
        assert(pick(obs, order.skip(order.len() - WINDOW_PER_TEST)) =~= pick(obs, order).skip(
            order.len() - WINDOW_PER_TEST,
        ));
    }
}

/// How many of the picked observations are red.
fn count_reds(obs: &Vec<Observation>, w: &Vec<usize>) -> (n: usize)
    requires
        forall|q: int| 0 <= q < w@.len() ==> #[trigger] w@[q] < obs@.len(),
    ensures
        n == reds(pick(obs@, w@)),
        n <= w@.len(),
{
    let mut n: usize = 0;
    let mut q: usize = 0;
    while q < w.len()
        invariant
            q <= w.len(),
            forall|q: int| 0 <= q < w@.len() ==> #[trigger] w@[q] < obs@.len(),
            n == reds(pick(obs@, w@.take(q as int))),
            n <= q,
        decreases w.len() - q,
    {
        assert(pick(obs@, w@.take(q + 1)).drop_last() =~= pick(obs@, w@.take(q as int)));
        if obs[w[q]].status.failing() {
            n += 1;
        }
        q += 1;
    }
    assert(w@.take(q as int) =~= w@);
    n
}

/// Whether two optional strings hold the same characters.
fn opt_str_eq(a: &Option<String>, b: &Option<String>) -> (r: bool)
    ensures
        r == (opt_view(*a) == opt_view(*b)),
{
    match (a, b) {
        (Some(x), Some(y)) => crate::text::str_eq(x.as_str(), y.as_str()),
        (None, None) => true,
        _ => false,
    }
}

/// Whether the picked observations prove flakiness.
fn has_flaky_proof(obs: &Vec<Observation>, w: &Vec<usize>) -> (r: bool)
    requires
        forall|q: int| 0 <= q < w@.len() ==> #[trigger] w@[q] < obs@.len(),
    ensures
        r == proves_flaky(pick(obs@, w@)),
{
    let ghost p = pick(obs@, w@);
    let mut i: usize = 0;
    while i < w.len()
        invariant
            i <= w.len(),
            p == pick(obs@, w@),
            forall|q: int| 0 <= q < w@.len() ==> #[trigger] w@[q] < obs@.len(),
            forall|a: int, b: int|
                0 <= a < i && 0 <= b < p.len() ==> !(#[trigger] p[a].is_clean() && #[trigger] p[b].is_clean()
                    && p[a].commit_view() == p[b].commit_view() && !is_red(p[a]) && is_red(p[b])),
        decreases w.len() - i,
    {
        let a = &obs[w[i]];
        assert(*a == p[i as int]);
        if a.dirty == Some(false) && a.commit.is_some() && !a.status.failing() {
            let mut j: usize = 0;
            while j < w.len()
                invariant
                    i < w.len(),
                    j <= w.len(),
                    p == pick(obs@, w@),
                    *a == p[i as int],
                    a.dirty == Some(false) && a.commit is Some && !is_red(*a),
                    forall|q: int| 0 <= q < w@.len() ==> #[trigger] w@[q] < obs@.len(),
                    forall|b: int| 0 <= b < j ==> !(#[trigger] p[b].is_clean() && a.commit_view() == p[b].commit_view() && is_red(p[b])),
                decreases w.len() - j,
            {
                let b = &obs[w[j]];
                assert(*b == p[j as int]);
                if b.dirty == Some(false) && b.commit.is_some() && b.status.failing() && opt_str_eq(&a.commit, &b.commit) {
                    assert(p[i as int].is_clean() && p[j as int].is_clean());
                    return true;
                }
                j += 1;
            }
        }
        i += 1;
    }
    false
}

/// The length of the trailing red run of the picked observations.
fn trailing_streak(obs: &Vec<Observation>, w: &Vec<usize>) -> (n: usize)
    requires
        forall|q: int| 0 <= q < w@.len() ==> #[trigger] w@[q] < obs@.len(),
    ensures
        n == streak(pick(obs@, w@)),
        n <= w@.len(),
{
    let mut n: usize = 0;
    assert(w@.take(w@.len() as int) =~= w@);
    while n < w.len() && obs[w[w.len() - 1 - n]].status.failing()
        invariant
            n <= w.len(),
            forall|q: int| 0 <= q < w@.len() ==> #[trigger] w@[q] < obs@.len(),
            streak(pick(obs@, w@)) == n + streak(pick(obs@, w@.take(w@.len() - n))),
            forall|q: int| w@.len() - n <= q < w@.len() ==> is_red(#[trigger] obs@[w@[q] as int]),
        decreases w.len() - n,
    {
        let ghost t = pick(obs@, w@.take(w@.len() - n));
        assert(t.last() == obs@[w@[w@.len() - 1 - n] as int]);
        assert(t.drop_last() =~= pick(obs@, w@.take(w@.len() - n - 1)));
        n += 1;
    }
    proof {
        if n < w.len() {
            let t = pick(obs@, w@.take(w@.len() - n));
            assert(t.last() == obs@[w@[w@.len() - 1 - n] as int]);
        } else {
            assert(pick(obs@, w@.take(0)).len() == 0);
        }
    }
    n
}

/// The commit of the earliest clean observation among the picked ones from
/// `from` on.
fn first_clean(obs: &Vec<Observation>, w: &Vec<usize>, from: usize) -> (c: Option<String>)
    requires
        from <= w@.len(),
        forall|q: int| 0 <= q < w@.len() ==> #[trigger] w@[q] < obs@.len(),
    ensures
        opt_view(c) == first_clean_commit(pick(obs@, w@).skip(from as int)),
{
    let ghost p = pick(obs@, w@);
    let mut i: usize = from;
    while i < w.len()
        invariant
            from <= i <= w.len(),
            p == pick(obs@, w@),
            forall|q: int| 0 <= q < w@.len() ==> #[trigger] w@[q] < obs@.len(),
            first_clean_commit(p.skip(from as int)) == first_clean_commit(p.skip(i as int)),
        decreases w.len() - i,
    {
        let o = &obs[w[i]];
        assert(p.skip(i as int)[0] == *o);
        if o.dirty == Some(false) && o.commit.is_some() {
            return crate::text::copy_opt_string(&o.commit);
        }
        assert(p.skip(i as int).drop_first() =~= p.skip(i + 1));
        i += 1;
    }
    None
}

/// The environment of an observation, as characters.
fn env_chars(o: &Observation) -> (e: Option<Vec<char>>)
    ensures
        match e {
            Some(v) => o.env_view() == Some(v@),
            None => o.env_view() is None,
        },
{
    match &o.environment {
        Some(s) => Some(chars_of(s.as_str())),
        None => None,
    }
}

/// The view of an optional list of characters.
pub open spec fn opt_chars(e: Option<Vec<char>>) -> Option<Seq<char>> {
    match e {
        Some(v) => Some(v@),
        None => None,
    }
}

/// Whether `list` already holds `e`.
fn env_listed(list: &Vec<Option<Vec<char>>>, e: &Option<Vec<char>>) -> (r: bool)
    ensures
        r == list@.map_values(|x: Option<Vec<char>>| opt_chars(x)).contains(opt_chars(*e)),
{
    let ghost lv = list@.map_values(|x: Option<Vec<char>>| opt_chars(x));
    let mut i: usize = 0;
    while i < list.len()
        invariant
            i <= list.len(),
            lv == list@.map_values(|x: Option<Vec<char>>| opt_chars(x)),
            forall|j: int| 0 <= j < i ==> #[trigger] lv[j] != opt_chars(*e),
        decreases list.len() - i,
    {
        let same = match (&list[i], e) {
            (Some(x), Some(y)) => crate::text::chars_eq(x.as_slice(), y.as_slice()),
            (None, None) => true,
            _ => false,
        };
        assert(lv[i as int] == opt_chars(list@[i as int]));
        if same {
            return true;
        }
        i += 1;
    }
    false
}

/// The distinct environments among the picked observations (all of them,
/// or only the red ones).
fn distinct_envs(obs: &Vec<Observation>, w: &Vec<usize>, reds_only: bool) -> (out: Vec<Option<Vec<char>>>)
    requires
        forall|q: int| 0 <= q < w@.len() ==> #[trigger] w@[q] < obs@.len(),
    ensures
        out@.map_values(|x: Option<Vec<char>>| opt_chars(x)).no_duplicates(),
        out@.map_values(|x: Option<Vec<char>>| opt_chars(x)).to_set() == if reds_only {
            failing_envs(pick(obs@, w@))
        } else {
            envs(pick(obs@, w@))
        },
{
    let ghost p = pick(obs@, w@);
    let ghost sel = if reds_only { p.filter(|o: Observation| is_red(o)) } else { p };
    let mut out: Vec<Option<Vec<char>>> = Vec::new();
    let mut i: usize = 0;
    while i < w.len()
        invariant
            i <= w.len(),
            p == pick(obs@, w@),
            sel == if reds_only { p.filter(|o: Observation| is_red(o)) } else { p },
            forall|q: int| 0 <= q < w@.len() ==> #[trigger] w@[q] < obs@.len(),
            out@.map_values(|x: Option<Vec<char>>| opt_chars(x)).no_duplicates(),
            out@.map_values(|x: Option<Vec<char>>| opt_chars(x)).to_set() == if reds_only {
                p.take(i as int).filter(|o: Observation| is_red(o)).map_values(|o: Observation| o.env_view()).to_set()
            } else {
                p.take(i as int).map_values(|o: Observation| o.env_view()).to_set()
            },
        decreases w.len() - i,
    {
        let o = &obs[w[i]];
        let ghost ov = out@.map_values(|x: Option<Vec<char>>| opt_chars(x));
        proof {
            assert(p[i as int] == *o);
            assert(p.take(i + 1) =~= p.take(i as int).push(*o));
            p.take(i as int).lemma_filter_push(*o, |o: Observation| is_red(o));
            p.take(i as int).lemma_push_map_commute(|o: Observation| o.env_view(), *o);
            p.take(i as int).filter(|o: Observation| is_red(o)).lemma_push_map_commute(|o: Observation| o.env_view(), *o);
            p.take(i as int).map_values(|o: Observation| o.env_view()).lemma_push_to_set_commute(o.env_view());
            p.take(i as int).filter(|o: Observation| is_red(o)).map_values(|o: Observation| o.env_view()).lemma_push_to_set_commute(o.env_view());
        }
        if !reds_only || o.status.failing() {
            let e = env_chars(o);
            assert(opt_chars(e) == o.env_view());
            if !env_listed(&out, &e) {
                out.push(e);
                proof {
                    let nv = out@.map_values(|x: Option<Vec<char>>| opt_chars(x));
                    assert(nv =~= ov.push(o.env_view()));
                    ov.lemma_push_to_set_commute(o.env_view());
                    assert forall|a: int, b: int| 0 <= a < b < nv.len() implies nv[a] != nv[b] by {
                        if b == nv.len() - 1 {
                            assert(ov.contains(nv[a]));
                        }
                    }
                }
            } else {
                proof {
                    assert(ov.to_set().insert(o.env_view()) =~= ov.to_set());
                }
            }
        }
        i += 1;
    }
    assert(p.take(i as int) =~= p);
    out
}

/// The one environment every failure of the picked observations came
/// from, when a second environment also observed the test.
fn confinement(obs: &Vec<Observation>, w: &Vec<usize>) -> (c: Option<String>)
    requires
        forall|q: int| 0 <= q < w@.len() ==> #[trigger] w@[q] < obs@.len(),
    ensures
        opt_view(c) == confined_to(pick(obs@, w@)),
{
    let all = distinct_envs(obs, w, false);
    let failing = distinct_envs(obs, w, true);
    let ghost av = all@.map_values(|x: Option<Vec<char>>| opt_chars(x));
    let ghost fv = failing@.map_values(|x: Option<Vec<char>>| opt_chars(x));
    proof {
        av.unique_seq_to_set();
        fv.unique_seq_to_set();
    }
    if all.len() < 2 || failing.len() != 1 {
        return None;
    }
    proof {
        let fs = failing_envs(pick(obs@, w@));
        assert(fs.contains(fv[0]));
        assert(fs.len() == 1);
        let c = fs.choose();
        assert(fs.contains(c));
        let j = choose|j: int| 0 <= j < fv.len() && fv[j] == c;
        assert(j == 0);
    }
    match &failing[0] {
        Some(v) => Some(string_of(v.as_slice())),
        None => None,
    }
}

/// Count of observations no later than `t`, over a list of indices.
fn count_at_most(obs: &Vec<Observation>, idx: &Vec<usize>, t: u64) -> (n: usize)
    requires
        forall|q: int| 0 <= q < idx@.len() ==> #[trigger] idx@[q] < obs@.len(),
    ensures
        n == at_most(pick(obs@, idx@), t),
        n <= idx@.len(),
{
    let mut n: usize = 0;
    let mut q: usize = 0;
    while q < idx.len()
        invariant
            q <= idx.len(),
            forall|q: int| 0 <= q < idx@.len() ==> #[trigger] idx@[q] < obs@.len(),
            n == at_most(pick(obs@, idx@.take(q as int)), t),
            n <= q,
        decreases idx.len() - q,
    {
        assert(pick(obs@, idx@.take(q + 1)).drop_last() =~= pick(obs@, idx@.take(q as int)));
        if obs[idx[q]].at_epoch_secs <= t {
            n += 1;
        }
        q += 1;
    }
    assert(idx@.take(q as int) =~= idx@);
    n
}

/// The given observations (by index) in time order.
fn time_order(obs: &Vec<Observation>, idx: &Vec<usize>) -> (out: Vec<usize>)
    requires
        forall|q: int| 0 <= q < idx@.len() ==> #[trigger] idx@[q] < obs@.len(),
    ensures
        pick(obs@, out@) == in_time_order(pick(obs@, idx@)),
        forall|q: int| 0 <= q < out@.len() ==> #[trigger] out@[q] < obs@.len(),
{
    let mut out: Vec<usize> = Vec::new();
    let mut k: usize = 0;
    while k < idx.len()
        invariant
            k <= idx.len(),
            forall|q: int| 0 <= q < idx@.len() ==> #[trigger] idx@[q] < obs@.len(),
            forall|q: int| 0 <= q < out@.len() ==> #[trigger] out@[q] < obs@.len(),
            pick(obs@, out@) == in_time_order(pick(obs@, idx@.take(k as int))),
            out@.len() == k,
        decreases idx.len() - k,
    {
        let x = idx[k];
        let pos = count_at_most(obs, &out, obs[x].at_epoch_secs);
        let ghost before = pick(obs@, out@);
        out.insert(pos, x);
        proof {
            let s = pick(obs@, idx@.take(k + 1));
            assert(s.drop_last() =~= pick(obs@, idx@.take(k as int)));
            assert(s.last() == obs@[x as int]);
            assert(pick(obs@, out@) =~= before.insert(pos as int, obs@[x as int]));
        }
        k += 1;
    }
    assert(idx@.take(k as int) =~= idx@);
    out
}


/// The ids carrying signal after one more observation.
proof fn lemma_signal_ids_push(pre: Seq<Observation>, o: Observation)
    ensures
        signal_ids(pre.push(o)) == if is_signal(o) {
            signal_ids(pre).insert(o.id@)
        } else {
            signal_ids(pre)
        },
{
    let post = pre.push(o);
    let want = if is_signal(o) { signal_ids(pre).insert(o.id@) } else { signal_ids(pre) };
    assert forall|k: Seq<char>| #[trigger] signal_ids(post).contains(k) <==> want.contains(k) by {
        if signal_ids(post).contains(k) {
            let j = choose|j: int| 0 <= j < post.len() && #[trigger] post[j].id@ == k && is_signal(post[j]);
            if j < pre.len() {
                assert(pre[j] == post[j]);
                assert(signal_ids(pre).contains(k));
            }
        }
        if signal_ids(pre).contains(k) {
            let j = choose|j: int| 0 <= j < pre.len() && #[trigger] pre[j].id@ == k && is_signal(pre[j]);
            assert(post[j] == pre[j]);
        }
        if is_signal(o) && k == o.id@ {
            assert(post[pre.len() as int] == o);
        }
    }
    assert(signal_ids(post) =~= want);
}

/// Groups the signal-carrying observations by id: the sorted ids, and for
/// each the indices of its observations in file order.
fn group_by_test(obs: &Vec<Observation>) -> (r: (Vec<Vec<char>>, Vec<Vec<usize>>))
    ensures
        strictly_sorted(keyseq(r.0@)),
        keyseq(r.0@).to_set() == signal_ids(obs@),
        r.1@.len() == r.0@.len(),
        forall|g: int| 0 <= g < r.1@.len() ==> pick(obs@, #[trigger] r.1@[g]@) == of_test(obs@, r.0@[g]@),
        forall|g: int, q: int| 0 <= g < r.1@.len() && 0 <= q < r.1@[g]@.len() ==> #[trigger] r.1@[g]@[q] < obs@.len(),
{
    let mut keys: Vec<Vec<char>> = Vec::new();
    let mut groups: Vec<Vec<usize>> = Vec::new();
    let mut i: usize = 0;
    while i < obs.len()
        invariant
            i <= obs.len(),
            strictly_sorted(keyseq(keys@)),
            keyseq(keys@).to_set() == signal_ids(obs@.take(i as int)),
            groups@.len() == keys@.len(),
            forall|g: int| 0 <= g < groups@.len() ==> pick(obs@, #[trigger] groups@[g]@) == of_test(
                obs@.take(i as int),
                keys@[g]@,
            ),
            forall|g: int, q: int| 0 <= g < groups@.len() && 0 <= q < groups@[g]@.len() ==> #[trigger] groups@[g]@[q] < i,
        decreases obs.len() - i,
    {
        let ghost pre = obs@.take(i as int);
        let ghost post = obs@.take(i + 1);
        let ghost o = obs@[i as int];
        assert(post =~= pre.push(o));
        let ghost old_keys = keyseq(keys@);
        let ghost old_groups = groups@;
        if obs[i].status != TestStatus::Skipped {
            let key = chars_of(obs[i].id.as_str());
            let (slot, found) = find_key(&keys, key.as_slice());
            if found {
                groups[slot].push(i);
                proof {
                    assert(keyseq(keys@) == old_keys);
                    lemma_signal_ids_push(pre, o);
                    assert(old_keys[slot as int] == key@);
                    assert(old_keys.to_set().contains(key@));
                    assert(signal_ids(pre).insert(key@) =~= signal_ids(pre));
                    assert forall|g: int| 0 <= g < groups@.len() implies pick(obs@, #[trigger] groups@[g]@) == of_test(post, keys@[g]@) by {
                        pre.lemma_filter_push(o, test_pred(keys@[g]@));
                        if g == slot {
                            assert(pick(obs@, groups@[g]@) =~= pick(obs@, old_groups[g]@).push(o));
                        } else {
                            crate::keyed::lemma_sorted_distinct(old_keys, g, slot as int);
                            assert(keys@[g]@ == old_keys[g]);
                        }
                    }
                }
            } else {
                let ghost kv = key@;
                keys.insert(slot, key);
                let mut fresh: Vec<usize> = Vec::new();
                fresh.push(i);
                groups.insert(slot, fresh);
                proof {
                    assert(keyseq(keys@) =~= old_keys.insert(slot as int, kv));
                    assert forall|a: int, b: int| 0 <= a < b < keyseq(keys@).len() implies lex_lt(
                        #[trigger] keyseq(keys@)[a],
                        #[trigger] keyseq(keys@)[b],
                    ) by {
                        if a < slot && b > slot {
                            crate::text::lemma_lex_transitive(old_keys[a], kv, old_keys[b - 1]);
                        }
                    }
                    lemma_signal_ids_push(pre, o);
                    let nk = keyseq(keys@);
                    assert forall|k: Seq<char>| #[trigger] nk.to_set().contains(k) <==> old_keys.to_set().insert(kv).contains(k) by {
                        if k == kv {
                            assert(nk[slot as int] == k);
                        } else if old_keys.to_set().contains(k) {
                            let j = choose|j: int| 0 <= j < old_keys.len() && old_keys[j] == k;
                            if j < slot {
                                assert(nk[j] == k);
                            } else {
                                assert(nk[j + 1] == k);
                            }
                        } else if nk.to_set().contains(k) {
                            let j = choose|j: int| 0 <= j < nk.len() && nk[j] == k;
                            if j < slot {
                                assert(old_keys[j] == k);
                            } else if j > slot {
                                assert(old_keys[j - 1] == k);
                            }
                        }
                    }
                    assert(nk.to_set() =~= signal_ids(post));
                    assert forall|g: int| 0 <= g < groups@.len() implies pick(obs@, #[trigger] groups@[g]@) == of_test(post, keys@[g]@) by {
                        pre.lemma_filter_push(o, test_pred(keys@[g]@));
                        if g == slot {
                            // no earlier observation carries this id
                            let f = of_test(pre, kv);
                            if f.len() > 0 {
                                assert(f.contains(f[0]));
                                pre.lemma_filter_contains_rev(test_pred(kv), f[0]);
                                pre.lemma_filter_pred(test_pred(kv), 0);
                                let j = choose|j: int| 0 <= j < pre.len() && pre[j] == f[0];
                                assert(pre[j].id@ == kv && is_signal(pre[j]));
                                assert(signal_ids(pre).contains(kv));
                                assert(old_keys.to_set().contains(kv));
                                let m = choose|m: int| 0 <= m < old_keys.len() && old_keys[m] == kv;
                                crate::text::lemma_lex_irreflexive(kv);
                            }
                            assert(pick(obs@, groups@[g]@) =~= seq![o]);
                            assert(f =~= Seq::<Observation>::empty());
                        } else if g < slot {
                            assert(groups@[g] == old_groups[g]);
                            assert(keys@[g]@ == old_keys[g]);
                            if keys@[g]@ == kv {
                                crate::text::lemma_lex_irreflexive(kv);
                            }
                        } else {
                            assert(groups@[g] == old_groups[g - 1]);
                            assert(keys@[g]@ == old_keys[g - 1]);
                            if keys@[g]@ == kv {
                                crate::text::lemma_lex_irreflexive(kv);
                            }
                        }
                    }
                }
            }
        } else {
            proof {
                lemma_signal_ids_push(pre, o);
                assert forall|g: int| 0 <= g < groups@.len() implies pick(obs@, #[trigger] groups@[g]@) == of_test(post, keys@[g]@) by {
                    pre.lemma_filter_push(o, test_pred(keys@[g]@));
                }
            }
        }
        i += 1;
    }
    assert(obs@.take(i as int) =~= obs@);
    (keys, groups)
}


/// Classify the history. Time order comes from `at`, not file position
/// (the sort is stable, so observations sharing one `at` keep their file
/// order); each test is judged by its last `WINDOW_PER_TEST`
/// signal-carrying observations.
pub fn analyze(observations: &Vec<Observation>) -> (a: Analysis)
    ensures
        flakes_ranked(a.flaky@.map_values(|h: HistoricFlake| flake_view(h))),
        a.flaky@.map_values(|h: HistoricFlake| flake_view(h)).to_multiset() == flake_pool(
            observations@,
        ).to_multiset(),
        since_ranked(a.failing_since@.map_values(|f: FailingSince| since_view(f))),
        a.failing_since@.map_values(|f: FailingSince| since_view(f)).to_multiset() == since_pool(
            observations@,
        ).to_multiset(),
{
    let ghost obs = observations@;
    let (keys, groups) = group_by_test(observations);
    let ghost idv = keyseq(keys@);
    proof {
        assert(strictly_sorted(idv) && idv.to_set() == signal_ids(obs));
        crate::keyed::lemma_sorted_unique(idv, history_ids(obs));
    }
    let mut pool: Vec<HistoricFlake> = Vec::new();
    let mut since: Vec<FailingSince> = Vec::new();
    let mut k: usize = 0;
    while k < keys.len()
        invariant
            k <= keys.len(),
            obs == observations@,
            idv == keyseq(keys@),
            idv == history_ids(obs),
            strictly_sorted(idv),
            groups@.len() == keys@.len(),
            forall|g: int| 0 <= g < groups@.len() ==> pick(obs, #[trigger] groups@[g]@) == of_test(obs, keys@[g]@),
            forall|g: int, q: int| 0 <= g < groups@.len() && 0 <= q < groups@[g]@.len() ==> #[trigger] groups@[g]@[q] < obs.len(),
            pool@.map_values(|h: HistoricFlake| flake_view(h)) == idv.take(k as int).filter(flake_pred(obs)).map_values(flake_fn(obs)),
            since@.map_values(|f: FailingSince| since_view(f)) == idv.take(k as int).filter(since_pred(obs)).map_values(since_fn(obs)),
            forall|i: int, j: int| 0 <= i < j < pool@.len() ==> lex_lt(#[trigger] pool@[i].outcomes.id@, #[trigger] pool@[j].outcomes.id@),
            forall|i: int, j: int| 0 <= i < pool@.len() && k <= j < idv.len() ==> lex_lt(#[trigger] pool@[i].outcomes.id@, #[trigger] idv[j]),
            forall|i: int, j: int| 0 <= i < j < since@.len() ==> lex_lt(#[trigger] since@[i].id@, #[trigger] since@[j].id@),
            forall|i: int, j: int| 0 <= i < since@.len() && k <= j < idv.len() ==> lex_lt(#[trigger] since@[i].id@, #[trigger] idv[j]),
            forall|i: int| 0 <= i < pool@.len() ==> #[trigger] pool@[i].outcomes.passed + pool@[i].outcomes.failed <= usize::MAX,
        decreases keys.len() - k,
    {
        let ghost idk = idv[k as int];
        assert(keys@[k as int]@ == idk);
        let order = time_order(observations, &groups[k]);
        let w = window_of(&order);
        proof {
            lemma_pick_window(obs, order@);
            assert(pick(obs, groups@[k as int]@) == of_test(obs, idk));
            assert forall|q: int| 0 <= q < w@.len() implies #[trigger] w@[q] < obs.len() by {
                if order@.len() > WINDOW_PER_TEST {
                    assert(w@[q] == order@[q + (order@.len() - WINDOW_PER_TEST)]);
                }
            }
        }
        let ghost wv = pick(obs, w@);
        assert(wv == test_window(obs, idk));
        let ghost pv = pool@.map_values(|h: HistoricFlake| flake_view(h));
        let ghost sv = since@.map_values(|f: FailingSince| since_view(f));
        let ghost old_pool = pool@;
        let ghost old_since = since@;
        proof {
            lemma_filter_step(idv, k as int, flake_pred(obs), flake_fn(obs));
            lemma_filter_step(idv, k as int, since_pred(obs), since_fn(obs));
        }
        let mut added_flake = false;
        let mut added_since = false;
        if w.len() >= 2 {
            let red = count_reds(observations, &w);
            if red > 0 {
                if has_flaky_proof(observations, &w) {
                    let confined = confinement(observations, &w);
                    let outcomes = TestOutcomes { id: string_of(keys[k].as_slice()), passed: w.len() - red, failed: red };
                    pool.push(HistoricFlake { outcomes, failures_confined_to: confined });
                    added_flake = true;
                    proof {
                        assert(judge(wv) is Flaky);
                        assert(pool@.map_values(|h: HistoricFlake| flake_view(h)) =~= pv.push(flake_fn(obs)(idk)));
                    }
                } else {
                    let n = trailing_streak(observations, &w);
                    if n >= 2 {
                        let first = first_clean(observations, &w, w.len() - n);
                        match first {
                            Some(commit) => {
                                since.push(FailingSince { id: string_of(keys[k].as_slice()), commit, failed_runs: n });
                                added_since = true;
                                proof {
                                    assert(judge(wv) is FailingSince);
                                    assert(since@.map_values(|f: FailingSince| since_view(f)) =~= sv.push(since_fn(obs)(idk)));
                                }
                            },
                            None => {
                                assert(judge(wv) is Nothing);
                            },
                        }
                    } else {
                        assert(judge(wv) is Nothing);
                    }
                }
            } else {
                assert(judge(wv) is Nothing);
            }
        } else {
            assert(judge(wv) is Nothing);
        }
        proof {
            if !added_flake {
                assert(pool@ == old_pool);
            }
            if !added_since {
                assert(since@ == old_since);
            }
            assert forall|i: int, j: int| 0 <= i < j < pool@.len() implies lex_lt(#[trigger] pool@[i].outcomes.id@, #[trigger] pool@[j].outcomes.id@) by {
                if j == old_pool.len() {
                    assert(pool@[i] == old_pool[i]);
                    assert(lex_lt(old_pool[i].outcomes.id@, idv[k as int]));
                } else {
                    assert(pool@[i] == old_pool[i]);
                    assert(pool@[j] == old_pool[j]);
                }
            }
            assert forall|i: int, j: int| 0 <= i < pool@.len() && k + 1 <= j < idv.len() implies lex_lt(#[trigger] pool@[i].outcomes.id@, #[trigger] idv[j]) by {
                if i == old_pool.len() {
                    assert(lex_lt(idv[k as int], idv[j]));
                } else {
                    assert(pool@[i] == old_pool[i]);
                    assert(lex_lt(old_pool[i].outcomes.id@, idv[k as int]));
                    crate::text::lemma_lex_transitive(old_pool[i].outcomes.id@, idv[k as int], idv[j]);
                }
            }
            assert forall|i: int, j: int| 0 <= i < j < since@.len() implies lex_lt(#[trigger] since@[i].id@, #[trigger] since@[j].id@) by {
                if j == old_since.len() {
                    assert(since@[i] == old_since[i]);
                    assert(lex_lt(old_since[i].id@, idv[k as int]));
                } else {
                    assert(since@[i] == old_since[i]);
                    assert(since@[j] == old_since[j]);
                }
            }
            assert forall|i: int, j: int| 0 <= i < since@.len() && k + 1 <= j < idv.len() implies lex_lt(#[trigger] since@[i].id@, #[trigger] idv[j]) by {
                if i == old_since.len() {
                    assert(lex_lt(idv[k as int], idv[j]));
                } else {
                    assert(since@[i] == old_since[i]);
                    assert(lex_lt(old_since[i].id@, idv[k as int]));
                    crate::text::lemma_lex_transitive(old_since[i].id@, idv[k as int], idv[j]);
                }
            }
            assert forall|i: int| 0 <= i < pool@.len() implies #[trigger] pool@[i].outcomes.passed + pool@[i].outcomes.failed <= usize::MAX by {
                if i < old_pool.len() {
                    assert(pool@[i] == old_pool[i]);
                }
            }
        }
        k += 1;
    }
    assert(idv.take(k as int) =~= idv);
    proof {
        assert forall|i: int, j: int| 0 <= i < pool@.len() && 0 <= j < pool@.len() && i != j implies #[trigger] pool@[i].outcomes.id@ != #[trigger] pool@[j].outcomes.id@ by {
            if i < j {
                crate::text::lemma_lex_irreflexive(pool@[i].outcomes.id@);
            } else {
                crate::text::lemma_lex_irreflexive(pool@[j].outcomes.id@);
            }
        }
        assert forall|i: int, j: int| 0 <= i < since@.len() && 0 <= j < since@.len() && i != j implies #[trigger] since@[i].id@ != #[trigger] since@[j].id@ by {
            if i < j {
                crate::text::lemma_lex_irreflexive(since@[i].id@);
            } else {
                crate::text::lemma_lex_irreflexive(since@[j].id@);
            }
        }
    }
    let flaky = rank_flakes(&pool);
    let failing_since = rank_since(&since);
    Analysis { flaky, failing_since }
}

/// The observations made at `t`.
pub open spec fn at_is(t: u64) -> spec_fn(Observation) -> bool {
    |o: Observation| o.at_epoch_secs == t
}

/// Whether `s` is ordered by time.
pub open spec fn time_sorted(s: Seq<Observation>) -> bool {
    forall|i: int, j: int| 0 <= i < j < s.len() ==> (#[trigger] s[i]).at_epoch_secs <= (#[trigger] s[j]).at_epoch_secs
}

/// Filtering a sequence with one more element at its end.
pub(crate) proof fn lemma_filter_push(s: Seq<Observation>, x: Observation, p: spec_fn(Observation) -> bool)
    ensures
        s.push(x).filter(p) == (if p(x) {
            s.filter(p).push(x)
        } else {
            s.filter(p)
        }),
{
    reveal(Seq::filter);
    assert(s.push(x).drop_last() =~= s);
    assert(s.push(x).last() == x);
}

/// A filter that keeps nothing of `s` gives nothing.
pub(crate) proof fn lemma_filter_none(s: Seq<Observation>, p: spec_fn(Observation) -> bool)
    requires
        forall|i: int| 0 <= i < s.len() ==> !p(#[trigger] s[i]),
    ensures
        s.filter(p) == Seq::<Observation>::empty(),
    decreases s.len(),
{
    reveal(Seq::filter);
    if s.len() > 0 {
        lemma_filter_none(s.drop_last(), p);
    }
}

/// Two filters applied one after the other, in either order.
proof fn lemma_filter_commute(s: Seq<Observation>, p: spec_fn(Observation) -> bool, q: spec_fn(Observation) -> bool)
    ensures
        s.filter(p).filter(q) == s.filter(q).filter(p),
    decreases s.len(),
{
    reveal(Seq::filter);
    if s.len() > 0 {
        let t = s.drop_last();
        let x = s.last();
        assert(s =~= t.push(x));
        lemma_filter_commute(t, p, q);
        lemma_filter_push(t, x, p);
        lemma_filter_push(t, x, q);
        lemma_filter_push(t.filter(p), x, q);
        lemma_filter_push(t.filter(q), x, p);
    }
}

/// In a time-ordered sequence, the first `at_most(s, v)` observations are
/// those made no later than `v`.
proof fn lemma_at_most_split(s: Seq<Observation>, v: u64)
    requires
        time_sorted(s),
    ensures
        at_most(s, v) <= s.len(),
        forall|i: int| 0 <= i < at_most(s, v) ==> (#[trigger] s[i]).at_epoch_secs <= v,
        forall|i: int| at_most(s, v) <= i < s.len() ==> (#[trigger] s[i]).at_epoch_secs > v,
    decreases s.len(),
{
    if s.len() > 0 {
        let t = s.drop_last();
        assert(time_sorted(t)) by {
            assert forall|i: int, j: int| 0 <= i < j < t.len() implies (#[trigger] t[i]).at_epoch_secs
                <= (#[trigger] t[j]).at_epoch_secs by {
                assert(t[i] == s[i] && t[j] == s[j]);
            }
        }
        lemma_at_most_split(t, v);
        if s.last().at_epoch_secs <= v {
            assert forall|i: int| 0 <= i < at_most(s, v) implies (#[trigger] s[i]).at_epoch_secs <= v by {
                if i < s.len() - 1 {
                    assert(s[i].at_epoch_secs <= s[s.len() - 1].at_epoch_secs);
                }
            }
        } else {
            assert forall|i: int| at_most(s, v) <= i < s.len() implies (#[trigger] s[i]).at_epoch_secs > v by {
                if i < s.len() - 1 {
                    assert(s[i] == t[i]);
                }
            }
            assert forall|i: int| 0 <= i < at_most(s, v) implies (#[trigger] s[i]).at_epoch_secs <= v by {
                assert(s[i] == t[i]);
            }
        }
    }
}

/// Time order is ordered by time, and at each instant it keeps the
/// observations of that instant in their file order.
proof fn lemma_time_order_filters(s: Seq<Observation>)
    ensures
        time_sorted(in_time_order(s)),
        forall|t: u64| #[trigger] in_time_order(s).filter(at_is(t)) == s.filter(at_is(t)),
    decreases s.len(),
{
    if s.len() == 0 {
    } else {
        let d = s.drop_last();
        let x = s.last();
        assert(s =~= d.push(x));
        lemma_time_order_filters(d);
        let sorted = in_time_order(d);
        let pos = at_most(sorted, x.at_epoch_secs) as int;
        lemma_at_most_split(sorted, x.at_epoch_secs);
        let r = sorted.insert(pos, x);
        assert(in_time_order(s) == r);
        let pre = sorted.subrange(0, pos);
        let post = sorted.subrange(pos, sorted.len() as int);
        assert(sorted =~= pre + post);
        assert(r =~= pre + seq![x] + post);
        assert(time_sorted(r)) by {
            assert forall|i: int, j: int| 0 <= i < j < r.len() implies (#[trigger] r[i]).at_epoch_secs
                <= (#[trigger] r[j]).at_epoch_secs by {
                if j < pos {
                    assert(r[i] == sorted[i] && r[j] == sorted[j]);
                } else if j == pos {
                    assert(r[i] == sorted[i]);
                } else if i < pos {
                    assert(r[i] == sorted[i] && r[j] == sorted[j - 1]);
                } else if i == pos {
                    assert(r[j] == sorted[j - 1]);
                } else {
                    assert(r[i] == sorted[i - 1] && r[j] == sorted[j - 1]);
                }
            }
        }
        assert forall|t: u64| #[trigger] in_time_order(s).filter(at_is(t)) == s.filter(at_is(t)) by {
            Seq::filter_distributes_over_add(pre + seq![x], post, at_is(t));
            Seq::filter_distributes_over_add(pre, seq![x], at_is(t));
            Seq::filter_distributes_over_add(pre, post, at_is(t));
            lemma_filter_push(d, x, at_is(t));
            lemma_filter_push(Seq::<Observation>::empty(), x, at_is(t));
            assert(Seq::<Observation>::empty().push(x) =~= seq![x]);
            reveal(Seq::filter);
            assert(Seq::<Observation>::empty().filter(at_is(t)) =~= Seq::<Observation>::empty());
            if t == x.at_epoch_secs {
                lemma_filter_none(post, at_is(t));
                assert(pre.filter(at_is(t)) + seq![x] + Seq::<Observation>::empty() =~= pre.filter(at_is(t)).push(
                    x,
                ));
                assert(pre.filter(at_is(t)) + Seq::<Observation>::empty() =~= pre.filter(at_is(t)));
            } else {
                assert(pre.filter(at_is(t)) + Seq::<Observation>::empty() =~= pre.filter(at_is(t)));
            }
        }
    }
}

/// Two time-ordered sequences that hold the same observations at each
/// instant, in the same order, are the same.
proof fn lemma_sorted_by_filters(a: Seq<Observation>, b: Seq<Observation>)
    requires
        time_sorted(a),
        time_sorted(b),
        forall|t: u64| #[trigger] a.filter(at_is(t)) == b.filter(at_is(t)),
    ensures
        a == b,
    decreases a.len() + b.len(),
{
    if a.len() == 0 && b.len() == 0 {
        assert(a =~= b);
    } else {
        // the side with the later last observation
        let (u, w) = if a.len() > 0 && (b.len() == 0 || a.last().at_epoch_secs >= b.last().at_epoch_secs) {
            (a, b)
        } else {
            (b, a)
        };
        let x = u.last();
        let t = x.at_epoch_secs;
        let ud = u.drop_last();
        assert(u =~= ud.push(x));
        lemma_filter_push(ud, x, at_is(t));
        assert(u.filter(at_is(t)).len() > 0);
        assert(w.filter(at_is(t)).len() > 0);
        w.filter_lemma(at_is(t));
        let f = w.filter(at_is(t));
        assert(f.contains(f[0]));
        w.lemma_filter_contains_rev(at_is(t), f[0]);
        assert(w.len() > 0);
        let y = w.last();
        let wd = w.drop_last();
        assert(w =~= wd.push(y));
        // y is at t: it is no later than x, and no earlier than w's observation at t
        let k = choose|k: int| 0 <= k < w.len() && w[k] == f[0];
        assert(w[k].at_epoch_secs == t);
        if k < w.len() - 1 {
            assert(w[k].at_epoch_secs <= w[w.len() - 1].at_epoch_secs);
        }
        assert(y.at_epoch_secs >= t);
        assert(y.at_epoch_secs <= t);
        lemma_filter_push(wd, y, at_is(t));
        assert(u.filter(at_is(t)).last() == x);
        assert(w.filter(at_is(t)).last() == y);
        assert(x == y);
        assert(time_sorted(ud)) by {
            assert forall|i: int, j: int| 0 <= i < j < ud.len() implies (#[trigger] ud[i]).at_epoch_secs
                <= (#[trigger] ud[j]).at_epoch_secs by {
                assert(ud[i] == u[i] && ud[j] == u[j]);
            }
        }
        assert(time_sorted(wd)) by {
            assert forall|i: int, j: int| 0 <= i < j < wd.len() implies (#[trigger] wd[i]).at_epoch_secs
                <= (#[trigger] wd[j]).at_epoch_secs by {
                assert(wd[i] == w[i] && wd[j] == w[j]);
            }
        }
        assert forall|t2: u64| #[trigger] ud.filter(at_is(t2)) == wd.filter(at_is(t2)) by {
            lemma_filter_push(ud, x, at_is(t2));
            lemma_filter_push(wd, x, at_is(t2));
            if t2 == t {
                assert(u.filter(at_is(t2)).drop_last() =~= ud.filter(at_is(t2)));
                assert(w.filter(at_is(t2)).drop_last() =~= wd.filter(at_is(t2)));
            }
        }
        lemma_sorted_by_filters(ud, wd);
    }
}

/// The history's time order comes from the observations' timestamps, never
/// from where they sit in the file: two histories holding the same
/// observations at every instant, in the same order at each instant, give
/// the same proven flakes and the same regression pointers.
pub proof fn lemma_time_not_position(obs1: Seq<Observation>, obs2: Seq<Observation>)
    requires
        forall|t: u64| #[trigger] obs1.filter(at_is(t)) == obs2.filter(at_is(t)),
    ensures
        flake_pool(obs1) == flake_pool(obs2),
        since_pool(obs1) == since_pool(obs2),
{
    assert forall|id: Seq<char>| #[trigger] test_window(obs1, id) == test_window(obs2, id) by {
        let a = of_test(obs1, id);
        let b = of_test(obs2, id);
        lemma_time_order_filters(a);
        lemma_time_order_filters(b);
        assert forall|t: u64| #[trigger] in_time_order(a).filter(at_is(t)) == in_time_order(b).filter(at_is(t)) by {
            lemma_filter_commute(obs1, test_pred(id), at_is(t));
            lemma_filter_commute(obs2, test_pred(id), at_is(t));
            assert(obs1.filter(at_is(t)) == obs2.filter(at_is(t)));
        }
        lemma_sorted_by_filters(in_time_order(a), in_time_order(b));
    }
    assert(signal_ids(obs1) =~= signal_ids(obs2)) by {
        assert forall|k: Seq<char>| signal_ids(obs1).contains(k) implies signal_ids(obs2).contains(k) by {
            let i = choose|i: int| 0 <= i < obs1.len() && #[trigger] obs1[i].id@ == k && is_signal(obs1[i]);
            lemma_seen_in_other(obs1, obs2, i);
        }
        assert forall|k: Seq<char>| signal_ids(obs2).contains(k) implies signal_ids(obs1).contains(k) by {
            let i = choose|i: int| 0 <= i < obs2.len() && #[trigger] obs2[i].id@ == k && is_signal(obs2[i]);
            lemma_seen_in_other(obs2, obs1, i);
        }
    }
    assert(history_ids(obs1) == history_ids(obs2));
    assert(flake_pred(obs1) =~= flake_pred(obs2));
    assert(flake_fn(obs1) =~= flake_fn(obs2));
    assert(since_pred(obs1) =~= since_pred(obs2));
    assert(since_fn(obs1) =~= since_fn(obs2));
}

/// An observation of one history is in the other when both hold the same
/// observations at every instant.
proof fn lemma_seen_in_other(obs1: Seq<Observation>, obs2: Seq<Observation>, i: int)
    requires
        0 <= i < obs1.len(),
        forall|t: u64| #[trigger] obs1.filter(at_is(t)) == obs2.filter(at_is(t)),
    ensures
        exists|j: int| 0 <= j < obs2.len() && #[trigger] obs2[j] == obs1[i],
{
    let t = obs1[i].at_epoch_secs;
    obs1.filter_lemma(at_is(t));
    assert(obs1.filter(at_is(t)).contains(obs1[i]));
    assert(obs2.filter(at_is(t)).contains(obs1[i]));
    obs2.lemma_filter_contains_rev(at_is(t), obs1[i]);
}

} // verus!
