//! What the history pass accepts as evidence: only observations made on a
//! known, clean commit prove a test flaky.

use vstd::prelude::*;

use crate::analyzers::history::{
    first_clean_commit, flake_fn, flake_pool, flake_pred, flake_view, is_red, judge, proves_flaky, since_fn, since_pool,
    since_pred, since_view, streak, test_window, FailingSince, HistoricFlake, Judgement,
};
use crate::analyzers::time_order::analyzes;
use crate::analyzers::history::Analysis;
use crate::history::Observation;
use crate::junit::TestStatus;

verus! {

/// Whether `w` holds a pass and a failure made on one clean commit: both on
/// a tree known to be clean, both on the same known commit.
pub open spec fn clean_pass_and_failure(w: Seq<Observation>) -> bool {
    exists|i: int, j: int|
        0 <= i < w.len() && 0 <= j < w.len() && (#[trigger] w[i]).dirty == Some(false)
            && (#[trigger] w[j]).dirty == Some(false) && w[i].commit is Some
            && w[i].commit_view() == w[j].commit_view() && w[i].status != TestStatus::Failed
            && w[i].status != TestStatus::Error && (w[j].status == TestStatus::Failed
            || w[j].status == TestStatus::Error)
}

/// Every test the history pass reports as flaky has, in the window it was
/// judged by, a pass and a failure observed on the same clean commit: an
/// observation on a dirty tree, or on no known commit, is never the
/// evidence.
pub proof fn lemma_flakes_rest_on_clean_evidence(obs: Seq<Observation>, a: Analysis)
    requires
        analyzes(obs, a),
    ensures
        forall|k: int|
            0 <= k < a.flaky@.len() ==> clean_pass_and_failure(
                #[trigger] test_window(obs, a.flaky@[k].outcomes.id@),
            ),
{
    broadcast use vstd::seq_lib::to_multiset_contains;

    let views = a.flaky@.map_values(|h: HistoricFlake| flake_view(h));
    let pool = flake_pool(obs);
    assert forall|k: int| 0 <= k < a.flaky@.len() implies clean_pass_and_failure(
        #[trigger] test_window(obs, a.flaky@[k].outcomes.id@),
    ) by {
        let v = views[k];
        assert(views.contains(v));
        assert(views.to_multiset().count(v) > 0);
        assert(pool.to_multiset().count(v) > 0);
        assert(pool.contains(v));
        let m = choose|m: int| 0 <= m < pool.len() && pool[m] == v;
        let ids = crate::analyzers::history::history_ids(obs).filter(flake_pred(obs));
        assert(pool.len() == ids.len());
        assert(pool[m] == flake_fn(obs)(ids[m]));
        crate::analyzers::history::history_ids(obs).lemma_filter_pred(flake_pred(obs), m);
        let id = ids[m];
        assert(id == a.flaky@[k].outcomes.id@);
        let w = test_window(obs, id);
        assert(crate::analyzers::history::proves_flaky(w));
        let (i, j) = choose|i: int, j: int|
            0 <= i < w.len() && 0 <= j < w.len() && #[trigger] w[i].is_clean() && #[trigger] w[j].is_clean()
                && w[i].commit_view() == w[j].commit_view() && !crate::analyzers::history::is_red(w[i])
                && crate::analyzers::history::is_red(w[j]);
        assert(w[i].dirty == Some(false) && w[j].dirty == Some(false));
    }
}

/// Whether an observation is a failure or an error.
pub open spec fn failed(o: Observation) -> bool {
    o.status == TestStatus::Failed || o.status == TestStatus::Error
}

/// Whether an observation was made on a known commit with a tree known to
/// be clean.
pub open spec fn clean(o: Observation) -> bool {
    o.dirty == Some(false) && o.commit is Some
}

/// The last `n` observations of `w` all failed, and the one before them,
/// if any, did not.
proof fn lemma_streak_is_trailing_failures(w: Seq<Observation>)
    ensures
        streak(w) <= w.len(),
        forall|i: int| w.len() - streak(w) <= i < w.len() ==> failed(#[trigger] w[i]),
        streak(w) < w.len() ==> !failed(w[w.len() - streak(w) - 1]),
    decreases w.len(),
{
    if w.len() > 0 && is_red(w.last()) {
        let d = w.drop_last();
        lemma_streak_is_trailing_failures(d);
        assert forall|i: int| w.len() - streak(w) <= i < w.len() implies failed(#[trigger] w[i]) by {
            if i < w.len() - 1 {
                assert(w[i] == d[i]);
            }
        }
        if streak(w) < w.len() {
            assert(w[w.len() - streak(w) - 1] == d[d.len() - streak(d) - 1]);
        }
    }
}

/// The commit `first_clean_commit` names is that of the earliest clean
/// observation.
proof fn lemma_first_clean(s: Seq<Observation>, c: Seq<char>)
    requires
        first_clean_commit(s) == Some(c),
    ensures
        exists|i: int|
            0 <= i < s.len() && clean(#[trigger] s[i]) && s[i].commit_view() == Some(c) && forall|q: int|
                0 <= q < i ==> !clean(#[trigger] s[q]),
    decreases s.len(),
{
    if !s[0].is_clean() {
        let t = s.drop_first();
        lemma_first_clean(t, c);
        let i = choose|i: int|
            0 <= i < t.len() && clean(#[trigger] t[i]) && t[i].commit_view() == Some(c) && forall|q: int|
                0 <= q < i ==> !clean(#[trigger] t[q]);
        assert(s[i + 1] == t[i]);
        assert forall|q: int| 0 <= q < i + 1 implies !clean(#[trigger] s[q]) by {
            if q > 0 {
                assert(s[q] == t[q - 1]);
            }
        }
    } else {
        assert(clean(s[0]));
    }
}

/// Every regression pointer the history pass reports rests on the end of
/// the window it was judged by: its last `failed_runs` observations, at
/// least two, all failed, the one before them did not, and the commit
/// named is that of the earliest clean observation among them; an
/// observation on a dirty tree or on no known commit never names it. Such a
/// test is never also proven flaky.
pub proof fn lemma_regressions_rest_on_clean_failures(obs: Seq<Observation>, a: Analysis)
    requires
        analyzes(obs, a),
    ensures
        forall|k: int|
            0 <= k < a.failing_since@.len() ==> {
                let f = #[trigger] a.failing_since@[k];
                let w = test_window(obs, f.id@);
                let n = f.failed_runs as int;
                &&& 2 <= n <= w.len()
                &&& forall|i: int| w.len() - n <= i < w.len() ==> failed(#[trigger] w[i])
                &&& n < w.len() ==> !failed(w[w.len() - n - 1])
                &&& exists|i: int|
                    w.len() - n <= i < w.len() && clean(#[trigger] w[i]) && w[i].commit_view() == Some(f.commit@)
                        && forall|q: int| w.len() - n <= q < i ==> !clean(#[trigger] w[q])
                &&& !clean_pass_and_failure(w)
            },
{
    broadcast use vstd::seq_lib::to_multiset_contains;

    let views = a.failing_since@.map_values(|f: FailingSince| since_view(f));
    let pool = since_pool(obs);
    assert forall|k: int| 0 <= k < a.failing_since@.len() implies {
        let f = #[trigger] a.failing_since@[k];
        let w = test_window(obs, f.id@);
        let n = f.failed_runs as int;
        &&& 2 <= n <= w.len()
        &&& forall|i: int| w.len() - n <= i < w.len() ==> failed(#[trigger] w[i])
        &&& n < w.len() ==> !failed(w[w.len() - n - 1])
        &&& exists|i: int|
            w.len() - n <= i < w.len() && clean(#[trigger] w[i]) && w[i].commit_view() == Some(f.commit@)
                && forall|q: int| w.len() - n <= q < i ==> !clean(#[trigger] w[q])
        &&& !clean_pass_and_failure(w)
    } by {
        let f = a.failing_since@[k];
        let v = views[k];
        assert(views.contains(v));
        assert(views.to_multiset().count(v) > 0);
        assert(pool.to_multiset().count(v) > 0);
        assert(pool.contains(v));
        let m = choose|m: int| 0 <= m < pool.len() && pool[m] == v;
        let ids = crate::analyzers::history::history_ids(obs).filter(since_pred(obs));
        assert(pool[m] == since_fn(obs)(ids[m]));
        crate::analyzers::history::history_ids(obs).lemma_filter_pred(since_pred(obs), m);
        let id = ids[m];
        assert(id == f.id@);
        let w = test_window(obs, id);
        let jd = judge(w);
        assert(jd is FailingSince);
        let n = streak(w);
        assert(n == f.failed_runs as nat);
        lemma_streak_is_trailing_failures(w);
        let tailw = w.skip(w.len() - n);
        assert(first_clean_commit(tailw) == Some(f.commit@));
        lemma_first_clean(tailw, f.commit@);
        let i = choose|i: int|
            0 <= i < tailw.len() && clean(#[trigger] tailw[i]) && tailw[i].commit_view() == Some(f.commit@)
                && forall|q: int| 0 <= q < i ==> !clean(#[trigger] tailw[q]);
        assert(tailw[i] == w[w.len() - n + i]);
        assert forall|q: int| w.len() - n <= q < w.len() - n + i implies !clean(#[trigger] w[q]) by {
            assert(tailw[q - (w.len() - n)] == w[q]);
        }
        assert(!proves_flaky(w));
        if clean_pass_and_failure(w) {
            let (x, y) = choose|x: int, y: int|
                0 <= x < w.len() && 0 <= y < w.len() && (#[trigger] w[x]).dirty == Some(false)
                    && (#[trigger] w[y]).dirty == Some(false) && w[x].commit is Some
                    && w[x].commit_view() == w[y].commit_view() && w[x].status != TestStatus::Failed
                    && w[x].status != TestStatus::Error && (w[y].status == TestStatus::Failed
                    || w[y].status == TestStatus::Error);
            assert(w[x].is_clean() && w[y].is_clean());
            assert(proves_flaky(w));
        }
    }
}

} // verus!
