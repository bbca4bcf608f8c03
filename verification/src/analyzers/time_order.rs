//! The history pass reads time from the observations' timestamps, never
//! from where they sit in the history: reordering a history changes nothing
//! of its analysis.

use vstd::prelude::*;

use crate::analyzers::history::{
    at_is, flake_pool, flake_view, lemma_filter_none, lemma_filter_push, lemma_time_not_position, since_before,
    since_pool, since_view, Analysis, FailingSince, HistoricFlake,
};
use crate::analyzers::history::{flakes_ranked, since_ranked};
use crate::history::Observation;
use crate::text::lex_lt;

verus! {

/// Whether no two observations of `s` share a timestamp.
pub open spec fn distinct_times(s: Seq<Observation>) -> bool {
    forall|i: int, j: int|
        0 <= i < j < s.len() ==> (#[trigger] s[i]).at_epoch_secs != (#[trigger] s[j]).at_epoch_secs
}

/// Reordering a history whose observations all carry distinct timestamps
/// keeps, at every instant, the observations made then.
proof fn lemma_permutation_same_instants(obs1: Seq<Observation>, obs2: Seq<Observation>)
    requires
        obs1.to_multiset() == obs2.to_multiset(),
        distinct_times(obs1),
        distinct_times(obs2),
    ensures
        forall|t: u64| #[trigger] obs1.filter(at_is(t)) == obs2.filter(at_is(t)),
{
    assert forall|t: u64| #[trigger] obs1.filter(at_is(t)) == obs2.filter(at_is(t)) by {
        lemma_filter_distinct(obs1, t);
        lemma_filter_distinct(obs2, t);
        if exists|i: int| 0 <= i < obs1.len() && #[trigger] obs1[i].at_epoch_secs == t {
            let i = choose|i: int| 0 <= i < obs1.len() && #[trigger] obs1[i].at_epoch_secs == t;
            lemma_in_other(obs1, obs2, i);
        } else if exists|j: int| 0 <= j < obs2.len() && #[trigger] obs2[j].at_epoch_secs == t {
            let j = choose|j: int| 0 <= j < obs2.len() && #[trigger] obs2[j].at_epoch_secs == t;
            lemma_in_other(obs2, obs1, j);
        }
    }
}

/// Two sequences ordered by one asymmetric relation and holding the same
/// elements are the same sequence.
proof fn lemma_ranked_unique<A>(s1: Seq<A>, s2: Seq<A>, before: spec_fn(A, A) -> bool)
    requires
        s1.to_multiset() == s2.to_multiset(),
        forall|i: int, j: int| 0 <= i < j < s1.len() ==> #[trigger] before(s1[i], s1[j]),
        forall|i: int, j: int| 0 <= i < j < s2.len() ==> #[trigger] before(s2[i], s2[j]),
        forall|a: A, b: A| #[trigger] before(a, b) ==> !before(b, a),
    ensures
        s1 == s2,
    decreases s1.len(),
{
    broadcast use vstd::seq_lib::to_multiset_contains, vstd::seq_lib::to_multiset_len, vstd::seq_lib::to_multiset_remove;

    assert(s1.len() == s1.to_multiset().len());
    assert(s2.len() == s2.to_multiset().len());
    if s1.len() > 0 {
        assert(s1.contains(s1[0]));
        assert(s1.to_multiset().count(s1[0]) > 0);
        assert(s2.to_multiset().count(s1[0]) > 0);
        let j = choose|j: int| 0 <= j < s2.len() && s2[j] == s1[0];
        assert(s2.contains(s2[0]));
        assert(s2.to_multiset().count(s2[0]) > 0);
        assert(s1.to_multiset().count(s2[0]) > 0);
        let k = choose|k: int| 0 <= k < s1.len() && s1[k] == s2[0];
        if j > 0 {
            assert(before(s2[0], s2[j]));
            if k > 0 {
                assert(before(s1[0], s1[k]));
            } else {
                assert(before(s2[0], s2[0]));
            }
        }
        assert(s1[0] == s2[0]);
        assert(s1.remove(0) =~= s1.drop_first());
        assert(s2.remove(0) =~= s2.drop_first());
        assert(s1.remove(0).to_multiset() == s1.to_multiset().remove(s1[0]));
        assert(s2.remove(0).to_multiset() == s2.to_multiset().remove(s2[0]));
        let t1 = s1.drop_first();
        let t2 = s2.drop_first();
        assert forall|i: int, j: int| 0 <= i < j < t1.len() implies #[trigger] before(t1[i], t1[j]) by {
            assert(before(s1[i + 1], s1[j + 1]));
        }
        assert forall|i: int, j: int| 0 <= i < j < t2.len() implies #[trigger] before(t2[i], t2[j]) by {
            assert(before(s2[i + 1], s2[j + 1]));
        }
        lemma_ranked_unique(t1, t2, before);
        assert forall|i: int| 0 <= i < s1.len() implies s1[i] == s2[i] by {
            if i > 0 {
                assert(s1[i] == t1[i - 1] && s2[i] == t2[i - 1]);
            }
        }
        assert(s1 =~= s2);
    } else {
        assert(s1 =~= s2);
    }
}

/// What `analyze` states of its result for a history: the proven flakes and
/// the regression pointers, each ranked, are those the history holds.
pub open spec fn analyzes(obs: Seq<Observation>, a: Analysis) -> bool {
    &&& flakes_ranked(a.flaky@.map_values(|h: HistoricFlake| flake_view(h)))
    &&& a.flaky@.map_values(|h: HistoricFlake| flake_view(h)).to_multiset() == flake_pool(obs).to_multiset()
    &&& since_ranked(a.failing_since@.map_values(|f: FailingSince| since_view(f)))
    &&& a.failing_since@.map_values(|f: FailingSince| since_view(f)).to_multiset() == since_pool(obs).to_multiset()
}

/// Two analyses of histories with the same pools say the same.
proof fn lemma_same_pools_same_analysis(obs1: Seq<Observation>, obs2: Seq<Observation>, a1: Analysis, a2: Analysis)
    requires
        flake_pool(obs1) == flake_pool(obs2),
        since_pool(obs1) == since_pool(obs2),
        analyzes(obs1, a1),
        analyzes(obs2, a2),
    ensures
        a1.flaky@.map_values(|h: HistoricFlake| flake_view(h)) == a2.flaky@.map_values(|h: HistoricFlake| flake_view(h)),
        a1.failing_since@.map_values(|f: FailingSince| since_view(f)) == a2.failing_since@.map_values(
            |f: FailingSince| since_view(f),
        ),
{
    let fb = |x: ((Seq<char>, nat, nat), Option<Seq<char>>), y: ((Seq<char>, nat, nat), Option<Seq<char>>)|
        crate::analyzers::flaky::ranks_before(x.0, y.0);
    assert forall|x: ((Seq<char>, nat, nat), Option<Seq<char>>), y: ((Seq<char>, nat, nat), Option<Seq<char>>)|
        #[trigger] fb(x, y) implies !fb(y, x) by {
        if lex_lt(x.0.0, y.0.0) {
            crate::text::lemma_lex_asymmetric(x.0.0, y.0.0);
        }
    }
    lemma_ranked_unique(
        a1.flaky@.map_values(|h: HistoricFlake| flake_view(h)),
        a2.flaky@.map_values(|h: HistoricFlake| flake_view(h)),
        fb,
    );
    let sb = |x: (Seq<char>, Seq<char>, nat), y: (Seq<char>, Seq<char>, nat)| since_before(x, y);
    assert forall|x: (Seq<char>, Seq<char>, nat), y: (Seq<char>, Seq<char>, nat)| #[trigger] sb(x, y) implies !sb(
        y,
        x,
    ) by {
        if lex_lt(x.0, y.0) {
            crate::text::lemma_lex_asymmetric(x.0, y.0);
        }
    }
    lemma_ranked_unique(
        a1.failing_since@.map_values(|f: FailingSince| since_view(f)),
        a2.failing_since@.map_values(|f: FailingSince| since_view(f)),
        sb,
    );
}

/// The history pass reads time from the timestamps, never from where an
/// observation sits: two histories holding the same observations at every
/// instant, in the same order at each instant, are analyzed alike.
pub proof fn lemma_analysis_time_not_position(obs1: Seq<Observation>, obs2: Seq<Observation>, a1: Analysis, a2: Analysis)
    requires
        forall|t: u64| #[trigger] obs1.filter(at_is(t)) == obs2.filter(at_is(t)),
        analyzes(obs1, a1),
        analyzes(obs2, a2),
    ensures
        a1.flaky@.map_values(|h: HistoricFlake| flake_view(h)) == a2.flaky@.map_values(|h: HistoricFlake| flake_view(h)),
        a1.failing_since@.map_values(|f: FailingSince| since_view(f)) == a2.failing_since@.map_values(
            |f: FailingSince| since_view(f),
        ),
{
    lemma_time_not_position(obs1, obs2);
    lemma_same_pools_same_analysis(obs1, obs2, a1, a2);
}

/// Reordering a history whose observations all carry distinct timestamps
/// changes nothing: a permutation of it is analyzed alike.
pub proof fn lemma_permutation_same_analysis(obs1: Seq<Observation>, obs2: Seq<Observation>, a1: Analysis, a2: Analysis)
    requires
        obs1.to_multiset() == obs2.to_multiset(),
        distinct_times(obs1),
        distinct_times(obs2),
        analyzes(obs1, a1),
        analyzes(obs2, a2),
    ensures
        a1.flaky@.map_values(|h: HistoricFlake| flake_view(h)) == a2.flaky@.map_values(|h: HistoricFlake| flake_view(h)),
        a1.failing_since@.map_values(|f: FailingSince| since_view(f)) == a2.failing_since@.map_values(
            |f: FailingSince| since_view(f),
        ),
{
    lemma_permutation_same_instants(obs1, obs2);
    lemma_analysis_time_not_position(obs1, obs2, a1, a2);
}

/// An observation of one sequence is at some index of another with the same
/// multiset of observations.
proof fn lemma_in_other(a: Seq<Observation>, b: Seq<Observation>, i: int)
    requires
        a.to_multiset() == b.to_multiset(),
        0 <= i < a.len(),
    ensures
        exists|j: int| 0 <= j < b.len() && #[trigger] b[j] == a[i],
{
    broadcast use vstd::seq_lib::to_multiset_contains;

    assert(a.contains(a[i]));
    assert(a.to_multiset().count(a[i]) > 0);
    assert(b.to_multiset().count(a[i]) > 0);
    assert(b.contains(a[i]));
}

/// In a sequence with distinct timestamps, the observations made at `t` are
/// none or exactly the one made then.
proof fn lemma_filter_distinct(s: Seq<Observation>, t: u64)
    requires
        distinct_times(s),
    ensures
        (forall|i: int| 0 <= i < s.len() ==> (#[trigger] s[i]).at_epoch_secs != t) ==> s.filter(at_is(t))
            == Seq::<Observation>::empty(),
        forall|i: int| 0 <= i < s.len() && (#[trigger] s[i]).at_epoch_secs == t ==> s.filter(at_is(t)) == seq![s[i]],
    decreases s.len(),
{
    if s.len() == 0 {
        lemma_filter_none(s, at_is(t));
    } else {
        let d = s.drop_last();
        let x = s.last();
        assert(s =~= d.push(x));
        assert(distinct_times(d)) by {
            assert forall|i: int, j: int| 0 <= i < j < d.len() implies (#[trigger] d[i]).at_epoch_secs
                != (#[trigger] d[j]).at_epoch_secs by {
                assert(d[i] == s[i] && d[j] == s[j]);
            }
        }
        lemma_filter_distinct(d, t);
        lemma_filter_push(d, x, at_is(t));
        if x.at_epoch_secs == t {
            assert forall|i: int| 0 <= i < d.len() implies (#[trigger] d[i]).at_epoch_secs != t by {
                assert(d[i] == s[i]);
                assert(s[s.len() - 1] == x);
            }
            assert(s.filter(at_is(t)) =~= seq![x]);
        } else {
            assert forall|i: int| 0 <= i < s.len() && (#[trigger] s[i]).at_epoch_secs == t implies i < d.len()
                && d[i] == s[i] by {
                if i == d.len() {
                    assert(s[i] == x);
                }
            }
        }
    }
}

} // verus!
