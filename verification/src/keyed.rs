//! Association lists keyed by test identities (character sequences), kept in
//! strictly increasing key order — the order a `BTreeMap<String, _>` walks.

use vstd::prelude::*;

use crate::text::{chars_eq, chars_lt, lemma_lex_asymmetric, lemma_lex_irreflexive, lemma_lex_total, lemma_lex_transitive, lex_lt};

verus! {

/// The keys of an association list.
pub open spec fn keys_of<V>(v: Seq<(Vec<char>, V)>) -> Seq<Seq<char>> {
    v.map_values(|e: (Vec<char>, V)| e.0@)
}

/// Strictly increasing in `lex_lt`.
pub open spec fn strictly_sorted(s: Seq<Seq<char>>) -> bool {
    forall|i: int, j: int| 0 <= i < j < s.len() ==> lex_lt(#[trigger] s[i], #[trigger] s[j])
}

/// `v` lists exactly the entries of `m`.
pub open spec fn lists<V>(v: Seq<(Vec<char>, V)>, m: Map<Seq<char>, V>) -> bool {
    &&& forall|k: Seq<char>| #[trigger] m.contains_key(k) <==> keys_of(v).contains(k)
    &&& forall|i: int| 0 <= i < v.len() ==> m[#[trigger] v[i].0@] == v[i].1
}

/// Where `key` sits in a sorted association list: its index and whether it
/// is present there, or the index before which it belongs.
pub fn find_slot<V>(v: &Vec<(Vec<char>, V)>, key: &[char]) -> (r: (usize, bool))
    requires
        strictly_sorted(keys_of(v@)),
    ensures
        r.0 <= v.len(),
        r.1 ==> r.0 < v.len() && v@[r.0 as int].0@ == key@,
        forall|i: int| 0 <= i < r.0 ==> lex_lt(#[trigger] v@[i].0@, key@),
        !r.1 ==> forall|i: int| r.0 <= i < v.len() ==> lex_lt(key@, #[trigger] v@[i].0@),
        r.1 == keys_of(v@).contains(key@),
{
    let mut i: usize = 0;
    while i < v.len()
        invariant
            i <= v.len(),
            strictly_sorted(keys_of(v@)),
            forall|j: int| 0 <= j < i ==> lex_lt(#[trigger] v@[j].0@, key@),
        decreases v.len() - i,
    {
        if !chars_lt(v[i].0.as_slice(), key) {
            let found = chars_eq(v[i].0.as_slice(), key);
            proof {
                assert(keys_of(v@)[i as int] == v@[i as int].0@);
                if !found {
                    lemma_lex_total(v@[i as int].0@, key@);
                    assert forall|j: int| i <= j < v.len() implies lex_lt(key@, #[trigger] v@[j].0@) by {
                        if j > i {
                            assert(keys_of(v@)[j] == v@[j].0@);
                            lemma_lex_transitive(key@, v@[i as int].0@, v@[j].0@);
                        }
                    }
                    if keys_of(v@).contains(key@) {
                        let j = choose|j: int| 0 <= j < keys_of(v@).len() && keys_of(v@)[j] == key@;
                        if j < i {
                            lemma_lex_irreflexive(key@);
                        } else {
                            lemma_lex_irreflexive(key@);
                        }
                    }
                } else {
                    assert(keys_of(v@)[i as int] == key@);
                }
            }
            return (i, found);
        }
        i += 1;
    }
    proof {
        if keys_of(v@).contains(key@) {
            let j = choose|j: int| 0 <= j < keys_of(v@).len() && keys_of(v@)[j] == key@;
            lemma_lex_irreflexive(key@);
        }
    }
    (i, false)
}


/// The character sequences of a list of keys.
pub open spec fn keyseq(v: Seq<Vec<char>>) -> Seq<Seq<char>> {
    v.map_values(|k: Vec<char>| k@)
}

/// Whether `k` is among `v`.
pub fn keys_contain(v: &Vec<Vec<char>>, k: &[char]) -> (r: bool)
    ensures
        r == keyseq(v@).contains(k@),
{
    let mut i: usize = 0;
    while i < v.len()
        invariant
            i <= v.len(),
            forall|j: int| 0 <= j < i ==> #[trigger] keyseq(v@)[j] != k@,
        decreases v.len() - i,
    {
        if chars_eq(v[i].as_slice(), k) {
            assert(keyseq(v@)[i as int] == k@);
            return true;
        }
        i += 1;
    }
    false
}

/// Whether two lists of keys are equal.
pub fn keys_eq(a: &Vec<Vec<char>>, b: &Vec<Vec<char>>) -> (r: bool)
    ensures
        r == (keyseq(a@) == keyseq(b@)),
{
    if a.len() != b.len() {
        assert(keyseq(a@).len() != keyseq(b@).len());
        return false;
    }
    let mut i: usize = 0;
    while i < a.len()
        invariant
            a.len() == b.len(),
            i <= a.len(),
            forall|j: int| 0 <= j < i ==> #[trigger] keyseq(a@)[j] == keyseq(b@)[j],
        decreases a.len() - i,
    {
        if !chars_eq(a[i].as_slice(), b[i].as_slice()) {
            assert(keyseq(a@)[i as int] != keyseq(b@)[i as int]);
            return false;
        }
        i += 1;
    }
    assert(keyseq(a@) =~= keyseq(b@));
    true
}

/// Keeps the keys of `v` that `other` also holds, in `v`'s order.
pub fn keep_shared(v: &Vec<Vec<char>>, other: &Vec<Vec<char>>, Ghost(p): Ghost<spec_fn(Seq<char>) -> bool>) -> (out: Vec<Vec<char>>)
    requires
        forall|k: Seq<char>| keyseq(v@).contains(k) ==> (#[trigger] p(k) <==> keyseq(other@).contains(k)),
    ensures
        keyseq(out@) == keyseq(v@).filter(p),
{
    let mut out: Vec<Vec<char>> = Vec::new();
    let mut i: usize = 0;
    while i < v.len()
        invariant
            i <= v.len(),
            forall|k: Seq<char>| keyseq(v@).contains(k) ==> (#[trigger] p(k) <==> keyseq(other@).contains(k)),
            keyseq(out@) == keyseq(v@).take(i as int).filter(p),
        decreases v.len() - i,
    {
        let ghost before = keyseq(out@);
        assert(keyseq(v@).take(i + 1) =~= keyseq(v@).take(i as int).push(keyseq(v@)[i as int]));
        proof {
            keyseq(v@).take(i as int).lemma_filter_push(keyseq(v@)[i as int], p);
        }
        assert(keyseq(v@).contains(keyseq(v@)[i as int]));
        if keys_contain(other, v[i].as_slice()) {
            out.push(v[i].clone());
            assert(keyseq(out@) =~= before.push(keyseq(v@)[i as int]));
        }
        i += 1;
    }
    assert(keyseq(v@).take(i as int) =~= keyseq(v@));
    out
}


/// Where `key` sits in a sorted list of keys: its index and whether it is
/// present there, or the index before which it belongs.
pub fn find_key(v: &Vec<Vec<char>>, key: &[char]) -> (r: (usize, bool))
    requires
        strictly_sorted(keyseq(v@)),
    ensures
        r.0 <= v.len(),
        r.1 ==> r.0 < v.len() && v@[r.0 as int]@ == key@,
        forall|i: int| 0 <= i < r.0 ==> lex_lt(#[trigger] v@[i]@, key@),
        !r.1 ==> forall|i: int| r.0 <= i < v.len() ==> lex_lt(key@, #[trigger] v@[i]@),
        r.1 == keyseq(v@).contains(key@),
{
    let mut i: usize = 0;
    while i < v.len()
        invariant
            i <= v.len(),
            strictly_sorted(keyseq(v@)),
            forall|j: int| 0 <= j < i ==> lex_lt(#[trigger] v@[j]@, key@),
        decreases v.len() - i,
    {
        if !chars_lt(v[i].as_slice(), key) {
            let found = chars_eq(v[i].as_slice(), key);
            proof {
                assert(keyseq(v@)[i as int] == v@[i as int]@);
                if !found {
                    lemma_lex_total(v@[i as int]@, key@);
                    assert forall|j: int| i <= j < v.len() implies lex_lt(key@, #[trigger] v@[j]@) by {
                        if j > i {
                            assert(keyseq(v@)[j] == v@[j]@);
                            lemma_lex_transitive(key@, v@[i as int]@, v@[j]@);
                        }
                    }
                    if keyseq(v@).contains(key@) {
                        let j = choose|j: int| 0 <= j < keyseq(v@).len() && keyseq(v@)[j] == key@;
                        lemma_lex_irreflexive(key@);
                    }
                }
            }
            return (i, found);
        }
        i += 1;
    }
    proof {
        if keyseq(v@).contains(key@) {
            let j = choose|j: int| 0 <= j < keyseq(v@).len() && keyseq(v@)[j] == key@;
            lemma_lex_irreflexive(key@);
        }
    }
    (i, false)
}

/// A strictly sorted sequence lists each key once.
pub proof fn lemma_sorted_distinct(s: Seq<Seq<char>>, i: int, j: int)
    requires
        strictly_sorted(s),
        0 <= i < s.len(),
        0 <= j < s.len(),
        i != j,
    ensures
        s[i] != s[j],
{
    if i < j {
        assert(lex_lt(s[i], s[j]));
        lemma_lex_irreflexive(s[i]);
    } else {
        assert(lex_lt(s[j], s[i]));
        lemma_lex_irreflexive(s[j]);
    }
}

/// Two strictly sorted sequences holding the same keys are equal.
pub proof fn lemma_sorted_unique(a: Seq<Seq<char>>, b: Seq<Seq<char>>)
    requires
        strictly_sorted(a),
        strictly_sorted(b),
        a.to_set() == b.to_set(),
    ensures
        a == b,
    decreases a.len() + b.len(),
{
    if a.len() == 0 {
        if b.len() > 0 {
            assert(b.to_set().contains(b[0]));
            assert(!a.to_set().contains(b[0]));
        }
        assert(a =~= b);
    } else if b.len() == 0 {
        assert(a.to_set().contains(a[0]));
    } else {
        // both heads are the least element of the common set
        assert(a.to_set().contains(a[0]));
        assert(b.to_set().contains(a[0]));
        let jb = choose|j: int| 0 <= j < b.len() && b[j] == a[0];
        assert(a.to_set().contains(b[0]));
        let ia = choose|i: int| 0 <= i < a.len() && a[i] == b[0];
        if jb > 0 {
            assert(lex_lt(b[0], b[jb]));
            if ia > 0 {
                assert(lex_lt(a[0], a[ia]));
                lemma_lex_asymmetric(a[0], b[0]);
            } else {
                lemma_lex_irreflexive(a[0]);
            }
        }
        assert(a[0] == b[0]);
        let a1 = a.drop_first();
        let b1 = b.drop_first();
        assert forall|x: Seq<char>| a1.to_set().contains(x) implies b1.to_set().contains(x) by {
            let i = choose|i: int| 0 <= i < a1.len() && a1[i] == x;
            assert(a.to_set().contains(a[i + 1]));
            let j = choose|j: int| 0 <= j < b.len() && b[j] == x;
            lemma_sorted_distinct(a, 0, i + 1);
            assert(j != 0);
            assert(b1[j - 1] == x);
        }
        assert forall|x: Seq<char>| b1.to_set().contains(x) implies a1.to_set().contains(x) by {
            let j = choose|j: int| 0 <= j < b1.len() && b1[j] == x;
            assert(b.to_set().contains(b[j + 1]));
            let i = choose|i: int| 0 <= i < a.len() && a[i] == x;
            lemma_sorted_distinct(b, 0, j + 1);
            assert(i != 0);
            assert(a1[i - 1] == x);
        }
        assert(a1.to_set() =~= b1.to_set());
        lemma_sorted_unique(a1, b1);
        assert(a =~= seq![a[0]] + a1);
        assert(b =~= seq![b[0]] + b1);
    }
}


/// Adds `key` to a sorted list of keys, unless it is already there.
pub fn insert_key_sorted(keys: &mut Vec<Vec<char>>, key: Vec<char>)
    requires
        strictly_sorted(keyseq(old(keys)@)),
    ensures
        strictly_sorted(keyseq(final(keys)@)),
        keyseq(final(keys)@).to_set() == keyseq(old(keys)@).to_set().insert(key@),
{
    let ghost old_keys = keyseq(keys@);
    let ghost kv = key@;
    let (slot, found) = find_key(keys, key.as_slice());
    if found {
        assert(old_keys[slot as int] == kv);
        assert(old_keys.to_set().insert(kv) =~= old_keys.to_set());
        return;
    }
    keys.insert(slot, key);
    let ghost nk = keyseq(keys@);
    assert(nk =~= old_keys.insert(slot as int, kv));
    assert forall|a: int, b: int| 0 <= a < b < nk.len() implies lex_lt(#[trigger] nk[a], #[trigger] nk[b]) by {
        if a < slot && b > slot {
            lemma_lex_transitive(old_keys[a], kv, old_keys[b - 1]);
        }
    }
    assert forall|k: Seq<char>| #[trigger] nk.to_set().contains(k) <==> old_keys.to_set().insert(kv).contains(k) by {
        if k == kv {
            assert(nk[slot as int] == k);
        } else if old_keys.to_set().contains(k) {
            let j = choose|j: int| 0 <= j < old_keys.len() && old_keys[j] == k;
            if j < slot {
                assert(nk[j] == k);
            } else {
                assert(nk[j + 1] == k);
            }
        } else if nk.to_set().contains(k) {
            let j = choose|j: int| 0 <= j < nk.len() && nk[j] == k;
            if j < slot {
                assert(old_keys[j] == k);
            } else if j > slot {
                assert(old_keys[j - 1] == k);
            }
        }
    }
    assert(nk.to_set() =~= old_keys.to_set().insert(kv));
}


/// Whether `c` occurs in `s`.
pub fn chars_contain(s: &[char], c: char) -> (r: bool)
    ensures
        r == s@.contains(c),
{
    let mut i: usize = 0;
    while i < s.len()
        invariant
            i <= s.len(),
            forall|j: int| 0 <= j < i ==> s@[j] != c,
        decreases s.len() - i,
    {
        if s[i] == c {
            assert(s@[i as int] == c);
            return true;
        }
        i += 1;
    }
    false
}


/// Sets `key` to `value` in a sorted association list.
pub fn put_entry<V>(v: &mut Vec<(Vec<char>, V)>, key: Vec<char>, value: V, Ghost(m): Ghost<Map<Seq<char>, V>>)
    requires
        strictly_sorted(keys_of(old(v)@)),
        lists(old(v)@, m),
    ensures
        strictly_sorted(keys_of(final(v)@)),
        lists(final(v)@, m.insert(key@, value)),
{
    let ghost before = v@;
    let ghost kv = key@;
    let (slot, found) = find_slot(v, key.as_slice());
    let ghost m2 = m.insert(kv, value);
    if found {
        v.set(slot, (key, value));
        proof {
            assert(keys_of(v@) =~= keys_of(before));
            assert forall|k: Seq<char>| #[trigger] m2.contains_key(k) <==> keys_of(v@).contains(k) by {
                if k == kv {
                    assert(keys_of(v@)[slot as int] == k);
                }
            }
            assert forall|j: int| 0 <= j < v@.len() implies m2[#[trigger] v@[j].0@] == v@[j].1 by {
                if j != slot {
                    lemma_sorted_distinct(keys_of(v@), j, slot as int);
                    assert(keys_of(v@)[j] == v@[j].0@);
                    assert(keys_of(v@)[slot as int] == kv);
                }
            }
        }
    } else {
        v.insert(slot, (key, value));
        proof {
            assert(keys_of(v@) =~= keys_of(before).insert(slot as int, kv));
            assert forall|a: int, b: int| 0 <= a < b < keys_of(v@).len() implies lex_lt(
                #[trigger] keys_of(v@)[a],
                #[trigger] keys_of(v@)[b],
            ) by {
                if a < slot && b > slot {
                    lemma_lex_transitive(before[a].0@, kv, before[b - 1].0@);
                }
            }
            assert forall|k: Seq<char>| #[trigger] m2.contains_key(k) <==> keys_of(v@).contains(k) by {
                if k == kv {
                    assert(keys_of(v@)[slot as int] == k);
                } else if m.contains_key(k) {
                    let j = choose|j: int| 0 <= j < keys_of(before).len() && keys_of(before)[j] == k;
                    if j < slot {
                        assert(keys_of(v@)[j] == k);
                    } else {
                        assert(keys_of(v@)[j + 1] == k);
                    }
                } else if keys_of(v@).contains(k) {
                    let j = choose|j: int| 0 <= j < keys_of(v@).len() && keys_of(v@)[j] == k;
                    if j < slot {
                        assert(keys_of(before)[j] == k);
                    } else if j > slot {
                        assert(keys_of(before)[j - 1] == k);
                    }
                }
            }
            assert forall|j: int| 0 <= j < v@.len() implies m2[#[trigger] v@[j].0@] == v@[j].1 by {
                if j < slot {
                    assert(v@[j] == before[j]);
                    assert(lex_lt(before[j].0@, kv));
                    lemma_lex_irreflexive(kv);
                } else if j > slot {
                    assert(v@[j] == before[j - 1]);
                    assert(lex_lt(kv, before[j - 1].0@));
                    lemma_lex_irreflexive(kv);
                }
            }
        }
    }
}

/// Keeping some of a strictly ascending list keeps it strictly ascending.
pub proof fn lemma_filter_sorted(s: Seq<Seq<char>>, p: spec_fn(Seq<char>) -> bool)
    requires
        strictly_sorted(s),
    ensures
        strictly_sorted(s.filter(p)),
    decreases s.len(),
{
    reveal(Seq::filter);
    if s.len() > 0 {
        let t = s.drop_last();
        assert(strictly_sorted(t)) by {
            assert forall|i: int, j: int| 0 <= i < j < t.len() implies lex_lt(#[trigger] t[i], #[trigger] t[j]) by {
                assert(t[i] == s[i] && t[j] == s[j]);
            }
        }
        lemma_filter_sorted(t, p);
        let f = t.filter(p);
        t.filter_lemma(p);
        if p(s.last()) {
            let g = f.push(s.last());
            assert(s.filter(p) == g);
            assert forall|i: int, j: int| 0 <= i < j < g.len() implies lex_lt(#[trigger] g[i], #[trigger] g[j]) by {
                if j == g.len() - 1 {
                    assert(f.contains(f[i]));
                    t.lemma_filter_contains_rev(p, f[i]);
                    assert(t.contains(f[i]));
                    let k = choose|k: int| 0 <= k < t.len() && t[k] == f[i];
                    assert(s[k] == f[i]);
                    assert(lex_lt(s[k], s[s.len() - 1]));
                } else {
                    assert(g[i] == f[i] && g[j] == f[j]);
                }
            }
        }
    }
}

/// Every finite set of identities can be listed in strictly increasing
/// order.
pub proof fn lemma_sorted_exists(s: Set<Seq<char>>)
    requires
        s.finite(),
    ensures
        exists|q: Seq<Seq<char>>| strictly_sorted(q) && q.to_set() == s,
    decreases s.len(),
{
    broadcast use vstd::set::group_set_axioms, vstd::seq_lib::group_filter_ensures;

    if s.len() == 0 {
        s.lemma_len0_is_empty();
        let q = Seq::<Seq<char>>::empty();
        assert(q.to_set() =~= s);
        assert(strictly_sorted(q));
    } else {
        let x = s.choose();
        assert(s.contains(x));
        let r = s.remove(x);
        lemma_sorted_exists(r);
        let t = choose|q: Seq<Seq<char>>| strictly_sorted(q) && q.to_set() == r;
        let below = |y: Seq<char>| lex_lt(y, x);
        let above = |y: Seq<char>| lex_lt(x, y);
        let lo = t.filter(below);
        let hi = t.filter(above);
        lemma_filter_sorted(t, below);
        lemma_filter_sorted(t, above);
        let q = lo.push(x) + hi;
        assert forall|i: int, j: int| 0 <= i < j < q.len() implies lex_lt(#[trigger] q[i], #[trigger] q[j]) by {
            let n = lo.len() as int;
            if j < n {
                assert(q[i] == lo[i] && q[j] == lo[j]);
            } else if j == n {
                assert(q[i] == lo[i]);
                assert(below(lo[i]));
            } else if i > n {
                assert(q[i] == hi[i - n - 1] && q[j] == hi[j - n - 1]);
            } else if i == n {
                assert(q[j] == hi[j - n - 1]);
                assert(above(hi[j - n - 1]));
            } else {
                assert(q[i] == lo[i] && q[j] == hi[j - n - 1]);
                assert(below(lo[i]));
                assert(above(hi[j - n - 1]));
                lemma_lex_transitive(lo[i], x, hi[j - n - 1]);
            }
        }
        assert forall|e: Seq<char>| #[trigger] q.to_set().contains(e) <==> s.contains(e) by {
            let n = lo.len() as int;
            if q.to_set().contains(e) {
                assert(q.contains(e));
                let i = choose|i: int| 0 <= i < q.len() && q[i] == e;
                if i < n {
                    assert(lo[i] == e);
                    assert(lo.contains(e));
                    t.lemma_filter_contains_rev(below, e);
                    assert(t.to_set().contains(e));
                } else if i > n {
                    assert(hi[i - n - 1] == e);
                    assert(hi.contains(e));
                    t.lemma_filter_contains_rev(above, e);
                    assert(t.to_set().contains(e));
                }
            }
            if s.contains(e) {
                if e == x {
                    assert(q[n] == x);
                } else {
                    assert(r.contains(e));
                    assert(t.to_set().contains(e));
                    assert(t.contains(e));
                    let i = choose|i: int| 0 <= i < t.len() && t[i] == e;
                    lemma_lex_total(e, x);
                    if lex_lt(e, x) {
                        t.lemma_filter_contains(below, i);
                        let m = choose|m: int| 0 <= m < lo.len() && lo[m] == e;
                        assert(q[m] == e);
                    } else {
                        t.lemma_filter_contains(above, i);
                        let m = choose|m: int| 0 <= m < hi.len() && hi[m] == e;
                        assert(q[n + 1 + m] == e);
                    }
                }
            }
        }
        assert(q.to_set() =~= s);
    }
}

} // verus!
