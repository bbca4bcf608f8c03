//! The committed quarantine list: known-flaky test ids that
//! `--fail-on-flaky` pardons.

use vstd::prelude::*;

use crate::decimal::{trim, trim_bounds};
use crate::history::split_lines;
use crate::keyed::{insert_key_sorted, keyseq, strictly_sorted};
use crate::text::{strings, chars_of, starts_with, string_of};

verus! {

/// The file sooth reads from the working directory — committed, unlike the
/// gitignored `.sooth/` history.
pub const FILE_NAME: &'static str = ".sooth-quarantine";

/// The text without a leading byte-order mark.
pub open spec fn without_bom(content: Seq<char>) -> Seq<char> {
    if content.len() > 0 && content[0] == '\u{feff}' {
        content.skip(1)
    } else {
        content
    }
}

/// Whether a trimmed line names a test: not blank, not a `#` comment.
pub open spec fn names_a_test(t: Seq<char>) -> bool {
    t.len() > 0 && !starts_with(t, "#"@)
}

/// The ids a quarantine file lists: one per line, trimmed; `#` comments,
/// blank lines and a leading BOM are ignored.
pub open spec fn listed(content: Seq<char>) -> Set<Seq<char>> {
    let lines = split_lines(without_bom(content));
    Set::new(|id: Seq<char>| exists|i: int| 0 <= i < lines.len() && trim(#[trigger] lines[i]) == id && names_a_test(id))
}

/// The quarantined ids, in increasing order and each once.
pub fn parse(content: &str) -> (ids: Vec<String>)
    ensures
        strictly_sorted(strings(ids@)),
        strings(ids@).to_set() == listed(content@),
{
    let all = chars_of(content);
    let start: usize = if all.len() > 0 && all[0] == '\u{feff}' { 1 } else { 0 };
    let ghost text = all@.skip(start as int);
    assert(text == without_bom(content@));
    let ghost lines = split_lines(text);
    let mut keys: Vec<Vec<char>> = Vec::new();
    let mut pos: usize = start;
    let ghost mut done: Seq<Seq<char>> = Seq::empty();
    proof {
        assert(all@.skip(start as int) == text);
        assert(lines =~= done + split_lines(all@.skip(pos as int)));
    }
    while pos < all.len()
        invariant
            start <= pos <= all.len(),
            lines == split_lines(text),
            text == all@.skip(start as int),
            lines == done + split_lines(all@.skip(pos as int)),
            strictly_sorted(keyseq(keys@)),
            keyseq(keys@).to_set() == Set::new(|id: Seq<char>| exists|i: int| 0 <= i < done.len() && trim(#[trigger] done[i]) == id && names_a_test(id)),
        decreases all.len() - pos,
    {
        let ghost u = all@.skip(pos as int);
        let (end, next) = match next_newline_at(&all, pos) {
            Some(k) => (k, k + 1),
            None => (all.len(), all.len()),
        };
        let line_end: usize = if next > end && end > pos && all[end - 1] == '\r' { end - 1 } else { end };
        let ghost line = all@.subrange(pos as int, line_end as int);
        proof {
            if next > end {
                assert(u.take(end - pos) =~= all@.subrange(pos as int, end as int));
                assert(u.skip(end - pos + 1) =~= all@.skip(next as int));
                assert(line == crate::history::strip_cr(u.take(end - pos)));
                assert(split_lines(u) == seq![line] + split_lines(all@.skip(next as int)));
            } else {
                assert(u =~= line);
                assert(all@.skip(next as int).len() == 0);
                assert(split_lines(all@.skip(next as int)) =~= Seq::<Seq<char>>::empty());
                assert(split_lines(u) =~= seq![line] + split_lines(all@.skip(next as int)));
            }
        }
        let mut piece: Vec<char> = Vec::new();
        let mut i: usize = pos;
        while i < line_end
            invariant
                pos <= i <= line_end <= all.len(),
                piece@ == all@.subrange(pos as int, i as int),
            decreases line_end - i,
        {
            piece.push(all[i]);
            assert(piece@ =~= all@.subrange(pos as int, i + 1));
            i += 1;
        }
        let (lo, hi) = trim_bounds(&piece);
        let ghost t = trim(line);
        let ghost before = keyseq(keys@).to_set();
        let ghost old_done = done;
        proof {
            done = done.push(line);
            assert(lines =~= done + split_lines(all@.skip(next as int)));
        }
        if lo < hi && piece[lo] != '#' {
            let mut id: Vec<char> = Vec::new();
            let mut j: usize = lo;
            while j < hi
                invariant
                    lo <= j <= hi <= piece.len(),
                    id@ == piece@.subrange(lo as int, j as int),
                decreases hi - j,
            {
                id.push(piece[j]);
                assert(id@ =~= piece@.subrange(lo as int, j + 1));
                j += 1;
            }
            assert(id@ == t);
            proof {
                reveal_strlit("#");
                assert(t[0] == piece@[lo as int]);
                assert(t.len() > 0);
                assert(t.take(1)[0] != "#"@[0]);
                assert(names_a_test(t));
            }
            insert_key_sorted(&mut keys, id);
            proof {
                assert forall|k: Seq<char>| #[trigger] keyseq(keys@).to_set().contains(k) <==> (exists|q: int|
                    0 <= q < done.len() && trim(#[trigger] done[q]) == k && names_a_test(k)) by {
                    if k == t {
                        assert(done[old_done.len() as int] == line);
                    }
                    if exists|q: int| 0 <= q < done.len() && trim(#[trigger] done[q]) == k && names_a_test(k) {
                        let q = choose|q: int| 0 <= q < done.len() && trim(#[trigger] done[q]) == k && names_a_test(k);
                        if q < old_done.len() {
                            assert(done[q] == old_done[q]);
                        }
                    }
                    if before.contains(k) {
                        let q = choose|q: int| 0 <= q < old_done.len() && trim(#[trigger] old_done[q]) == k && names_a_test(k);
                        assert(done[q] == old_done[q]);
                    }
                }
                assert(keyseq(keys@).to_set() =~= Set::new(|id: Seq<char>| exists|i: int| 0 <= i < done.len() && trim(#[trigger] done[i]) == id && names_a_test(id)));
            }
        } else {
            proof {
                reveal_strlit("#");
                if lo < hi {
                    assert(t[0] == piece@[lo as int]);
                    assert(t.take(1) =~= "#"@);
                }
                assert(!names_a_test(t));
                assert forall|k: Seq<char>| #[trigger] before.contains(k) <==> (exists|q: int|
                    0 <= q < done.len() && trim(#[trigger] done[q]) == k && names_a_test(k)) by {
                    if exists|q: int| 0 <= q < done.len() && trim(#[trigger] done[q]) == k && names_a_test(k) {
                        let q = choose|q: int| 0 <= q < done.len() && trim(#[trigger] done[q]) == k && names_a_test(k);
                        if q < old_done.len() {
                            assert(done[q] == old_done[q]);
                        } else {
                            assert(done[q] == line);
                        }
                    }
                    if before.contains(k) {
                        let q = choose|q: int| 0 <= q < old_done.len() && trim(#[trigger] old_done[q]) == k && names_a_test(k);
                        assert(done[q] == old_done[q]);
                    }
                }
                assert(keyseq(keys@).to_set() =~= Set::new(|id: Seq<char>| exists|i: int| 0 <= i < done.len() && trim(#[trigger] done[i]) == id && names_a_test(id)));
            }
        }
        pos = next;
    }
    proof {
        assert(split_lines(all@.skip(pos as int)) =~= Seq::<Seq<char>>::empty());
        assert(done =~= lines);
    }
    let mut ids: Vec<String> = Vec::new();
    let mut k: usize = 0;
    while k < keys.len()
        invariant
            k <= keys.len(),
            strings(ids@) == keyseq(keys@).take(k as int),
        decreases keys.len() - k,
    {
        let ghost before = strings(ids@);
        let s = string_of(keys[k].as_slice());
        ids.push(s);
        assert(strings(ids@) =~= before.push(keys@[k as int]@));
        assert(keyseq(keys@).take(k + 1) =~= keyseq(keys@).take(k as int).push(keys@[k as int]@));
        k += 1;
    }
    assert(keyseq(keys@).take(k as int) =~= keyseq(keys@));
    ids
}

/// The first line feed at or after `from`.
fn next_newline_at(t: &Vec<char>, from: usize) -> (r: Option<usize>)
    requires
        from <= t.len(),
    ensures
        match r {
            Some(k) => crate::history::find_from(t@.skip(from as int), seq!['\n'], 0) == Some(k - from) && from <= k
                < t.len(),
            None => crate::history::find_from(t@.skip(from as int), seq!['\n'], 0) is None,
        },
{
    crate::history::next_newline(t, from)
}

} // verus!
