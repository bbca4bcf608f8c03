//! What the history writes, it reads back. A line reads back as the
//! observation it was written from: what `to_line` writes, `parse_line`
//! returns unchanged, whatever the ids, commits and environments hold. A
//! file of such lines reads back as its observations, in order, and so does
//! a tail of it cut inside its first line. The import ledger gives back the
//! hash of every file it records.

use vstd::prelude::*;

use crate::decimal::{digit_run, digits_value, dval, is_digit, trim, trim_end, trim_start};
use crate::history::{
    bool_value, find_from, first_word, hex4_value, hex_digits, hex_fixed, hex_value, history_of, history_text,
    is_char_code, json_bool, json_opt, ledger_hash_spec, ledger_hashes_spec, ledger_line_spec, ledger_text, line_of,
    marker, parse_line_spec,
    split_lines, status_name, status_of_name, string_value, strip_cr, u64_value, unescape, value_after, word_from,
    ObservationView,
};
use crate::text::{decimal, digit_char};
use crate::report::{escape_char, escaped, hex4, hex_digit, is_control};

verus! {

/// Writing a character in front writes its escape in front.
proof fn lemma_escaped_front(c: char, y: Seq<char>)
    ensures
        escaped(seq![c] + y) == escape_char(c) + escaped(y),
    decreases y.len(),
{
    if y.len() == 0 {
        assert(seq![c] + y =~= seq![c]);
        assert(seq![c].drop_last() =~= Seq::<char>::empty());
        assert(escaped(Seq::<char>::empty()) =~= Seq::<char>::empty());
        assert(seq![c].last() == c);
        assert(escaped(seq![c]) =~= escape_char(c));
        assert(escape_char(c) + escaped(y) =~= escape_char(c));
    } else {
        lemma_escaped_front(c, y.drop_last());
        assert((seq![c] + y).drop_last() =~= seq![c] + y.drop_last());
        assert((seq![c] + y).last() == y.last());
        assert(escaped(seq![c] + y) =~= escape_char(c) + escaped(y));
    }
}

/// A hexadecimal digit is never a quote.
proof fn lemma_hex_digit_plain(d: nat)
    requires
        d < 16,
    ensures
        hex_digit(d) != '"',
        hex_digit(d) != '+',
        hex_value(hex_digit(d)) == Some(d),
{
}

/// The one quote a character's escape can hold is the escaped quote itself.
proof fn lemma_escape_char_quote(c: char, k: int)
    requires
        0 <= k < escape_char(c).len(),
        escape_char(c)[k] == '"',
    ensures
        k == 1,
        escape_char(c)[0] == '\\',
{
    if c != '"' && c != '\\' && c != '\n' && c != '\r' && c != '\t' && is_control(c) {
        let n = (c as u32) as nat;
        lemma_hex_digit_plain((n / 4096) % 16);
        lemma_hex_digit_plain((n / 256) % 16);
        lemma_hex_digit_plain((n / 16) % 16);
        lemma_hex_digit_plain(n % 16);
        assert(escape_char(c) =~= seq!['\\', 'u'] + hex4(n));
    }
}

/// Every quote an escaped string holds is escaped: a backslash precedes it.
proof fn lemma_escaped_quotes(x: Seq<char>, j: int)
    requires
        0 <= j < escaped(x).len(),
        escaped(x)[j] == '"',
    ensures
        j >= 1,
        escaped(x)[j - 1] == '\\',
    decreases x.len(),
{
    let init = escaped(x.drop_last());
    let tail = escape_char(x.last());
    assert(escaped(x) == init + tail);
    if j < init.len() {
        lemma_escaped_quotes(x.drop_last(), j);
    } else {
        lemma_escape_char_quote(x.last(), j - init.len());
    }
}

/// The four hexadecimal digits of a code below 256 read back as the code.
proof fn lemma_hex4_value(n: nat)
    requires
        n < 256,
    ensures
        hex4_value(hex4(n)) == Some(n),
{
    let h = hex4(n);
    lemma_hex_digit_plain((n / 4096) % 16);
    lemma_hex_digit_plain((n / 256) % 16);
    lemma_hex_digit_plain((n / 16) % 16);
    lemma_hex_digit_plain(n % 16);
    assert((n / 4096) % 16 == 0);
    assert((n / 256) % 16 == 0);
    let h3 = h.drop_last();
    let h2 = h3.drop_last();
    let h1 = h2.drop_last();
    assert(h1 =~= seq![hex_digit(0)]);
    assert(h1.drop_last() =~= Seq::<char>::empty());
    assert(hex_digits(Seq::<char>::empty()) == Some(0nat));
    assert(hex_digits(h1) == Some(0nat));
    assert(h2.last() == hex_digit(0));
    assert(hex_digits(h2) == Some(0nat));
    assert(h3.last() == hex_digit((n / 16) % 16));
    assert(hex_digits(h3) == Some((n / 16) % 16));
    assert(hex_digits(h) == Some(((n / 16) % 16) * 16 + n % 16));
}

/// Reading an escape back gives the character it was written for.
proof fn lemma_unescape_step(c: char, t: Seq<char>)
    ensures
        unescape(escape_char(c) + t) == match unescape(t) {
            Some(v) => Some(seq![c] + v),
            None => None::<Seq<char>>,
        },
{
    let s = escape_char(c) + t;
    if c == '"' || c == '\\' || c == '\n' || c == '\r' || c == '\t' {
        assert(s.skip(2) =~= t);
    } else if is_control(c) {
        let n = (c as u32) as nat;
        assert(n < 256);
        lemma_hex4_value(n);
        assert(s.subrange(2, 6) =~= hex4(n));
        assert(is_char_code(n));
        assert((n as char) == c);
        assert(s.skip(6) =~= t);
    } else {
        assert(s.skip(1) =~= t);
    }
}

/// An escaped string followed by its closing quote reads back whole.
pub proof fn lemma_unescape_escaped(x: Seq<char>, r: Seq<char>)
    ensures
        unescape(escaped(x) + seq!['"'] + r) == Some(x),
    decreases x.len(),
{
    if x.len() == 0 {
        assert(escaped(x) + seq!['"'] + r =~= seq!['"'] + r);
    } else {
        let c = x[0];
        let y = x.drop_first();
        assert(x =~= seq![c] + y);
        lemma_escaped_front(c, y);
        let t = escaped(y) + seq!['"'] + r;
        assert(escaped(x) + seq!['"'] + r =~= escape_char(c) + t);
        lemma_unescape_escaped(y, r);
        lemma_unescape_step(c, t);
    }
}

/// No occurrence of `m` starts in `t` at a position in `[lo, hi)`.
pub open spec fn no_match_in(t: Seq<char>, m: Seq<char>, lo: int, hi: int) -> bool {
    forall|q: int| lo <= q < hi && q + m.len() <= t.len() ==> #[trigger] t.subrange(q, q + m.len()) != m
}

/// The first occurrence found from `i` is the one at `p` when none starts
/// before it.
proof fn lemma_find_first(t: Seq<char>, m: Seq<char>, i: int, p: int)
    requires
        0 <= i <= p,
        p + m.len() <= t.len(),
        t.subrange(p, p + m.len()) == m,
        no_match_in(t, m, i, p),
    ensures
        find_from(t, m, i) == Some(p),
    decreases p - i,
{
    if i < p {
        assert(i + m.len() <= t.len());
        assert(t.subrange(i, i + m.len()) != m);
        lemma_find_first(t, m, i + 1, p);
    }
}

/// A key fit for a marker search: a word of lowercase letters.
pub open spec fn plain_key(k: Seq<char>) -> bool {
    k.len() > 0 && forall|j: int| 0 <= j < k.len() ==> 'a' <= #[trigger] k[j] && k[j] <= 'z'
}

/// No marker starts inside a quoted, escaped string that a comma follows.
proof fn lemma_quoted_clear(t: Seq<char>, k: Seq<char>, a: int, x: Seq<char>)
    requires
        plain_key(k),
        0 <= a,
        a + escaped(x).len() + 3 <= t.len(),
        t[a] == '"',
        t.subrange(a + 1, a + 1 + escaped(x).len()) == escaped(x),
        t[a + 1 + escaped(x).len()] == '"',
        t[a + 2 + escaped(x).len()] == ',',
    ensures
        no_match_in(t, marker(k), a, a + 2 + escaped(x).len()),
{
    let m = marker(k);
    let e = escaped(x);
    let b = a + 1 + e.len();
    assert forall|q: int| a <= q < b + 1 && q + m.len() <= t.len() implies #[trigger] t.subrange(q, q + m.len()) != m by {
        if t.subrange(q, q + m.len()) == m {
            let z = q + 1 + k.len();
            assert(t[z] == m[1 + k.len() as int]);
            assert(t[z + 1] == m[2 + k.len() as int]);
            if z < b {
                assert(e[z - a - 1] == t[z]);
                lemma_escaped_quotes(x, z - a - 1);
                assert(t[z - 1] == e[z - a - 2]);
                assert(t[z - 1] == m[k.len() as int]);
                assert(k[k.len() - 1] == m[k.len() as int]);
            } else if z > b {
                if b == q {
                    assert(t[q + 1] == m[1]);
                    assert(k[0] == m[1]);
                } else {
                    assert(t[b] == m[b - q]);
                    assert(k[b - q - 1] == m[b - q]);
                }
            }
        }
    }
}

/// Every quote of `x` is followed by something other than `c`; `next` is
/// what follows `x`.
pub open spec fn quotes_clear(x: Seq<char>, next: char, c: char) -> bool {
    forall|j: int|
        0 <= j < x.len() && #[trigger] x[j] == '"' ==> (if j + 1 < x.len() {
            x[j + 1]
        } else {
            next
        }) != c
}

/// The quote of `{"at":` is followed by `a`.
proof fn lemma_pairs_at(next: char, c: char)
    requires
        'a' <= c <= 'z',
        c != 'a',
    ensures
        quotes_clear("{\"at\":"@, next, c),
{
    reveal_strlit("{\"at\":");
    let x = "{\"at\":"@;
    assert forall|j: int| 0 <= j < x.len() && #[trigger] x[j] == '"' implies (if j + 1 < x.len() {
        x[j + 1]
    } else {
        next
    }) != c by {
        assert(j == 0 || j == 1 || j == 2 || j == 3 || j == 4 || j == 5);
    }
}

/// The quote of `,"commit":` is followed by `c`.
proof fn lemma_pairs_commit(next: char, c: char)
    requires
        'a' <= c <= 'z',
        c != 'c',
    ensures
        quotes_clear(",\"commit\":"@, next, c),
{
    reveal_strlit(",\"commit\":");
    let x = ",\"commit\":"@;
    assert forall|j: int| 0 <= j < x.len() && #[trigger] x[j] == '"' implies (if j + 1 < x.len() {
        x[j + 1]
    } else {
        next
    }) != c by {
        assert(j == 0 || j == 1 || j == 2 || j == 3 || j == 4 || j == 5 || j == 6 || j == 7 || j == 8 || j == 9);
    }
}

/// The quote of `,"dirty":` is followed by `d`.
proof fn lemma_pairs_dirty(next: char, c: char)
    requires
        'a' <= c <= 'z',
        c != 'd',
    ensures
        quotes_clear(",\"dirty\":"@, next, c),
{
    reveal_strlit(",\"dirty\":");
    let x = ",\"dirty\":"@;
    assert forall|j: int| 0 <= j < x.len() && #[trigger] x[j] == '"' implies (if j + 1 < x.len() {
        x[j + 1]
    } else {
        next
    }) != c by {
        assert(j == 0 || j == 1 || j == 2 || j == 3 || j == 4 || j == 5 || j == 6 || j == 7 || j == 8);
    }
}

/// The quote of `,"env":` is followed by `e`.
proof fn lemma_pairs_env(next: char, c: char)
    requires
        'a' <= c <= 'z',
        c != 'e',
    ensures
        quotes_clear(",\"env\":"@, next, c),
{
    reveal_strlit(",\"env\":");
    let x = ",\"env\":"@;
    assert forall|j: int| 0 <= j < x.len() && #[trigger] x[j] == '"' implies (if j + 1 < x.len() {
        x[j + 1]
    } else {
        next
    }) != c by {
        assert(j == 0 || j == 1 || j == 2 || j == 3 || j == 4 || j == 5 || j == 6);
    }
}

/// The quotes of `,"status":"` are followed by `s` and by what comes next.
proof fn lemma_pairs_status(next: char, c: char)
    requires
        'a' <= c <= 'z',
        c != 's',
        next != c,
    ensures
        quotes_clear(",\"status\":\""@, next, c),
{
    reveal_strlit(",\"status\":\"");
    let x = ",\"status\":\""@;
    assert forall|j: int| 0 <= j < x.len() && #[trigger] x[j] == '"' implies (if j + 1 < x.len() {
        x[j + 1]
    } else {
        next
    }) != c by {
        assert(j == 0 || j == 1 || j == 2 || j == 3 || j == 4 || j == 5 || j == 6 || j == 7 || j == 8 || j == 9
            || j == 10);
    }
}

/// A stretch of known text whose quotes are not followed by the key's first
/// letter starts no marker.
proof fn lemma_literal_clear(t: Seq<char>, k: Seq<char>, o: int, x: Seq<char>)
    requires
        plain_key(k),
        0 <= o,
        o + x.len() < t.len(),
        t.subrange(o, o + x.len()) == x,
        quotes_clear(x, t[o + x.len()], k[0]),
    ensures
        no_match_in(t, marker(k), o, o + x.len()),
{
    let m = marker(k);
    assert forall|q: int| o <= q < o + x.len() && q + m.len() <= t.len() implies #[trigger] t.subrange(q, q + m.len()) != m by {
        if t.subrange(q, q + m.len()) == m {
            assert(t.subrange(q, q + m.len())[0] == t[q]);
            assert(t.subrange(q, q + m.len())[1] == t[q + 1]);
            assert(m[0] == '"');
            assert(m[1] == k[0]);
            assert(t.subrange(o, o + x.len())[q - o] == t[q]);
            assert(x[q - o] == '"');
            if q - o + 1 < x.len() {
                assert(t.subrange(o, o + x.len())[q - o + 1] == t[q + 1]);
            }
        }
    }
}

/// Stretches without a match join.
proof fn lemma_clear_join(t: Seq<char>, m: Seq<char>, a: int, b: int, c: int)
    requires
        no_match_in(t, m, a, b),
        no_match_in(t, m, b, c),
    ensures
        no_match_in(t, m, a, c),
{
}

/// A stretch without quotes starts no marker.
proof fn lemma_quote_free_clear(t: Seq<char>, k: Seq<char>, o: int, n: int)
    requires
        0 <= o,
        0 <= n,
        o + n <= t.len(),
        forall|j: int| o <= j < o + n ==> #[trigger] t[j] != '"',
    ensures
        no_match_in(t, marker(k), o, o + n),
{
    let m = marker(k);
    assert forall|q: int| o <= q < o + n && q + m.len() <= t.len() implies #[trigger] t.subrange(q, q + m.len()) != m by {
        if t.subrange(q, q + m.len()) == m {
            assert(t[q] == m[0]);
        }
    }
}

/// A numeral is all digits and reads back as its number.
proof fn lemma_decimal_digits(n: nat)
    ensures
        decimal(n).len() >= 1,
        forall|j: int| 0 <= j < decimal(n).len() ==> is_digit(#[trigger] decimal(n)[j]),
        digits_value(decimal(n)) == n,
    decreases n,
{
    if n >= 10 {
        lemma_decimal_digits(n / 10);
        let s = decimal(n);
        assert(s.drop_last() == decimal(n / 10));
        assert(s.last() == digit_char(n % 10));
        assert(dval(digit_char(n % 10)) == n % 10);
        assert(digits_value(s) == digits_value(s.drop_last()) * 10 + dval(s.last()));
        assert((n / 10) * 10 + n % 10 == n);
    } else {
        assert(dval(digit_char(n)) == n);
        assert(decimal(n) == seq![digit_char(n)]);
        assert(decimal(n).drop_last() =~= Seq::<char>::empty());
        assert(digits_value(Seq::<char>::empty()) == 0);
        assert(decimal(n).last() == digit_char(n));
    }
}

/// The run of digits a numeral starts ends where the numeral does.
proof fn lemma_digit_run(d: Seq<char>, r: Seq<char>)
    requires
        forall|j: int| 0 <= j < d.len() ==> is_digit(#[trigger] d[j]),
        r.len() > 0,
        !is_digit(r[0]),
    ensures
        digit_run(d + r) == d.len(),
    decreases d.len(),
{
    if d.len() > 0 {
        assert((d + r).drop_first() =~= d.drop_first() + r);
        lemma_digit_run(d.drop_first(), r);
    } else {
        assert(d + r =~= r);
    }
}

/// The pieces of a history line, in order.
pub open spec fn pieces(o: ObservationView) -> Seq<Seq<char>> {
    seq![
        "{\"at\":"@,
        decimal(o.at_epoch_secs as nat),
        ",\"commit\":"@,
        json_opt(o.commit),
        ",\"dirty\":"@,
        json_bool(o.dirty),
        ",\"env\":"@,
        json_opt(o.environment),
        ",\"status\":\""@,
        status_name(o.status),
        "\",\"id\":\""@,
        escaped(o.id),
        "\"}"@,
    ]
}

/// Where piece `i` starts.
pub open spec fn offset(ps: Seq<Seq<char>>, i: int) -> int
    decreases i,
{
    if i <= 0 {
        0
    } else {
        offset(ps, i - 1) + ps[i - 1].len()
    }
}

/// The pieces joined.
pub open spec fn joined_pieces(ps: Seq<Seq<char>>, n: int) -> Seq<char>
    decreases n,
{
    if n <= 0 {
        Seq::empty()
    } else {
        joined_pieces(ps, n - 1) + ps[n - 1]
    }
}

/// A line is its pieces joined.
proof fn lemma_line_pieces(o: ObservationView)
    ensures
        line_of(o) == joined_pieces(pieces(o), 13),
{
    let ps = pieces(o);
    reveal_with_fuel(joined_pieces, 14);
    assert(line_of(o) =~= joined_pieces(ps, 13));
}

/// Piece `i` sits at its offset in the joined pieces.
proof fn lemma_piece_at(ps: Seq<Seq<char>>, n: int, i: int)
    requires
        0 <= i < n <= ps.len(),
    ensures
        joined_pieces(ps, n).len() == offset(ps, n),
        0 <= offset(ps, i),
        offset(ps, i) + ps[i].len() <= offset(ps, n),
        joined_pieces(ps, n).subrange(offset(ps, i), offset(ps, i) + ps[i].len()) == ps[i],
    decreases n,
{
    lemma_joined_len(ps, n);
    lemma_joined_len(ps, i);
    if i == n - 1 {
        lemma_joined_len(ps, n - 1);
        assert(joined_pieces(ps, n).subrange(offset(ps, i), offset(ps, i) + ps[i].len()) =~= ps[i]);
    } else {
        lemma_piece_at(ps, n - 1, i);
        lemma_joined_len(ps, n - 1);
        assert(joined_pieces(ps, n) == joined_pieces(ps, n - 1) + ps[n - 1]);
        assert(joined_pieces(ps, n).subrange(offset(ps, i), offset(ps, i) + ps[i].len()) =~= joined_pieces(
            ps,
            n - 1,
        ).subrange(offset(ps, i), offset(ps, i) + ps[i].len()));
    }
}

/// The joined pieces are as long as the offset past them.
proof fn lemma_joined_len(ps: Seq<Seq<char>>, n: int)
    requires
        0 <= n <= ps.len(),
    ensures
        joined_pieces(ps, n).len() == offset(ps, n),
    decreases n,
{
    if n > 0 {
        lemma_joined_len(ps, n - 1);
    }
}

/// A marker found first where it sits gives what follows it.
proof fn lemma_value_at(t: Seq<char>, k: Seq<char>, p: int)
    requires
        0 <= p,
        p + marker(k).len() <= t.len(),
        t.subrange(p, p + marker(k).len()) == marker(k),
        no_match_in(t, marker(k), 0, p),
    ensures
        value_after(t, k) == Some(t.skip(p + marker(k).len())),
{
    lemma_find_first(t, marker(k), 0, p);
}

/// A string-or-null value written at `v` reads back.
proof fn lemma_string_at(t: Seq<char>, k: Seq<char>, v: int, value: Option<Seq<char>>)
    requires
        value_after(t, k) == Some(t.skip(v)),
        0 <= v,
        v + json_opt(value).len() < t.len(),
        t.subrange(v, v + json_opt(value).len()) == json_opt(value),
    ensures
        string_value(t, k) == Some(value),
{
    reveal_strlit("null");
    reveal_strlit("\"");
    let rest = t.skip(v);
    match value {
        Some(x) => {
            let e = escaped(x);
            assert(json_opt(value) =~= seq!['"'] + e + seq!['"']);
            assert(rest[0] == '"');
            assert(!crate::text::starts_with(rest, "null"@)) by {
                if rest.len() >= 4 {
                    assert(rest.take(4)[0] == rest[0]);
                }
            }
            assert(rest.skip(1) =~= e + seq!['"'] + t.skip(v + e.len() + 2));
            lemma_unescape_escaped(x, t.skip(v + e.len() + 2));
        },
        None => {
            assert(rest.take(4) =~= "null"@);
        },
    }
}

/// The commit reads back.
proof fn lemma_commit_reads_back(o: ObservationView)
    ensures
        string_value(line_of(o), "commit"@) == Some(o.commit),
{
    let ps = pieces(o);
    let t = line_of(o);
    let k = "commit"@;
    lemma_line_pieces(o);
    reveal_strlit("{\"at\":");
    reveal_strlit(",\"commit\":");
    reveal_strlit("commit");
    lemma_piece_at(ps, 13, 0);
    lemma_piece_at(ps, 13, 1);
    lemma_piece_at(ps, 13, 2);
    lemma_piece_at(ps, 13, 3);
    lemma_piece_at(ps, 13, 4);
    let m = marker(k);
    let p = offset(ps, 2) + 1;
    assert(plain_key(k));
    assert(t.subrange(p, p + m.len()) =~= m) by {
        assert forall|j: int| 0 <= j < m.len() implies t.subrange(p, p + m.len())[j] == m[j] by {
            assert(t[p + j] == ps[2][1 + j]);
        }
    }
    lemma_piece_next(o, 0);
    lemma_pairs_at(t[offset(ps, 1)], 'c');
    lemma_literal_clear(t, k, 0, ps[0]);
    lemma_decimal_digits(o.at_epoch_secs as nat);
    assert forall|j: int| offset(ps, 1) <= j < offset(ps, 1) + ps[1].len() implies #[trigger] t[j] != '"' by {
        assert(t[j] == ps[1][j - offset(ps, 1)]);
    }
    lemma_quote_free_clear(t, k, offset(ps, 1), ps[1].len() as int);
    assert(t[offset(ps, 2)] == ps[2][0]);
    lemma_quote_free_clear(t, k, offset(ps, 2), 1);
    lemma_clear_join(t, m, 0, offset(ps, 1), offset(ps, 2));
    lemma_clear_join(t, m, 0, offset(ps, 2), p);
    lemma_value_at(t, k, p);
    assert(p + m.len() == offset(ps, 3));
    assert(offset(ps, 4) == offset(ps, 3) + ps[3].len());
    reveal_strlit(",\"dirty\":");
    assert(ps[4].len() == 9);
    lemma_string_at(t, k, offset(ps, 3), o.commit);
}

/// A string of lowercase letters is its own escape.
proof fn lemma_escaped_plain(x: Seq<char>)
    requires
        forall|j: int| 0 <= j < x.len() ==> 'a' <= #[trigger] x[j] && x[j] <= 'z',
    ensures
        escaped(x) == x,
    decreases x.len(),
{
    if x.len() > 0 {
        lemma_escaped_plain(x.drop_last());
        assert(escape_char(x.last()) =~= seq![x.last()]);
        assert(escaped(x) =~= x);
    } else {
        assert(escaped(x) =~= x);
    }
}

/// The wire names of the statuses are lowercase words, each read back as
/// its own status.
proof fn lemma_status_names(st: crate::junit::TestStatus)
    ensures
        status_name(st).len() > 0,
        forall|j: int| 0 <= j < status_name(st).len() ==> 'a' <= #[trigger] status_name(st)[j] && status_name(st)[j] <= 'z',
        status_name(st)[0] == 'p' || status_name(st)[0] == 'f' || status_name(st)[0] == 'e' || status_name(st)[0] == 's',
        status_of_name(status_name(st)) == Some(st),
{
    reveal_strlit("passed");
    reveal_strlit("failed");
    reveal_strlit("error");
    reveal_strlit("skipped");
    assert("passed"@ != "failed"@) by {
        assert("passed"@[0] != "failed"@[0]);
    }
    assert("passed"@ != "error"@) by {
        assert("passed"@.len() != "error"@.len());
    }
    assert("failed"@ != "error"@) by {
        assert("failed"@.len() != "error"@.len());
    }
    assert("passed"@ != "skipped"@) by {
        assert("passed"@.len() != "skipped"@.len());
    }
    assert("failed"@ != "skipped"@) by {
        assert("failed"@[0] != "skipped"@[0]);
    }
    assert("error"@ != "skipped"@) by {
        assert("error"@.len() != "skipped"@.len());
    }
}

/// A JSON string or `null` starts no marker, when a comma follows it.
proof fn lemma_opt_clear(t: Seq<char>, k: Seq<char>, a: int, v: Option<Seq<char>>)
    requires
        plain_key(k),
        0 <= a,
        a + json_opt(v).len() < t.len(),
        t.subrange(a, a + json_opt(v).len()) == json_opt(v),
        t[a + json_opt(v).len()] == ',',
    ensures
        no_match_in(t, marker(k), a, a + json_opt(v).len()),
{
    reveal_strlit("null");
    reveal_strlit("\"");
    match v {
        Some(x) => {
            let e = escaped(x);
            assert(json_opt(v) =~= seq!['"'] + e + seq!['"']);
            assert(t[a] == t.subrange(a, a + json_opt(v).len())[0]);
            assert(t[a] == json_opt(v)[0]);
            assert forall|j: int| 0 <= j < e.len() implies #[trigger] t.subrange(a + 1, a + 1 + e.len())[j] == e[j] by {
                assert(t.subrange(a, a + json_opt(v).len())[1 + j] == t[a + 1 + j]);
                assert(json_opt(v)[1 + j] == e[j]);
            }
            assert(t.subrange(a + 1, a + 1 + e.len()) =~= e);
            assert(t.subrange(a, a + json_opt(v).len())[1 + e.len() as int] == t[a + 1 + e.len()]);
            assert(t[a + 1 + e.len()] == json_opt(v)[1 + e.len() as int]);
            lemma_quoted_clear(t, k, a, x);
        },
        None => {
            assert forall|j: int| a <= j < a + 4 implies #[trigger] t[j] != '"' by {
                assert(t.subrange(a, a + 4)[j - a] == t[j]);
                assert(t[j] == json_opt(v)[j - a]);
            }
            lemma_quote_free_clear(t, k, a, 4);
        },
    }
}

/// A stretch whose characters hold no quote starts no marker.
proof fn lemma_piece_quote_free(t: Seq<char>, k: Seq<char>, a: int, x: Seq<char>)
    requires
        0 <= a,
        a + x.len() <= t.len(),
        t.subrange(a, a + x.len()) == x,
        forall|j: int| 0 <= j < x.len() ==> #[trigger] x[j] != '"',
    ensures
        no_match_in(t, marker(k), a, a + x.len()),
{
    assert forall|j: int| a <= j < a + x.len() implies #[trigger] t[j] != '"' by {
        assert(t.subrange(a, a + x.len())[j - a] == t[j]);
    }
    lemma_quote_free_clear(t, k, a, x.len() as int);
}

/// The character after piece `i` is the first of piece `i + 1`.
proof fn lemma_piece_next(o: ObservationView, i: int)
    requires
        0 <= i < 10,
    ensures
        pieces(o)[i + 1].len() > 0,
        0 <= offset(pieces(o), i),
        offset(pieces(o), i + 1) == offset(pieces(o), i) + pieces(o)[i].len(),
        offset(pieces(o), i + 1) < line_of(o).len(),
        line_of(o)[offset(pieces(o), i + 1)] == pieces(o)[i + 1][0],
        offset(pieces(o), i) + pieces(o)[i].len() < line_of(o).len(),
        line_of(o).subrange(offset(pieces(o), i), offset(pieces(o), i) + pieces(o)[i].len()) == pieces(o)[i],
{
    let ps = pieces(o);
    reveal_strlit(",\"commit\":");
    reveal_strlit(",\"dirty\":");
    reveal_strlit(",\"env\":");
    reveal_strlit(",\"status\":\"");
    reveal_strlit("\",\"id\":\"");
    reveal_strlit("true");
    reveal_strlit("false");
    reveal_strlit("null");
    reveal_strlit("\"");
    lemma_status_names(o.status);
    lemma_decimal_digits(o.at_epoch_secs as nat);
    lemma_line_pieces(o);
    lemma_piece_at(ps, 13, i);
    lemma_piece_at(ps, 13, i + 1);
    let t = line_of(o);
    assert(t.subrange(offset(ps, i + 1), offset(ps, i + 1) + ps[i + 1].len())[0] == t[offset(ps, i + 1)]);
}

/// No marker for `k` starts in piece `i` of a line, when `k` starts with
/// none of the letters that piece's quotes are followed by.
proof fn lemma_piece_clear(o: ObservationView, k: Seq<char>, i: int)
    requires
        plain_key(k),
        0 <= i < 10,
        i == 0 ==> k[0] != 'a',
        i == 2 ==> k[0] != 'c',
        i == 4 ==> k[0] != 'd',
        i == 6 ==> k[0] != 'e',
        i == 8 ==> k[0] != 's' && k[0] != 'p' && k[0] != 'f' && k[0] != 'e',
    ensures
        no_match_in(line_of(o), marker(k), offset(pieces(o), i), offset(pieces(o), i + 1)),
{
    let ps = pieces(o);
    let t = line_of(o);
    reveal_strlit("{\"at\":");
    reveal_strlit(",\"commit\":");
    reveal_strlit(",\"dirty\":");
    reveal_strlit(",\"env\":");
    reveal_strlit(",\"status\":\"");
    reveal_strlit("\",\"id\":\"");
    reveal_strlit("true");
    reveal_strlit("false");
    reveal_strlit("null");
    reveal_strlit("\"");
    lemma_status_names(o.status);
    lemma_decimal_digits(o.at_epoch_secs as nat);
    if i == 0 {
        lemma_piece_next(o, 0);
        lemma_pairs_at(t[offset(ps, 1)], k[0]);
        lemma_literal_clear(t, k, offset(ps, 0), ps[0]);
    } else if i == 1 {
        lemma_piece_next(o, 1);
        lemma_piece_quote_free(t, k, offset(ps, 1), ps[1]);
    } else if i == 2 {
        lemma_piece_next(o, 2);
        lemma_pairs_commit(t[offset(ps, 3)], k[0]);
        lemma_literal_clear(t, k, offset(ps, 2), ps[2]);
    } else if i == 3 {
        lemma_piece_next(o, 3);
        lemma_opt_clear(t, k, offset(ps, 3), o.commit);
    } else if i == 4 {
        lemma_piece_next(o, 4);
        lemma_pairs_dirty(t[offset(ps, 5)], k[0]);
        lemma_literal_clear(t, k, offset(ps, 4), ps[4]);
    } else if i == 5 {
        lemma_piece_next(o, 5);
        lemma_piece_quote_free(t, k, offset(ps, 5), ps[5]);
    } else if i == 6 {
        lemma_piece_next(o, 6);
        lemma_pairs_env(t[offset(ps, 7)], k[0]);
        lemma_literal_clear(t, k, offset(ps, 6), ps[6]);
    } else if i == 7 {
        lemma_piece_next(o, 7);
        lemma_opt_clear(t, k, offset(ps, 7), o.environment);
    } else if i == 8 {
        lemma_piece_next(o, 8);
        lemma_pairs_status(t[offset(ps, 9)], k[0]);
        lemma_literal_clear(t, k, offset(ps, 8), ps[8]);
    } else {
        lemma_piece_next(o, 9);
        lemma_piece_quote_free(t, k, offset(ps, 9), ps[9]);
    }
}

/// No marker for `k` starts in the first `n` pieces of a line.
proof fn lemma_pieces_clear(o: ObservationView, k: Seq<char>, n: int)
    requires
        plain_key(k),
        0 <= n <= 10,
        n > 0 ==> k[0] != 'a',
        n > 2 ==> k[0] != 'c',
        n > 4 ==> k[0] != 'd',
        n > 6 ==> k[0] != 'e',
        n > 8 ==> k[0] != 's' && k[0] != 'p' && k[0] != 'f',
    ensures
        no_match_in(line_of(o), marker(k), 0, offset(pieces(o), n)),
    decreases n,
{
    if n > 0 {
        lemma_pieces_clear(o, k, n - 1);
        lemma_piece_clear(o, k, n - 1);
        lemma_clear_join(line_of(o), marker(k), 0, offset(pieces(o), n - 1), offset(pieces(o), n));
    }
}

/// The marker of `k` sits in piece `i` after `d` characters that start no
/// marker; the value read for `k` is what follows it.
proof fn lemma_marker_in_piece(o: ObservationView, k: Seq<char>, i: int, d: int)
    requires
        plain_key(k),
        0 <= i <= 10,
        0 <= d,
        d + marker(k).len() <= pieces(o)[i].len(),
        forall|j: int| 0 <= j < marker(k).len() ==> #[trigger] pieces(o)[i][d + j] == marker(k)[j],
        i > 0 ==> k[0] != 'a',
        i > 2 ==> k[0] != 'c',
        i > 4 ==> k[0] != 'd',
        i > 6 ==> k[0] != 'e',
        i > 8 ==> k[0] != 's' && k[0] != 'p' && k[0] != 'f',
        no_match_in(line_of(o), marker(k), offset(pieces(o), i), offset(pieces(o), i) + d),
    ensures
        value_after(line_of(o), k) == Some(line_of(o).skip(offset(pieces(o), i) + d + marker(k).len())),
{
    let ps = pieces(o);
    let t = line_of(o);
    let m = marker(k);
    let p = offset(ps, i) + d;
    lemma_line_pieces(o);
    lemma_piece_at(ps, 13, i);
    lemma_pieces_clear(o, k, i);
    lemma_clear_join(t, m, 0, offset(ps, i), p);
    assert(t.subrange(p, p + m.len()) =~= m) by {
        assert forall|j: int| 0 <= j < m.len() implies t.subrange(p, p + m.len())[j] == m[j] by {
            assert(t.subrange(offset(ps, i), offset(ps, i) + ps[i].len())[d + j] == t[p + j]);
            assert(ps[i][d + j] == m[j]);
        }
    }
    lemma_value_at(t, k, p);
}

/// A string piece between two quotes: the quote that ends piece `i - 1`,
/// piece `i`, and the quote that starts piece `i + 1`.
#[verifier::spinoff_prover]
#[verifier::rlimit(40)]
proof fn lemma_quoted_piece(o: ObservationView, i: int)
    requires
        i == 9 || i == 11,
    ensures
        offset(pieces(o), i) >= 1,
        offset(pieces(o), i) + pieces(o)[i].len() + 1 < line_of(o).len(),
        line_of(o).subrange(offset(pieces(o), i) - 1, offset(pieces(o), i) + pieces(o)[i].len() + 1) == seq!['"']
            + pieces(o)[i] + seq!['"'],
{
    let ps = pieces(o);
    let t = line_of(o);
    reveal_strlit(",\"status\":\"");
    reveal_strlit("\",\"id\":\"");
    reveal_strlit("\"}");
    lemma_line_pieces(o);
    lemma_piece_at(ps, 13, i - 1);
    lemma_piece_at(ps, 13, i);
    lemma_piece_at(ps, 13, i + 1);
    let a = offset(ps, i - 1);
    let b = offset(ps, i);
    let c = offset(ps, i + 1);
    let x = ps[i];
    assert(b == a + ps[i - 1].len());
    assert(c == b + x.len());
    assert(ps[i - 1].len() >= 1);
    assert(ps[i - 1][ps[i - 1].len() - 1] == '"');
    assert(ps[i + 1][0] == '"');
    assert(ps[i + 1].len() >= 2);
    let w = seq!['"'] + x + seq!['"'];
    assert(t.subrange(b - 1, c + 1) =~= w) by {
        assert forall|j: int| 0 <= j < w.len() implies t.subrange(b - 1, c + 1)[j] == w[j] by {
            if j == 0 {
                assert(t.subrange(a, b)[ps[i - 1].len() - 1] == t[b - 1]);
            } else if j <= x.len() {
                assert(t.subrange(b, c)[j - 1] == t[b + j - 1]);
            } else {
                assert(t.subrange(c, c + ps[i + 1].len())[0] == t[c]);
            }
        }
    }
}

/// The number a line starts its `at` value with is the observation's time.
proof fn lemma_at_reads_back(o: ObservationView)
    ensures
        u64_value(line_of(o), "at"@) == Some(o.at_epoch_secs),
{
    let ps = pieces(o);
    let t = line_of(o);
    let k = "at"@;
    reveal_strlit("at");
    reveal_strlit("{\"at\":");
    let m = marker(k);
    assert(plain_key(k));
    assert(t.len() == offset(ps, 13)) by {
        lemma_line_pieces(o);
        lemma_piece_at(ps, 13, 0);
    }
    lemma_line_pieces(o);
    lemma_piece_at(ps, 13, 0);
    assert(t[0] == ps[0][0]) by {
        assert(t.subrange(0, ps[0].len() as int)[0] == t[0]);
    }
    lemma_quote_free_clear(t, k, 0, 1);
    assert forall|j: int| 0 <= j < m.len() implies #[trigger] ps[0][1 + j] == m[j] by {
        assert(j == 0 || j == 1 || j == 2 || j == 3 || j == 4);
    }
    lemma_marker_in_piece(o, k, 0, 1);
    lemma_piece_next(o, 1);
    lemma_decimal_digits(o.at_epoch_secs as nat);
    let n = o.at_epoch_secs as nat;
    let rest = t.skip(6);
    assert(offset(ps, 1) == 6);
    let dd = decimal(n);
    let after = t.skip(offset(ps, 2));
    assert(rest =~= dd + after) by {
        assert forall|j: int| 0 <= j < rest.len() implies rest[j] == (dd + after)[j] by {
            if j < dd.len() {
                assert(t.subrange(6, 6 + dd.len() as int)[j] == t[6 + j]);
            }
        }
    }
    reveal_strlit(",\"commit\":");
    assert(after[0] == ',') by {
        assert(t.subrange(offset(ps, 2), offset(ps, 2) + ps[2].len())[0] == t[offset(ps, 2)]);
    }
    lemma_digit_run(dd, after);
    assert(rest.take(digit_run(rest) as int) =~= dd);
}

/// The `dirty` value reads back.
proof fn lemma_dirty_reads_back(o: ObservationView)
    ensures
        bool_value(line_of(o), "dirty"@) == Some(o.dirty),
{
    let ps = pieces(o);
    let t = line_of(o);
    let k = "dirty"@;
    reveal_strlit("dirty");
    reveal_strlit(",\"dirty\":");
    reveal_strlit("true");
    reveal_strlit("false");
    reveal_strlit("null");
    let m = marker(k);
    assert(plain_key(k));
    lemma_piece_next(o, 4);
    assert(t[offset(ps, 4)] == ',') by {
        assert(t.subrange(offset(ps, 4), offset(ps, 4) + ps[4].len())[0] == t[offset(ps, 4)]);
    }
    lemma_quote_free_clear(t, k, offset(ps, 4), 1);
    assert forall|j: int| 0 <= j < m.len() implies #[trigger] ps[4][1 + j] == m[j] by {
        assert(j == 0 || j == 1 || j == 2 || j == 3 || j == 4 || j == 5 || j == 6 || j == 7);
    }
    lemma_marker_in_piece(o, k, 4, 1);
    lemma_piece_next(o, 5);
    let rest = t.skip(offset(ps, 5));
    let v = ps[5];
    assert(rest.take(v.len() as int) =~= v) by {
        assert forall|j: int| 0 <= j < v.len() implies rest.take(v.len() as int)[j] == v[j] by {
            assert(t.subrange(offset(ps, 5), offset(ps, 5) + v.len())[j] == t[offset(ps, 5) + j]);
        }
    }
    assert(rest[0] == v[0]) by {
        assert(rest.take(v.len() as int)[0] == rest[0]);
    }
    match o.dirty {
        Some(true) => {
            assert(crate::text::starts_with(rest, "true"@));
        },
        Some(false) => {
            assert(!crate::text::starts_with(rest, "true"@)) by {
                assert(rest.take(4)[0] == rest[0]);
            }
            assert(crate::text::starts_with(rest, "false"@));
        },
        None => {
            assert(!crate::text::starts_with(rest, "true"@)) by {
                assert(rest.take(4)[0] == rest[0]);
            }
            assert(!crate::text::starts_with(rest, "false"@)) by {
                if rest.len() >= 5 {
                    assert(rest.take(5)[0] == rest[0]);
                }
            }
            assert(crate::text::starts_with(rest, "null"@));
        },
    }
}

/// The environment reads back.
proof fn lemma_env_reads_back(o: ObservationView)
    ensures
        string_value(line_of(o), "env"@) == Some(o.environment),
{
    let ps = pieces(o);
    let t = line_of(o);
    let k = "env"@;
    reveal_strlit("env");
    reveal_strlit(",\"env\":");
    let m = marker(k);
    assert(plain_key(k));
    lemma_piece_next(o, 6);
    assert(t[offset(ps, 6)] == ',') by {
        assert(t.subrange(offset(ps, 6), offset(ps, 6) + ps[6].len())[0] == t[offset(ps, 6)]);
    }
    lemma_quote_free_clear(t, k, offset(ps, 6), 1);
    assert forall|j: int| 0 <= j < m.len() implies #[trigger] ps[6][1 + j] == m[j] by {
        assert(j == 0 || j == 1 || j == 2 || j == 3 || j == 4 || j == 5);
    }
    lemma_marker_in_piece(o, k, 6, 1);
    lemma_piece_next(o, 7);
    lemma_string_at(t, k, offset(ps, 7), o.environment);
}

/// The status name reads back as the status.
proof fn lemma_status_reads_back(o: ObservationView)
    ensures
        string_value(line_of(o), "status"@) == Some(Some(status_name(o.status))),
{
    let ps = pieces(o);
    let t = line_of(o);
    let k = "status"@;
    reveal_strlit("status");
    reveal_strlit(",\"status\":\"");
    let m = marker(k);
    assert(plain_key(k));
    lemma_piece_next(o, 8);
    assert(t[offset(ps, 8)] == ',') by {
        assert(t.subrange(offset(ps, 8), offset(ps, 8) + ps[8].len())[0] == t[offset(ps, 8)]);
    }
    lemma_quote_free_clear(t, k, offset(ps, 8), 1);
    assert forall|j: int| 0 <= j < m.len() implies #[trigger] ps[8][1 + j] == m[j] by {
        assert(j == 0 || j == 1 || j == 2 || j == 3 || j == 4 || j == 5 || j == 6 || j == 7 || j == 8);
    }
    lemma_marker_in_piece(o, k, 8, 1);
    lemma_quoted_piece(o, 9);
    lemma_status_names(o.status);
    lemma_escaped_plain(status_name(o.status));
    reveal_strlit("\"");
    let v = Some(status_name(o.status));
    assert(json_opt(v) =~= seq!['"'] + ps[9] + seq!['"']);
    assert(offset(ps, 8) + 1 + m.len() == offset(ps, 9) - 1);
    lemma_string_at(t, k, offset(ps, 9) - 1, v);
}

/// The id reads back.
proof fn lemma_id_reads_back(o: ObservationView)
    ensures
        string_value(line_of(o), "id"@) == Some(Some(o.id)),
{
    let ps = pieces(o);
    let t = line_of(o);
    let k = "id"@;
    reveal_strlit("id");
    reveal_strlit("\",\"id\":\"");
    let m = marker(k);
    assert(plain_key(k));
    lemma_line_pieces(o);
    lemma_piece_at(ps, 13, 10);
    lemma_piece_at(ps, 13, 11);
    let a = offset(ps, 10);
    assert(t.subrange(a, a + 2) =~= seq!['"', ',']) by {
        assert(t.subrange(a, a + ps[10].len())[0] == t[a]);
        assert(t.subrange(a, a + ps[10].len())[1] == t[a + 1]);
    }
    assert(t[a + 2] == '"') by {
        assert(t.subrange(a, a + ps[10].len())[2] == t[a + 2]);
    }
    let lead = seq!['"', ','];
    assert(quotes_clear(lead, t[a + 2], k[0])) by {
        assert forall|j: int| 0 <= j < lead.len() && #[trigger] lead[j] == '"' implies (if j + 1 < lead.len() {
            lead[j + 1]
        } else {
            t[a + 2]
        }) != k[0] by {
            assert(j == 0 || j == 1);
        }
    }
    lemma_literal_clear(t, k, a, lead);
    assert forall|j: int| 0 <= j < m.len() implies #[trigger] ps[10][2 + j] == m[j] by {
        assert(j == 0 || j == 1 || j == 2 || j == 3 || j == 4);
    }
    lemma_marker_in_piece(o, k, 10, 2);
    lemma_quoted_piece(o, 11);
    reveal_strlit("\"");
    let v = Some(o.id);
    assert(json_opt(v) =~= seq!['"'] + ps[11] + seq!['"']);
    assert(a + 2 + m.len() == offset(ps, 11) - 1);
    lemma_string_at(t, k, offset(ps, 11) - 1, v);
}

/// A history line reads back as the observation it was written from: for
/// every observation, the line `to_line` writes (`line_of`) is one that
/// `parse_line` reads (`parse_line_spec`) as that same observation.
pub proof fn lemma_line_reads_back(o: ObservationView)
    ensures
        parse_line_spec(line_of(o)) == Some(o),
{
    lemma_at_reads_back(o);
    lemma_commit_reads_back(o);
    lemma_dirty_reads_back(o);
    lemma_env_reads_back(o);
    lemma_status_reads_back(o);
    lemma_id_reads_back(o);
    lemma_status_names(o.status);
}

/// `x` holds no line break.
pub open spec fn no_newline(x: Seq<char>) -> bool {
    forall|j: int| 0 <= j < x.len() ==> #[trigger] x[j] != '\n'
}

/// Joining texts without line breaks makes none.
proof fn lemma_no_newline_join(a: Seq<char>, b: Seq<char>)
    requires
        no_newline(a),
        no_newline(b),
    ensures
        no_newline(a + b),
{
    assert forall|j: int| 0 <= j < (a + b).len() implies #[trigger] (a + b)[j] != '\n' by {
        if j >= a.len() {
            assert(b[j - a.len()] != '\n');
        }
    }
}

/// The fixed pieces of a line hold no line break.
proof fn lemma_literals_no_newline()
    ensures
        no_newline("{\"at\":"@),
        no_newline(",\"commit\":"@),
        no_newline(",\"dirty\":"@),
        no_newline(",\"env\":"@),
        no_newline(",\"status\":\""@),
        no_newline("\",\"id\":\""@),
        no_newline("\"}"@),
        no_newline("true"@),
        no_newline("false"@),
        no_newline("null"@),
        no_newline("\""@),
{
    reveal_strlit("{\"at\":");
    reveal_strlit(",\"commit\":");
    reveal_strlit(",\"dirty\":");
    reveal_strlit(",\"env\":");
    reveal_strlit(",\"status\":\"");
    reveal_strlit("\",\"id\":\"");
    reveal_strlit("\"}");
    reveal_strlit("true");
    reveal_strlit("false");
    reveal_strlit("null");
    reveal_strlit("\"");
    assert forall|j: int| 0 <= j < "{\"at\":"@.len() implies #[trigger] "{\"at\":"@[j] != '\n' by {
        assert(j == 0 || j == 1 || j == 2 || j == 3 || j == 4 || j == 5);
    }
    assert forall|j: int| 0 <= j < ",\"commit\":"@.len() implies #[trigger] ",\"commit\":"@[j] != '\n' by {
        assert(j == 0 || j == 1 || j == 2 || j == 3 || j == 4 || j == 5 || j == 6 || j == 7 || j == 8 || j == 9);
    }
    assert forall|j: int| 0 <= j < ",\"dirty\":"@.len() implies #[trigger] ",\"dirty\":"@[j] != '\n' by {
        assert(j == 0 || j == 1 || j == 2 || j == 3 || j == 4 || j == 5 || j == 6 || j == 7 || j == 8);
    }
    assert forall|j: int| 0 <= j < ",\"env\":"@.len() implies #[trigger] ",\"env\":"@[j] != '\n' by {
        assert(j == 0 || j == 1 || j == 2 || j == 3 || j == 4 || j == 5 || j == 6);
    }
    assert forall|j: int| 0 <= j < ",\"status\":\""@.len() implies #[trigger] ",\"status\":\""@[j] != '\n' by {
        assert(j == 0 || j == 1 || j == 2 || j == 3 || j == 4 || j == 5 || j == 6 || j == 7 || j == 8 || j == 9 || j == 10);
    }
    assert forall|j: int| 0 <= j < "\",\"id\":\""@.len() implies #[trigger] "\",\"id\":\""@[j] != '\n' by {
        assert(j == 0 || j == 1 || j == 2 || j == 3 || j == 4 || j == 5 || j == 6 || j == 7);
    }
    assert forall|j: int| 0 <= j < "\"}"@.len() implies #[trigger] "\"}"@[j] != '\n' by {
        assert(j == 0 || j == 1);
    }
    assert forall|j: int| 0 <= j < "true"@.len() implies #[trigger] "true"@[j] != '\n' by {
        assert(j == 0 || j == 1 || j == 2 || j == 3);
    }
    assert forall|j: int| 0 <= j < "false"@.len() implies #[trigger] "false"@[j] != '\n' by {
        assert(j == 0 || j == 1 || j == 2 || j == 3 || j == 4);
    }
    assert forall|j: int| 0 <= j < "null"@.len() implies #[trigger] "null"@[j] != '\n' by {
        assert(j == 0 || j == 1 || j == 2 || j == 3);
    }
    assert forall|j: int| 0 <= j < "\""@.len() implies #[trigger] "\""@[j] != '\n' by {
        assert(j == 0);
    }
}

/// No character's escape holds a line break.
proof fn lemma_escape_char_no_newline(c: char)
    ensures
        no_newline(escape_char(c)),
{
    if c != '"' && c != '\\' && c != '\n' && c != '\r' && c != '\t' && is_control(c) {
        let n = (c as u32) as nat;
        lemma_hex_digit_plain((n / 4096) % 16);
        lemma_hex_digit_plain((n / 256) % 16);
        lemma_hex_digit_plain((n / 16) % 16);
        lemma_hex_digit_plain(n % 16);
        let e = escape_char(c);
        assert(e =~= seq!['\\', 'u'] + hex4(n));
        assert forall|j: int| 0 <= j < e.len() implies #[trigger] e[j] != '\n' by {
            assert(j == 0 || j == 1 || j == 2 || j == 3 || j == 4 || j == 5);
        }
    } else {
        let e = escape_char(c);
        assert forall|j: int| 0 <= j < e.len() implies #[trigger] e[j] != '\n' by {
            assert(j == 0 || j == 1);
        }
    }
}

/// An escaped string holds no line break.
proof fn lemma_escaped_no_newline(x: Seq<char>)
    ensures
        no_newline(escaped(x)),
    decreases x.len(),
{
    if x.len() > 0 {
        lemma_escaped_no_newline(x.drop_last());
        lemma_escape_char_no_newline(x.last());
        lemma_no_newline_join(escaped(x.drop_last()), escape_char(x.last()));
    }
}

/// Pieces without line breaks join into a text without one.
proof fn lemma_joined_no_newline(ps: Seq<Seq<char>>, n: int)
    requires
        0 <= n <= ps.len(),
        forall|j: int| 0 <= j < n ==> no_newline(#[trigger] ps[j]),
    ensures
        no_newline(joined_pieces(ps, n)),
    decreases n,
{
    if n > 0 {
        lemma_joined_no_newline(ps, n - 1);
        lemma_no_newline_join(joined_pieces(ps, n - 1), ps[n - 1]);
    }
}

/// A history line holds no line break, opens with `{` and closes with `}`.
proof fn lemma_line_shape(o: ObservationView)
    ensures
        no_newline(line_of(o)),
        line_of(o).len() > 0,
        line_of(o)[0] == '{',
        line_of(o).last() == '}',
{
    reveal_strlit("{\"at\":");
    reveal_strlit("\"}");
    lemma_literals_no_newline();
    lemma_decimal_digits(o.at_epoch_secs as nat);
    lemma_status_names(o.status);
    let d = decimal(o.at_epoch_secs as nat);
    assert(no_newline(d)) by {
        assert forall|j: int| 0 <= j < d.len() implies #[trigger] d[j] != '\n' by {
            assert(is_digit(d[j]));
        }
    }
    lemma_escaped_no_newline(o.id);
    assert(no_newline(json_opt(o.commit))) by {
        if let Some(x) = o.commit {
            lemma_escaped_no_newline(x);
            lemma_no_newline_join("\""@, escaped(x));
            lemma_no_newline_join("\""@ + escaped(x), "\""@);
        }
    }
    assert(no_newline(json_opt(o.environment))) by {
        if let Some(x) = o.environment {
            lemma_escaped_no_newline(x);
            lemma_no_newline_join("\""@, escaped(x));
            lemma_no_newline_join("\""@ + escaped(x), "\""@);
        }
    }
    assert(no_newline(json_bool(o.dirty)));
    assert(no_newline(status_name(o.status))) by {
        let s = status_name(o.status);
        assert forall|j: int| 0 <= j < s.len() implies #[trigger] s[j] != '\n' by {
            assert('a' <= s[j] && s[j] <= 'z');
        }
    }
    let ps = pieces(o);
    assert forall|j: int| 0 <= j < 13 implies no_newline(#[trigger] ps[j]) by {
        assert(j == 0 || j == 1 || j == 2 || j == 3 || j == 4 || j == 5 || j == 6 || j == 7 || j == 8 || j == 9
            || j == 10 || j == 11 || j == 12);
    }
    lemma_joined_no_newline(ps, 13);
    lemma_line_pieces(o);
    let t = line_of(o);
    lemma_piece_at(ps, 13, 0);
    lemma_piece_at(ps, 13, 12);
    assert(t.subrange(0, ps[0].len() as int)[0] == t[0]);
    assert(offset(ps, 12) + 2 == t.len());
    assert(t.subrange(offset(ps, 12), offset(ps, 12) + 2)[1] == t[t.len() - 1]);
}

/// The first line break of a line, a break and anything after it is the
/// one after the line.
proof fn lemma_first_newline(l: Seq<char>, r: Seq<char>)
    requires
        no_newline(l),
    ensures
        find_from(l + seq!['\n'] + r, seq!['\n'], 0) == Some(l.len() as int),
{
    let t = l + seq!['\n'] + r;
    let m = seq!['\n'];
    assert(t.subrange(l.len() as int, l.len() + 1int) =~= m);
    assert forall|q: int| 0 <= q < l.len() && q + m.len() <= t.len() implies #[trigger] t.subrange(q, q + m.len()) != m by {
        assert(t.subrange(q, q + 1)[0] == t[q]);
        assert(t[q] == l[q]);
    }
    lemma_find_first(t, m, 0, l.len() as int);
}

/// A history file whose lines were written from observations (what
/// `append_text` writes) reads back (by `load_text`) as those observations,
/// in order, with no line skipped.
pub proof fn lemma_history_reads_back(os: Seq<ObservationView>)
    ensures
        history_of(history_text(os), false) == (os, 0nat),
    decreases os.len(),
{
    if os.len() == 0 {
        assert(history_text(os) =~= Seq::<char>::empty());
        assert(os =~= Seq::<ObservationView>::empty());
    } else {
        let o = os[0];
        let l = line_of(o);
        let r = history_text(os.drop_first());
        let t = l + seq!['\n'] + r;
        assert(history_text(os) == t);
        lemma_line_shape(o);
        lemma_first_newline(l, r);
        assert(t.take(l.len() as int) =~= l);
        assert(t.skip(l.len() + 1int) =~= r);
        assert(strip_cr(l) == l);
        let ls = seq![l] + split_lines(r);
        assert(split_lines(t) == ls);
        lemma_history_reads_back(os.drop_first());
        assert(ls.drop_first() =~= split_lines(r));
        assert(ls[0] == l);
        assert(trim_start(l) == l);
        assert(trim_end(l) == l);
        assert(trim(l).len() > 0);
        lemma_line_reads_back(o);
        assert(seq![o] + os.drop_first() =~= os);
    }
}

/// A tail of a history file, cut inside its first line, reads back as the
/// observations of the whole lines after the cut, with no line skipped.
pub proof fn lemma_history_tail_reads_back(cut: Seq<char>, os: Seq<ObservationView>)
    requires
        no_newline(cut),
    ensures
        history_of(cut + seq!['\n'] + history_text(os), true) == (os, 0nat),
{
    let r = history_text(os);
    let t = cut + seq!['\n'] + r;
    lemma_first_newline(cut, r);
    assert(t.skip(cut.len() + 1int) =~= r);
    lemma_history_reads_back(os);
}

/// Sixteen to the `w`: one past the largest number `w` hexadecimal digits
/// write.
pub open spec fn hex_cap(w: nat) -> nat
    decreases w,
{
    if w == 0 {
        1
    } else {
        16 * hex_cap((w - 1) as nat)
    }
}

/// A fixed-width hexadecimal numeral is all hexadecimal digits, and reads
/// back as its number when the number fits the width.
proof fn lemma_hex_fixed(n: nat, w: nat)
    ensures
        hex_fixed(n, w).len() == w,
        forall|j: int| 0 <= j < w ==> hex_value(#[trigger] hex_fixed(n, w)[j]) is Some,
        n < hex_cap(w) ==> hex_digits(hex_fixed(n, w)) == Some(n),
    decreases w,
{
    if w > 0 {
        lemma_hex_fixed(n / 16, (w - 1) as nat);
        lemma_hex_digit_plain(n % 16);
        let s = hex_fixed(n, w);
        assert(s.drop_last() =~= hex_fixed(n / 16, (w - 1) as nat));
        assert(s.last() == hex_digit(n % 16));
        assert forall|j: int| 0 <= j < w implies hex_value(#[trigger] s[j]) is Some by {
            if j < w - 1 {
                assert(s[j] == hex_fixed(n / 16, (w - 1) as nat)[j]);
            }
        }
        if n < hex_cap(w) {
            assert(n / 16 < hex_cap((w - 1) as nat));
            assert((n / 16) * 16 + n % 16 == n);
        }
    } else {
        assert(hex_fixed(n, w) =~= Seq::<char>::empty());
    }
}

/// A hexadecimal digit is not whitespace, a line break or a plus sign.
proof fn lemma_hex_char_plain(c: char)
    requires
        hex_value(c) is Some,
    ensures
        !crate::decimal::is_space(c),
        c != '\n',
        c != '+',
{
}

/// The word a run of non-space characters starts, when a space follows it.
proof fn lemma_word_from(d: Seq<char>, r: Seq<char>)
    requires
        forall|j: int| 0 <= j < d.len() ==> !crate::decimal::is_space(#[trigger] d[j]),
        r.len() > 0,
        crate::decimal::is_space(r[0]),
    ensures
        word_from(d + r) == d,
    decreases d.len(),
{
    if d.len() > 0 {
        assert((d + r).drop_first() =~= d.drop_first() + r);
        lemma_word_from(d.drop_first(), r);
        assert(seq![d[0]] + d.drop_first() =~= d);
    } else {
        assert(d + r =~= r);
    }
}

/// A ledger line gives back the hash it records, whatever the name.
pub proof fn lemma_ledger_line_reads_back(hash: u64, name: Seq<char>)
    ensures
        ledger_hash_spec(ledger_line_spec(hash, name)) == Some(hash),
{
    reveal_strlit(" ");
    let h = hex_fixed(hash as nat, 16);
    let l = ledger_line_spec(hash, name);
    lemma_hex_fixed(hash as nat, 16);
    assert(hex_cap(16) == 0x1_0000_0000_0000_0000) by {
        reveal_with_fuel(hex_cap, 17);
    }
    assert forall|j: int| 0 <= j < h.len() implies !crate::decimal::is_space(#[trigger] h[j]) by {
        lemma_hex_char_plain(h[j]);
    }
    let r = " "@ + name;
    assert(l =~= h + r);
    lemma_word_from(h, r);
    lemma_hex_char_plain(h[0]);
    assert(l[0] == h[0]);
    assert(first_word(l) == word_from(l));
}

/// A ledger line holds no line break when its name holds none.
proof fn lemma_ledger_line_shape(hash: u64, name: Seq<char>)
    requires
        no_newline(name),
    ensures
        no_newline(ledger_line_spec(hash, name)),
        ledger_hash_spec(strip_cr(ledger_line_spec(hash, name))) == Some(hash),
{
    reveal_strlit(" ");
    let h = hex_fixed(hash as nat, 16);
    let l = ledger_line_spec(hash, name);
    lemma_hex_fixed(hash as nat, 16);
    assert(no_newline(h)) by {
        assert forall|j: int| 0 <= j < h.len() implies #[trigger] h[j] != '\n' by {
            lemma_hex_char_plain(h[j]);
        }
    }
    assert(no_newline(" "@)) by {
        assert forall|j: int| 0 <= j < " "@.len() implies #[trigger] " "@[j] != '\n' by {
            assert(j == 0);
        }
    }
    lemma_no_newline_join(h, " "@);
    lemma_no_newline_join(h + " "@, name);
    lemma_ledger_line_reads_back(hash, name);
    if name.len() > 0 && name.last() == '\r' {
        assert(strip_cr(l) =~= ledger_line_spec(hash, name.drop_last()));
        lemma_ledger_line_reads_back(hash, name.drop_last());
    } else {
        assert(l.last() != '\r');
        assert(strip_cr(l) == l);
    }
}

/// The hashes of lines, the first one's ahead of the rest's.
proof fn lemma_ledger_hashes_front(l: Seq<char>, rest: Seq<Seq<char>>)
    ensures
        ledger_hashes_spec(seq![l] + rest) == match ledger_hash_spec(l) {
            Some(h) => seq![h],
            None => Seq::<u64>::empty(),
        } + ledger_hashes_spec(rest),
    decreases rest.len(),
{
    let head = match ledger_hash_spec(l) {
        Some(h) => seq![h],
        None => Seq::<u64>::empty(),
    };
    if rest.len() == 0 {
        let one = seq![l] + rest;
        assert(one.drop_last() =~= Seq::<Seq<char>>::empty());
        assert(one.last() == l);
        assert(ledger_hashes_spec(Seq::<Seq<char>>::empty()) == Seq::<u64>::empty());
        assert(ledger_hashes_spec(one) == ledger_hashes_spec(one.drop_last()) + head);
        assert(ledger_hashes_spec(one) =~= head);
        assert(ledger_hashes_spec(rest) == Seq::<u64>::empty());
        assert(head + ledger_hashes_spec(rest) =~= head);
    } else {
        let all = seq![l] + rest;
        lemma_ledger_hashes_front(l, rest.drop_last());
        assert(all.drop_last() =~= seq![l] + rest.drop_last());
        assert(all.last() == rest.last());
        let tail = match ledger_hash_spec(rest.last()) {
            Some(h) => seq![h],
            None => Seq::<u64>::empty(),
        };
        assert(ledger_hashes_spec(all) == ledger_hashes_spec(all.drop_last()) + tail);
        assert(ledger_hashes_spec(rest) == ledger_hashes_spec(rest.drop_last()) + tail);
        assert(head + ledger_hashes_spec(rest.drop_last()) + tail =~= head + (ledger_hashes_spec(rest.drop_last())
            + tail));
    }
}

/// An import ledger (what `ledger_append_text` writes) gives back (by
/// `ledger_hashes`) the hash of every file it records, in order, so a file
/// imported once is known the next time: its names may hold anything but a
/// line break.
pub proof fn lemma_ledger_reads_back(entries: Seq<(u64, Seq<char>)>)
    requires
        forall|i: int| 0 <= i < entries.len() ==> no_newline(#[trigger] entries[i].1),
    ensures
        ledger_hashes_spec(split_lines(ledger_text(entries))) == entries.map_values(|e: (u64, Seq<char>)| e.0),
    decreases entries.len(),
{
    if entries.len() == 0 {
        assert(ledger_text(entries) =~= Seq::<char>::empty());
        assert(entries.map_values(|e: (u64, Seq<char>)| e.0) =~= Seq::<u64>::empty());
    } else {
        let e = entries[0];
        let rest = entries.drop_first();
        let l = ledger_line_spec(e.0, e.1);
        let r = ledger_text(rest);
        let t = l + seq!['\n'] + r;
        assert(ledger_text(entries) == t);
        assert(no_newline(e.1));
        lemma_ledger_line_shape(e.0, e.1);
        lemma_first_newline(l, r);
        assert(t.take(l.len() as int) =~= l);
        assert(t.skip(l.len() + 1int) =~= r);
        assert(split_lines(t) == seq![strip_cr(l)] + split_lines(r));
        assert forall|i: int| 0 <= i < rest.len() implies no_newline(#[trigger] rest[i].1) by {
            assert(rest[i] == entries[i + 1]);
        }
        lemma_ledger_reads_back(rest);
        lemma_ledger_hashes_front(strip_cr(l), split_lines(r));
        assert(entries.map_values(|e: (u64, Seq<char>)| e.0) =~= seq![e.0] + rest.map_values(
            |e: (u64, Seq<char>)| e.0,
        ));
    }
}

} // verus!
