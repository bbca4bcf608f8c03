//! Decimal numerals read exactly: digit strings and their values, and a
//! count of seconds (as runners write a `time` attribute) read to the
//! nanosecond.

use vstd::prelude::*;

use crate::text::chars_of;

verus! {

/// An ASCII decimal digit.
pub open spec fn is_digit(c: char) -> bool {
    '0' <= c && c <= '9'
}

/// The value of a digit character.
pub open spec fn dval(c: char) -> nat {
    ((c as u32) - ('0' as u32)) as nat
}

/// Ten to the `n`.
pub open spec fn pow10(n: nat) -> nat
    decreases n,
{
    if n == 0 {
        1
    } else {
        10 * pow10((n - 1) as nat)
    }
}

/// Every character is a digit.
pub open spec fn all_digits(s: Seq<char>) -> bool {
    forall|i: int| 0 <= i < s.len() ==> is_digit(#[trigger] s[i])
}

/// The value of a digit string (most significant digit first).
pub open spec fn digits_value(s: Seq<char>) -> nat
    decreases s.len(),
{
    if s.len() == 0 {
        0
    } else {
        digits_value(s.drop_last()) * 10 + dval(s.last())
    }
}

/// The length of the run of digits `s` starts with.
pub open spec fn digit_run(s: Seq<char>) -> nat
    decreases s.len(),
{
    if s.len() > 0 && is_digit(s[0]) {
        1 + digit_run(s.drop_first())
    } else {
        0
    }
}

/// The characters `char::is_whitespace` accepts (Unicode `White_Space`).
pub open spec fn is_space(c: char) -> bool {
    ('\u{9}' <= c && c <= '\u{d}') || c == ' ' || c == '\u{85}' || c == '\u{a0}' || c == '\u{1680}'
        || ('\u{2000}' <= c && c <= '\u{200a}') || c == '\u{2028}' || c == '\u{2029}' || c == '\u{202f}'
        || c == '\u{205f}' || c == '\u{3000}'
}

/// `s` without leading whitespace.
pub open spec fn trim_start(s: Seq<char>) -> Seq<char>
    decreases s.len(),
{
    if s.len() > 0 && is_space(s[0]) {
        trim_start(s.drop_first())
    } else {
        s
    }
}

/// `s` without trailing whitespace.
pub open spec fn trim_end(s: Seq<char>) -> Seq<char>
    decreases s.len(),
{
    if s.len() > 0 && is_space(s.last()) {
        trim_end(s.drop_last())
    } else {
        s
    }
}

/// `s` without surrounding whitespace (`str::trim`).
pub open spec fn trim(s: Seq<char>) -> Seq<char> {
    trim_end(trim_start(s))
}

/// `s` with every decimal comma turned into a decimal point.
pub open spec fn dots(s: Seq<char>) -> Seq<char> {
    s.map_values(|c: char| if c == ',' { '.' } else { c })
}

/// An unsigned decimal number as `str::parse::<f64>` reads one: integer
/// digits, optionally a point and fraction digits (at least one digit in
/// all), optionally an exponent `e`/`E` with an optional sign and at least
/// one digit. Gives the integer digits, the fraction digits and the
/// exponent; `None` when `s` is not such a number.
pub open spec fn number_parts(s: Seq<char>) -> Option<(Seq<char>, Seq<char>, int)> {
    let (ip, fp, tail) = mantissa(s);
    if ip.len() + fp.len() == 0 {
        None
    } else if tail.len() == 0 {
        Some((ip, fp, 0))
    } else if tail[0] == 'e' || tail[0] == 'E' {
        match exponent_of(tail.skip(1)) {
            Some(e) => Some((ip, fp, e)),
            None => None,
        }
    } else {
        None
    }
}

/// The leading integer digits of `s`, the fraction digits after a point
/// that follows them (empty without a point), and what is left.
pub open spec fn mantissa(s: Seq<char>) -> (Seq<char>, Seq<char>, Seq<char>) {
    let ip = s.take(digit_run(s) as int);
    let rest = s.skip(digit_run(s) as int);
    if rest.len() > 0 && rest[0] == '.' {
        let after = rest.skip(1);
        (ip, after.take(digit_run(after) as int), after.skip(digit_run(after) as int))
    } else {
        (ip, Seq::empty(), rest)
    }
}

/// The value of an exponent's text after the `e`: an optional sign and at
/// least one digit.
pub open spec fn exponent_of(t: Seq<char>) -> Option<int> {
    let signed = t.len() > 0 && (t[0] == '+' || t[0] == '-');
    let u = if signed { t.skip(1) } else { t };
    if u.len() > 0 && all_digits(u) {
        Some(if signed && t[0] == '-' { -(digits_value(u) as int) } else { digits_value(u) as int })
    } else {
        None
    }
}

/// The longest duration, in nanoseconds: `u64::MAX` seconds and
/// 999 999 999 nanoseconds.
pub const MAX_NANOS: u128 = 18446744073709551615999999999;

/// Exponents beyond this size (`2^100`) leave nothing but zero or an
/// overflow.
pub const EXPONENT_CAP: u128 = 1267650600228229401496703205376;

/// `m` times ten to the `shift`, rounded half up to an integer.
pub open spec fn scaled(m: nat, shift: int) -> nat {
    if shift >= 0 {
        m * pow10(shift as nat)
    } else {
        (2 * m + pow10((-shift) as nat)) / (2 * pow10((-shift) as nat))
    }
}

/// A `time` attribute in nanoseconds: the trimmed text, decimal comma read
/// as a point, as an exact decimal number of seconds rounded half up to the
/// nanosecond. Anything that is not a finite, non-negative number that fits
/// a duration (negative values, `inf`, `nan`, words, the empty string) reads
/// as zero.
pub open spec fn seconds_nanos(v: Seq<char>) -> u128 {
    let t = dots(trim(v));
    let signed = t.len() > 0 && (t[0] == '+' || t[0] == '-');
    let body = if signed { t.skip(1) } else { t };
    if signed && t[0] == '-' {
        0
    } else {
        match number_parts(body) {
            None => 0,
            Some(parts) => {
                let n = scaled(digits_value(parts.0 + parts.1), 9 + parts.2 - parts.1.len());
                if n > MAX_NANOS {
                    0
                } else {
                    n as u128
                }
            },
        }
    }
}

proof fn lemma_pow10_29()
    ensures
        pow10(29) == 100000000000000000000000000000,
        pow10(30) == 1000000000000000000000000000000,
{
    reveal_with_fuel(pow10, 31);
}

pub proof fn lemma_pow10_positive(n: nat)
    ensures
        pow10(n) >= 1,
    decreases n,
{
    if n > 0 {
        lemma_pow10_positive((n - 1) as nat);
    }
}

proof fn lemma_pow10_adds(a: nat, b: nat)
    ensures
        pow10(a + b) == pow10(a) * pow10(b),
    decreases a,
{
    if a > 0 {
        let a1 = (a - 1) as nat;
        lemma_pow10_adds(a1, b);
        let pa = pow10(a1);
        let pb = pow10(b);
        assert(pow10(a1 + b) == pa * pb);
        assert(pow10(a) == 10 * pa);
        assert(pow10(a + b) == 10 * pow10(a1 + b));
        assert(10 * (pa * pb) == (10 * pa) * pb) by (nonlinear_arith);
        assert(pow10(a) * pb == (10 * pa) * pb);
    } else {
        assert(pow10(0) == 1);
        assert(pow10(a) * pow10(b) == pow10(b)) by (nonlinear_arith)
            requires
                pow10(a) == 1,
        ;
    }
}

pub proof fn lemma_pow10_monotone(a: nat, b: nat)
    requires
        a <= b,
    ensures
        pow10(a) <= pow10(b),
    decreases b,
{
    if a < b {
        lemma_pow10_monotone(a, (b - 1) as nat);
        lemma_pow10_positive((b - 1) as nat);
    }
}

/// A digit string is worth less than ten to its length.
pub proof fn lemma_value_bound(s: Seq<char>)
    requires
        all_digits(s),
    ensures
        digits_value(s) < pow10(s.len()),
    decreases s.len(),
{
    if s.len() > 0 {
        let init = s.drop_last();
        assert(all_digits(init)) by {
            assert forall|i: int| 0 <= i < init.len() implies is_digit(#[trigger] init[i]) by {
                assert(init[i] == s[i]);
            }
        }
        lemma_value_bound(init);
        assert(is_digit(s[s.len() - 1]));
        assert(dval(s.last()) <= 9);
        assert(digits_value(init) + 1 <= pow10(init.len()));
        assert(digits_value(init) * 10 + 10 <= pow10(init.len()) * 10) by (nonlinear_arith)
            requires
                digits_value(init) + 1 <= pow10(init.len()),
        ;
    }
}

/// Digit strings concatenate by place value.
pub proof fn lemma_value_concat(a: Seq<char>, b: Seq<char>)
    ensures
        digits_value(a + b) == digits_value(a) * pow10(b.len()) + digits_value(b),
    decreases b.len(),
{
    if b.len() == 0 {
        assert(a + b =~= a);
        assert(pow10(0) == 1);
        assert(digits_value(b) == 0);
        assert(digits_value(a) * pow10(b.len()) == digits_value(a)) by (nonlinear_arith)
            requires
                pow10(b.len()) == 1,
        ;
    } else {
        let b0 = b.drop_last();
        lemma_value_concat(a, b0);
        assert((a + b).drop_last() =~= a + b0);
        assert((a + b).last() == b.last());
        let va = digits_value(a);
        let p = pow10(b0.len());
        let v0 = digits_value(b0);
        let l = dval(b.last());
        assert(pow10(b.len()) == 10 * p);
        assert(digits_value(a + b) == digits_value(a + b0) * 10 + l);
        assert(digits_value(a + b0) == va * p + v0);
        assert(digits_value(b) == v0 * 10 + l);
        assert((va * p + v0) * 10 + l == va * (10 * p) + (v0 * 10 + l)) by (nonlinear_arith);
        assert(va * pow10(b.len()) == va * (10 * p));
    }
}

/// A digit string that does not start with zero is worth at least ten to
/// its length less one.
proof fn lemma_value_lower(s: Seq<char>)
    requires
        all_digits(s),
        s.len() > 0,
        s[0] != '0',
    ensures
        digits_value(s) >= pow10((s.len() - 1) as nat),
{
    let head = s.take(1);
    let tail = s.skip(1);
    assert(s =~= head + tail);
    lemma_value_concat(head, tail);
    assert(head.drop_last().len() == 0);
    assert(digits_value(head.drop_last()) == 0);
    assert(head.last() == s[0]);
    assert(is_digit(s[0]));
    assert(digits_value(head) == dval(s[0]));
    assert(dval(s[0]) >= 1);
    lemma_pow10_positive(tail.len());
    assert(digits_value(head) * pow10(tail.len()) >= pow10(tail.len())) by (nonlinear_arith)
        requires
            digits_value(head) >= 1,
    ;
}

/// Leading zeros are worth nothing.
proof fn lemma_value_zeros(s: Seq<char>, z: int)
    requires
        0 <= z <= s.len(),
        forall|i: int| 0 <= i < z ==> s[i] == '0',
    ensures
        digits_value(s) == digits_value(s.skip(z)),
{
    let zs = s.take(z);
    assert(s =~= zs + s.skip(z));
    lemma_value_concat(zs, s.skip(z));
    lemma_zero_value(zs);
}

proof fn lemma_zero_value(s: Seq<char>)
    requires
        forall|i: int| 0 <= i < s.len() ==> s[i] == '0',
    ensures
        digits_value(s) == 0,
    decreases s.len(),
{
    if s.len() > 0 {
        lemma_zero_value(s.drop_last());
    }
}

/// Rounding half up at a digit: the kept digits, plus one when the first
/// dropped digit is five or more.
proof fn lemma_round_at(s: Seq<char>, keep: int)
    requires
        all_digits(s),
        0 <= keep < s.len(),
    ensures
        scaled(digits_value(s), -(s.len() - keep)) == digits_value(s.take(keep)) + if dval(s[keep]) >= 5 {
            1nat
        } else {
            0nat
        },
{
    let k = (s.len() - keep) as nat;
    let q = s.take(keep);
    let r = s.skip(keep);
    assert(s =~= q + r);
    lemma_value_concat(q, r);
    let r0 = r.take(1);
    let r1 = r.skip(1);
    assert(r =~= r0 + r1);
    lemma_value_concat(r0, r1);
    assert(r0.drop_last().len() == 0);
    assert(digits_value(r0.drop_last()) == 0);
    assert(r0.last() == s[keep]);
    assert(digits_value(r0) == dval(s[keep]));
    assert(all_digits(r1)) by {
        assert forall|i: int| 0 <= i < r1.len() implies is_digit(#[trigger] r1[i]) by {
            assert(r1[i] == s[keep + 1 + i]);
        }
    }
    lemma_value_bound(r1);
    assert(is_digit(s[keep]));
    let p = pow10(r1.len());
    assert(pow10(k) == 10 * p);
    let qv = digits_value(q);
    let d = dval(s[keep]);
    let rest = digits_value(r1);
    let m = digits_value(s);
    assert(m == qv * (10 * p) + (d * p + rest));
    assert(-(s.len() - keep) < 0);
    assert(scaled(m, -(s.len() - keep)) == (2 * m + 10 * p) / (2 * (10 * p)));
    lemma_pow10_positive(r1.len());
    let up: nat = if d >= 5 { 1 } else { 0 };
    assert((2 * m + 10 * p) / (2 * (10 * p)) == qv + up) by (nonlinear_arith)
        requires
            m == qv * (10 * p) + (d * p + rest),
            rest < p,
            p >= 1,
            d <= 9,
            up == if d >= 5 { 1nat } else { 0nat },
    {
        let num = 2 * m + 10 * p;
        let den = 2 * (10 * p);
        assert(num == qv * den + (2 * d * p + 2 * rest + 10 * p));
        if d >= 5 {
            assert(2 * d * p + 2 * rest + 10 * p >= den);
            assert(2 * d * p + 2 * rest + 10 * p < 2 * den);
            assert(num == (qv + 1) * den + (2 * d * p + 2 * rest + 10 * p - den));
        } else {
            assert(2 * d * p + 2 * rest + 10 * p < den);
        }
    }
}

/// An exponent beyond `2^100` leaves nothing that fits a duration but zero.
proof fn lemma_far_exponent(d: Seq<char>, f: nat, e: int)
    requires
        all_digits(d),
        f <= d.len() <= usize::MAX,
        e > EXPONENT_CAP || e < -EXPONENT_CAP,
    ensures
        scaled(digits_value(d), 9 + e - f) == 0 || scaled(digits_value(d), 9 + e - f) > MAX_NANOS,
{
    let m = digits_value(d);
    lemma_pow10_29();
    lemma_value_bound(d);
    assert(usize::MAX < EXPONENT_CAP - 100);
    if e > 0 {
        let shift = (9 + e - f) as nat;
        lemma_pow10_monotone(29, shift);
        assert(scaled(m, 9 + e - f) == m * pow10(shift));
        if m > 0 {
            assert(m * pow10(shift) >= pow10(shift)) by (nonlinear_arith)
                requires
                    m >= 1,
            ;
        } else {
            assert(m * pow10(shift) == 0) by (nonlinear_arith)
                requires
                    m == 0,
            ;
        }
    } else {
        let k = (f - e - 9) as nat;
        lemma_pow10_monotone(d.len() + 1, k);
        assert(pow10(d.len() + 1) == 10 * pow10(d.len()));
        assert(scaled(m, 9 + e - f) == (2 * m + pow10(k)) / (2 * pow10(k)));
        assert((2 * m + pow10(k)) / (2 * pow10(k)) == 0) by (nonlinear_arith)
            requires
                m < pow10(d.len()),
                10 * pow10(d.len()) <= pow10(k),
        ;
    }
}

/// Whether `c` is whitespace (`char::is_whitespace`).
pub fn is_whitespace(c: char) -> (r: bool)
    ensures
        r == is_space(c),
{
    ('\u{9}' <= c && c <= '\u{d}') || c == ' ' || c == '\u{85}' || c == '\u{a0}' || c == '\u{1680}'
        || ('\u{2000}' <= c && c <= '\u{200a}') || c == '\u{2028}' || c == '\u{2029}' || c == '\u{202f}'
        || c == '\u{205f}' || c == '\u{3000}'
}

/// How many characters from `from` on are digits, in a row.
pub fn digit_run_at(t: &Vec<char>, from: usize) -> (a: usize)
    requires
        from <= t.len(),
    ensures
        a == digit_run(t@.skip(from as int)),
        from + a <= t.len(),
        forall|i: int| from <= i < from + a ==> is_digit(#[trigger] t@[i]),
        from + a < t.len() ==> !is_digit(t@[from + a]),
{
    let mut k: usize = from;
    while k < t.len() && '0' <= t[k] && t[k] <= '9'
        invariant
            from <= k <= t.len(),
            digit_run(t@.skip(from as int)) == (k - from) + digit_run(t@.skip(k as int)),
            forall|i: int| from <= i < k ==> is_digit(#[trigger] t@[i]),
        decreases t.len() - k,
    {
        assert(t@.skip(k as int)[0] == t@[k as int]);
        assert(t@.skip(k as int).drop_first() =~= t@.skip(k + 1));
        k += 1;
    }
    proof {
        if k < t.len() {
            assert(t@.skip(k as int)[0] == t@[k as int]);
        }
    }
    k - from
}

/// The positions of `s` once surrounding whitespace is dropped.
pub fn trim_bounds(s: &Vec<char>) -> (r: (usize, usize))
    ensures
        r.0 <= r.1 <= s.len(),
        s@.subrange(r.0 as int, r.1 as int) == trim(s@),
{
    let mut lo: usize = 0;
    assert(s@.skip(0) =~= s@);
    while lo < s.len() && is_whitespace(s[lo])
        invariant
            lo <= s.len(),
            trim_start(s@) == trim_start(s@.skip(lo as int)),
        decreases s.len() - lo,
    {
        assert(s@.skip(lo as int)[0] == s@[lo as int]);
        assert(s@.skip(lo as int).drop_first() =~= s@.skip(lo + 1));
        lo += 1;
    }
    proof {
        if lo < s.len() {
            assert(s@.skip(lo as int)[0] == s@[lo as int]);
        }
    }
    let ghost ts = s@.skip(lo as int);
    assert(trim_start(s@) == ts);
    let mut hi: usize = s.len();
    assert(ts.take((hi - lo) as int) =~= ts);
    while hi > lo && is_whitespace(s[hi - 1])
        invariant
            lo <= hi <= s.len(),
            ts == s@.skip(lo as int),
            trim_end(ts) == trim_end(ts.take((hi - lo) as int)),
        decreases hi - lo,
    {
        let ghost cur = ts.take((hi - lo) as int);
        assert(cur.last() == s@[hi - 1]);
        assert(cur.drop_last() =~= ts.take((hi - 1 - lo) as int));
        hi -= 1;
    }
    proof {
        let cur = ts.take((hi - lo) as int);
        if hi > lo {
            assert(cur.last() == s@[hi - 1]);
        }
        assert(cur =~= s@.subrange(lo as int, hi as int));
    }
    (lo, hi)
}

/// Ten to the `n`, for small `n`.
fn pow10_exec(n: u32) -> (p: u128)
    requires
        n <= 30,
    ensures
        p == pow10(n as nat),
{
    let mut p: u128 = 1;
    let mut i: u32 = 0;
    proof {
        lemma_pow10_29();
    }
    while i < n
        invariant
            i <= n <= 30,
            p == pow10(i as nat),
            p <= pow10(30),
            pow10(30) == 1000000000000000000000000000000,
        decreases n - i,
    {
        proof {
            lemma_pow10_monotone((i + 1) as nat, 30);
        }
        p = p * 10;
        i += 1;
    }
    p
}

/// The value of `d[from..to]`, which has at most 30 digits.
fn value_of(d: &Vec<char>, from: usize, to: usize) -> (v: u128)
    requires
        from <= to <= d.len(),
        to - from <= 30,
        all_digits(d@),
    ensures
        v == digits_value(d@.subrange(from as int, to as int)),
{
    let mut v: u128 = 0;
    let mut i: usize = from;
    while i < to
        invariant
            from <= i <= to <= d.len(),
            to - from <= 30,
            all_digits(d@),
            v == digits_value(d@.subrange(from as int, i as int)),
        decreases to - i,
    {
        let ghost part = d@.subrange(from as int, i as int);
        proof {
            assert(all_digits(part)) by {
                assert forall|j: int| 0 <= j < part.len() implies is_digit(#[trigger] part[j]) by {
                    assert(part[j] == d@[from + j]);
                }
            }
            lemma_value_bound(part);
            lemma_pow10_monotone(part.len(), 29);
            lemma_pow10_29();
            assert(d@.subrange(from as int, i + 1).drop_last() =~= part);
            assert(is_digit(d@[i as int]));
        }
        let digit = (d[i] as u32 - '0' as u32) as u128;
        v = v * 10 + digit;
        i += 1;
    }
    v
}

/// `digits_value(d) * 10^shift`, rounded half up, when it is at most
/// `MAX_NANOS`.
fn scale(d: &Vec<char>, shift: i128) -> (r: Option<u128>)
    requires
        all_digits(d@),
        -4 * EXPONENT_CAP <= shift <= 4 * EXPONENT_CAP,
    ensures
        match r {
            Some(n) => n == scaled(digits_value(d@), shift as int) && n <= MAX_NANOS,
            None => scaled(digits_value(d@), shift as int) > MAX_NANOS,
        },
{
    let mut z: usize = 0;
    while z < d.len() && d[z] == '0'
        invariant
            z <= d.len(),
            forall|i: int| 0 <= i < z ==> d@[i] == '0',
        decreases d.len() - z,
    {
        z += 1;
    }
    proof {
        lemma_value_zeros(d@, z as int);
    }
    let ghost tail = d@.skip(z as int);
    let ghost m = digits_value(d@);
    assert(m == digits_value(tail));
    assert(all_digits(tail)) by {
        assert forall|i: int| 0 <= i < tail.len() implies is_digit(#[trigger] tail[i]) by {
            assert(tail[i] == d@[z + i]);
        }
    }
    let len: usize = d.len() - z;
    proof {
        lemma_pow10_29();
    }
    assert(MAX_NANOS < pow10(29));
    if len == 0 {
        assert(tail.len() == 0);
        assert(m == 0);
        proof {
            lemma_pow10_positive((-shift) as nat);
            if shift < 0 {
                let p = pow10((-shift) as nat);
                assert(p / (2 * p) == 0) by (nonlinear_arith)
                    requires
                        p >= 1,
                ;
            }
        }
        return Some(0);
    }
    proof {
        assert(tail[0] == d@[z as int]);
        lemma_value_lower(tail);
        lemma_value_bound(tail);
    }
    if shift >= 0 {
        if shift > 29 || len as i128 + shift > 29 {
            proof {
                let e = (tail.len() - 1 + shift) as nat;
                lemma_pow10_adds((tail.len() - 1) as nat, shift as nat);
                lemma_pow10_monotone(29, e);
                assert(m * pow10(shift as nat) >= pow10((tail.len() - 1) as nat) * pow10(shift as nat))
                    by (nonlinear_arith)
                    requires
                        m >= pow10((tail.len() - 1) as nat),
                ;
            }
            return None;
        }
        let mv = value_of(d, z, d.len());
        assert(d@.subrange(z as int, d.len() as int) =~= tail);
        let p = pow10_exec(shift as u32);
        proof {
            lemma_pow10_positive(shift as nat);
            lemma_pow10_adds(tail.len(), shift as nat);
            lemma_pow10_monotone(tail.len() + shift as nat, 29);
            assert(m * pow10(shift as nat) < pow10(tail.len()) * pow10(shift as nat)) by (nonlinear_arith)
                requires
                    m < pow10(tail.len()),
                    pow10(shift as nat) >= 1,
            ;
            lemma_pow10_positive(shift as nat);
        }
        let n = mv * p;
        if n > MAX_NANOS {
            return None;
        }
        return Some(n);
    }
    // shift < 0: keep the leading digits, round at the first dropped one
    let k: i128 = -shift;
    let keep: i128 = len as i128 - k;
    if keep < 0 {
        proof {
            let kk = k as nat;
            lemma_pow10_monotone(tail.len() + 1, kk);
            assert(pow10(tail.len() + 1) == 10 * pow10(tail.len()));
            assert((2 * m + pow10(kk)) / (2 * pow10(kk)) == 0) by (nonlinear_arith)
                requires
                    m < pow10(tail.len()),
                    10 * pow10(tail.len()) <= pow10(kk),
            ;
        }
        return Some(0);
    }
    if keep > 29 {
        proof {
            lemma_round_at(tail, keep as int);
            let q = tail.take(keep as int);
            assert(q[0] == tail[0]);
            assert(all_digits(q)) by {
                assert forall|i: int| 0 <= i < q.len() implies is_digit(#[trigger] q[i]) by {
                    assert(q[i] == tail[i]);
                }
            }
            lemma_value_lower(q);
            lemma_pow10_monotone(29, (keep - 1) as nat);
        }
        return None;
    }
    let q = value_of(d, z, z + keep as usize);
    assert(d@.subrange(z as int, z + keep) =~= tail.take(keep as int));
    let c = d[z + keep as usize];
    assert(c == tail[keep as int]);
    proof {
        lemma_round_at(tail, keep as int);
        let qs = tail.take(keep as int);
        assert(all_digits(qs)) by {
            assert forall|i: int| 0 <= i < qs.len() implies is_digit(#[trigger] qs[i]) by {
                assert(qs[i] == tail[i]);
            }
        }
        lemma_value_bound(qs);
        lemma_pow10_monotone(qs.len(), 29);
        assert(is_digit(c));
    }
    let n: u128 = if c >= '5' { q + 1 } else { q };
    if n > MAX_NANOS {
        return None;
    }
    Some(n)
}

/// `value` trimmed, with decimal commas read as points.
fn cleaned(value: &str) -> (t: Vec<char>)
    ensures
        t@ == dots(trim(value@)),
{
    let raw = chars_of(value);
    let (lo, hi) = trim_bounds(&raw);
    let mut t: Vec<char> = Vec::new();
    let mut i: usize = lo;
    while i < hi
        invariant
            lo <= i <= hi <= raw.len(),
            t@ == dots(raw@.subrange(lo as int, i as int)),
        decreases hi - i,
    {
        let c = raw[i];
        t.push(if c == ',' { '.' } else { c });
        assert(dots(raw@.subrange(lo as int, i + 1)) =~= dots(raw@.subrange(lo as int, i as int)).push(
            if c == ',' { '.' } else { c },
        ));
        i += 1;
    }
    t
}

/// `t[a..a + n]` followed by `t[b..b + m]`.
fn two_runs(t: &Vec<char>, a: usize, n: usize, b: usize, m: usize) -> (d: Vec<char>)
    requires
        a + n <= t.len(),
        b + m <= t.len(),
    ensures
        d@ == t@.subrange(a as int, a + n) + t@.subrange(b as int, b + m),
{
    let mut d: Vec<char> = Vec::new();
    let mut q: usize = a;
    while q < a + n
        invariant
            a <= q <= a + n <= t.len(),
            d@ == t@.subrange(a as int, q as int),
        decreases a + n - q,
    {
        d.push(t[q]);
        assert(d@ =~= t@.subrange(a as int, q + 1));
        q += 1;
    }
    let ghost first = d@;
    let mut q: usize = b;
    while q < b + m
        invariant
            b <= q <= b + m <= t.len(),
            first == t@.subrange(a as int, a + n),
            d@ == first + t@.subrange(b as int, q as int),
        decreases b + m - q,
    {
        d.push(t[q]);
        assert(d@ =~= first + t@.subrange(b as int, q + 1));
        q += 1;
    }
    d
}

/// The exponent `t[from..]` spells after the `e`, if it spells one: `None`
/// when it is no exponent, `Some(None)` when its size exceeds `2^100`.
fn read_exponent(t: &Vec<char>, from: usize) -> (r: Option<Option<i128>>)
    requires
        from <= t.len(),
    ensures
        match r {
            None => exponent_of(t@.skip(from as int)) is None,
            Some(None) => exponent_of(t@.skip(from as int)) matches Some(e) && (e > EXPONENT_CAP
                || e < -EXPONENT_CAP),
            Some(Some(e)) => exponent_of(t@.skip(from as int)) == Some(e as int) && -EXPONENT_CAP
                <= e <= EXPONENT_CAP,
        },
{
    let ghost tail = t@.skip(from as int);
    let negative = from < t.len() && t[from] == '-';
    let signed = from < t.len() && (t[from] == '+' || t[from] == '-');
    let u: usize = if signed { from + 1 } else { from };
    let ghost us = t@.skip(u as int);
    assert(us == if signed { tail.skip(1) } else { tail });
    if u == t.len() {
        return None;
    }
    let run = digit_run_at(t, u);
    if u + run != t.len() {
        proof {
            assert(t@[u + run] == us[run as int]);
            assert(!is_digit(us[run as int]));
        }
        return None;
    }
    assert(all_digits(us)) by {
        assert forall|i: int| 0 <= i < us.len() implies is_digit(#[trigger] us[i]) by {
            assert(us[i] == t@[u + i]);
        }
    }
    assert(exponent_of(tail) == Some(if negative { -(digits_value(us) as int) } else { digits_value(us) as int }));
    let mut e: u128 = 0;
    let mut w: usize = u;
    while w < t.len()
        invariant
            u <= w <= t.len(),
            us == t@.skip(u as int),
            all_digits(us),
            tail == t@.skip(from as int),
            exponent_of(tail) == Some(if negative { -(digits_value(us) as int) } else { digits_value(us) as int }),
            e <= EXPONENT_CAP,
            e == digits_value(t@.subrange(u as int, w as int)),
        decreases t.len() - w,
    {
        assert(t@.subrange(u as int, w + 1).drop_last() =~= t@.subrange(u as int, w as int));
        assert(t@[w as int] == us[w - u]);
        let next: u128 = e * 10 + (t[w] as u32 - '0' as u32) as u128;
        if next > EXPONENT_CAP {
            proof {
                let pre = t@.subrange(u as int, w + 1);
                let rest = t@.subrange(w + 1, t.len() as int);
                assert(pre.drop_last() =~= t@.subrange(u as int, w as int));
                assert(digits_value(pre) == next);
                assert(us =~= pre + rest);
                lemma_value_concat(pre, rest);
                lemma_pow10_positive(rest.len());
                assert(digits_value(pre) * pow10(rest.len()) >= digits_value(pre)) by (nonlinear_arith)
                    requires
                        pow10(rest.len()) >= 1,
                ;
            }
            return Some(None);
        }
        e = next;
        w += 1;
    }
    assert(us =~= t@.subrange(u as int, w as int));
    Some(Some(if negative { -(e as i128) } else { e as i128 }))
}

/// The mantissa of the number `t[start..]` spells: its digits, integer
/// part then fraction, the number of fraction digits, and where the rest
/// begins.
fn read_mantissa(t: &Vec<char>, start: usize) -> (r: (Vec<char>, usize, usize))
    requires
        start <= t.len(),
    ensures
        r.0@ == mantissa(t@.skip(start as int)).0 + mantissa(t@.skip(start as int)).1,
        r.1 == mantissa(t@.skip(start as int)).1.len(),
        r.2 <= t.len(),
        t@.skip(r.2 as int) == mantissa(t@.skip(start as int)).2,
        all_digits(r.0@),
        r.1 <= r.0@.len(),
{
    let ghost body = t@.skip(start as int);
    let a = digit_run_at(t, start);
    let ghost rest = body.skip(a as int);
    assert(rest =~= t@.skip(start + a));
    assert(body.take(a as int) =~= t@.subrange(start as int, start + a));
    let has_point = start + a < t.len() && t[start + a] == '.';
    proof {
        if start + a < t.len() {
            assert(rest[0] == t@[start + a]);
        }
    }
    let (b, j, frac) = if has_point {
        let b = digit_run_at(t, start + a + 1);
        proof {
            assert(rest.skip(1) =~= t@.skip(start + a + 1));
            assert(t@.skip(start + a + 1).take(b as int) =~= t@.subrange(start + a + 1, start + a + 1 + b));
            assert(t@.skip(start + a + 1).skip(b as int) =~= t@.skip(start + a + 1 + b));
        }
        (b, start + a + 1 + b, start + a + 1)
    } else {
        (0, start + a, start + a)
    };
    let d = two_runs(t, start, a, frac, b);
    proof {
        let m = mantissa(body);
        assert(m.0 == t@.subrange(start as int, start + a));
        assert(m.1 =~= t@.subrange(frac as int, frac + b));
        assert(all_digits(d@)) by {
            assert forall|i: int| 0 <= i < d@.len() implies is_digit(#[trigger] d@[i]) by {
                if i < a {
                    assert(d@[i] == t@[start + i]);
                } else {
                    assert(d@[i] == t@[frac + (i - a)]);
                }
            }
        }
    }
    (d, b, j)
}

/// A `time` attribute read as nanoseconds (see `seconds_nanos`).
pub fn seconds_to_nanos(value: &str) -> (n: u128)
    ensures
        n == seconds_nanos(value@),
{
    let t = cleaned(value);
    if t.len() > 0 && t[0] == '-' {
        return 0;
    }
    let start: usize = if t.len() > 0 && t[0] == '+' { 1 } else { 0 };
    let ghost body = t@.skip(start as int);
    assert(body == if t@.len() > 0 && (t@[0] == '+' || t@[0] == '-') { t@.skip(1) } else { t@ });
    let (d, b, j) = read_mantissa(&t, start);
    let ghost parts = mantissa(body);
    if d.len() == 0 {
        return 0;
    }
    let mut exponent: i128 = 0;
    if j < t.len() {
        assert(parts.2[0] == t@[j as int]);
        if t[j] != 'e' && t[j] != 'E' {
            return 0;
        }
        assert(parts.2.skip(1) =~= t@.skip(j + 1));
        match read_exponent(&t, j + 1) {
            None => {
                return 0;
            },
            Some(None) => {
                proof {
                    lemma_far_exponent(d@, b as nat, exponent_of(parts.2.skip(1))->0);
                }
                return 0;
            },
            Some(Some(e)) => {
                exponent = e;
            },
        }
    }
    let shift: i128 = 9 + exponent - b as i128;
    match scale(&d, shift) {
        Some(n) => n,
        None => 0,
    }
}

} // verus!
