//! Small renderings shared by the human report and the JSON: counted nouns,
//! durations, seconds, short commits and terminal colors.

use vstd::prelude::*;

use crate::text::{chars_of, decimal, digit, digit_char, push_char, push_decimal, push_str};

verus! {

/// `amount noun`, with the noun in the plural unless the amount is one.
pub open spec fn count_text(amount: nat, noun: Seq<char>) -> Seq<char> {
    decimal(amount) + " "@ + noun + (if amount == 1 {
        Seq::<char>::empty()
    } else {
        "s"@
    })
}

/// `1 error`, `2 errors`: a count with a correctly pluralized noun.
pub fn count(amount: usize, noun: &str) -> (out: String)
    ensures
        out@ == count_text(amount as nat, noun@),
{
    let mut out = String::new();
    push_decimal(&mut out, amount as u128);
    push_str(&mut out, " ");
    push_str(&mut out, noun);
    if amount != 1 {
        push_str(&mut out, "s");
    }
    assert(out@ =~= count_text(amount as nat, noun@));
    out
}

/// `text` wrapped in the ANSI color `code` when coloring, else unchanged.
pub open spec fn painted(colored: bool, code: Seq<char>, text: Seq<char>) -> Seq<char> {
    if colored {
        "\x1b["@ + code + "m"@ + text + "\x1b[0m"@
    } else {
        text
    }
}

/// Paint `text` with the ANSI color `code` when `colored`.
pub fn paint(colored: bool, code: &str, text: &str) -> (out: String)
    ensures
        out@ == painted(colored, code@, text@),
{
    let mut out = String::new();
    if colored {
        push_str(&mut out, "\x1b[");
        push_str(&mut out, code);
        push_str(&mut out, "m");
        push_str(&mut out, text);
        push_str(&mut out, "\x1b[0m");
        assert(out@ =~= painted(colored, code@, text@));
    } else {
        push_str(&mut out, text);
        assert(out@ =~= painted(colored, code@, text@));
    }
    out
}

/// The unit, in nanoseconds, in which a duration is written: seconds from
/// one second up, then milliseconds, microseconds, nanoseconds.
pub open spec fn duration_unit(nanos: nat) -> nat {
    if nanos >= 1_000_000_000 {
        1_000_000_000
    } else if nanos >= 1_000_000 {
        1_000_000
    } else if nanos >= 1_000 {
        1_000
    } else {
        1
    }
}

/// The suffix of a unit.
pub open spec fn unit_suffix(unit: nat) -> Seq<char> {
    if unit == 1_000_000_000 {
        "s"@
    } else if unit == 1_000_000 {
        "ms"@
    } else if unit == 1_000 {
        "µs"@
    } else {
        "ns"@
    }
}

/// A duration in hundredths of its unit, rounded half up.
pub open spec fn hundredths(nanos: nat) -> nat {
    (200 * nanos + duration_unit(nanos)) / (2 * duration_unit(nanos))
}

/// A duration with two decimals in the largest unit that holds it, as
/// `{:.2?}` writes a `Duration`: `1.50s`, `250.00ms`, `3.00µs`, `7.00ns`.
pub open spec fn duration_text(nanos: nat) -> Seq<char> {
    let h = hundredths(nanos);
    decimal(h / 100) + "."@ + seq![digit_char((h % 100) / 10), digit_char(h % 10)] + unit_suffix(
        duration_unit(nanos),
    )
}

/// Hundredths split at the unit: whole units times a hundred plus the
/// rounded hundredths of the rest.
proof fn lemma_hundredths(nanos: nat, unit: nat)
    requires
        unit > 0,
    ensures
        (200 * nanos + unit) / (2 * unit) == 100 * (nanos / unit) + (200 * (nanos % unit) + unit) / (2
            * unit),
{
    let q = (nanos / unit) as int;
    let r = (nanos % unit) as int;
    vstd::arithmetic::div_mod::lemma_fundamental_div_mod(nanos as int, unit as int);
    let d = 2 * unit as int;
    let t = 200 * r + unit;
    vstd::arithmetic::div_mod::lemma_fundamental_div_mod(t, d);
    let tq = t / d;
    let tr = t % d;
    assert(0 <= tr < d);
    assert(200 * nanos + unit == (100 * q + tq) * d + tr) by (nonlinear_arith)
        requires
            nanos == unit * q + r,
            t == 200 * r + unit,
            t == d * tq + tr,
            d == 2 * unit,
    ;
    vstd::arithmetic::div_mod::lemma_fundamental_div_mod_converse((200 * nanos + unit) as int, d, 100 * q + tq, tr);
}

/// The rounded hundredths of a remainder are at most a hundred, and none
/// when the unit is a single nanosecond.
proof fn lemma_rounded_bound(rest: int, unit: int)
    requires
        0 <= rest < unit,
    ensures
        (200 * rest + unit) / (2 * unit) <= 100,
        unit == 1 ==> (200 * rest + unit) / (2 * unit) == 0,
{
    let x = 200 * rest + unit;
    let d = 2 * unit;
    vstd::arithmetic::div_mod::lemma_fundamental_div_mod(x, d);
    let q = x / d;
    let r = x % d;
    assert(q <= 100) by (nonlinear_arith)
        requires
            x == d * q + r,
            0 <= r < d,
            x < 101 * d,
            d > 0,
    ;
    if unit == 1 {
        assert(rest == 0);
        vstd::arithmetic::div_mod::lemma_fundamental_div_mod_converse(x, d, 0, 1);
    }
}

/// Appends a duration with two decimals in its unit (see `duration_text`).
pub fn push_duration(out: &mut String, nanos: u128)
    ensures
        final(out)@ == old(out)@ + duration_text(nanos as nat),
{
    let unit: u128 = if nanos >= 1_000_000_000 {
        1_000_000_000
    } else if nanos >= 1_000_000 {
        1_000_000
    } else if nanos >= 1_000 {
        1_000
    } else {
        1
    };
    assert(unit == duration_unit(nanos as nat));
    let whole = nanos / unit;
    let rest = nanos % unit;
    let frac = (200 * rest + unit) / (2 * unit);
    proof {
        lemma_hundredths(nanos as nat, unit as nat);
        lemma_rounded_bound(rest as int, unit as int);
        assert(unit > 1 ==> whole <= u128::MAX / 1000);
    }
    let int_part = whole + frac / 100;
    let two = frac % 100;
    let ghost h = hundredths(nanos as nat);
    assert(h == 100 * whole + frac);
    assert(h / 100 == int_part);
    assert(h % 100 == two);
    push_decimal(out, int_part);
    push_str(out, ".");
    push_char(out, digit((two / 10) as u64));
    push_char(out, digit((two % 10) as u64));
    if unit == 1_000_000_000 {
        push_str(out, "s");
    } else if unit == 1_000_000 {
        push_str(out, "ms");
    } else if unit == 1_000 {
        push_str(out, "µs");
    } else {
        push_str(out, "ns");
    }
    assert(final(out)@ =~= old(out)@ + duration_text(nanos as nat));
}

/// A duration with two decimals in its unit, as a `String`.
pub fn duration(nanos: u128) -> (out: String)
    ensures
        out@ == duration_text(nanos as nat),
{
    let mut out = String::new();
    push_duration(&mut out, nanos);
    assert(out@ =~= duration_text(nanos as nat));
    out
}

/// `f` with its trailing zeros struck, and how many of `width` digits
/// remain.
pub open spec fn stripped(f: nat, width: nat) -> (nat, nat)
    decreases width,
{
    if width > 0 && f > 0 && f % 10 == 0 {
        stripped(f / 10, (width - 1) as nat)
    } else {
        (f, width)
    }
}

/// The digits of a fraction of a second (`0 < f < 10⁹` nanoseconds) after
/// the decimal point, without trailing zeros: `5` for half a second, `000001`
/// for a microsecond.
pub open spec fn fraction_text(f: nat) -> Seq<char> {
    let (g, w) = stripped(f, 9);
    Seq::new((w - decimal(g).len()) as nat, |i: int| '0') + decimal(g)
}

/// A duration in seconds as an exact decimal: `2`, `0.25`, `1.000000001`.
pub open spec fn seconds_text(nanos: nat) -> Seq<char> {
    decimal(nanos / 1_000_000_000) + (if nanos % 1_000_000_000 == 0 {
        Seq::<char>::empty()
    } else {
        "."@ + fraction_text(nanos % 1_000_000_000)
    })
}

/// Stripping keeps the value below ten to the remaining width.
proof fn lemma_stripped(f: nat, width: nat, bound: nat)
    requires
        f < bound,
        bound == crate::decimal::pow10(width),
    ensures
        stripped(f, width).0 < crate::decimal::pow10(stripped(f, width).1),
        stripped(f, width).1 <= width,
    decreases width,
{
    if width > 0 && f > 0 && f % 10 == 0 {
        let b = crate::decimal::pow10((width - 1) as nat);
        assert(bound == 10 * b);
        assert(f / 10 < b);
        lemma_stripped(f / 10, (width - 1) as nat, b);
    }
}

/// A number below ten to the `w` has at most `w` digits (and at least one).
proof fn lemma_decimal_len(g: nat, w: nat)
    requires
        g < crate::decimal::pow10(w),
        w > 0 || g == 0,
    ensures
        decimal(g).len() <= w || (w == 0 && g == 0),
        decimal(g).len() >= 1,
    decreases g,
{
    if g >= 10 {
        assert(w > 1) by {
            if w <= 1 {
                assert(crate::decimal::pow10(1) == 10 * crate::decimal::pow10(0));
                assert(crate::decimal::pow10(0) == 1);
                if w == 0 {
                    assert(g < 1);
                }
            }
        }
        let b = crate::decimal::pow10((w - 1) as nat);
        assert(crate::decimal::pow10(w) == 10 * b);
        lemma_decimal_len(g / 10, (w - 1) as nat);
    }
}

/// Appends the digits of a fraction of a second (see `fraction_text`).
fn push_fraction(out: &mut String, f: u128)
    requires
        0 < f < 1_000_000_000,
    ensures
        final(out)@ == old(out)@ + fraction_text(f as nat),
{
    let mut g: u128 = f;
    let mut w: u128 = 9;
    proof {
        reveal_with_fuel(crate::decimal::pow10, 10);
    }
    while w > 0 && g > 0 && g % 10 == 0
        invariant
            stripped(g as nat, w as nat) == stripped(f as nat, 9),
            g > 0,
            w <= 9,
        decreases w,
    {
        g = g / 10;
        w = w - 1;
    }
    assert(stripped(g as nat, w as nat) == (g as nat, w as nat));
    proof {
        lemma_stripped(f as nat, 9, crate::decimal::pow10(9));
    }
    assert(g < crate::decimal::pow10(w as nat));
    let digits = crate::text::decimal_string(g);
    let cs = chars_of(digits.as_str());
    proof {
        if w == 0 {
            assert(crate::decimal::pow10(0) == 1);
        }
        lemma_decimal_len(g as nat, w as nat);
    }
    let pad: u128 = w - cs.len() as u128;
    let ghost start = out@;
    let mut k: u128 = 0;
    while k < pad
        invariant
            k <= pad,
            out@ == start + Seq::new(k as nat, |i: int| '0'),
        decreases pad - k,
    {
        push_char(out, '0');
        k += 1;
        assert(out@ =~= start + Seq::new(k as nat, |i: int| '0'));
    }
    push_str(out, digits.as_str());
    assert(final(out)@ =~= old(out)@ + fraction_text(f as nat));
}

/// Appends a duration in seconds as an exact decimal (see `seconds_text`).
pub fn push_seconds(out: &mut String, nanos: u128)
    ensures
        final(out)@ == old(out)@ + seconds_text(nanos as nat),
{
    push_decimal(out, nanos / 1_000_000_000);
    let f = nanos % 1_000_000_000;
    if f != 0 {
        push_str(out, ".");
        push_fraction(out, f);
    }
    assert(final(out)@ =~= old(out)@ + seconds_text(nanos as nat));
}

/// A commit as git abbreviates it: its first seven characters.
pub open spec fn short_commit_text(commit: Seq<char>) -> Seq<char> {
    if commit.len() <= 7 {
        commit
    } else {
        commit.take(7)
    }
}

/// Appends the short form of a commit.
pub fn push_short_commit(out: &mut String, commit: &str)
    ensures
        final(out)@ == old(out)@ + short_commit_text(commit@),
{
    let cs = chars_of(commit);
    let end: usize = if cs.len() <= 7 {
        cs.len()
    } else {
        7
    };
    let ghost start = out@;
    let mut i: usize = 0;
    while i < end
        invariant
            i <= end,
            end <= cs.len(),
            cs@ == commit@,
            out@ == start + cs@.take(i as int),
        decreases end - i,
    {
        push_char(out, cs[i]);
        i += 1;
        assert(out@ =~= start + cs@.take(i as int));
    }
    assert(cs@.take(end as int) =~= short_commit_text(commit@));
}

} // verus!
