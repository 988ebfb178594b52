//! Compact number and date formatting for the interface.

use vstd::prelude::*;
use vstd::string::StringExecFns;

use vstd::string::StringSliceAdditionalSpecFns;

use crate::date::{
    civil_era, civil_from_days, lemma_civil_ranges, spec_civil_day, spec_civil_month, spec_civil_year,
};
use crate::text::push_char;

verus! {

/// The decimal digit of `d`.
pub open spec fn digit(d: nat) -> char {
    if d == 0 {
        '0'
    } else if d == 1 {
        '1'
    } else if d == 2 {
        '2'
    } else if d == 3 {
        '3'
    } else if d == 4 {
        '4'
    } else if d == 5 {
        '5'
    } else if d == 6 {
        '6'
    } else if d == 7 {
        '7'
    } else if d == 8 {
        '8'
    } else {
        '9'
    }
}

/// `n` in decimal, without leading zeros.
pub open spec fn decimal(n: nat) -> Seq<char>
    decreases n,
{
    if n < 10 {
        seq![digit(n)]
    } else {
        decimal(n / 10).push(digit(n % 10))
    }
}

/// `n` in decimal, padded with zeros to at least `w` characters.
pub open spec fn padded(n: nat, w: nat) -> Seq<char> {
    let d = decimal(n);
    if d.len() < w {
        Seq::new((w - d.len()) as nat, |i: int| '0') + d
    } else {
        d
    }
}

fn digit_char(d: u64) -> (c: char)
    requires
        d < 10,
    ensures
        c == digit(d as nat),
{
    match d {
        0 => '0',
        1 => '1',
        2 => '2',
        3 => '3',
        4 => '4',
        5 => '5',
        6 => '6',
        7 => '7',
        8 => '8',
        _ => '9',
    }
}

/// Appends `n` in decimal.
pub fn push_decimal(out: &mut String, n: u64)
    ensures
        final(out)@ == old(out)@ + decimal(n as nat),
    decreases n,
{
    if n >= 10 {
        push_decimal(out, n / 10);
    }
    let ghost mid = out@;
    push_char(out, digit_char(n % 10));
    proof {
        if n >= 10 {
            assert(out@ =~= old(out)@ + decimal(n as nat));
        } else {
            assert(out@ =~= old(out)@ + decimal(n as nat));
        }
    }
}

pub proof fn lemma_decimal_len(n: nat)
    ensures
        decimal(n).len() >= 1,
        n < 10 ==> decimal(n).len() == 1,
        10 <= n < 100 ==> decimal(n).len() == 2,
        100 <= n < 1000 ==> decimal(n).len() == 3,
        1000 <= n < 10000 ==> decimal(n).len() == 4,
    decreases n,
{
    if n >= 10 {
        lemma_decimal_len(n / 10);
    }
}

/// Appends `n` in decimal, padded with zeros to at least `w` characters.
pub fn push_padded(out: &mut String, n: u64, w: usize)
    ensures
        final(out)@ == old(out)@ + padded(n as nat, w as nat),
{
    let mut digits = String::new();
    push_decimal(&mut digits, n);
    proof {
        lemma_decimal_len(n as nat);
    }
    let len = crate::text::chars_of(digits.as_str()).len();
    let mut k = len;
    while k < w
        invariant
            len == decimal(n as nat).len(),
            len <= k <= w || (k == len && w < len),
            out@ == old(out)@ + Seq::new((k - len) as nat, |i: int| '0'),
        decreases w - k,
    {
        push_char(out, '0');
        k += 1;
        assert(out@ =~= old(out)@ + Seq::new((k - len) as nat, |i: int| '0'));
    }
    out.append(digits.as_str());
    proof {
        if len < w {
            assert(out@ =~= old(out)@ + padded(n as nat, w as nat));
        } else {
            assert(Seq::new((k - len) as nat, |i: int| '0') =~= seq![]);
            assert(out@ =~= old(out)@ + padded(n as nat, w as nat));
        }
    }
}

/// Days since the last push, as the list shows them.
pub open spec fn spec_age(pushed_days: Option<u32>, today_days: u32) -> Seq<char> {
    match pushed_days {
        None => "-"@,
        Some(p) => {
            let d: nat = if today_days >= p {
                (today_days - p) as nat
            } else {
                0
            };
            if d == 0 {
                "today"@
            } else if d <= 59 {
                decimal(d) + "d"@
            } else if d <= 729 {
                decimal(d / 30) + "mo"@
            } else {
                decimal(d / 365) + "y"@
            }
        },
    }
}

/// Time since the last push: `today`, `5d`, `3mo`, `2y`.
pub fn age(pushed_days: Option<u32>, today_days: u32) -> (r: String)
    ensures
        r@ == spec_age(pushed_days, today_days),
{
    match pushed_days {
        None => String::from_str("-"),
        Some(p) => {
            let d: u32 = if today_days >= p {
                today_days - p
            } else {
                0
            };
            if d == 0 {
                return String::from_str("today");
            }
            let mut out = String::new();
            if d <= 59 {
                push_decimal(&mut out, d as u64);
                out.append("d");
            } else if d <= 729 {
                push_decimal(&mut out, (d / 30) as u64);
                out.append("mo");
            } else {
                push_decimal(&mut out, (d / 365) as u64);
                out.append("y");
            }
            out
        },
    }
}

/// The year of a day count of the `u32` range is positive and small.
proof fn lemma_year_bounds(days: int)
    requires
        0 <= days <= u32::MAX,
    ensures
        0 <= spec_civil_year(days) <= 20_000_000,
{
    lemma_civil_ranges(days);
    vstd::arithmetic::div_mod::lemma_fundamental_div_mod(days + 719_468, 146_097);
    let era = civil_era(days);
    assert(0 <= era <= 30_000) by {
        assert(146_097 * era <= days + 719_468);
        assert(days + 719_468 < 146_097 * (era + 1));
    }
}

/// The calendar date of `days` since the epoch, as the detail pane writes it.
pub open spec fn spec_date(days: u32) -> Seq<char> {
    padded(spec_civil_year(days as int) as nat, 4) + "-"@ + padded(spec_civil_month(days as int) as nat, 2)
        + "-"@ + padded(spec_civil_day(days as int) as nat, 2)
}

/// `YYYY-MM-DD` of `days` since the epoch.
pub fn date(days: u32) -> (r: String)
    ensures
        r@ == spec_date(days),
{
    proof {
        lemma_year_bounds(days as int);
        lemma_civil_ranges(days as int);
    }
    let (y, m, d) = civil_from_days(days as i64);
    let mut out = String::new();
    push_padded(&mut out, y as u64, 4);
    out.append("-");
    push_padded(&mut out, m as u64, 2);
    out.append("-");
    push_padded(&mut out, d as u64, 2);
    out
}


/// `pressed` without the count typed before the key.
pub open spec fn without_count(p: Seq<u8>) -> Seq<u8>
    decreases p.len(),
{
    if p.len() > 0 && crate::text::is_digit(p[0]) {
        without_count(p.drop_first())
    } else {
        p
    }
}

/// Whether a hint's key such as `s` or `enter` is for the echoed key, which
/// may carry a count (`3s`) and is spelt `Enter` by the terminal library:
/// single-character keys match exactly, named keys ignoring case.
pub open spec fn spec_hint_is_for(key: Seq<u8>, pressed: Seq<u8>) -> bool {
    let p = without_count(pressed);
    if key.len() == 1 {
        p == key
    } else {
        crate::text::lower_all(p) == crate::text::lower_all(key)
    }
}

pub fn hint_is_for(key: &str, pressed: &str) -> (r: bool)
    ensures
        r == spec_hint_is_for(key.spec_bytes(), pressed.spec_bytes()),
{
    let p = pressed.as_bytes();
    let k = key.as_bytes();
    let mut start: usize = 0;
    assert(p@.skip(0) =~= p@);
    while start < p.len() && crate::text::byte_is_digit(p[start])
        invariant
            start <= p@.len(),
            without_count(p@) == without_count(p@.skip(start as int)),
        decreases p@.len() - start,
    {
        assert(p@.skip(start as int).drop_first() =~= p@.skip(start + 1));
        start += 1;
    }
    let rest = vstd::slice::slice_subrange(p, start, p.len());
    assert(rest@ =~= p@.skip(start as int));
    if k.len() == 1 {
        crate::text::bytes_eq(rest, k)
    } else {
        crate::text::eq_ignore_case(rest, k)
    }
}

} // verus!
