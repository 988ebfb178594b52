//! Calendar arithmetic for the `pushed` column (days since the Unix epoch):
//! Howard Hinnant's civil-date algorithms, proleptic Gregorian, no time zones.

use vstd::prelude::*;
use vstd::string::StringSliceAdditionalSpecFns;

use crate::num::{parse_i32, parse_u32, spec_parse_i32, spec_parse_u32};

verus! {

/// Days since 1970-01-01 of a civil date (with Euclidean division, so years
/// before the epoch count backwards).
pub open spec fn spec_days_from_civil(year: int, month: int, day: int) -> int {
    let y = year - (if month <= 2 { 1int } else { 0int });
    let era = y / 400;
    let yoe = y % 400;
    let mp = (month + 9) % 12;
    let doy = (153 * mp + 2) / 5 + day - 1;
    let doe = yoe * 365 + yoe / 4 - yoe / 100 + doy;
    era * 146_097 + doe - 719_468
}

/// Day of the era (0..146097) of a count of days since the epoch, and the era.
pub open spec fn civil_era(days: int) -> int {
    (days + 719_468) / 146_097
}

pub open spec fn civil_doe(days: int) -> int {
    (days + 719_468) % 146_097
}

pub open spec fn civil_yoe(days: int) -> int {
    let doe = civil_doe(days);
    (doe - doe / 1460 + doe / 36_524 - doe / 146_096) / 365
}

pub open spec fn civil_doy(days: int) -> int {
    let yoe = civil_yoe(days);
    civil_doe(days) - (365 * yoe + yoe / 4 - yoe / 100)
}

pub open spec fn civil_mp(days: int) -> int {
    (5 * civil_doy(days) + 2) / 153
}

pub open spec fn spec_civil_day(days: int) -> int {
    civil_doy(days) - (153 * civil_mp(days) + 2) / 5 + 1
}

pub open spec fn spec_civil_month(days: int) -> int {
    let mp = civil_mp(days);
    if mp < 10 { mp + 3 } else { mp - 9 }
}

pub open spec fn spec_civil_year(days: int) -> int {
    civil_yoe(days) + civil_era(days) * 400 + (if spec_civil_month(days) <= 2 { 1int } else { 0int })
}

/// Days since 1970-01-01 for a civil date.
pub fn days_from_civil(year: i32, month: u32, day: u32) -> (r: i64)
    ensures
        r == spec_days_from_civil(year as int, month as int, day as int),
{
    let y: i64 = year as i64 - (if month <= 2 { 1i64 } else { 0i64 });
    // Shifted by a whole number of eras so both operands of `/` and `%` are
    // non-negative, where Rust's division agrees with the Euclidean one.
    let shifted: i64 = y + 400 * 6_000_000;
    assert(shifted >= 0);
    let era: i64 = shifted / 400 - 6_000_000;
    let yoe: i64 = shifted % 400;
    assert(era == y / 400 && yoe == y % 400) by (nonlinear_arith)
        requires
            shifted == y + 400 * 6_000_000,
            shifted >= 0,
            era == shifted / 400 - 6_000_000,
            yoe == shifted % 400,
    ;
    let mp: i64 = (month as i64 + 9) % 12;
    let doy: i64 = (153 * mp + 2) / 5 + day as i64 - 1;
    let doe: i64 = yoe * 365 + yoe / 4 - yoe / 100 + doy;
    era * 146_097 + doe - 719_468
}

/// `(year, month, day)` for a count of days since 1970-01-01. A year outside
/// `i32` wraps, as an `as` conversion does.
pub fn civil_from_days(days: i64) -> (r: (i32, u32, u32))
    requires
        days <= i64::MAX - 719_468,
    ensures
        r.0 == spec_civil_year(days as int) as i32,
        r.1 == spec_civil_month(days as int),
        r.2 == spec_civil_day(days as int),
{
    let z: i64 = days + 719_468;
    let shifted: i128 = z as i128 + 146_097 * 70_000_000_000_000;
    assert(shifted >= 0);
    let era: i128 = shifted / 146_097 - 70_000_000_000_000;
    let doe_wide: i128 = shifted % 146_097;
    assert(era == z / 146_097 && doe_wide == z % 146_097) by (nonlinear_arith)
        requires
            shifted == z + 146_097 * 70_000_000_000_000,
            shifted >= 0,
            era == shifted / 146_097 - 70_000_000_000_000,
            doe_wide == shifted % 146_097,
    ;
    let doe: i64 = doe_wide as i64;
    let yoe: i64 = (doe - doe / 1460 + doe / 36_524 - doe / 146_096) / 365;
    let doy: i64 = doe - (365 * yoe + yoe / 4 - yoe / 100);
    let mp: i64 = (5 * doy + 2) / 153;
    assert(0 <= yoe <= 400 && -400 <= doy <= 146_097 && -20 <= mp <= 5000) by (nonlinear_arith)
        requires
            0 <= doe < 146_097,
            yoe == (doe - doe / 1460 + doe / 36_524 - doe / 146_096) / 365,
            doy == doe - (365 * yoe + yoe / 4 - yoe / 100),
            mp == (5 * doy + 2) / 153,
    ;
    let day_wide: i64 = doy - (153 * mp + 2) / 5 + 1;
    let month_wide: i64 = if mp < 10 { mp + 3 } else { mp - 9 };
    let year_wide: i128 = yoe as i128 + era * 400 + (if month_wide <= 2 { 1i128 } else { 0i128 });
    proof {
        lemma_civil_ranges(days as int);
    }
    let day = day_wide as u32;
    let month = month_wide as u32;
    let year = #[verifier::truncate] (year_wide as i32);
    (year, month, day)
}

/// First day (counted from March 1st of the era's first year) of year `y` of an era.
pub open spec fn year_start(y: int) -> int {
    365 * y + y / 4 - y / 100
}

/// Every day of an era lies in one of its 400 years: the year formula of
/// `civil_from_days` finds it, and the day within it is below 366.
proof fn lemma_year_of_era(doe: int)
    requires
        0 <= doe < 146_097,
    ensures
        ({
            let yoe = (doe - doe / 1460 + doe / 36_524 - doe / 146_096) / 365;
            &&& 0 <= yoe < 400
            &&& 0 <= doe - year_start(yoe) <= 365
        }),
{
    broadcast use vstd::arithmetic::div_mod::group_fundamental_div_mod_converse;

    if doe == 146_096 {
        assert(doe / 1460 == 100);
        assert(doe / 36_524 == 4);
        assert(doe / 146_096 == 1);
        assert((doe - 100 + 4 - 1) / 365 == 399);
        assert(year_start(399) == 145_731);
    } else {
        let c = doe / 36_524;
        let s = doe % 36_524;
        vstd::arithmetic::div_mod::lemma_fundamental_div_mod(doe, 36_524);
        assert(0 <= s < 36_524);
        assert(0 <= c <= 3);
        let k = s / 1461;
        let u = s % 1461;
        vstd::arithmetic::div_mod::lemma_fundamental_div_mod(s, 1461);
        assert(0 <= u < 1461);
        assert(0 <= k <= 24);
        let j: int = if u == 1460 { 3 } else { u / 365 };
        if u < 1460 {
            vstd::arithmetic::div_mod::lemma_fundamental_div_mod(u, 365);
        }
        let d = u - 365 * j;
        assert(0 <= j <= 3);
        assert(0 <= d <= 365);
        assert(d == 365 ==> j == 3);
        let y = 100 * c + 4 * k + j;
        assert(doe == 36_524 * c + 1461 * k + 365 * j + d);
        let r = 365 * j + 24 * c + k + d;
        let q: int = if r >= 1460 { 1 } else { 0 };
        assert(doe / 1460 == 25 * c + k + q) by {
            assert(doe == (25 * c + k + q) * 1460 + (r - 1460 * q));
        }
        assert(doe / 36_524 == c);
        assert(doe / 146_096 == 0) by {
            assert(doe == 0 * 146_096 + doe);
        }
        let t = doe - doe / 1460 + doe / 36_524 - doe / 146_096;
        assert(t == 365 * y + (d - q));
        assert(0 <= d - q <= 364);
        assert(t / 365 == y) by {
            assert(t == y * 365 + (d - q));
        }
        assert(y / 4 == 25 * c + k) by {
            assert(y == (25 * c + k) * 4 + j);
        }
        assert(y / 100 == c) by {
            assert(y == c * 100 + (4 * k + j));
        }
        assert(doe - year_start(y) == d);
    }
}

/// The day-of-year arithmetic stays inside a year: the year of the era is
/// below 400, the day of the year below 366, and month and day are in range.
pub proof fn lemma_civil_ranges(days: int)
    ensures
        0 <= civil_doe(days) < 146_097,
        0 <= civil_yoe(days) < 400,
        0 <= civil_doy(days) <= 365,
        0 <= civil_mp(days) <= 11,
        1 <= spec_civil_month(days) <= 12,
        1 <= spec_civil_day(days) <= 31,
{
    vstd::arithmetic::div_mod::lemma_fundamental_div_mod(days + 719_468, 146_097);
    let doe = civil_doe(days);
    lemma_year_of_era(doe);
    let doy = civil_doy(days);
    let mp = civil_mp(days);
    assert(0 <= mp <= 11 && 1 <= doy - (153 * mp + 2) / 5 + 1 <= 31) by (nonlinear_arith)
        requires
            0 <= doy <= 365,
            mp == (5 * doy + 2) / 153,
    ;
}

/// Converting a day count to a civil date and back gives the same count, for
/// every count whose year fits in an `i32`.
pub proof fn law_civil_from_days_roundtrip(days: int)
    requires
        i32::MIN <= spec_civil_year(days) <= i32::MAX,
    ensures
        spec_days_from_civil(spec_civil_year(days), spec_civil_month(days), spec_civil_day(days))
            == days,
{
    broadcast use vstd::arithmetic::div_mod::group_fundamental_div_mod_converse;

    lemma_civil_ranges(days);
    vstd::arithmetic::div_mod::lemma_fundamental_div_mod(days + 719_468, 146_097);
    let era = civil_era(days);
    let yoe = civil_yoe(days);
    let mp = civil_mp(days);
    let month = spec_civil_month(days);
    let y = spec_civil_year(days) - (if month <= 2 { 1int } else { 0int });
    assert(y == era * 400 + yoe);
    assert(y / 400 == era && y % 400 == yoe);
    assert((month + 9) % 12 == mp) by {
        if mp < 10 {
            assert(month + 9 == 1 * 12 + mp);
        } else {
            assert(month + 9 == 0 * 12 + mp);
        }
    }
}

/// The first 10 bytes of an ISO-8601 timestamp, split at its two dashes:
/// `Some((year, month, day))` where it has exactly three dash-separated parts.
pub open spec fn iso_parts(t: Seq<u8>) -> Option<(Seq<u8>, Seq<u8>, Seq<u8>)> {
    let p = t.subrange(0, 10);
    if exists|i: int, j: int|
        0 <= i < j < 10 && p[i] == 0x2d && p[j] == 0x2d && no_dash(p.subrange(0, i))
            && no_dash(p.subrange(i + 1, j)) && no_dash(p.subrange(j + 1, 10)) {
        let (i, j) = choose|i: int, j: int|
            0 <= i < j < 10 && p[i] == 0x2d && p[j] == 0x2d && no_dash(p.subrange(0, i))
                && no_dash(p.subrange(i + 1, j)) && no_dash(p.subrange(j + 1, 10));
        Some((p.subrange(0, i), p.subrange(i + 1, j), p.subrange(j + 1, 10)))
    } else {
        None
    }
}

pub open spec fn no_dash(s: Seq<u8>) -> bool {
    forall|k: int| 0 <= k < s.len() ==> #[trigger] s[k] != 0x2d
}

/// Days since the epoch of the date part of an ISO-8601 timestamp such as
/// `2026-09-01T12:00:00Z`, when it is a real month and day and not before 1970.
pub open spec fn spec_days_from_iso(t: Seq<u8>) -> Option<u32> {
    if t.len() < 10 || !vstd::utf8::is_char_boundary(t, 10) {
        None
    } else {
        match iso_parts(t) {
            None => None,
            Some((y, m, d)) => match (spec_parse_i32(y), spec_parse_u32(m), spec_parse_u32(d)) {
                (Some(y), Some(m), Some(d)) => {
                    let days = spec_days_from_civil(y as int, m as int, d as int);
                    if 1 <= m <= 12 && 1 <= d <= 31 && 0 <= days <= u32::MAX {
                        Some(days as u32)
                    } else {
                        None
                    }
                },
                _ => None,
            },
        }
    }
}

/// Index of the first `-` in `b[from..to]`, or `to`.
fn next_dash(b: &[u8], from: usize, to: usize) -> (r: usize)
    requires
        from <= to <= b@.len(),
    ensures
        from <= r <= to,
        r < to ==> b@[r as int] == 0x2d,
        no_dash(b@.subrange(from as int, r as int)),
{
    let mut i = from;
    while i < to
        invariant
            from <= i <= to <= b@.len(),
            no_dash(b@.subrange(from as int, i as int)),
        decreases to - i,
    {
        if b[i] == 0x2d {
            return i;
        }
        assert(b@.subrange(from as int, i + 1 as int) =~= b@.subrange(from as int, i as int).push(
            b@[i as int],
        ));
        i += 1;
    }
    i
}

/// Parses the date part of an ISO-8601 timestamp such as `2026-09-01T12:00:00Z`.
pub fn days_from_iso(timestamp: &str) -> (r: Option<u32>)
    ensures
        r == spec_days_from_iso(timestamp.spec_bytes()),
{
    let b = timestamp.as_bytes();
    if b.len() < 10 || !timestamp.is_char_boundary(10) {
        return None;
    }
    let ghost t = b@;
    let ghost p = t.subrange(0, 10);
    let i = next_dash(b, 0, 10);
    if i == 10 {
        proof {
            if iso_parts(t) is Some {
                let (x, y) = choose|x: int, y: int|
                    0 <= x < y < 10 && p[x] == 0x2d && p[y] == 0x2d && no_dash(p.subrange(0, x))
                        && no_dash(p.subrange(x + 1, y)) && no_dash(p.subrange(y + 1, 10));
                assert(b@.subrange(0, 10)[x] == p[x]);
            }
        }
        return None;
    }
    let j = next_dash(b, i + 1, 10);
    if j == 10 {
        proof {
            if iso_parts(t) is Some {
                let (x, y) = choose|x: int, y: int|
                    0 <= x < y < 10 && p[x] == 0x2d && p[y] == 0x2d && no_dash(p.subrange(0, x))
                        && no_dash(p.subrange(x + 1, y)) && no_dash(p.subrange(y + 1, 10));
                assert(x == i) by {
                    if x < i {
                        assert(b@.subrange(0, i as int)[x] == p[x]);
                    } else if x > i {
                        assert(p.subrange(0, x)[i as int] == b@[i as int]);
                    }
                }
                assert(b@.subrange(i + 1, 10)[y - i - 1] == p[y]);
            }
        }
        return None;
    }
    let k = next_dash(b, j + 1, 10);
    if k < 10 {
        proof {
            if iso_parts(t) is Some {
                let (x, y) = choose|x: int, y: int|
                    0 <= x < y < 10 && p[x] == 0x2d && p[y] == 0x2d && no_dash(p.subrange(0, x))
                        && no_dash(p.subrange(x + 1, y)) && no_dash(p.subrange(y + 1, 10));
                assert(x == i) by {
                    if x < i {
                        assert(b@.subrange(0, i as int)[x] == p[x]);
                    } else if x > i {
                        assert(p.subrange(0, x)[i as int] == b@[i as int]);
                    }
                }
                assert(y == j) by {
                    if y < j {
                        assert(b@.subrange(i + 1, j as int)[y - i - 1] == p[y]);
                    } else if y > j {
                        assert(p.subrange(x + 1, y)[j - x - 1] == b@[j as int]);
                    }
                }
                assert(p.subrange(y + 1, 10)[k - y - 1] == b@[k as int]);
            }
        }
        return None;
    }
    proof {
        assert(p[i as int] == 0x2d && p[j as int] == 0x2d);
        assert(p.subrange(0, i as int) =~= b@.subrange(0, i as int));
        assert(p.subrange(i + 1, j as int) =~= b@.subrange(i + 1, j as int));
        assert(p.subrange(j + 1, 10) =~= b@.subrange(j + 1, 10));
        let (x, y) = choose|x: int, y: int|
            0 <= x < y < 10 && p[x] == 0x2d && p[y] == 0x2d && no_dash(p.subrange(0, x))
                && no_dash(p.subrange(x + 1, y)) && no_dash(p.subrange(y + 1, 10));
        assert(x == i) by {
            if x < i {
                assert(b@.subrange(0, i as int)[x] == p[x]);
            } else if x > i {
                assert(p.subrange(0, x)[i as int] == b@[i as int]);
            }
        }
        assert(y == j) by {
            if y < j {
                assert(b@.subrange(i + 1, j as int)[y - i - 1] == p[y]);
            } else if y > j {
                assert(p.subrange(x + 1, y)[j - x - 1] == b@[j as int]);
            }
        }
    }
    let year = parse_i32(&b[0..i]);
    let month = parse_u32(&b[i + 1..j]);
    let day = parse_u32(&b[j + 1..10]);
    match (year, month, day) {
        (Some(year), Some(month), Some(day)) => {
            if month < 1 || month > 12 || day < 1 || day > 31 {
                return None;
            }
            let days = days_from_civil(year, month, day);
            if days < 0 || days > 0xffff_ffff {
                None
            } else {
                Some(days as u32)
            }
        },
        _ => None,
    }
}

} // verus!
