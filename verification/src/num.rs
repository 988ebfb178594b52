//! Decimal integers as Rust's `str::parse` reads them: an optional sign and
//! at least one ASCII digit, refused when the value does not fit the type.

use vstd::prelude::*;

use crate::text::{byte_is_digit, is_digit};

verus! {

/// The value of a run of ASCII digits, most significant first.
pub open spec fn digits_value(s: Seq<u8>) -> nat
    decreases s.len(),
{
    if s.len() == 0 {
        0
    } else {
        digits_value(s.drop_last()) * 10 + (s.last() - 0x30) as nat
    }
}

pub open spec fn all_digits(s: Seq<u8>) -> bool {
    forall|i: int| 0 <= i < s.len() ==> is_digit(#[trigger] s[i])
}

/// The digits after an optional sign byte `+` (or `-` where `signed`).
pub open spec fn unsigned_part(s: Seq<u8>, signed: bool) -> Seq<u8> {
    if s.len() > 0 && (s[0] == 0x2b || (signed && s[0] == 0x2d)) {
        s.subrange(1, s.len() as int)
    } else {
        s
    }
}

/// `s.parse::<u32>()`, as a value.
pub open spec fn spec_parse_u32(s: Seq<u8>) -> Option<u32> {
    let d = unsigned_part(s, false);
    if d.len() > 0 && all_digits(d) && digits_value(d) <= u32::MAX {
        Some(digits_value(d) as u32)
    } else {
        None
    }
}

/// `s.parse::<i32>()`, as a value.
pub open spec fn spec_parse_i32(s: Seq<u8>) -> Option<i32> {
    let d = unsigned_part(s, true);
    let negative = s.len() > 0 && s[0] == 0x2d;
    let v: int = if negative { -digits_value(d) } else { digits_value(d) as int };
    if d.len() > 0 && all_digits(d) && i32::MIN <= v && v <= i32::MAX {
        Some(v as i32)
    } else {
        None
    }
}

proof fn lemma_digits_value_grows(s: Seq<u8>, i: int)
    requires
        0 <= i <= s.len(),
        all_digits(s),
    ensures
        digits_value(s.subrange(0, i)) <= digits_value(s),
    decreases s.len() - i,
{
    if i < s.len() {
        lemma_digits_value_grows(s, i + 1);
        assert(s.subrange(0, i + 1).drop_last() =~= s.subrange(0, i));
    } else {
        assert(s.subrange(0, i) =~= s);
    }
}

/// Reads the digits of `d` while they stay at or below `limit`.
fn digits_up_to(d: &[u8], limit: u64) -> (r: Option<u64>)
    requires
        10 <= limit <= 0xffff_ffff,
    ensures
        r is Some <==> (d@.len() > 0 && all_digits(d@) && digits_value(d@) <= limit),
        r matches Some(v) ==> v == digits_value(d@),
{
    if d.len() == 0 {
        return None;
    }
    let mut v: u64 = 0;
    let mut i: usize = 0;
    while i < d.len()
        invariant
            0 <= i <= d@.len(),
            all_digits(d@.subrange(0, i as int)),
            v == digits_value(d@.subrange(0, i as int)),
            v <= limit,
            10 <= limit <= 0xffff_ffff,
        decreases d@.len() - i,
    {
        assert(d@.subrange(0, i + 1).drop_last() =~= d@.subrange(0, i as int));
        if !byte_is_digit(d[i]) {
            return None;
        }
        let digit = (d[i] - 0x30) as u64;
        if v > (limit - digit) / 10 {
            proof {
                assert(all_digits(d@.subrange(0, i + 1)));
                if all_digits(d@) {
                    lemma_digits_value_grows(d@, i + 1);
                }
            }
            return None;
        }
        v = v * 10 + digit;
        i += 1;
    }
    assert(d@.subrange(0, d@.len() as int) =~= d@);
    Some(v)
}

/// `s.parse::<u32>().ok()`
pub fn parse_u32(s: &[u8]) -> (r: Option<u32>)
    ensures
        r == spec_parse_u32(s@),
{
    let d = if s.len() > 0 && s[0] == 0x2b { &s[1..s.len()] } else { s };
    assert(d@ == unsigned_part(s@, false));
    match digits_up_to(d, 0xffff_ffff) {
        Some(v) => Some(v as u32),
        None => None,
    }
}

/// `s.parse::<i32>().ok()`
pub fn parse_i32(s: &[u8]) -> (r: Option<i32>)
    ensures
        r == spec_parse_i32(s@),
{
    let negative = s.len() > 0 && s[0] == 0x2d;
    let d = if s.len() > 0 && (s[0] == 0x2b || s[0] == 0x2d) { &s[1..s.len()] } else { s };
    assert(d@ == unsigned_part(s@, true));
    let limit: u64 = if negative { 0x8000_0000 } else { 0x7fff_ffff };
    match digits_up_to(d, limit) {
        Some(v) => {
            if negative {
                Some((0 - (v as i64)) as i32)
            } else {
                Some(v as i32)
            }
        },
        None => None,
    }
}

} // verus!
