//! When the cached index is recent enough to skip the network. The index is
//! rebuilt daily; checking more often than every six hours buys nothing.

use vstd::prelude::*;

verus! {

/// Six hours, in nanoseconds.
pub const FRESH_FOR_NANOS: i128 = 21_600_000_000_000;

/// The last check, at `checked`, is fresh at `now` (both in nanoseconds from
/// the Unix epoch): it lies in the past, or is now, and less than six hours ago.
pub open spec fn spec_fresh(checked: int, now: int) -> bool {
    checked <= now && now - checked < FRESH_FOR_NANOS
}

/// Whether a check made at `checked` is fresh at `now`. A clock that went
/// back before the check makes it stale.
pub fn is_fresh_at(checked: i128, now: i128) -> (r: bool)
    ensures
        r == spec_fresh(checked as int, now as int),
{
    if checked > now {
        false
    } else if checked > i128::MAX - FRESH_FOR_NANOS {
        true
    } else {
        now < checked + FRESH_FOR_NANOS
    }
}

} // verus!
