//! The clock quantities the wheel reads, in whole milliseconds.

use std::time::Duration;

use vstd::prelude::*;

verus! {

/// The whole milliseconds that `Duration::as_millis` finds in `d`.
pub uninterp spec fn duration_millis(d: Duration) -> u128;

/// `Duration::as_millis`: the number of whole milliseconds in `d`, named
/// [`duration_millis`].
pub assume_specification[ Duration::as_millis ](d: &Duration) -> (millis: u128)
    ensures
        millis == duration_millis(*d),
;

/// The duration that `Duration::from_secs` makes of `secs`.
pub uninterp spec fn duration_of_secs(secs: u64) -> Duration;

/// `Duration::from_secs`: the duration of `secs` whole seconds, named [`duration_of_secs`],
/// which has a thousand times as many milliseconds.
pub assume_specification[ Duration::from_secs ](secs: u64) -> (d: Duration)
    ensures
        d == duration_of_secs(secs),
        duration_millis(d) == secs * 1000,
;

} // verus!
