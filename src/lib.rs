use vstd::prelude::*;

pub mod client;
pub mod dag;
pub mod depth;
pub mod ledger;
pub mod rating;
pub mod rpc;
pub mod selector;
pub mod walk;

verus! {

/// Upper bound applied to every rating addition: `i64::MAX / 2`.
pub const RATING_CAP: i64 = 0x3fff_ffff_ffff_ffff;

pub open spec fn cap_sum_spec(a: int, b: int, max: int) -> int {
    if a + b < 0 || a + b > max {
        max
    } else {
        a + b
    }
}

/// Adds `a` and `b`; a sum that is negative or above `max` yields `max`.
pub fn cap_sum(a: i64, b: i64, max: i64) -> (r: i64)
    ensures
        r as int == cap_sum_spec(a as int, b as int, max as int),
{
    let s: i128 = a as i128 + b as i128;
    if s < 0 || s > max as i128 {
        max
    } else {
        s as i64
    }
}

} // verus!
