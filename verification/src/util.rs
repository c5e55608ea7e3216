//! Random inputs: starting floors and passenger exchange sizes.

use vstd::prelude::*;
use crate::conf::{MAX_FLOOR, MIN_FLOOR};

verus! {

/// Relies on rand's `Rng::gen_range` on the inclusive range `start..=end`:
/// the sample lies within the range.  The call panics on an empty range,
/// which the precondition rules out.
#[verifier::external_body]
pub fn random_num(start: i32, end: i32) -> (r: i32)
    requires
        start <= end,
    ensures
        start <= r <= end,
{
    rand::Rng::gen_range(&mut rand::thread_rng(), start..=end)
}

/// A uniformly random valid floor: within bounds and never `0`.  The draw is
/// over one value fewer than the full range; the non-negative half is then
/// shifted past the missing floor `0`.
pub fn random_floor() -> (r: i32)
    ensures
        MIN_FLOOR as i32 <= r <= MAX_FLOOR as i32,
        r != 0,
{
    let ret = random_num(MIN_FLOOR as i32, MAX_FLOOR as i32 - 1);
    if ret >= 0 {
        ret + 1
    } else {
        ret
    }
}

/// How many passengers enter or leave during one exchange.
pub fn random_person_num() -> (r: i32)
    ensures
        0 <= r <= 20,
{
    random_num(0, 20)
}

/// A coin flip: whether passengers net enter (true) or net leave (false).
pub fn random_bool() -> bool {
    random_num(0, 20) > 10
}

} // verus!
