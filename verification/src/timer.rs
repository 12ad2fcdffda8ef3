//! Timer arithmetic: the first deadline and the speed estimate.

use vstd::prelude::*;
use crate::trap::{next_deadline, TICK_INTERVAL};

verus! {

/// Timer cycles per second.
pub const TIMEBASE_HZ: u64 = 10_000_000;

/// Passes of the inner delay loop for each counted loop.
pub const INNER_LOOPS: u64 = 1000;

/// The deadline of the first tick, one interval after `now`.
pub fn init(now: u64) -> (r: u64)
    ensures
        r == next_deadline(now),
{
    if now > u64::MAX - TICK_INTERVAL {
        u64::MAX
    } else {
        now + TICK_INTERVAL
    }
}

/// The speed estimate, in hundredths, for `loops` counted loops of 1000
/// passes each that took `elapsed` of the timer's ten million cycles a
/// second: the passes per second, times 100, by a million.
pub open spec fn bogomips(loops: u64, elapsed: u64) -> int {
    loops * 1000 * 10_000_000 / (elapsed as int) * 100 / 1_000_000
}

/// The speed estimate for a calibration run, held at the largest number
/// that fits.
pub fn calibrate_bogomips(loops: u64, elapsed: u64) -> (r: u64)
    requires
        elapsed > 0,
    ensures
        r == (if bogomips(loops, elapsed) > u64::MAX {
            u64::MAX as int
        } else {
            bogomips(loops, elapsed)
        }),
{
    let total: u128 = loops as u128 * 1000;
    assert(total * 10_000_000 <= 0xffff_ffff_ffff_ffff * 1000 * 10_000_000) by (nonlinear_arith)
        requires
            total <= 0xffff_ffff_ffff_ffff * 1000,
    ;
    let per_second: u128 = total * 10_000_000 / elapsed as u128;
    assert(per_second <= total * 10_000_000) by (nonlinear_arith)
        requires
            per_second == total * 10_000_000 / (elapsed as int),
            elapsed > 0,
    ;
    let scaled: u128 = per_second * 100 / 1_000_000;
    if scaled > u64::MAX as u128 {
        u64::MAX
    } else {
        scaled as u64
    }
}

} // verus!
