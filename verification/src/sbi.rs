//! Calls to the firmware, as the registers that carry them.

use vstd::prelude::*;

verus! {

/// Extension number of the timer extension, the letters `TIME`.
pub const SBI_EID_TIME: usize = 0x5449_4D45;

/// A call to the firmware: extension and function number, and three
/// arguments.
#[derive(Clone, Copy, Debug, PartialEq, Eq, Structural)]
pub struct SbiCall {
    pub ext: usize,
    pub fid: usize,
    pub a0: usize,
    pub a1: usize,
    pub a2: usize,
}

/// The call that programs the timer for `stime_value`: function 0 of the
/// timer extension, with the time in `a0`, cut to the register's width, and
/// its upper 32 bits in `a1`.
pub fn set_timer(stime_value: u64) -> (r: SbiCall)
    ensures
        r == (SbiCall {
            ext: SBI_EID_TIME,
            fid: 0,
            a0: stime_value as usize,
            a1: (stime_value >> 32) as usize,
            a2: 0,
        }),
{
    let high: u64 = stime_value >> 32;
    assert(stime_value >> 32 <= 0xffff_ffffu64) by (bit_vector);
    SbiCall {
        ext: SBI_EID_TIME,
        fid: 0,
        a0: #[verifier::truncate] (stime_value as usize),
        a1: high as usize,
        a2: 0,
    }
}

} // verus!
