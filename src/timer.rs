//! Time in milliseconds and the next timer deadline, from the `time` counter.
use vstd::prelude::*;

use crate::config::CLOCK_FREQ;

verus! {

/// Timer interrupts per second: one tick every 10 ms.
pub const TICKS_PER_SEC: u64 = 100;
/// Milliseconds per second.
pub const MSEC_PER_SEC: u64 = 1000;

/// The comparator value for the next tick after counter value `mtime`.
pub fn set_next_trigger(mtime: u64) -> (r: u64)
    ensures
        r == (mtime + CLOCK_FREQ / TICKS_PER_SEC) % 0x1_0000_0000_0000_0000,
{
    mtime.wrapping_add(CLOCK_FREQ / TICKS_PER_SEC)
}

/// Counter value `mtime` in milliseconds.
pub fn get_time_ms(mtime: u64) -> (r: u64)
    ensures
        r == mtime / (CLOCK_FREQ / MSEC_PER_SEC),
        r == (mtime * MSEC_PER_SEC) / (CLOCK_FREQ as int),
{
    let r = mtime / (CLOCK_FREQ / MSEC_PER_SEC);
    assert((mtime as int) / 12500 == (mtime as int * 1000) / 12500000) by (nonlinear_arith)
        requires mtime >= 0;
    r
}

} // verus!
