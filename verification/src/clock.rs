//! System clock frequency and tick conversion.

use vstd::prelude::*;

verus! {

/// Whole milliseconds in `cycles`, on a clock of `ticks` cycles per millisecond.
/// A clock that was never configured counts no milliseconds.
pub open spec fn msec_of_cycles(cycles: u32, ticks: u32) -> u32 {
    if ticks == 0 {
        0
    } else {
        cycles / ticks
    }
}

pub fn msec_from_cycles(cycles: u32, ticks: u32) -> (msec: u32)
    ensures
        msec == msec_of_cycles(cycles, ticks),
{
    if ticks == 0 {
        return 0;
    }
    cycles / ticks
}

/// Clock configuration of the board.
#[derive(Clone, Copy, Debug, PartialEq, Eq, Structural)]
pub struct Clock {
    pub freq: u32,
}

impl Clock {
    /// Whole timer ticks per millisecond.
    pub open spec fn ticks(self) -> u32 {
        self.freq / 1000
    }

    /// A clock that was not configured yet.
    pub fn new() -> (clock: Self)
        ensures
            clock.freq == 0,
    {
        Self { freq: 0 }
    }
}

pub fn sys_clk_freq(clock: &Clock) -> (freq: u32)
    ensures
        freq == clock.freq,
{
    clock.freq
}

pub fn update_sys_clk_freq(clock: &mut Clock, freq: u32)
    ensures
        final(clock).freq == freq,
{
    clock.freq = freq;
}

/// Timer ticks per millisecond; the remainder below a millisecond is dropped.
pub fn ticks_per_ms(clock: &Clock) -> (ticks: u32)
    ensures
        ticks == clock.ticks(),
        ticks * 1000 <= clock.freq < (ticks + 1) * 1000,
{
    sys_clk_freq(clock) / 1000
}

} // verus!
