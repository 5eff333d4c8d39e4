//! The periodic timer: decoding the interrupt-source register, computing
//! compare values, and the tick that drives the scheduler.

use vstd::prelude::*;
use crate::task::{tbl_wf, TaskTable};

verus! {

/// Offset of the per-core timer interrupt-control registers in the local
/// peripheral block.
pub const CORE_TIMER_INTERRUPT_CONTROL_OFFSET: u64 = 0x40;

/// Offset of the per-core interrupt-source registers.
pub const CORE_TIMER_IRQ_SOURCE_OFFSET: u64 = 0x60;

/// Address of the interrupt-control register for `core`.
pub fn core_timer_interrupt_control(base: u64, core: u8) -> (r: u64)
    requires
        base <= 0xffff_ffff_0000_0000,
    ensures
        r == base + CORE_TIMER_INTERRUPT_CONTROL_OFFSET + 4 * (core as u64),
{
    base + CORE_TIMER_INTERRUPT_CONTROL_OFFSET + 4 * (core as u64)
}

/// Address of the interrupt-source register for `core`.
pub fn core_timer_irq_source(base: u64, core: u8) -> (r: u64)
    requires
        base <= 0xffff_ffff_0000_0000,
    ensures
        r == base + CORE_TIMER_IRQ_SOURCE_OFFSET + 4 * (core as u64),
{
    base + CORE_TIMER_IRQ_SOURCE_OFFSET + 4 * (core as u64)
}

/// Bit 1 of the interrupt-source register reports the physical timer.
pub fn pending_timer_irq(irq_source: u32) -> (r: bool)
    ensures
        r == (irq_source & 2 == 2),
{
    irq_source & 2 == 2
}

/// The periodic interrupt source.
pub struct Timer;

impl Timer {
    /// The compare value that schedules the next interrupt: the current
    /// count plus one interval of the counter frequency over the
    /// interrupt frequency.
    pub fn next_compare(cntpct: u64, freq: u64, hz: u64) -> (r: u64)
        requires
            hz > 0,
            cntpct + freq / hz <= 0xffff_ffff_ffff_ffff,
        ensures
            r == cntpct + freq / hz,
    {
        cntpct + freq / hz
    }

    /// The counter value a busy wait of `ms` milliseconds runs until.
    pub fn wait_target(cntpct: u64, freq: u64, ms: u64) -> (r: u64)
        requires
            cntpct + (freq / 1000) * ms / 1000 <= 0xffff_ffff_ffff_ffff,
            (freq / 1000) * ms <= 0xffff_ffff_ffff_ffff,
        ensures
            r == cntpct + (freq / 1000) * ms / 1000,
    {
        cntpct + (freq / 1000) * ms / 1000
    }
}

/// The timer interrupt: reprogram the compare value one interval ahead
/// and run the scheduler tick. Returns the new compare value and the
/// context-switch pair the tick decided on.
pub fn handle_timer_irq(tbl: &mut TaskTable, cntpct: u64, freq: u64, hz: u64) -> (r: (
    u64,
    Option<(u64, u64)>,
))
    requires
        tbl_wf(*old(tbl)),
        hz > 0,
        cntpct + freq / hz <= 0xffff_ffff_ffff_ffff,
    ensures
        tbl_wf(*final(tbl)),
        r.0 == cntpct + freq / hz,
        match r.1 {
            Option::None => *final(tbl) == *old(tbl) && old(tbl).ready@.len() == 0,
            Option::Some((from, to)) => from == old(tbl).current && to == old(tbl).ready@[0]
                && final(tbl).current == to && final(tbl).ready@ == old(
                tbl,
            ).ready@.drop_first().push(from),
        },
{
    let cval = Timer::next_compare(cntpct, freq, hz);
    let switch = tbl.timer_tick();
    (cval, switch)
}

} // verus!
