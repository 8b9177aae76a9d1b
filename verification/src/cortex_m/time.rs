//! SysTick clock: millisecond counter, optional tickless idle.
//!
//! [`TickClock`] holds what the SysTick handler and the idle path share; the
//! backend keeps one, programs the timer with the reloads computed here and
//! waits for interrupts.
use vstd::prelude::*;

verus! {

/// Mask of the 24-bit SysTick reload register.
pub const RELOAD_MASK: u32 = 0x00FF_FFFF;

/// Counter state of the SysTick clock.
#[derive(Clone, Copy, Debug, PartialEq, Eq, Structural)]
pub struct TickClock {
    /// Milliseconds since boot (wrapping).
    pub millis: u32,
    /// SysTick interrupts taken (wrapping).
    pub systick_irqs: u32,
    /// Timer counts per millisecond (at least 1).
    pub units_per_ms: u32,
    /// Longest tick, in ms, the 24-bit reload can hold (at least 1).
    pub max_tick_ms: u32,
    /// Length in ms of the tick in progress.
    pub tick_ms: u32,
    /// Timer counts not yet turned into milliseconds.
    pub remainder: u32,
}

/// `a * b`, saturated at `u32::MAX`.
pub open spec fn sat_mul(a: u32, b: u32) -> u32 {
    if a * b > u32::MAX { u32::MAX } else { (a * b) as u32 }
}

/// Saturating product of two counts.
fn saturating_mul(a: u32, b: u32) -> (r: u32)
    ensures
        r == sat_mul(a, b),
{
    proof {
        assert((a as u64) * (b as u64) <= 0xFFFF_FFFFu64 * 0xFFFF_FFFFu64) by (nonlinear_arith);
    }
    let p: u64 = (a as u64) * (b as u64);
    if p > 0xFFFF_FFFFu64 { 0xFFFF_FFFF } else { p as u32 }
}

/// The reload that makes one tick last `ms` milliseconds.
pub open spec fn reload_for(ms: u32, units: u32) -> u32 {
    (sat_mul(ms, units).saturating_sub(1)) & RELOAD_MASK
}

/// What the idle path does when the next wake-up is `next_wake_ms` away.
#[derive(Clone, Copy, Debug, PartialEq, Eq, Structural)]
pub enum IdlePlan {
    /// Something is due now: return at once.
    Return,
    /// Wait for the next normal 1 ms tick.
    Wfi,
    /// Stretch the tick to this many ms, with this reload, then wait.
    Extend(u32, u32),
}

impl TickClock {
    /// Clock for a core running at `core_hz`, with 1 ms ticks. Returns the
    /// clock and the reload to program.
    pub fn init(core_hz: u32) -> (r: (TickClock, u32))
        ensures
            ({
                let units = if core_hz / 1000 < 1 { 1u32 } else { (core_hz / 1000) as u32 };
                let maxt = if 0x0100_0000u32 / units < 1 { 1u32 } else { (0x0100_0000u32 / units) as u32 };
                &&& r.0 == TickClock { millis: 0, systick_irqs: 0, units_per_ms: units, max_tick_ms: maxt, tick_ms: 1, remainder: 0 }
                &&& r.1 == (units.saturating_sub(1) & RELOAD_MASK)
            }),
    {
        let q = core_hz / 1000;
        let units: u32 = if q < 1 { 1 } else { q };
        let m = 0x0100_0000u32 / units;
        let maxt: u32 = if m < 1 { 1 } else { m };
        let clock = TickClock { millis: 0, systick_irqs: 0, units_per_ms: units, max_tick_ms: maxt, tick_ms: 1, remainder: 0 };
        (clock, units.saturating_sub(1) & RELOAD_MASK)
    }

    /// Milliseconds since boot.
    pub fn now_ms(&self) -> (r: u32)
        ensures
            r == self.millis,
    {
        self.millis
    }

    /// Milliseconds elapsed since `since` (wrapping).
    pub fn elapsed_ms(&self, since: u32) -> (r: u32)
        ensures
            r == self.millis.wrapping_sub(since),
    {
        self.millis.wrapping_sub(since)
    }

    /// SysTick interrupts taken.
    pub fn systick_irqs(&self) -> (r: u32)
        ensures
            r == self.systick_irqs,
    {
        self.systick_irqs
    }

    /// SysTick handler: counts the interrupt and the tick that ended (a
    /// stretched tick counts its whole length). Returns the reload that
    /// brings the timer back to 1 ms ticks after a stretched tick.
    pub fn on_systick(&mut self) -> (r: Option<u32>)
        ensures
            final(self).systick_irqs == old(self).systick_irqs.wrapping_add(1),
            final(self).millis == old(self).millis.wrapping_add(old(self).tick_ms),
            final(self).tick_ms == 1,
            final(self).units_per_ms == old(self).units_per_ms,
            final(self).max_tick_ms == old(self).max_tick_ms,
            final(self).remainder == old(self).remainder,
            r == (if old(self).tick_ms != 1 { Some(old(self).units_per_ms.saturating_sub(1) & RELOAD_MASK) } else { None }),
    {
        self.systick_irqs = self.systick_irqs.wrapping_add(1);
        let tick = self.tick_ms;
        self.tick_ms = 1;
        self.millis = self.millis.wrapping_add(tick);
        if tick != 1 {
            Some(self.units_per_ms.saturating_sub(1) & RELOAD_MASK)
        } else {
            None
        }
    }

    /// How to idle until the next wake-up, `next_wake_ms` from now (`None`
    /// = nothing scheduled): return at once when something is due, keep
    /// 1 ms ticks for a 1 ms wait, else stretch the tick up to the longest
    /// the timer allows.
    pub fn idle_plan(&self, next_wake_ms: Option<u32>) -> (r: IdlePlan)
        ensures
            ({
                let extend = match next_wake_ms {
                    Some(ms) => if ms >= 2 { if ms < self.max_tick_ms { ms } else { self.max_tick_ms } } else { 0 },
                    None => self.max_tick_ms,
                };
                r == (if next_wake_ms == Some(0u32) {
                    IdlePlan::Return
                } else if extend < 2 {
                    IdlePlan::Wfi
                } else {
                    IdlePlan::Extend(extend, reload_for(extend, self.units_per_ms))
                })
            }),
    {
        let extend: u32 = match next_wake_ms {
            Some(0) => return IdlePlan::Return,
            Some(ms) => if ms >= 2 { if ms < self.max_tick_ms { ms } else { self.max_tick_ms } } else { 0 },
            None => self.max_tick_ms,
        };
        if extend < 2 {
            return IdlePlan::Wfi;
        }
        IdlePlan::Extend(extend, saturating_mul(extend, self.units_per_ms).saturating_sub(1) & RELOAD_MASK)
    }

    /// Starts a stretched tick of `extend` ms.
    pub fn arm_idle(&mut self, extend: u32)
        ensures
            *final(self) == (TickClock { tick_ms: extend, ..*old(self) }),
    {
        self.tick_ms = extend;
    }

    /// Accounts a stretched tick cut short by another interrupt: `wrapped`
    /// tells whether the timer reached zero, `current` is its counter and
    /// `reload` the stretched reload. Whole milliseconds go to the clock,
    /// the rest is kept. Returns `None` when the SysTick handler already
    /// counted the tick, else the 1 ms reload to program again.
    pub fn idle_wake(&mut self, wrapped: bool, current: u32, reload: u32) -> (r: Option<u32>)
        requires
            old(self).units_per_ms >= 1,
        ensures
            old(self).tick_ms == 1 ==> r is None && *final(self) == *old(self),
            old(self).tick_ms != 1 ==> ({
                let counts = if wrapped { reload.wrapping_add(1) } else { reload.wrapping_sub(current) };
                let total = counts.wrapping_add(old(self).remainder);
                &&& r == Some(old(self).units_per_ms.saturating_sub(1) & RELOAD_MASK)
                &&& *final(self) == TickClock {
                    tick_ms: 1,
                    remainder: total % old(self).units_per_ms,
                    millis: old(self).millis.wrapping_add(total / old(self).units_per_ms),
                    ..*old(self)
                }
            }),
    {
        let pending = self.tick_ms;
        self.tick_ms = 1;
        if pending == 1 {
            return None;
        }
        let counts = if wrapped { reload.wrapping_add(1) } else { reload.wrapping_sub(current) };
        let total = counts.wrapping_add(self.remainder);
        let ms = total / self.units_per_ms;
        self.remainder = total % self.units_per_ms;
        self.millis = self.millis.wrapping_add(ms);
        Some(self.units_per_ms.saturating_sub(1) & RELOAD_MASK)
    }
}

/// Law: an idle stretch never exceeds the next wake-up nor the longest tick
/// the timer holds, and is at least 2 ms.
pub proof fn lemma_idle_bounded(c: TickClock, next: Option<u32>, extend: u32, reload: u32)
    requires
        ({
            let e = match next {
                Some(ms) => if ms >= 2 { if ms < c.max_tick_ms { ms } else { c.max_tick_ms } } else { 0 },
                None => c.max_tick_ms,
            };
            next != Some(0u32) && e >= 2 && extend == e && reload == reload_for(e, c.units_per_ms)
        }),
    ensures
        2 <= extend <= c.max_tick_ms,
        next matches Some(ms) ==> extend <= ms,
{
}

} // verus!
