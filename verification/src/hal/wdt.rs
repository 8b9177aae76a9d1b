//! Independent watchdog: configuration and the keys written to it.
use vstd::prelude::*;

verus! {

/// Key that unlocks `PR`/`RLR`.
pub const KEY_UNLOCK: u16 = 0x5555;
/// Key that reloads the counter.
pub const KEY_RELOAD: u16 = 0xAAAA;
/// Key that starts the watchdog (it cannot be stopped afterwards).
pub const KEY_START: u16 = 0xCCCC;
/// Prescaler /128.
pub const PRESCALER: u8 = 0b101;
/// Reload giving about 2 s at 40 kHz / 128.
pub const RELOAD: u16 = 625;

/// State of the watchdog driver.
#[derive(Clone, Copy, Debug, PartialEq, Eq, Structural)]
pub struct Watchdog {
    armed: bool,
}

/// Keys to write to the key register, in order.
#[derive(Clone, Copy, Debug, PartialEq, Eq, Structural)]
pub struct Keys {
    /// Start key, when the watchdog was not running.
    pub start: Option<u16>,
    /// Reload key, when the watchdog runs.
    pub reload: Option<u16>,
}

impl View for Watchdog {
    type V = bool;

    /// Whether the watchdog was started.
    closed spec fn view(&self) -> bool {
        self.armed
    }
}

impl Watchdog {
    /// A watchdog left stopped (for development builds).
    pub fn disabled() -> (r: Self)
        ensures
            !r@,
    {
        Watchdog { armed: false }
    }

    /// The driver after programming prescaler and reload; not started yet.
    pub fn init() -> (r: Self)
        ensures
            !r@,
    {
        Watchdog { armed: false }
    }

    /// Starts the watchdog if it was not running, then reloads it.
    pub fn arm(&mut self) -> (k: Keys)
        ensures
            final(self)@,
            k == (Keys { start: if old(self)@ { None } else { Some(KEY_START) }, reload: Some(KEY_RELOAD) }),
    {
        let start = if !self.armed {
            self.armed = true;
            Some(KEY_START)
        } else {
            None
        };
        Keys { start, reload: self.kick() }
    }

    /// Reload key to write, when the watchdog runs.
    pub fn kick(&self) -> (k: Option<u16>)
        ensures
            k == (if self@ { Some(KEY_RELOAD) } else { None }),
    {
        if self.armed { Some(KEY_RELOAD) } else { None }
    }

    /// Whether the watchdog runs.
    pub fn is_armed(&self) -> (r: bool)
        ensures
            r == self@,
    {
        self.armed
    }
}

} // verus!
