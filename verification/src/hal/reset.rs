//! Reset causes (`RCC_CSR`) and the fault record kept in backup registers
//! across a reset.
use vstd::prelude::*;

verus! {

/// Cause of the last reset of an STM32F1.
#[derive(Clone, Copy, Debug, PartialEq, Eq, Structural)]
pub enum ResetCause {
    /// Power on / power down.
    PowerOn,
    /// NRST pin.
    Pin,
    /// Software (`SYSRESETREQ`).
    Software,
    /// Independent watchdog.
    IndependentWatchdog,
    /// Window watchdog.
    WindowWatchdog,
    /// Illegal entry into a low-power mode.
    LowPower,
    /// No flag set.
    Unknown,
}

impl ResetCause {
    /// Short name for logs.
    pub fn name(self) -> (r: &'static str)
        ensures
            r@ == reset_name(self)@,
    {
        match self {
            ResetCause::PowerOn => "power-on",
            ResetCause::Pin => "pin-reset",
            ResetCause::Software => "software",
            ResetCause::IndependentWatchdog => "watchdog",
            ResetCause::WindowWatchdog => "wwdg",
            ResetCause::LowPower => "low-power",
            ResetCause::Unknown => "unknown",
        }
    }
}

/// The name of each cause.
pub open spec fn reset_name(c: ResetCause) -> &'static str {
    match c {
        ResetCause::PowerOn => "power-on",
        ResetCause::Pin => "pin-reset",
        ResetCause::Software => "software",
        ResetCause::IndependentWatchdog => "watchdog",
        ResetCause::WindowWatchdog => "wwdg",
        ResetCause::LowPower => "low-power",
        ResetCause::Unknown => "unknown",
    }
}

/// `RCC_CSR.LPWRRSTF`.
pub const LPWRRSTF: u32 = 0x8000_0000;
/// `RCC_CSR.WWDGRSTF`.
pub const WWDGRSTF: u32 = 0x4000_0000;
/// `RCC_CSR.IWDGRSTF`.
pub const IWDGRSTF: u32 = 0x2000_0000;
/// `RCC_CSR.SFTRSTF`.
pub const SFTRSTF: u32 = 0x1000_0000;
/// `RCC_CSR.PORRSTF`.
pub const PORRSTF: u32 = 0x0800_0000;
/// `RCC_CSR.PINRSTF`.
pub const PINRSTF: u32 = 0x0400_0000;
/// `RCC_CSR.BORRSTF` (STM32F4 only).
pub const BORRSTF: u32 = 0x0200_0000;
/// `RCC_CSR.RMVF`: writing it clears the flags.
pub const RMVF: u32 = 0x0100_0000;

/// The reset cause an STM32F1 reports in `csr`; several flags can be set
/// at once, the most specific wins.
pub open spec fn f1_cause(csr: u32) -> ResetCause {
    if csr & LPWRRSTF != 0 {
        ResetCause::LowPower
    } else if csr & WWDGRSTF != 0 {
        ResetCause::WindowWatchdog
    } else if csr & IWDGRSTF != 0 {
        ResetCause::IndependentWatchdog
    } else if csr & SFTRSTF != 0 {
        ResetCause::Software
    } else if csr & PORRSTF != 0 {
        ResetCause::PowerOn
    } else if csr & PINRSTF != 0 {
        ResetCause::Pin
    } else {
        ResetCause::Unknown
    }
}

/// Decodes the reset cause of an STM32F1 from `RCC_CSR`; the caller then
/// sets `RMVF` to clear the flags.
pub fn read_reset_cause(csr: u32) -> (r: ResetCause)
    ensures
        r == f1_cause(csr),
{
    if csr & LPWRRSTF != 0 {
        ResetCause::LowPower
    } else if csr & WWDGRSTF != 0 {
        ResetCause::WindowWatchdog
    } else if csr & IWDGRSTF != 0 {
        ResetCause::IndependentWatchdog
    } else if csr & SFTRSTF != 0 {
        ResetCause::Software
    } else if csr & PORRSTF != 0 {
        ResetCause::PowerOn
    } else if csr & PINRSTF != 0 {
        ResetCause::Pin
    } else {
        ResetCause::Unknown
    }
}

/// Cause of the last reset of an STM32F4.
#[derive(Clone, Copy, Debug, PartialEq, Eq, Structural)]
pub enum F4ResetCause {
    /// Power on / power down.
    PowerOn,
    /// Brown-out.
    Brownout,
    /// NRST pin.
    Pin,
    /// Software (`SYSRESETREQ`).
    Software,
    /// Independent watchdog.
    IndependentWatchdog,
    /// Window watchdog.
    WindowWatchdog,
    /// Illegal entry into Stop/Standby.
    LowPower,
    /// No flag set.
    Unknown,
}

impl F4ResetCause {
    /// Short name for logs.
    pub fn name(self) -> (r: &'static str)
        ensures
            r@ == f4_reset_name(self)@,
    {
        match self {
            F4ResetCause::PowerOn => "power-on",
            F4ResetCause::Brownout => "brownout",
            F4ResetCause::Pin => "pin-nrst",
            F4ResetCause::Software => "software",
            F4ResetCause::IndependentWatchdog => "iwdg",
            F4ResetCause::WindowWatchdog => "wwdg",
            F4ResetCause::LowPower => "low-power",
            F4ResetCause::Unknown => "unknown",
        }
    }
}

/// The name of each cause.
pub open spec fn f4_reset_name(c: F4ResetCause) -> &'static str {
    match c {
        F4ResetCause::PowerOn => "power-on",
        F4ResetCause::Brownout => "brownout",
        F4ResetCause::Pin => "pin-nrst",
        F4ResetCause::Software => "software",
        F4ResetCause::IndependentWatchdog => "iwdg",
        F4ResetCause::WindowWatchdog => "wwdg",
        F4ResetCause::LowPower => "low-power",
        F4ResetCause::Unknown => "unknown",
    }
}

/// The reset cause an STM32F4 reports in `csr`.
pub open spec fn f4_cause(csr: u32) -> F4ResetCause {
    if csr & LPWRRSTF != 0 {
        F4ResetCause::LowPower
    } else if csr & WWDGRSTF != 0 {
        F4ResetCause::WindowWatchdog
    } else if csr & IWDGRSTF != 0 {
        F4ResetCause::IndependentWatchdog
    } else if csr & SFTRSTF != 0 {
        F4ResetCause::Software
    } else if csr & BORRSTF != 0 {
        F4ResetCause::Brownout
    } else if csr & PORRSTF != 0 {
        F4ResetCause::PowerOn
    } else if csr & PINRSTF != 0 {
        F4ResetCause::Pin
    } else {
        F4ResetCause::Unknown
    }
}

/// Decodes the reset cause of an STM32F4 from `RCC_CSR`, and the value to
/// write back to clear the flags.
pub fn read_and_clear(csr: u32) -> (r: (F4ResetCause, u32))
    ensures
        r == (f4_cause(csr), csr | RMVF),
{
    let cause = if csr & LPWRRSTF != 0 {
        F4ResetCause::LowPower
    } else if csr & WWDGRSTF != 0 {
        F4ResetCause::WindowWatchdog
    } else if csr & IWDGRSTF != 0 {
        F4ResetCause::IndependentWatchdog
    } else if csr & SFTRSTF != 0 {
        F4ResetCause::Software
    } else if csr & BORRSTF != 0 {
        F4ResetCause::Brownout
    } else if csr & PORRSTF != 0 {
        F4ResetCause::PowerOn
    } else if csr & PINRSTF != 0 {
        F4ResetCause::Pin
    } else {
        F4ResetCause::Unknown
    };
    (cause, csr | RMVF)
}

/// Marker of a fault record in the first backup register (high byte).
pub const FAULT_MAGIC: u16 = 0xF500;
/// Mask of the marker.
pub const FAULT_MASK: u16 = 0xFF00;

/// A fault recorded before a reset.
#[derive(Clone, Copy, Debug, PartialEq, Eq, Structural)]
pub struct FaultRecord {
    /// Kind of fault (`FaultKind` code).
    pub kind: u8,
    /// Index of the faulting task.
    pub task: u8,
}

/// The two backup words that record a fault.
pub open spec fn fault_words(kind: u8, task: u8) -> (u16, u16) {
    (FAULT_MAGIC | (kind as u16), task as u16)
}

/// Backup words to write to record a fault of `kind` in task `task`.
pub fn save_fault(kind: u8, task: u8) -> (r: (u16, u16))
    ensures
        r == fault_words(kind, task),
{
    (FAULT_MAGIC | (kind as u16), task as u16)
}

/// The fault recorded in backup words `dr1`, `dr2`, if the marker is
/// there. The caller clears both words afterwards (one-shot).
pub fn take_fault(dr1: u16, dr2: u16) -> (r: Option<FaultRecord>)
    ensures
        r == (if dr1 & FAULT_MASK != FAULT_MAGIC {
            None
        } else {
            Some(FaultRecord { kind: (dr1 & 0x00FF) as u8, task: (dr2 & 0x00FF) as u8 })
        }),
{
    if dr1 & FAULT_MASK != FAULT_MAGIC {
        return None;
    }
    Some(FaultRecord { kind: (dr1 & 0x00FF) as u8, task: (dr2 & 0x00FF) as u8 })
}

/// Law: a saved fault is taken back unchanged.
pub proof fn lemma_fault_roundtrip(kind: u8, task: u8)
    ensures
        ({
            let (d1, d2) = fault_words(kind, task);
            d1 & FAULT_MASK == FAULT_MAGIC && (d1 & 0x00FF) as u8 == kind && (d2 & 0x00FF) as u8 == task
        }),
{
    assert(((0xF500u16 | (kind as u16)) & 0xFF00u16) == 0xF500u16) by (bit_vector);
    assert((((0xF500u16 | (kind as u16)) & 0x00FFu16) as u8) == kind) by (bit_vector);
    assert((((task as u16) & 0x00FFu16) as u8) == task) by (bit_vector);
}

} // verus!
