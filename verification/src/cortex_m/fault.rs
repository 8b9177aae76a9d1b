//! Fault attribution: the logical domain of a faulting program counter, the
//! faulting address reported by the fault status registers, and the bits to
//! clear after handling.
use vstd::prelude::*;
use crate::domain::Domain;
use crate::fault::FaultKind;
use crate::cortex_m::mpu::{FLASH_BASE, PERIPH_BASE, SDRAM_BASE};

verus! {

/// The domain that owns code at `pc`: peripherals' window = Drivers, SDRAM
/// = Services, internal flash = App, anything else = Kernel.
pub open spec fn domain_of_pc(pc: u32) -> Domain {
    if PERIPH_BASE <= pc < 0x6000_0000 {
        Domain::Drivers
    } else if SDRAM_BASE <= pc < 0xC100_0000 {
        Domain::Services
    } else if FLASH_BASE <= pc < 0x0820_0000 {
        Domain::App
    } else {
        Domain::Kernel
    }
}

/// Logical domain of the code at `pc`.
pub fn domain_for_pc(pc: u32) -> (d: Domain)
    ensures
        d == domain_of_pc(pc),
{
    if PERIPH_BASE <= pc && pc < 0x6000_0000 {
        Domain::Drivers
    } else if SDRAM_BASE <= pc && pc < 0xC100_0000 {
        Domain::Services
    } else if FLASH_BASE <= pc && pc < 0x0820_0000 {
        Domain::App
    } else {
        Domain::Kernel
    }
}

/// `CFSR.MMARVALID`: `MMFAR` holds the faulting address.
pub const MMARVALID: u32 = 0x80;
/// `CFSR.BFARVALID`: `BFAR` holds the faulting address.
pub const BFARVALID: u32 = 0x8000;

/// Faulting address of a fault of `kind`, from the status word `cfsr` and
/// the address registers `mmfar` and `bfar`: only a MemManage or BusFault
/// whose address is marked valid has one.
pub fn fault_address(kind: FaultKind, cfsr: u32, mmfar: u32, bfar: u32) -> (r: Option<u32>)
    ensures
        r == (match kind {
            FaultKind::MemManage => if cfsr & MMARVALID != 0 { Some(mmfar) } else { None },
            FaultKind::BusFault => if cfsr & BFARVALID != 0 { Some(bfar) } else { None },
            _ => None,
        }),
{
    match kind {
        FaultKind::MemManage => if cfsr & MMARVALID != 0 { Some(mmfar) } else { None },
        FaultKind::BusFault => if cfsr & BFARVALID != 0 { Some(bfar) } else { None },
        _ => None,
    }
}

/// What to write back to clear the status of a handled fault.
#[derive(Clone, Copy, Debug, PartialEq, Eq, Structural)]
pub struct FaultClear {
    /// New `CFSR` value.
    pub cfsr: u32,
    /// New `HFSR` value, when it changes.
    pub hfsr: Option<u32>,
}

/// Status words after clearing a fault of `kind` (write-one-to-clear): the
/// fault's own `CFSR` byte(s) are written back, and a HardFault also clears
/// `HFSR.VECTTBL` and every `CFSR` bit.
pub fn clear_fault_status(kind: FaultKind, cfsr: u32, hfsr: u32) -> (r: FaultClear)
    ensures
        r == (match kind {
            FaultKind::MemManage => FaultClear { cfsr: cfsr & 0xFF, hfsr: None },
            FaultKind::BusFault => FaultClear { cfsr: cfsr & 0xFF00, hfsr: None },
            FaultKind::UsageFault => FaultClear { cfsr: cfsr & 0xFFFF_0000, hfsr: None },
            FaultKind::HardFault => FaultClear { cfsr: 0xFFFF_FFFF, hfsr: Some(hfsr | 0x2) },
        }),
{
    match kind {
        FaultKind::MemManage => FaultClear { cfsr: cfsr & 0xFF, hfsr: None },
        FaultKind::BusFault => FaultClear { cfsr: cfsr & 0xFF00, hfsr: None },
        FaultKind::UsageFault => FaultClear { cfsr: cfsr & 0xFFFF_0000, hfsr: None },
        FaultKind::HardFault => FaultClear { cfsr: 0xFFFF_FFFF, hfsr: Some(hfsr | 0x2) },
    }
}

/// Whether the exception return code `exc_return` returns to thread mode
/// (the fault came from a task rather than from a handler).
pub fn fault_from_thread(exc_return: u32) -> (r: bool)
    ensures
        r == ((exc_return & 0xF) == 0xD || (exc_return & 0xF) == 0x9 || (exc_return & 0xF) == 0x1),
{
    let low = exc_return & 0xF;
    low == 0xD || low == 0x9 || low == 0x1
}

} // verus!
