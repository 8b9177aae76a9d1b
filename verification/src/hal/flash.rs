//! The flash window used as a block device on the STM32F4: its layout and
//! the checks on every access.
use vstd::prelude::*;

verus! {

/// Base of the window on 1 MiB parts (sector 11).
pub const WINDOW_BASE: u32 = 0x080E_0000;
/// Base of the window on 512 KiB parts (sector 7).
pub const WINDOW_BASE_VE: u32 = 0x0806_0000;
/// Size of the window (one 128 KiB sector).
pub const WINDOW_SIZE: u32 = 0x2_0000;
/// Sector of the window on 1 MiB parts.
pub const SECTOR_VG: u32 = 11;
/// Sector of the window on 512 KiB parts.
pub const SECTOR_VE: u32 = 7;
/// Error bits of `FLASH_SR` (`OPERR`, `WRPERR`, `PGAERR`, `PGPERR`, `PGSERR`).
pub const SR_ERR_MASK: u32 = 0xF2;

/// Error of the flash window.
#[derive(Clone, Copy, Debug, PartialEq, Eq, Structural)]
pub enum FlashError {
    /// Access outside the window.
    OutOfRange,
    /// The controller reported these error bits.
    Hw(u32),
    /// What was read back differs from what was written.
    Verify,
}

/// One erase sector of the internal flash, used as a block device.
#[derive(Clone, Copy, Debug, PartialEq, Eq, Structural)]
pub struct FlashWindow {
    /// Flash sector number.
    pub sector: u32,
    /// Address of its first byte.
    pub base: u32,
}

impl FlashWindow {
    /// Window on sector 11 of 1 MiB parts.
    pub fn new() -> (r: Self)
        ensures
            r == (FlashWindow { sector: SECTOR_VG, base: WINDOW_BASE }),
    {
        FlashWindow { sector: SECTOR_VG, base: WINDOW_BASE }
    }

    /// Window on sector 7 of 512 KiB parts.
    pub fn new_ve512k() -> (r: Self)
        ensures
            r == (FlashWindow { sector: SECTOR_VE, base: WINDOW_BASE_VE }),
    {
        FlashWindow { sector: SECTOR_VE, base: WINDOW_BASE_VE }
    }

    /// `[addr, addr + len)` lies inside the window.
    pub fn in_window(addr: u32, len: usize) -> (r: bool)
        ensures
            r == (addr as int + len as int <= WINDOW_SIZE as int),
    {
        if len > WINDOW_SIZE as usize {
            false
        } else {
            (addr as u64) + (len as u64) <= WINDOW_SIZE as u64
        }
    }

    /// Checks an access of `len` bytes at `addr`.
    pub fn check(addr: u32, len: usize) -> (r: Result<(), FlashError>)
        ensures
            r == (if addr as int + len as int <= WINDOW_SIZE as int { Ok::<(), FlashError>(()) } else { Err(FlashError::OutOfRange) }),
    {
        if Self::in_window(addr, len) { Ok(()) } else { Err(FlashError::OutOfRange) }
    }

    /// The status of an erase or program, from the `FLASH_SR` word.
    pub fn status(sr: u32) -> (r: Result<(), FlashError>)
        ensures
            r == (if sr & SR_ERR_MASK != 0 { Err(FlashError::Hw(sr & SR_ERR_MASK)) } else { Ok::<(), FlashError>(()) }),
    {
        if sr & SR_ERR_MASK != 0 { Err(FlashError::Hw(sr & SR_ERR_MASK)) } else { Ok(()) }
    }
}

} // verus!
