//! Lite syscalls of the appliance tier (no MPU): the firmware installs one
//! hook per service, and [`dispatch`] decodes a call into the hook call it
//! asks for, checking its arguments first.
use vstd::prelude::*;
use crate::errno::EINVAL;

verus! {

/// Lite syscall identifiers (codes `0x50..=0x5F`, see [`Id::code`]).
#[derive(Clone, Copy, Debug, PartialEq, Eq, Structural)]
pub enum Id {
    SysInfo,
    SysStatus,
    GpioRead,
    GpioWrite,
    GpioToggle,
    GpioBind,
    BusScan,
    ConfigGet,
    ConfigSet,
    ConfigCommit,
    ModuleList,
    ModuleRead,
    TaskList,
    AppReload,
    SysFailsafe,
    Wdt,
}

/// The ABI code of each lite syscall.
pub open spec fn lite_code(id: Id) -> u8 {
    match id {
        Id::SysInfo => 0x50,
        Id::SysStatus => 0x51,
        Id::GpioRead => 0x52,
        Id::GpioWrite => 0x53,
        Id::GpioToggle => 0x54,
        Id::GpioBind => 0x55,
        Id::BusScan => 0x56,
        Id::ConfigGet => 0x57,
        Id::ConfigSet => 0x58,
        Id::ConfigCommit => 0x59,
        Id::ModuleList => 0x5A,
        Id::ModuleRead => 0x5B,
        Id::TaskList => 0x5C,
        Id::AppReload => 0x5D,
        Id::SysFailsafe => 0x5E,
        Id::Wdt => 0x5F,
    }
}

/// The lite syscall whose code is `raw`, if any.
pub open spec fn lite_of(raw: u8) -> Option<Id> {
    if raw == 0x50 { Some(Id::SysInfo) }
    else if raw == 0x51 { Some(Id::SysStatus) }
    else if raw == 0x52 { Some(Id::GpioRead) }
    else if raw == 0x53 { Some(Id::GpioWrite) }
    else if raw == 0x54 { Some(Id::GpioToggle) }
    else if raw == 0x55 { Some(Id::GpioBind) }
    else if raw == 0x56 { Some(Id::BusScan) }
    else if raw == 0x57 { Some(Id::ConfigGet) }
    else if raw == 0x58 { Some(Id::ConfigSet) }
    else if raw == 0x59 { Some(Id::ConfigCommit) }
    else if raw == 0x5A { Some(Id::ModuleList) }
    else if raw == 0x5B { Some(Id::ModuleRead) }
    else if raw == 0x5C { Some(Id::TaskList) }
    else if raw == 0x5D { Some(Id::AppReload) }
    else if raw == 0x5E { Some(Id::SysFailsafe) }
    else if raw == 0x5F { Some(Id::Wdt) }
    else { None }
}

impl Id {
    /// Decodes the raw immediate.
    pub fn from_raw(raw: u8) -> (r: Option<Id>)
        ensures
            r == lite_of(raw),
    {
        match raw {
            0x50 => Some(Id::SysInfo),
            0x51 => Some(Id::SysStatus),
            0x52 => Some(Id::GpioRead),
            0x53 => Some(Id::GpioWrite),
            0x54 => Some(Id::GpioToggle),
            0x55 => Some(Id::GpioBind),
            0x56 => Some(Id::BusScan),
            0x57 => Some(Id::ConfigGet),
            0x58 => Some(Id::ConfigSet),
            0x59 => Some(Id::ConfigCommit),
            0x5A => Some(Id::ModuleList),
            0x5B => Some(Id::ModuleRead),
            0x5C => Some(Id::TaskList),
            0x5D => Some(Id::AppReload),
            0x5E => Some(Id::SysFailsafe),
            0x5F => Some(Id::Wdt),
            _ => None,
        }
    }

    /// The ABI code of this lite syscall.
    pub fn code(self) -> (r: u8)
        ensures
            r == lite_code(self),
    {
        match self {
            Id::SysInfo => 0x50,
            Id::SysStatus => 0x51,
            Id::GpioRead => 0x52,
            Id::GpioWrite => 0x53,
            Id::GpioToggle => 0x54,
            Id::GpioBind => 0x55,
            Id::BusScan => 0x56,
            Id::ConfigGet => 0x57,
            Id::ConfigSet => 0x58,
            Id::ConfigCommit => 0x59,
            Id::ModuleList => 0x5A,
            Id::ModuleRead => 0x5B,
            Id::TaskList => 0x5C,
            Id::AppReload => 0x5D,
            Id::SysFailsafe => 0x5E,
            Id::Wdt => 0x5F,
        }
    }
}

/// Law: the lite codes are a bijection with the lite syscalls.
pub proof fn lemma_lite_code_roundtrip(id: Id, raw: u8)
    ensures
        lite_of(lite_code(id)) == Some(id),
        lite_of(raw) matches Some(i) ==> lite_code(i) == raw,
{
}

/// GPIO level for the write hook.
#[derive(Clone, Copy, Debug, PartialEq, Eq, Structural)]
pub enum GpioLevel {
    /// Low level.
    Low,
    /// High level.
    High,
}

/// A caller's buffer, by address and length (both nonzero).
#[derive(Clone, Copy, Debug, PartialEq, Eq, Structural)]
pub struct Buf {
    /// Address of the first byte.
    pub ptr: u32,
    /// Length in bytes.
    pub len: u32,
}

/// The hook call a lite syscall asks for.
#[derive(Clone, Copy, Debug, PartialEq, Eq, Structural)]
pub enum LiteCall {
    /// System information into the buffer; answers the bytes written.
    SysInfo(Buf),
    /// Global status into the buffer; answers the bytes written.
    SysStatus(Buf),
    /// Read pin `(port, pin)`.
    GpioRead(u8, u8),
    /// Drive pin `(port, pin)` to a level.
    GpioWrite(u8, u8, GpioLevel),
    /// Invert pin `(port, pin)`.
    GpioToggle(u8, u8),
    /// Bind pin `(port, pin)` to the role named in the buffer.
    GpioBind(u8, u8, Buf),
    /// Scan bus `bus` into the buffer.
    BusScan(u8, Buf),
    /// Read staged key (first buffer) into the second buffer.
    ConfigGet(Buf, Buf),
    /// Write staged key (first buffer) with the value (second buffer).
    ConfigSet(Buf, Buf),
    /// Persist the validated configuration.
    ConfigCommit,
    /// List detected modules into the buffer.
    ModuleList(Buf),
    /// Read module `slot` into the buffer.
    ModuleRead(u8, Buf),
    /// List the scheduler's tasks into the buffer.
    TaskList(Buf),
    /// Reload the app named in the buffer.
    AppReload(Buf),
    /// Enter fail-safe mode.
    SysFailsafe,
    /// Watchdog action (0 = status, 1 = kick).
    Wdt(u8),
}

/// The buffer `(ptr, len)`, or `None` when either is zero.
pub open spec fn buf_of(ptr: u32, len: u32) -> Option<Buf> {
    if ptr == 0 || len == 0 { None } else { Some(Buf { ptr, len }) }
}

/// Decoding of lite syscall `id` with `args`: `Err(Einval)` without hooks,
/// for a zero buffer address or length, or a level other than 0 and 1.
pub open spec fn lite_call_of(id: Id, args: [u32; 4], hooked: bool) -> Result<LiteCall, i32> {
    let a0 = args[0] as u8;
    let a1 = args[1] as u8;
    if !hooked {
        Err(EINVAL)
    } else {
        match id {
            Id::SysInfo => match buf_of(args[0], args[1]) {
                Some(b) => Ok(LiteCall::SysInfo(b)),
                None => Err(EINVAL),
            },
            Id::SysStatus => match buf_of(args[0], args[1]) {
                Some(b) => Ok(LiteCall::SysStatus(b)),
                None => Err(EINVAL),
            },
            Id::GpioRead => Ok(LiteCall::GpioRead(a0, a1)),
            Id::GpioWrite => if args[2] == 0 {
                Ok(LiteCall::GpioWrite(a0, a1, GpioLevel::Low))
            } else if args[2] == 1 {
                Ok(LiteCall::GpioWrite(a0, a1, GpioLevel::High))
            } else {
                Err(EINVAL)
            },
            Id::GpioToggle => Ok(LiteCall::GpioToggle(a0, a1)),
            Id::GpioBind => match buf_of(args[2], args[3]) {
                Some(b) => Ok(LiteCall::GpioBind(a0, a1, b)),
                None => Err(EINVAL),
            },
            Id::BusScan => match buf_of(args[1], args[2]) {
                Some(b) => Ok(LiteCall::BusScan(a0, b)),
                None => Err(EINVAL),
            },
            Id::ConfigGet => match (buf_of(args[0], args[1]), buf_of(args[2], args[3])) {
                (Some(k), Some(o)) => Ok(LiteCall::ConfigGet(k, o)),
                _ => Err(EINVAL),
            },
            Id::ConfigSet => match (buf_of(args[0], args[1]), buf_of(args[2], args[3])) {
                (Some(k), Some(v)) => Ok(LiteCall::ConfigSet(k, v)),
                _ => Err(EINVAL),
            },
            Id::ConfigCommit => Ok(LiteCall::ConfigCommit),
            Id::ModuleList => match buf_of(args[0], args[1]) {
                Some(b) => Ok(LiteCall::ModuleList(b)),
                None => Err(EINVAL),
            },
            Id::ModuleRead => match buf_of(args[1], args[2]) {
                Some(b) => Ok(LiteCall::ModuleRead(a0, b)),
                None => Err(EINVAL),
            },
            Id::TaskList => match buf_of(args[0], args[1]) {
                Some(b) => Ok(LiteCall::TaskList(b)),
                None => Err(EINVAL),
            },
            Id::AppReload => match buf_of(args[0], args[1]) {
                Some(b) => Ok(LiteCall::AppReload(b)),
                None => Err(EINVAL),
            },
            Id::SysFailsafe => Ok(LiteCall::SysFailsafe),
            Id::Wdt => Ok(LiteCall::Wdt(a0)),
        }
    }
}

/// The caller's buffer at `(ptr, len)`, refused when either is zero.
fn buf_from_args(ptr: u32, len: u32) -> (r: Option<Buf>)
    ensures
        r == buf_of(ptr, len),
{
    if ptr == 0 || len == 0 {
        None
    } else {
        Some(Buf { ptr, len })
    }
}

/// Decodes lite syscall `id` with `args` into the hook call it asks for
/// (see [`lite_call_of`]); `hooked` tells whether the firmware installed its
/// hooks. An `Err` holds the code answered to the caller.
pub fn dispatch(id: Id, args: [u32; 4], hooked: bool) -> (r: Result<LiteCall, i32>)
    ensures
        r == lite_call_of(id, args, hooked),
{
    if !hooked {
        return Err(EINVAL);
    }
    let a0 = args[0] as u8;
    let a1 = args[1] as u8;
    match id {
        Id::SysInfo | Id::SysStatus => {
            let buf = match buf_from_args(args[0], args[1]) {
                Some(b) => b,
                None => return Err(EINVAL),
            };
            match id {
                Id::SysInfo => Ok(LiteCall::SysInfo(buf)),
                _ => Ok(LiteCall::SysStatus(buf)),
            }
        },
        Id::GpioRead => Ok(LiteCall::GpioRead(a0, a1)),
        Id::GpioWrite => {
            let level = match args[2] {
                0 => GpioLevel::Low,
                1 => GpioLevel::High,
                _ => return Err(EINVAL),
            };
            Ok(LiteCall::GpioWrite(a0, a1, level))
        },
        Id::GpioToggle => Ok(LiteCall::GpioToggle(a0, a1)),
        Id::GpioBind => {
            let role = match buf_from_args(args[2], args[3]) {
                Some(b) => b,
                None => return Err(EINVAL),
            };
            Ok(LiteCall::GpioBind(a0, a1, role))
        },
        Id::BusScan => {
            let out = match buf_from_args(args[1], args[2]) {
                Some(b) => b,
                None => return Err(EINVAL),
            };
            Ok(LiteCall::BusScan(a0, out))
        },
        Id::ConfigGet => {
            let key = match buf_from_args(args[0], args[1]) {
                Some(b) => b,
                None => return Err(EINVAL),
            };
            let out = match buf_from_args(args[2], args[3]) {
                Some(b) => b,
                None => return Err(EINVAL),
            };
            Ok(LiteCall::ConfigGet(key, out))
        },
        Id::ConfigSet => {
            let key = match buf_from_args(args[0], args[1]) {
                Some(b) => b,
                None => return Err(EINVAL),
            };
            let val = match buf_from_args(args[2], args[3]) {
                Some(b) => b,
                None => return Err(EINVAL),
            };
            Ok(LiteCall::ConfigSet(key, val))
        },
        Id::ConfigCommit => Ok(LiteCall::ConfigCommit),
        Id::ModuleList => {
            let out = match buf_from_args(args[0], args[1]) {
                Some(b) => b,
                None => return Err(EINVAL),
            };
            Ok(LiteCall::ModuleList(out))
        },
        Id::ModuleRead => {
            let out = match buf_from_args(args[1], args[2]) {
                Some(b) => b,
                None => return Err(EINVAL),
            };
            Ok(LiteCall::ModuleRead(a0, out))
        },
        Id::TaskList => {
            let out = match buf_from_args(args[0], args[1]) {
                Some(b) => b,
                None => return Err(EINVAL),
            };
            Ok(LiteCall::TaskList(out))
        },
        Id::AppReload => {
            let name = match buf_from_args(args[0], args[1]) {
                Some(b) => b,
                None => return Err(EINVAL),
            };
            Ok(LiteCall::AppReload(name))
        },
        Id::SysFailsafe => Ok(LiteCall::SysFailsafe),
        Id::Wdt => Ok(LiteCall::Wdt(a0)),
    }
}

/// Law: a decoded call never carries an empty or null buffer, so a hook is
/// never handed one.
pub proof fn lemma_dispatch_buffers_nonempty(id: Id, args: [u32; 4], hooked: bool)
    ensures
        lite_call_of(id, args, hooked) matches Ok(c) ==> match c {
            LiteCall::SysInfo(b) | LiteCall::SysStatus(b) | LiteCall::GpioBind(_, _, b) | LiteCall::BusScan(_, b)
            | LiteCall::ModuleList(b) | LiteCall::ModuleRead(_, b) | LiteCall::TaskList(b) | LiteCall::AppReload(b) => b.ptr != 0
                && b.len != 0,
            LiteCall::ConfigGet(k, o) | LiteCall::ConfigSet(k, o) => k.ptr != 0 && k.len != 0 && o.ptr != 0 && o.len != 0,
            _ => true,
        },
        !hooked ==> lite_call_of(id, args, hooked) == Err::<LiteCall, i32>(EINVAL),
{
}

} // verus!
