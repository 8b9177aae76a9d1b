//! Syscall ABI: identifiers, the user-range check and the routing of a
//! syscall to the service that answers it.
//!
//! The services themselves are function hooks installed by the firmware;
//! [`dispatch`] decides which hook is called with which arguments (or which
//! code is answered without calling any), and the firmware performs the call.
use vstd::prelude::*;
use crate::errno::{Errno, EFAULT, EINVAL, ENOSYS};

pub mod lite;

verus! {

/// Current ABI version exposed to user space.
pub const ABI_VERSION: u16 = 0x0001;

/// Syscall identifiers (the `SVC` immediate of each is [`Id::code`]).
#[derive(Clone, Copy, Debug, PartialEq, Eq, Structural)]
pub enum Id {
    YieldNow,
    SleepMs,
    TaskId,
    Log,
    Checkin,
    IpcSend,
    IpcRecv,
    ChanSend,
    ChanRecv,
    MutexLock,
    MutexUnlock,
    SemWait,
    SemPost,
    NetSocket,
    NetConnect,
    NetSend,
    NetRecv,
    NetClose,
    FsOpen,
    FsRead,
    FsWrite,
    FsClose,
    CryptoSign,
    RngFill,
    PanicApp,
    Extended,
}

/// The stable ABI code of each syscall.
pub open spec fn id_code(id: Id) -> u8 {
    match id {
        Id::YieldNow => 0x00,
        Id::SleepMs => 0x01,
        Id::TaskId => 0x02,
        Id::Log => 0x03,
        Id::Checkin => 0x04,
        Id::IpcSend => 0x10,
        Id::IpcRecv => 0x11,
        Id::ChanSend => 0x12,
        Id::ChanRecv => 0x13,
        Id::MutexLock => 0x20,
        Id::MutexUnlock => 0x21,
        Id::SemWait => 0x22,
        Id::SemPost => 0x23,
        Id::NetSocket => 0x30,
        Id::NetConnect => 0x31,
        Id::NetSend => 0x32,
        Id::NetRecv => 0x33,
        Id::NetClose => 0x34,
        Id::FsOpen => 0x50,
        Id::FsRead => 0x51,
        Id::FsWrite => 0x52,
        Id::FsClose => 0x53,
        Id::CryptoSign => 0x40,
        Id::RngFill => 0x41,
        Id::PanicApp => 0xFE,
        Id::Extended => 0xFF,
    }
}

/// The syscall whose code is `raw`, if any.
pub open spec fn id_of(raw: u8) -> Option<Id> {
    if raw == 0x00 { Some(Id::YieldNow) }
    else if raw == 0x01 { Some(Id::SleepMs) }
    else if raw == 0x02 { Some(Id::TaskId) }
    else if raw == 0x03 { Some(Id::Log) }
    else if raw == 0x04 { Some(Id::Checkin) }
    else if raw == 0x10 { Some(Id::IpcSend) }
    else if raw == 0x11 { Some(Id::IpcRecv) }
    else if raw == 0x12 { Some(Id::ChanSend) }
    else if raw == 0x13 { Some(Id::ChanRecv) }
    else if raw == 0x20 { Some(Id::MutexLock) }
    else if raw == 0x21 { Some(Id::MutexUnlock) }
    else if raw == 0x22 { Some(Id::SemWait) }
    else if raw == 0x23 { Some(Id::SemPost) }
    else if raw == 0x30 { Some(Id::NetSocket) }
    else if raw == 0x31 { Some(Id::NetConnect) }
    else if raw == 0x32 { Some(Id::NetSend) }
    else if raw == 0x33 { Some(Id::NetRecv) }
    else if raw == 0x34 { Some(Id::NetClose) }
    else if raw == 0x50 { Some(Id::FsOpen) }
    else if raw == 0x51 { Some(Id::FsRead) }
    else if raw == 0x52 { Some(Id::FsWrite) }
    else if raw == 0x53 { Some(Id::FsClose) }
    else if raw == 0x40 { Some(Id::CryptoSign) }
    else if raw == 0x41 { Some(Id::RngFill) }
    else if raw == 0xFE { Some(Id::PanicApp) }
    else if raw == 0xFF { Some(Id::Extended) }
    else { None }
}

impl Id {
    /// Decodes the `SVC` immediate.
    pub fn from_raw(raw: u8) -> (r: Option<Id>)
        ensures
            r == id_of(raw),
    {
        match raw {
            0x00 => Some(Id::YieldNow),
            0x01 => Some(Id::SleepMs),
            0x02 => Some(Id::TaskId),
            0x03 => Some(Id::Log),
            0x04 => Some(Id::Checkin),
            0x10 => Some(Id::IpcSend),
            0x11 => Some(Id::IpcRecv),
            0x12 => Some(Id::ChanSend),
            0x13 => Some(Id::ChanRecv),
            0x20 => Some(Id::MutexLock),
            0x21 => Some(Id::MutexUnlock),
            0x22 => Some(Id::SemWait),
            0x23 => Some(Id::SemPost),
            0x30 => Some(Id::NetSocket),
            0x31 => Some(Id::NetConnect),
            0x32 => Some(Id::NetSend),
            0x33 => Some(Id::NetRecv),
            0x34 => Some(Id::NetClose),
            0x50 => Some(Id::FsOpen),
            0x51 => Some(Id::FsRead),
            0x52 => Some(Id::FsWrite),
            0x53 => Some(Id::FsClose),
            0x40 => Some(Id::CryptoSign),
            0x41 => Some(Id::RngFill),
            0xFE => Some(Id::PanicApp),
            0xFF => Some(Id::Extended),
            _ => None,
        }
    }

    /// The ABI code of this syscall.
    pub fn code(self) -> (r: u8)
        ensures
            r == id_code(self),
    {
        match self {
            Id::YieldNow => 0x00,
            Id::SleepMs => 0x01,
            Id::TaskId => 0x02,
            Id::Log => 0x03,
            Id::Checkin => 0x04,
            Id::IpcSend => 0x10,
            Id::IpcRecv => 0x11,
            Id::ChanSend => 0x12,
            Id::ChanRecv => 0x13,
            Id::MutexLock => 0x20,
            Id::MutexUnlock => 0x21,
            Id::SemWait => 0x22,
            Id::SemPost => 0x23,
            Id::NetSocket => 0x30,
            Id::NetConnect => 0x31,
            Id::NetSend => 0x32,
            Id::NetRecv => 0x33,
            Id::NetClose => 0x34,
            Id::FsOpen => 0x50,
            Id::FsRead => 0x51,
            Id::FsWrite => 0x52,
            Id::FsClose => 0x53,
            Id::CryptoSign => 0x40,
            Id::RngFill => 0x41,
            Id::PanicApp => 0xFE,
            Id::Extended => 0xFF,
        }
    }
}

/// Law: every syscall decodes back from its code, and a decoded code is the
/// code of the syscall it names (the ABI numbering is a bijection).
pub proof fn lemma_id_code_roundtrip(id: Id, raw: u8)
    ensures
        id_of(id_code(id)) == Some(id),
        id_of(raw) matches Some(i) ==> id_code(i) == raw,
{
}

/// Whether `[ptr, ptr + len)` may be touched on behalf of the caller, whose
/// region is `region`: `None` when the core hooks are missing, `Some(None)`
/// for a privileged caller, `Some(Some((base, len)))` for a user task.
pub open spec fn range_ok(ptr: u32, len: u32, region: Option<Option<(u32, u32)>>) -> bool {
    len == 0 || match region {
        None => false,
        Some(None) => true,
        Some(Some((base, rlen))) => {
            &&& ptr + len <= u32::MAX
            &&& base + rlen <= u32::MAX
            &&& ptr >= base
            &&& ptr + len <= base + rlen
        },
    }
}

/// Checks that `[ptr, ptr + len)` lies whole in the caller's region (see
/// [`range_ok`]); `Efault` otherwise. The sums are checked, so a range that
/// wraps the address space is refused.
pub fn validate_user_range(ptr: u32, len: u32, region: Option<Option<(u32, u32)>>) -> (r: Result<(), Errno>)
    ensures
        r == (if range_ok(ptr, len, region) { Ok::<(), Errno>(()) } else { Err(Errno::Efault) }),
{
    if len == 0 {
        return Ok(());
    }
    match region {
        None => Err(Errno::Efault),
        Some(None) => Ok(()),
        Some(Some((base, region_len))) => {
            let end = match ptr.checked_add(len) {
                Some(e) => e,
                None => return Err(Errno::Efault),
            };
            let region_end = match base.checked_add(region_len) {
                Some(e) => e,
                None => return Err(Errno::Efault),
            };
            if ptr >= base && end <= region_end {
                Ok(())
            } else {
                Err(Errno::Efault)
            }
        },
    }
}

/// Which groups of service hooks the firmware installed.
#[derive(Clone, Copy, Debug, PartialEq, Eq, Structural)]
pub struct Installed {
    /// Scheduler hooks.
    pub core: bool,
    /// Network control-plane hooks.
    pub net: bool,
    /// File control-plane hooks.
    pub fs: bool,
}

/// Where a syscall goes.
#[derive(Clone, Copy, Debug, PartialEq, Eq, Structural)]
pub enum Route {
    /// Answer this code without calling any hook.
    Ret(i32),
    /// Call the yield hook, then answer 0.
    Yield,
    /// Call the sleep hook with these milliseconds, then answer 0.
    Sleep(u32),
    /// Answer the id of the running task (from its hook).
    TaskId,
    /// Call the liveness check-in hook, then answer 0.
    Checkin,
    /// Answer what the IPC-send hook answers for `(chan, msg)`.
    IpcSend(u32, u32),
    /// Answer what the channel-send hook answers for `(chan, msg, timeout)`.
    ChanSend(u32, u32, u32),
    /// Answer what the channel-receive hook answers for `(chan, timeout, out)`;
    /// `out` was checked with [`validate_user_range`].
    ChanRecv(u32, u32, u32),
    /// Answer what the mutex-lock hook answers for this object.
    MutexLock(u32),
    /// Answer what the mutex-unlock hook answers for this object.
    MutexUnlock(u32),
    /// Answer what the semaphore-wait hook answers for this object.
    SemWait(u32),
    /// Answer what the semaphore-post hook answers for this object.
    SemPost(u32),
    /// Answer what the socket hook answers for this kind.
    NetSocket(u32),
    /// Answer what the connect hook answers for `(handle, ip_be, port)`.
    NetConnect(u32, u32, u32),
    /// Answer what the close-socket hook answers for this handle.
    NetClose(u32),
    /// Answer what the open-file hook answers for this key.
    FsOpen(u32),
    /// Answer what the read-file hook answers for `(handle, slot)`.
    FsRead(u32, u32),
    /// Answer what the write-file hook answers for `(handle, slot, len)`.
    FsWrite(u32, u32, u32),
    /// Answer what the close-file hook answers for this handle.
    FsClose(u32),
}

/// The caller's region as the installed hooks tell it: unknown (`None`)
/// without the scheduler hooks, else what their region query answered,
/// `user_region` (`None` for a privileged caller).
pub open spec fn caller_region(hooks: Installed, user_region: Option<(u32, u32)>) -> Option<Option<(u32, u32)>> {
    if hooks.core { Some(user_region) } else { None }
}

/// Route of syscall `id` with `args`, given the installed hooks and the
/// answer `user_region` of their region query (see [`caller_region`] and
/// [`range_ok`]). Missing scheduler hooks answer
/// `Efault`, missing network or file hooks `Enosys`; reserved syscalls
/// answer `Einval`.
pub open spec fn route_of(id: Id, args: [u32; 4], hooks: Installed, user_region: Option<(u32, u32)>) -> Route {
    let region = caller_region(hooks, user_region);
    let core = |r: Route| if hooks.core { r } else { Route::Ret(EFAULT) };
    let net = |r: Route| if hooks.net { r } else { Route::Ret(ENOSYS) };
    let fs = |r: Route| if hooks.fs { r } else { Route::Ret(ENOSYS) };
    match id {
        Id::YieldNow => if hooks.core { Route::Yield } else { Route::Ret(0) },
        Id::TaskId => if hooks.core { Route::TaskId } else { Route::Ret(0) },
        Id::SleepMs => if hooks.core { Route::Sleep(args[0]) } else { Route::Ret(0) },
        Id::Checkin => if hooks.core { Route::Checkin } else { Route::Ret(0) },
        Id::IpcSend => core(Route::IpcSend(args[0], args[1])),
        Id::ChanSend => core(Route::ChanSend(args[0], args[1], args[2])),
        Id::ChanRecv => if !range_ok(args[2], 4, region) {
            Route::Ret(EFAULT)
        } else {
            core(Route::ChanRecv(args[0], args[1], args[2]))
        },
        Id::MutexLock => core(Route::MutexLock(args[0])),
        Id::MutexUnlock => core(Route::MutexUnlock(args[0])),
        Id::SemWait => core(Route::SemWait(args[0])),
        Id::SemPost => core(Route::SemPost(args[0])),
        Id::NetSocket => net(Route::NetSocket(args[0])),
        Id::NetConnect => net(Route::NetConnect(args[0], args[1], args[2])),
        Id::NetClose => net(Route::NetClose(args[0])),
        Id::FsOpen => fs(Route::FsOpen(args[0])),
        Id::FsRead => fs(Route::FsRead(args[0], args[1])),
        Id::FsWrite => fs(Route::FsWrite(args[0], args[1], args[2])),
        Id::FsClose => fs(Route::FsClose(args[0])),
        _ => Route::Ret(EINVAL),
    }
}

/// Routes syscall `id` with `args` (see [`route_of`]). `args` come from an
/// untrusted task: the only pointer argument (the output of `ChanRecv`) is
/// checked against the caller's region before any hook may write to it.
/// `user_region` is what the installed scheduler hooks answer for the
/// caller's region; without those hooks the region is unknown.
pub fn dispatch(id: Id, args: [u32; 4], hooks: Installed, user_region: Option<(u32, u32)>) -> (r: Route)
    ensures
        r == route_of(id, args, hooks, user_region),
{
    let region = if hooks.core { Some(user_region) } else { None };
    match id {
        Id::YieldNow => if hooks.core { Route::Yield } else { Route::Ret(0) },
        Id::TaskId => if hooks.core { Route::TaskId } else { Route::Ret(0) },
        Id::SleepMs => if hooks.core { Route::Sleep(args[0]) } else { Route::Ret(0) },
        Id::Checkin => if hooks.core { Route::Checkin } else { Route::Ret(0) },
        Id::IpcSend => core_call(hooks, Route::IpcSend(args[0], args[1])),
        Id::ChanSend => core_call(hooks, Route::ChanSend(args[0], args[1], args[2])),
        Id::ChanRecv => match validate_user_range(args[2], 4, region) {
            Ok(()) => core_call(hooks, Route::ChanRecv(args[0], args[1], args[2])),
            Err(e) => Route::Ret(e.code()),
        },
        Id::MutexLock => core_call(hooks, Route::MutexLock(args[0])),
        Id::MutexUnlock => core_call(hooks, Route::MutexUnlock(args[0])),
        Id::SemWait => core_call(hooks, Route::SemWait(args[0])),
        Id::SemPost => core_call(hooks, Route::SemPost(args[0])),
        Id::NetSocket => net_call(hooks, Route::NetSocket(args[0])),
        Id::NetConnect => net_call(hooks, Route::NetConnect(args[0], args[1], args[2])),
        Id::NetClose => net_call(hooks, Route::NetClose(args[0])),
        Id::FsOpen => fs_call(hooks, Route::FsOpen(args[0])),
        Id::FsRead => fs_call(hooks, Route::FsRead(args[0], args[1])),
        Id::FsWrite => fs_call(hooks, Route::FsWrite(args[0], args[1], args[2])),
        Id::FsClose => fs_call(hooks, Route::FsClose(args[0])),
        Id::Log | Id::IpcRecv | Id::NetSend | Id::NetRecv | Id::CryptoSign | Id::RngFill | Id::Extended
        | Id::PanicApp => Route::Ret(EINVAL),
    }
}

/// Routes to a scheduler hook, failing closed (`Efault`) without them.
fn core_call(hooks: Installed, r: Route) -> (out: Route)
    ensures
        out == (if hooks.core { r } else { Route::Ret(EFAULT) }),
{
    if hooks.core { r } else { Route::Ret(EFAULT) }
}

/// Routes to a network hook, failing closed (`Enosys`) without them.
fn net_call(hooks: Installed, r: Route) -> (out: Route)
    ensures
        out == (if hooks.net { r } else { Route::Ret(ENOSYS) }),
{
    if hooks.net { r } else { Route::Ret(ENOSYS) }
}

/// Routes to a file hook, failing closed (`Enosys`) without them.
fn fs_call(hooks: Installed, r: Route) -> (out: Route)
    ensures
        out == (if hooks.fs { r } else { Route::Ret(ENOSYS) }),
{
    if hooks.fs { r } else { Route::Ret(ENOSYS) }
}

/// Law (each syscall reaches the hook of its name): with the hooks of its
/// group installed, every served syscall is routed to the hook named after
/// it, with its arguments in order (the receive buffer once checked), and
/// no syscall is routed to the hook of another.
pub proof fn lemma_routes_by_name(id: Id, args: [u32; 4], hooks: Installed, user_region: Option<(u32, u32)>)
    ensures
        hooks.core ==> route_of(Id::YieldNow, args, hooks, user_region) == Route::Yield,
        hooks.core ==> route_of(Id::SleepMs, args, hooks, user_region) == Route::Sleep(args[0]),
        hooks.core ==> route_of(Id::TaskId, args, hooks, user_region) == Route::TaskId,
        hooks.core ==> route_of(Id::Checkin, args, hooks, user_region) == Route::Checkin,
        hooks.core ==> route_of(Id::IpcSend, args, hooks, user_region) == Route::IpcSend(args[0], args[1]),
        hooks.core ==> route_of(Id::ChanSend, args, hooks, user_region) == Route::ChanSend(args[0], args[1], args[2]),
        hooks.core && range_ok(args[2], 4, Some(user_region)) ==> route_of(Id::ChanRecv, args, hooks, user_region) == Route::ChanRecv(
            args[0],
            args[1],
            args[2],
        ),
        hooks.core ==> route_of(Id::MutexLock, args, hooks, user_region) == Route::MutexLock(args[0]),
        hooks.core ==> route_of(Id::MutexUnlock, args, hooks, user_region) == Route::MutexUnlock(args[0]),
        hooks.core ==> route_of(Id::SemWait, args, hooks, user_region) == Route::SemWait(args[0]),
        hooks.core ==> route_of(Id::SemPost, args, hooks, user_region) == Route::SemPost(args[0]),
        hooks.net ==> route_of(Id::NetSocket, args, hooks, user_region) == Route::NetSocket(args[0]),
        hooks.net ==> route_of(Id::NetConnect, args, hooks, user_region) == Route::NetConnect(args[0], args[1], args[2]),
        hooks.net ==> route_of(Id::NetClose, args, hooks, user_region) == Route::NetClose(args[0]),
        hooks.fs ==> route_of(Id::FsOpen, args, hooks, user_region) == Route::FsOpen(args[0]),
        hooks.fs ==> route_of(Id::FsRead, args, hooks, user_region) == Route::FsRead(args[0], args[1]),
        hooks.fs ==> route_of(Id::FsWrite, args, hooks, user_region) == Route::FsWrite(args[0], args[1], args[2]),
        hooks.fs ==> route_of(Id::FsClose, args, hooks, user_region) == Route::FsClose(args[0]),
        (id == Id::Log || id == Id::IpcRecv || id == Id::NetSend || id == Id::NetRecv || id == Id::CryptoSign || id == Id::RngFill
            || id == Id::Extended || id == Id::PanicApp) ==> route_of(id, args, hooks, user_region) == Route::Ret(EINVAL),
        route_of(id, args, hooks, user_region) is Yield ==> id == Id::YieldNow,
        route_of(id, args, hooks, user_region) is Sleep ==> id == Id::SleepMs,
        route_of(id, args, hooks, user_region) is TaskId ==> id == Id::TaskId,
        route_of(id, args, hooks, user_region) is Checkin ==> id == Id::Checkin,
        route_of(id, args, hooks, user_region) is IpcSend ==> id == Id::IpcSend,
        route_of(id, args, hooks, user_region) is ChanSend ==> id == Id::ChanSend,
        route_of(id, args, hooks, user_region) is ChanRecv ==> id == Id::ChanRecv,
        route_of(id, args, hooks, user_region) is MutexLock ==> id == Id::MutexLock,
        route_of(id, args, hooks, user_region) is MutexUnlock ==> id == Id::MutexUnlock,
        route_of(id, args, hooks, user_region) is SemWait ==> id == Id::SemWait,
        route_of(id, args, hooks, user_region) is SemPost ==> id == Id::SemPost,
        route_of(id, args, hooks, user_region) is NetSocket ==> id == Id::NetSocket,
        route_of(id, args, hooks, user_region) is NetConnect ==> id == Id::NetConnect,
        route_of(id, args, hooks, user_region) is NetClose ==> id == Id::NetClose,
        route_of(id, args, hooks, user_region) is FsOpen ==> id == Id::FsOpen,
        route_of(id, args, hooks, user_region) is FsRead ==> id == Id::FsRead,
        route_of(id, args, hooks, user_region) is FsWrite ==> id == Id::FsWrite,
        route_of(id, args, hooks, user_region) is FsClose ==> id == Id::FsClose,
{
}

/// Law: the kernel never hands an unchecked user pointer to a hook: when a
/// syscall is routed to the channel-receive hook, its output range lies in
/// the caller's region.
pub proof fn lemma_dispatch_checks_pointer(id: Id, args: [u32; 4], hooks: Installed, user_region: Option<(u32, u32)>)
    ensures
        route_of(id, args, hooks, user_region) matches Route::ChanRecv(_, _, out) ==> range_ok(out, 4, caller_region(hooks, user_region)),
{
}

/// The route calls a scheduler hook.
pub open spec fn calls_core(r: Route) -> bool {
    r is Yield || r is Sleep || r is TaskId || r is Checkin || r is IpcSend || r is ChanSend || r is ChanRecv
        || r is MutexLock || r is MutexUnlock || r is SemWait || r is SemPost
}

/// The route calls a network hook.
pub open spec fn calls_net(r: Route) -> bool {
    r is NetSocket || r is NetConnect || r is NetClose
}

/// The route calls a file hook.
pub open spec fn calls_fs(r: Route) -> bool {
    r is FsOpen || r is FsRead || r is FsWrite || r is FsClose
}

/// Law (fail closed): no hook of a group that is not installed is ever
/// called; the network and file syscalls then answer `Enosys`.
pub proof fn lemma_dispatch_fails_closed(id: Id, args: [u32; 4], hooks: Installed, region: Option<(u32, u32)>)
    ensures
        !hooks.core ==> !calls_core(route_of(id, args, hooks, region)),
        !hooks.net ==> !calls_net(route_of(id, args, hooks, region)),
        !hooks.fs ==> !calls_fs(route_of(id, args, hooks, region)),
        !hooks.net && (id == Id::NetSocket || id == Id::NetConnect || id == Id::NetClose) ==> route_of(id, args, hooks, region) == Route::Ret(ENOSYS),
        !hooks.fs && (id == Id::FsOpen || id == Id::FsRead || id == Id::FsWrite || id == Id::FsClose) ==> route_of(id, args, hooks, region) == Route::Ret(ENOSYS),
{
}

} // verus!
