//! Errors visible to user space through syscalls, as negative `i32` codes.
use vstd::prelude::*;

verus! {

/// Code of [`Errno::Einval`].
pub const EINVAL: i32 = -1;
/// Code of [`Errno::Ebusy`].
pub const EBUSY: i32 = -2;
/// Code of [`Errno::Etimedout`].
pub const ETIMEDOUT: i32 = -3;
/// Code of [`Errno::Ehostunreach`].
pub const EHOSTUNREACH: i32 = -4;
/// Code of [`Errno::Edenied`].
pub const EDENIED: i32 = -5;
/// Code of [`Errno::Eoverflow`].
pub const EOVERFLOW: i32 = -6;
/// Code of [`Errno::Enomem`].
pub const ENOMEM: i32 = -7;
/// Code of [`Errno::Efault`].
pub const EFAULT: i32 = -8;
/// Code of [`Errno::Enosys`].
pub const ENOSYS: i32 = -9;

/// Errors visible to user space.
#[derive(Debug, Clone, Copy, PartialEq, Eq, Structural)]
pub enum Errno {
    /// Invalid argument.
    Einval,
    /// Resource busy.
    Ebusy,
    /// Operation timed out.
    Etimedout,
    /// Host unreachable.
    Ehostunreach,
    /// Permission denied.
    Edenied,
    /// Overflow.
    Eoverflow,
    /// Out of memory.
    Enomem,
    /// Bad user pointer (rejected by MPU/MMU).
    Efault,
    /// No service installed for this syscall.
    Enosys,
}

/// The ABI code of each error.
pub open spec fn errno_code(e: Errno) -> i32 {
    match e {
        Errno::Einval => EINVAL,
        Errno::Ebusy => EBUSY,
        Errno::Etimedout => ETIMEDOUT,
        Errno::Ehostunreach => EHOSTUNREACH,
        Errno::Edenied => EDENIED,
        Errno::Eoverflow => EOVERFLOW,
        Errno::Enomem => ENOMEM,
        Errno::Efault => EFAULT,
        Errno::Enosys => ENOSYS,
    }
}

impl Errno {
    /// Negative `i32` code of this error in the syscall ABI.
    pub fn code(self) -> (r: i32)
        ensures
            r == errno_code(self),
            r < 0,
    {
        match self {
            Errno::Einval => EINVAL,
            Errno::Ebusy => EBUSY,
            Errno::Etimedout => ETIMEDOUT,
            Errno::Ehostunreach => EHOSTUNREACH,
            Errno::Edenied => EDENIED,
            Errno::Eoverflow => EOVERFLOW,
            Errno::Enomem => ENOMEM,
            Errno::Efault => EFAULT,
            Errno::Enosys => ENOSYS,
        }
    }
}

} // verus!
