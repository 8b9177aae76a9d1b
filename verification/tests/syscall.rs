use rugus::errno::{Errno, EFAULT, EINVAL, ENOSYS};
use rugus::syscall::lite::{self, Buf, GpioLevel, LiteCall};
use rugus::syscall::{dispatch, validate_user_range, Id, Installed, Route, ABI_VERSION};

const ALL: Installed = Installed { core: true, net: true, fs: true };
const NONE: Installed = Installed { core: false, net: false, fs: false };
const USER: Option<Option<(u32, u32)>> = Some(Some((0x2000_0000, 0x400)));
const APP_REGION: Option<(u32, u32)> = Some((0x2000_0000, 0x400));

#[test]
fn ids_roundtrip() {
    for raw in 0..=255u8 {
        if let Some(id) = Id::from_raw(raw) {
            assert_eq!(id.code(), raw);
        }
    }
    assert_eq!(Id::from_raw(0x12), Some(Id::ChanSend));
    assert_eq!(Id::from_raw(0x05), None);
    assert_eq!(Id::ChanRecv.code(), 0x13);
    assert_eq!(ABI_VERSION, 1);
}

#[test]
fn user_range_checks() {
    assert_eq!(validate_user_range(0x2000_0000, 0x400, USER), Ok(()));
    assert_eq!(validate_user_range(0x2000_03FD, 4, USER), Err(Errno::Efault));
    assert_eq!(validate_user_range(0x1FFF_FFFF, 4, USER), Err(Errno::Efault));
    assert_eq!(validate_user_range(0xFFFF_FFFE, 4, USER), Err(Errno::Efault));
    assert_eq!(validate_user_range(0, 0, None), Ok(()));
    assert_eq!(validate_user_range(0x1234, 4, Some(None)), Ok(()));
    assert_eq!(validate_user_range(0x1234, 4, None), Err(Errno::Efault));
}

#[test]
fn dispatch_routes_to_hooks() {
    let args = [1, 2, 3, 4];
    assert_eq!(dispatch(Id::YieldNow, args, ALL, APP_REGION), Route::Yield);
    assert_eq!(dispatch(Id::SleepMs, args, ALL, APP_REGION), Route::Sleep(1));
    assert_eq!(dispatch(Id::ChanSend, args, ALL, APP_REGION), Route::ChanSend(1, 2, 3));
    assert_eq!(dispatch(Id::NetConnect, args, ALL, APP_REGION), Route::NetConnect(1, 2, 3));
    assert_eq!(dispatch(Id::FsWrite, args, ALL, APP_REGION), Route::FsWrite(1, 2, 3));
    assert_eq!(dispatch(Id::Log, args, ALL, APP_REGION), Route::Ret(EINVAL));
}

#[test]
fn dispatch_checks_receive_pointer() {
    let good = [0, 10, 0x2000_0010, 0];
    assert_eq!(dispatch(Id::ChanRecv, good, ALL, APP_REGION), Route::ChanRecv(0, 10, 0x2000_0010));
    let bad = [0, 10, 0x0800_0000, 0];
    assert_eq!(dispatch(Id::ChanRecv, bad, ALL, APP_REGION), Route::Ret(EFAULT));
}

#[test]
fn dispatch_fails_closed_without_hooks() {
    let args = [1, 2, 3, 4];
    assert_eq!(dispatch(Id::YieldNow, args, NONE, APP_REGION), Route::Ret(0));
    assert_eq!(dispatch(Id::MutexLock, args, NONE, APP_REGION), Route::Ret(EFAULT));
    assert_eq!(dispatch(Id::NetSocket, args, NONE, APP_REGION), Route::Ret(ENOSYS));
    assert_eq!(dispatch(Id::FsOpen, args, NONE, APP_REGION), Route::Ret(ENOSYS));
    let good = [0, 10, 0x2000_0010, 0];
    assert_eq!(dispatch(Id::ChanRecv, good, NONE, APP_REGION), Route::Ret(EFAULT));
}

#[test]
fn privileged_caller_receive_pointer_is_trusted() {
    let kernel_ptr = [0, 10, 0x0800_0000, 0];
    assert_eq!(dispatch(Id::ChanRecv, kernel_ptr, ALL, None), Route::ChanRecv(0, 10, 0x0800_0000));
}

#[test]
fn errno_codes() {
    assert_eq!(Errno::Einval.code(), -1);
    assert_eq!(Errno::Efault.code(), -8);
    assert_eq!(Errno::Enosys.code(), -9);
}

#[test]
fn lite_ids_roundtrip() {
    for raw in 0..=255u8 {
        if let Some(id) = lite::Id::from_raw(raw) {
            assert_eq!(id.code(), raw);
        }
    }
    assert_eq!(lite::Id::from_raw(0x5F), Some(lite::Id::Wdt));
    assert_eq!(lite::Id::from_raw(0x40), None);
}

#[test]
fn lite_dispatch_decodes_arguments() {
    assert_eq!(
        lite::dispatch(lite::Id::GpioWrite, [2, 13, 1, 0], true),
        Ok(LiteCall::GpioWrite(2, 13, GpioLevel::High))
    );
    assert_eq!(lite::dispatch(lite::Id::GpioWrite, [2, 13, 2, 0], true), Err(EINVAL));
    assert_eq!(
        lite::dispatch(lite::Id::ConfigGet, [0x100, 4, 0x200, 16], true),
        Ok(LiteCall::ConfigGet(Buf { ptr: 0x100, len: 4 }, Buf { ptr: 0x200, len: 16 }))
    );
    assert_eq!(lite::dispatch(lite::Id::ConfigGet, [0x100, 4, 0, 16], true), Err(EINVAL));
    assert_eq!(lite::dispatch(lite::Id::SysInfo, [0x100, 0, 0, 0], true), Err(EINVAL));
    assert_eq!(lite::dispatch(lite::Id::SysFailsafe, [0; 4], false), Err(EINVAL));
    assert_eq!(lite::dispatch(lite::Id::Wdt, [0x1FF, 0, 0, 0], true), Ok(LiteCall::Wdt(0xFF)));
}
