//! ARMv7-M MPU: region numbers, attributes and the encoding of the
//! `RBAR`/`RASR` words. Writing the registers is the backend's job; the
//! words it writes are computed here.
use vstd::prelude::*;

verus! {

/// Region of the drivers' peripherals.
pub const REGION_DRIVERS: u8 = 0;
/// Region of the external SDRAM.
pub const REGION_SDRAM: u8 = 1;
/// Region of the kernel RAM.
pub const REGION_KERNEL_RAM: u8 = 2;
/// Region of the flash (code).
pub const REGION_FLASH: u8 = 3;
/// Region of the running app's stack.
pub const REGION_APP_STACK: u8 = 4;
/// Region of the services.
pub const REGION_SERVICES: u8 = 5;
/// Region of the secrets.
pub const REGION_SECRETS: u8 = 6;
/// Stack guard region.
pub const REGION_STACK_GUARD: u8 = 7;

/// `SIZE` field of 256 KiB.
pub const SIZE_256K: u8 = 17;
/// `SIZE` field of 512 KiB.
pub const SIZE_512K: u8 = 18;
/// `SIZE` field of 1 MiB.
pub const SIZE_1M: u8 = 19;
/// `SIZE` field of 2 MiB.
pub const SIZE_2M: u8 = 20;
/// `SIZE` field of 16 MiB.
pub const SIZE_16M: u8 = 23;
/// `SIZE` field of 512 MiB.
pub const SIZE_512M: u8 = 28;

/// Access permission: none.
pub const AP_NONE: u32 = 0x0000_0000;
/// Access permission: privileged read/write.
pub const AP_PRIV_RW: u32 = 0x0100_0000;
/// Access permission: read-only for all.
pub const AP_FULL_RO: u32 = 0x0600_0000;
/// Access permission: read/write for all.
pub const AP_FULL_RW: u32 = 0x0300_0000;

/// `SIZE` field of the 32-byte stack guard.
pub const GUARD_SIZE_FIELD: u8 = 4;
/// `RASR.ENABLE`.
pub const RASR_ENABLE: u32 = 0x1;
/// `RASR.XN` (execute never).
pub const RASR_XN: u32 = 0x1000_0000;
/// Normal memory, write-back cacheable (`C | B`).
pub const ATTR_NORMAL_WB: u32 = 0x0003_0000;
/// Normal memory for read-only code (`C`).
pub const ATTR_NORMAL_RO: u32 = 0x0002_0000;

/// Base of the code flash.
pub const FLASH_BASE: u32 = 0x0800_0000;
/// Base of the peripherals.
pub const PERIPH_BASE: u32 = 0x4000_0000;
/// Base of the SRAM.
pub const RAM_BASE: u32 = 0x2000_0000;
/// Base of the external SDRAM.
pub const SDRAM_BASE: u32 = 0xC000_0000;

/// Memory map of a board, as MPU regions.
#[derive(Clone, Copy, Debug, PartialEq, Eq, Structural)]
pub struct MpuLayout {
    /// Base of the peripherals.
    pub periph_base: u32,
    /// `SIZE` field of the peripherals.
    pub periph_size: u8,
    /// Base of the SDRAM.
    pub sdram_base: u32,
    /// `SIZE` field of the SDRAM (0 = no SDRAM).
    pub sdram_size: u8,
    /// Base of the SRAM.
    pub ram_base: u32,
    /// `SIZE` field of the SRAM.
    pub ram_size: u8,
    /// Base of the flash.
    pub flash_base: u32,
    /// `SIZE` field of the flash.
    pub flash_size: u8,
}

impl MpuLayout {
    /// STM32F769 (512 KiB SRAM, 2 MiB flash, 16 MiB SDRAM).
    pub fn stm32f769() -> (r: Self)
        ensures
            r == (MpuLayout {
                periph_base: PERIPH_BASE,
                periph_size: SIZE_512M,
                sdram_base: SDRAM_BASE,
                sdram_size: SIZE_16M,
                ram_base: RAM_BASE,
                ram_size: SIZE_512K,
                flash_base: FLASH_BASE,
                flash_size: SIZE_2M,
            }),
    {
        MpuLayout {
            periph_base: PERIPH_BASE,
            periph_size: SIZE_512M,
            sdram_base: SDRAM_BASE,
            sdram_size: SIZE_16M,
            ram_base: RAM_BASE,
            ram_size: SIZE_512K,
            flash_base: FLASH_BASE,
            flash_size: SIZE_2M,
        }
    }

    /// STM32F407 (192+64 KiB SRAM, 1 MiB flash, no SDRAM).
    pub fn stm32f407() -> (r: Self)
        ensures
            r == (MpuLayout {
                periph_base: PERIPH_BASE,
                periph_size: SIZE_512M,
                sdram_base: 0,
                sdram_size: 0,
                ram_base: RAM_BASE,
                ram_size: SIZE_256K,
                flash_base: FLASH_BASE,
                flash_size: SIZE_1M,
            }),
    {
        MpuLayout {
            periph_base: PERIPH_BASE,
            periph_size: SIZE_512M,
            sdram_base: 0,
            sdram_size: 0,
            ram_base: RAM_BASE,
            ram_size: SIZE_256K,
            flash_base: FLASH_BASE,
            flash_size: SIZE_1M,
        }
    }
}

/// `RASR` of an enabled region of `SIZE` field `size`.
pub open spec fn rasr_of(size: u8, ap: u32, xn: bool, attr: u32) -> u32 {
    RASR_ENABLE | ap | attr | (if xn { RASR_XN } else { 0u32 }) | ((size as u32) << 1u32)
}

/// The `(RBAR, RASR)` words of an enabled region at `base` (low five bits
/// dropped) of `SIZE` field `size`.
pub fn region_words(base: u32, size: u8, ap: u32, xn: bool, attr: u32) -> (r: (u32, u32))
    ensures
        r == (base & !0x1Fu32, rasr_of(size, ap, xn, attr)),
{
    let xn_bit: u32 = if xn { RASR_XN } else { 0 };
    (base & !0x1Fu32, RASR_ENABLE | ap | attr | xn_bit | ((size as u32) << 1u32))
}

/// The smallest `SIZE` field (at least 4, i.e. 32 bytes) whose region of
/// `2^(SIZE+1)` bytes holds `len` bytes.
pub open spec fn is_region_size(len: u64, s: u8) -> bool {
    let need = if len < 32 { 32u64 } else { len };
    &&& 4 <= s <= 30
    &&& (1u64 << ((s + 1) as u64)) >= need
    &&& (s == 4 || (1u64 << (s as u64)) < need)
}

/// `SIZE` field of the smallest power-of-two region (at least 32 bytes)
/// that holds `len` bytes.
pub fn region_size_for(len: usize) -> (r: u8)
    requires
        len <= 0x8000_0000,
    ensures
        is_region_size(len as u64, r),
{
    let need: u64 = if len < 32 { 32 } else { len as u64 };
    let mut size: u8 = 4;
    while (1u64 << ((size + 1) as u64)) < need
        invariant
            4 <= size <= 30,
            need <= 0x8000_0000,
            need >= 32,
            size == 4 || (1u64 << (size as u64)) < need,
        decreases 30 - size,
    {
        proof {
            let s = size;
            assert((1u64 << ((s + 1) as u64)) < need && need <= 0x8000_0000 && 4 <= s <= 30 ==> s + 1 <= 30)
                by (bit_vector);
        }
        size = size + 1;
    }
    size
}

/// `addr` rounded down to a multiple of the region size `2^(size_field+1)`.
pub open spec fn aligned_down(addr: u32, size_field: u8) -> u32 {
    addr & !(((1u32 << ((size_field + 1) as u32)) - 1) as u32)
}

/// Rounds `addr` down to the alignment of a region of `SIZE` field
/// `size_field`.
pub fn align_down(addr: u32, size_field: u8) -> (r: u32)
    requires
        size_field < 31,
    ensures
        r == aligned_down(addr, size_field),
        r <= addr,
        addr - r < (1u32 << ((size_field + 1) as u32)),
{
    let region_bytes: u32 = 1u32 << ((size_field + 1) as u32);
    proof {
        let k = (size_field + 1) as u32;
        assert(k < 32 ==> (1u32 << k) >= 1) by (bit_vector);
        assert(k < 32 ==> (addr & !(((1u32 << k) - 1) as u32)) <= addr) by (bit_vector);
        assert(k < 32 ==> addr - (addr & !(((1u32 << k) - 1) as u32)) < (1u32 << k)) by (bit_vector);
    }
    addr & !(region_bytes - 1)
}

/// The `(RBAR, RASR)` of an app stack `[base, base + len)`: full access,
/// never executable, sized to the smallest power of two that holds it.
pub open spec fn app_region_spec(base: u32, len: u32, size: u8) -> (u32, u32) {
    (aligned_down(base, size) & !0x1Fu32, rasr_of(size, AP_FULL_RW, true, ATTR_NORMAL_WB))
}

/// MPU words of the region of a user task's stack `[base, base + len)`.
pub fn app_region_for(base: u32, len: u32) -> (r: (u32, u32))
    requires
        len <= 0x8000_0000,
    ensures
        exists|s: u8| #[trigger] is_region_size(len as u64, s) && r == app_region_spec(base, len, s),
{
    let size = region_size_for(len as usize);
    let aligned = align_down(base, size);
    let r = region_words(aligned, size, AP_FULL_RW, true, ATTR_NORMAL_WB);
    assert(is_region_size(len as u64, size) && r == app_region_spec(base, len, size));
    r
}

/// MPU words of the 32-byte no-access guard at `base`.
pub fn guard_region_for(base: u32) -> (r: (u32, u32))
    ensures
        r == (base & !0x1Fu32, rasr_of(GUARD_SIZE_FIELD, AP_NONE, true, ATTR_NORMAL_WB)),
{
    region_words(base, GUARD_SIZE_FIELD, AP_NONE, true, ATTR_NORMAL_WB)
}

/// The region with this `RASR` is enabled, writable and executable.
pub open spec fn writable_and_executable(rasr: u32) -> bool {
    let ap = (rasr >> 24u32) & 0x7u32;
    &&& rasr & RASR_ENABLE != 0
    &&& (ap == 1 || ap == 3)
    &&& rasr & RASR_XN == 0
}

/// W^X audit over the `RASR` of each region: `true` when no enabled region
/// is both writable and executable.
pub fn audit_wx_words(rasrs: &[u32]) -> (ok: bool)
    ensures
        ok == forall|i: int| 0 <= i < rasrs@.len() ==> !writable_and_executable(#[trigger] rasrs@[i]),
{
    let mut i: usize = 0;
    while i < rasrs.len()
        invariant
            i <= rasrs@.len(),
            forall|j: int| 0 <= j < i ==> !writable_and_executable(#[trigger] rasrs@[j]),
        decreases rasrs@.len() - i,
    {
        let rasr = rasrs[i];
        if rasr & RASR_ENABLE != 0 {
            let ap = (rasr >> 24u32) & 0x7u32;
            let writable = ap == 1 || ap == 3;
            let executable = rasr & RASR_XN == 0;
            if writable && executable {
                return false;
            }
        }
        i = i + 1;
    }
    true
}

/// How one MPU region is programmed at boot.
#[derive(Clone, Copy, Debug, PartialEq, Eq, Structural)]
pub enum RegionSetup {
    /// Disable the region (its `RASR` is written 0).
    Disable(u8),
    /// Program the region with these `(RBAR, RASR)` words.
    Enable(u8, u32, u32),
}

/// The setup of region `rn` at `base` with `SIZE` field `size`.
pub open spec fn enabled_region(rn: u8, base: u32, size: u8, ap: u32, xn: bool, attr: u32) -> RegionSetup {
    RegionSetup::Enable(rn, base & !0x1Fu32, rasr_of(size, ap, xn, attr))
}

/// The static regions of a board, in programming order: peripherals
/// (privileged, never executable), SDRAM (privileged, never executable;
/// disabled when the board has none), kernel RAM (privileged, never
/// executable), flash (read-only, executable); the app stack, services,
/// secrets and stack-guard regions start disabled.
pub open spec fn static_plan(l: MpuLayout) -> Seq<RegionSetup> {
    seq![
        enabled_region(REGION_DRIVERS, l.periph_base, l.periph_size, AP_PRIV_RW, true, 0),
        if l.sdram_size == 0 {
            RegionSetup::Disable(REGION_SDRAM)
        } else {
            enabled_region(REGION_SDRAM, l.sdram_base, l.sdram_size, AP_PRIV_RW, true, ATTR_NORMAL_WB)
        },
        enabled_region(REGION_KERNEL_RAM, l.ram_base, l.ram_size, AP_PRIV_RW, true, ATTR_NORMAL_WB),
        enabled_region(REGION_FLASH, l.flash_base, l.flash_size, AP_FULL_RO, false, ATTR_NORMAL_RO),
        RegionSetup::Disable(REGION_APP_STACK),
        RegionSetup::Disable(REGION_SERVICES),
        RegionSetup::Disable(REGION_SECRETS),
        RegionSetup::Disable(REGION_STACK_GUARD)
    ]
}

/// `MPU_CTRL` value written once the regions are set: enable, with the
/// default map kept for privileged code (`PRIVDEFENA`).
pub const CTRL_ENABLE_PRIVDEFENA: u32 = 0x5;

/// The region programming of the boot-time MPU setup for board `layout`
/// (see [`static_plan`]); the backend disables the MPU, applies these in
/// order, then writes [`CTRL_ENABLE_PRIVDEFENA`].
pub fn static_regions(layout: MpuLayout) -> (r: Vec<RegionSetup>)
    ensures
        r@ == static_plan(layout),
{
    let mut r: Vec<RegionSetup> = Vec::new();
    let (b, a) = region_words(layout.periph_base, layout.periph_size, AP_PRIV_RW, true, 0);
    r.push(RegionSetup::Enable(REGION_DRIVERS, b, a));
    if layout.sdram_size == 0 {
        r.push(RegionSetup::Disable(REGION_SDRAM));
    } else {
        let (b, a) = region_words(layout.sdram_base, layout.sdram_size, AP_PRIV_RW, true, ATTR_NORMAL_WB);
        r.push(RegionSetup::Enable(REGION_SDRAM, b, a));
    }
    let (b, a) = region_words(layout.ram_base, layout.ram_size, AP_PRIV_RW, true, ATTR_NORMAL_WB);
    r.push(RegionSetup::Enable(REGION_KERNEL_RAM, b, a));
    let (b, a) = region_words(layout.flash_base, layout.flash_size, AP_FULL_RO, false, ATTR_NORMAL_RO);
    r.push(RegionSetup::Enable(REGION_FLASH, b, a));
    r.push(RegionSetup::Disable(REGION_APP_STACK));
    r.push(RegionSetup::Disable(REGION_SERVICES));
    r.push(RegionSetup::Disable(REGION_SECRETS));
    r.push(RegionSetup::Disable(REGION_STACK_GUARD));
    assert(r@ =~= static_plan(layout));
    r
}

/// Law (W^X): on every board layout, no region of the boot-time setup is
/// both writable and executable, and each region number is set once, in
/// order.
pub proof fn lemma_static_plan_wx(layout: MpuLayout)
    ensures
        static_plan(layout).len() == 8,
        forall|i: int| 0 <= i < 8 ==> match #[trigger] static_plan(layout)[i] {
            RegionSetup::Enable(rn, _, rasr) => rn == i && !writable_and_executable(rasr),
            RegionSetup::Disable(rn) => rn == i,
        },
{
    let p = static_plan(layout);
    let ps = layout.periph_size;
    let ss = layout.sdram_size;
    let rs = layout.ram_size;
    let fs = layout.flash_size;
    assert(!writable_and_executable(rasr_of(ps, AP_PRIV_RW, true, 0))) by {
        let r = rasr_of(ps, AP_PRIV_RW, true, 0);
        assert(r & RASR_XN != 0) by (bit_vector)
            requires
                r == (RASR_ENABLE | AP_PRIV_RW | 0u32 | RASR_XN | ((ps as u32) << 1u32)),
        ;
    }
    assert(!writable_and_executable(rasr_of(ss, AP_PRIV_RW, true, ATTR_NORMAL_WB))) by {
        let r = rasr_of(ss, AP_PRIV_RW, true, ATTR_NORMAL_WB);
        assert(r & RASR_XN != 0) by (bit_vector)
            requires
                r == (RASR_ENABLE | AP_PRIV_RW | ATTR_NORMAL_WB | RASR_XN | ((ss as u32) << 1u32)),
        ;
    }
    assert(!writable_and_executable(rasr_of(rs, AP_PRIV_RW, true, ATTR_NORMAL_WB))) by {
        let r = rasr_of(rs, AP_PRIV_RW, true, ATTR_NORMAL_WB);
        assert(r & RASR_XN != 0) by (bit_vector)
            requires
                r == (RASR_ENABLE | AP_PRIV_RW | ATTR_NORMAL_WB | RASR_XN | ((rs as u32) << 1u32)),
        ;
    }
    assert(!writable_and_executable(rasr_of(fs, AP_FULL_RO, false, ATTR_NORMAL_RO))) by {
        let r = rasr_of(fs, AP_FULL_RO, false, ATTR_NORMAL_RO);
        assert(((r >> 24u32) & 0x7u32) == 6) by (bit_vector)
            requires
                r == (RASR_ENABLE | AP_FULL_RO | ATTR_NORMAL_RO | 0u32 | ((fs as u32) << 1u32)),
        ;
    }
}

/// Law: an app stack region always covers the whole stack and never
/// allows execution.
pub proof fn lemma_app_region_covers(base: u32, len: u32, s: u8)
    requires
        is_region_size(len as u64, s),
    ensures
        (1u64 << ((s + 1) as u64)) >= len,
        !writable_and_executable(app_region_spec(base, len, s).1),
{
    let r = app_region_spec(base, len, s).1;
    assert(r & RASR_XN != 0) by (bit_vector)
        requires
            r == (RASR_ENABLE | AP_FULL_RW | ATTR_NORMAL_WB | RASR_XN | ((s as u32) << 1u32)),
    ;
}

} // verus!
