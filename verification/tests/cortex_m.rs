use rugus::cortex_m::fault::{clear_fault_status, domain_for_pc, fault_address, fault_from_thread, FaultClear};
use rugus::cortex_m::mpu::{
    align_down, app_region_for, audit_wx_words, guard_region_for, region_size_for, region_words,
    static_regions, MpuLayout, RegionSetup, AP_FULL_RW, AP_PRIV_RW, ATTR_NORMAL_WB, RASR_XN, SIZE_16M, SIZE_1M, SIZE_2M,
};
use rugus::cortex_m::time::{IdlePlan, TickClock};
use rugus::domain::Domain;
use rugus::fault::FaultKind;

#[test]
fn region_sizes() {
    assert_eq!(region_size_for(0), 4);
    assert_eq!(region_size_for(32), 4);
    assert_eq!(region_size_for(33), 5);
    assert_eq!(region_size_for(1024), 9);
    assert_eq!(region_size_for(1025), 10);
}

#[test]
fn app_region_covers_stack_and_is_never_executable() {
    let (rbar, rasr) = app_region_for(0x2000_0400, 1024);
    assert_eq!(rbar, 0x2000_0400);
    assert_eq!(rasr, 0x1303_0013);
    assert_ne!(rasr & RASR_XN, 0);
    let (rbar, _) = app_region_for(0x2000_0500, 1024);
    assert_eq!(rbar, 0x2000_0400);
}

#[test]
fn guard_region_is_no_access() {
    let (rbar, rasr) = guard_region_for(0x2000_0413);
    assert_eq!(rbar, 0x2000_0400);
    assert_eq!(rasr, 0x1003_0009);
}

#[test]
fn region_words_and_alignment() {
    assert_eq!(
        region_words(0x0800_0001, SIZE_2M, AP_PRIV_RW, false, ATTR_NORMAL_WB),
        (0x0800_0000, 0x0103_0029)
    );
    assert_eq!(align_down(0x2000_07FF, 9), 0x2000_0400);
}

#[test]
fn wx_audit_flags_writable_executable_region() {
    let ok = [0x1303_0013u32, 0x0603_0029];
    assert!(audit_wx_words(&ok));
    let bad = [0x1303_0013u32, AP_FULL_RW | ATTR_NORMAL_WB | 1];
    assert!(!audit_wx_words(&bad));
    let disabled = [AP_FULL_RW];
    assert!(audit_wx_words(&disabled));
}

#[test]
fn board_layouts() {
    let f7 = MpuLayout::stm32f769();
    assert_eq!(f7.sdram_size, SIZE_16M);
    assert_eq!(f7.flash_size, SIZE_2M);
    let f4 = MpuLayout::stm32f407();
    assert_eq!(f4.sdram_size, 0);
    assert_eq!(f4.flash_size, SIZE_1M);
}

#[test]
fn fault_attribution() {
    assert_eq!(domain_for_pc(0x4001_0000), Domain::Drivers);
    assert_eq!(domain_for_pc(0xC000_1000), Domain::Services);
    assert_eq!(domain_for_pc(0x0800_1234), Domain::App);
    assert_eq!(domain_for_pc(0x2000_0000), Domain::Kernel);
    assert_eq!(fault_address(FaultKind::MemManage, 0x80, 0x1234, 0x5678), Some(0x1234));
    assert_eq!(fault_address(FaultKind::MemManage, 0, 0x1234, 0x5678), None);
    assert_eq!(fault_address(FaultKind::BusFault, 0x8000, 0x1234, 0x5678), Some(0x5678));
    assert_eq!(fault_address(FaultKind::UsageFault, 0xFFFF_FFFF, 1, 2), None);
    assert_eq!(
        clear_fault_status(FaultKind::BusFault, 0x0001_8282, 0),
        FaultClear { cfsr: 0x8200, hfsr: None }
    );
    assert_eq!(
        clear_fault_status(FaultKind::HardFault, 0, 0x4000_0000),
        FaultClear { cfsr: 0xFFFF_FFFF, hfsr: Some(0x4000_0002) }
    );
    assert!(fault_from_thread(0xFFFF_FFFD));
    assert!(!fault_from_thread(0xFFFF_FFF1 & 0xFFFF_FFF0));
}

#[test]
fn tick_clock_counts_milliseconds() {
    let (mut c, reload) = TickClock::init(168_000_000);
    assert_eq!(reload, 167_999);
    assert_eq!(c.max_tick_ms, 99);
    assert_eq!(c.on_systick(), None);
    assert_eq!(c.now_ms(), 1);
    assert_eq!(c.systick_irqs(), 1);
    assert_eq!(c.elapsed_ms(0), 1);
}

#[test]
fn idle_plans() {
    let (c, _) = TickClock::init(168_000_000);
    assert_eq!(c.idle_plan(Some(0)), IdlePlan::Return);
    assert_eq!(c.idle_plan(Some(1)), IdlePlan::Wfi);
    assert_eq!(c.idle_plan(Some(10)), IdlePlan::Extend(10, 1_679_999));
    assert_eq!(c.idle_plan(None), IdlePlan::Extend(99, 16_631_999));
    assert_eq!(c.idle_plan(Some(500)), IdlePlan::Extend(99, 16_631_999));
}

#[test]
fn stretched_tick_accounting() {
    let (mut c, _) = TickClock::init(1_000_000);
    c.arm_idle(10);
    assert_eq!(c.on_systick(), Some(999));
    assert_eq!(c.now_ms(), 10);
    c.arm_idle(10);
    // Woken early: 2500 counts elapsed.
    assert_eq!(c.idle_wake(false, 9_999 - 2_500, 9_999), Some(999));
    assert_eq!(c.now_ms(), 12);
    assert_eq!(c.remainder, 500);
    assert_eq!(c.idle_wake(false, 0, 0), None);
}

#[test]
fn boot_regions_of_the_f407() {
    let plan = static_regions(MpuLayout::stm32f407());
    assert_eq!(plan.len(), 8);
    assert_eq!(plan[0], RegionSetup::Enable(0, 0x4000_0000, 0x1100_0039));
    assert_eq!(plan[1], RegionSetup::Disable(1));
    assert_eq!(plan[3], RegionSetup::Enable(3, 0x0800_0000, 0x0602_0027));
    assert_eq!(plan[7], RegionSetup::Disable(7));
    let rasrs: Vec<u32> = plan
        .iter()
        .map(|r| match r {
            RegionSetup::Enable(_, _, a) => *a,
            RegionSetup::Disable(_) => 0,
        })
        .collect();
    assert!(audit_wx_words(&rasrs));
}
