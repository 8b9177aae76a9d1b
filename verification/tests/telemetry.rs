use rugus::domain::Domain;
use rugus::fault::{FaultKind, FaultReport};
use rugus::sched::{TaskId, MAX_TASKS};
use rugus::telemetry::{
    FaultTelemetry, MAGIC, SAFE_MODE_FAULT_THRESHOLD, SAFE_MODE_TASK_THRESHOLD,
};

fn report(task: u8, kind: FaultKind) -> FaultReport {
    FaultReport {
        kind,
        pc: 0x0800_1234,
        domain: Domain::App,
        task_id: TaskId(task),
        addr: Some(0xDEAD_BEEF),
    }
}

#[test]
fn cold_boot_zeroes_and_seals() {
    let mut t = FaultTelemetry {
        magic: 0x1234_5678,
        boot_count: 999,
        total_faults: 999,
        per_task: [42; MAX_TASKS],
        has_last: true,
        last_kind: 9,
        last_task: 9,
        last_pc: 9,
        last_addr: 9,
    };
    let warm = t.boot();
    assert!(!warm, "magic distinto => arranque en frío");
    assert_eq!(t.magic, MAGIC);
    assert_eq!(t.boot_count, 1);
    assert_eq!(t.total_faults, 0);
    assert_eq!(t.per_task, [0; MAX_TASKS]);
    assert!(!t.has_last);
}

#[test]
fn warm_boot_preserves_and_counts() {
    let mut t = FaultTelemetry {
        magic: MAGIC,
        boot_count: 3,
        total_faults: 7,
        per_task: [1, 2, 3, 1],
        has_last: true,
        last_kind: 1,
        last_task: 2,
        last_pc: 0x0800_0000,
        last_addr: 0,
    };
    let warm = t.boot();
    assert!(warm, "magic coincide => reset en caliente");
    assert_eq!(t.boot_count, 4, "cuenta el arranque actual");
    assert_eq!(t.total_faults, 7, "preserva historial");
    assert_eq!(t.per_task, [1, 2, 3, 1]);
}

#[test]
fn record_increments_total_and_per_task() {
    let mut t = FaultTelemetry {
        magic: 0,
        ..FaultTelemetry::fresh()
    };
    t.boot();
    t.record(&report(2, FaultKind::MemManage));
    t.record(&report(2, FaultKind::UsageFault));
    assert_eq!(t.total_faults, 2);
    assert_eq!(t.faults_for(2), 2);
    assert_eq!(t.faults_for(0), 0);
    assert!(t.has_last);
    assert_eq!(t.last_task, 2);
    assert_eq!(t.last_kind, FaultKind::UsageFault.code());
}

#[test]
fn safe_mode_by_total_threshold() {
    let mut t = FaultTelemetry::fresh();
    for _ in 0..SAFE_MODE_FAULT_THRESHOLD {
        t.record(&report(
            (t.total_faults % MAX_TASKS as u32) as u8,
            FaultKind::BusFault,
        ));
    }
    assert!(t.safe_mode());
}

#[test]
fn safe_mode_by_single_task_threshold() {
    let mut t = FaultTelemetry::fresh();
    for _ in 0..SAFE_MODE_TASK_THRESHOLD {
        t.record(&report(1, FaultKind::HardFault));
    }
    assert!(t.safe_mode(), "una tarea reincidente dispara safe-mode");
    assert!(t.total_faults < SAFE_MODE_FAULT_THRESHOLD);
}

#[test]
fn not_in_safe_mode_under_thresholds() {
    let mut t = FaultTelemetry::fresh();
    t.record(&report(0, FaultKind::BusFault));
    t.record(&report(1, FaultKind::BusFault));
    assert!(!t.safe_mode());
}

#[test]
fn record_keeps_last_report_fields() {
    let mut t = FaultTelemetry::fresh();
    t.record(&report(3, FaultKind::MemManage));
    assert_eq!(t.last_kind, 1);
    assert_eq!(t.last_task, 3);
    assert_eq!(t.last_pc, 0x0800_1234);
    assert_eq!(t.last_addr, 0xDEAD_BEEF);
    let mut r = report(1, FaultKind::HardFault);
    r.addr = None;
    t.record(&r);
    assert_eq!(t.last_addr, 0);
    assert_eq!(t.last_kind, 0);
}

#[test]
fn fault_for_unknown_task_counts_only_total() {
    let mut t = FaultTelemetry::fresh();
    t.record(&report(200, FaultKind::BusFault));
    assert_eq!(t.total_faults, 1);
    assert_eq!(t.per_task, [0; MAX_TASKS]);
    assert_eq!(t.faults_for(200), 0);
}

#[test]
fn fresh_is_sealed_with_one_boot() {
    let t = FaultTelemetry::fresh();
    assert_eq!(t.magic, MAGIC);
    assert_eq!(t.boot_count, 1);
    assert!(!t.safe_mode());
}

#[test]
fn fault_kind_codes_and_names() {
    assert_eq!(FaultKind::HardFault.code(), 0);
    assert_eq!(FaultKind::MemManage.code(), 1);
    assert_eq!(FaultKind::BusFault.code(), 2);
    assert_eq!(FaultKind::UsageFault.code(), 3);
    assert_eq!(FaultKind::BusFault.name(), "BusFault");
}
