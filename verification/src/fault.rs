//! Fault reports from the arch backend to the scheduler.
use vstd::prelude::*;
use crate::domain::Domain;
use crate::sched::TaskId;

verus! {

/// Cortex-M exception reported to the kernel.
#[derive(Clone, Copy, Debug, PartialEq, Eq, Structural)]
pub enum FaultKind {
    /// HardFault.
    HardFault,
    /// MemManage (MPU / forbidden access).
    MemManage,
    /// BusFault.
    BusFault,
    /// UsageFault.
    UsageFault,
}

/// Numeric code of a fault kind (0 = HardFault … 3 = UsageFault).
pub open spec fn fault_kind_code(k: FaultKind) -> u8 {
    match k {
        FaultKind::HardFault => 0,
        FaultKind::MemManage => 1,
        FaultKind::BusFault => 2,
        FaultKind::UsageFault => 3,
    }
}

impl FaultKind {
    /// Label for logs.
    pub fn name(self) -> (r: &'static str)
        ensures
            self == FaultKind::HardFault ==> r@ == "HardFault"@,
            self == FaultKind::MemManage ==> r@ == "MemManage"@,
            self == FaultKind::BusFault ==> r@ == "BusFault"@,
            self == FaultKind::UsageFault ==> r@ == "UsageFault"@,
    {
        match self {
            FaultKind::HardFault => "HardFault",
            FaultKind::MemManage => "MemManage",
            FaultKind::BusFault => "BusFault",
            FaultKind::UsageFault => "UsageFault",
        }
    }

    /// Numeric code of the kind, as stored in telemetry.
    pub fn code(self) -> (r: u8)
        ensures
            r == fault_kind_code(self),
    {
        match self {
            FaultKind::HardFault => 0,
            FaultKind::MemManage => 1,
            FaultKind::BusFault => 2,
            FaultKind::UsageFault => 3,
        }
    }
}

/// Minimal data the kernel records when a task faults.
#[derive(Clone, Copy, Debug, PartialEq, Eq, Structural)]
pub struct FaultReport {
    /// The exception.
    pub kind: FaultKind,
    /// Program counter at the fault.
    pub pc: u32,
    /// Logical domain of the faulting task.
    pub domain: Domain,
    /// Task identified by the scheduler.
    pub task_id: TaskId,
    /// Faulting address (MMFAR/BFAR) when the hardware marked it valid.
    pub addr: Option<u32>,
}

} // verus!
