//! Persistent fault telemetry and safe-mode decision.
//!
//! Meant to live in RAM that survives a reset: a magic word tells a warm
//! reset (history kept) from a cold boot (garbage, reset to zero).
use vstd::prelude::*;
use crate::fault::{FaultReport, fault_kind_code};
use crate::sched::MAX_TASKS;

verus! {

/// Validity seal ("RGST").
pub const MAGIC: u32 = 0x5247_5354;
/// Total faults that trigger safe mode.
pub const SAFE_MODE_FAULT_THRESHOLD: u32 = 16;
/// Faults of a single task that trigger safe mode.
pub const SAFE_MODE_TASK_THRESHOLD: u32 = 5;

/// Fault ledger kept across resets.
#[derive(Clone, Copy, Debug)]
pub struct FaultTelemetry {
    /// Validity seal ([`MAGIC`] when the data comes from a previous boot).
    pub magic: u32,
    /// Number of boots observed (the current one included).
    pub boot_count: u32,
    /// Faults accumulated over all boots.
    pub total_faults: u32,
    /// Faults per task, indexed by `TaskId.0`.
    pub per_task: [u32; MAX_TASKS],
    /// Whether the `last_*` fields hold a report.
    pub has_last: bool,
    /// Kind of the last contained fault (encoded `FaultKind`).
    pub last_kind: u8,
    /// `task_id` of the last contained fault.
    pub last_task: u8,
    /// Program counter of the last contained fault.
    pub last_pc: u32,
    /// Faulting address of the last fault (0 when there was none).
    pub last_addr: u32,
}

/// Saturating increment of a counter.
pub open spec fn sat_inc(x: u32) -> u32 {
    if x == u32::MAX { x } else { (x + 1) as u32 }
}

/// The sealed, zeroed ledger with the current boot counted.
pub open spec fn fresh_spec() -> FaultTelemetry {
    FaultTelemetry {
        magic: MAGIC,
        boot_count: 1,
        total_faults: 0,
        per_task: [0u32; MAX_TASKS],
        has_last: false,
        last_kind: 0,
        last_task: 0,
        last_pc: 0,
        last_addr: 0,
    }
}

impl FaultTelemetry {
    /// Safe-mode decision over the counters.
    pub open spec fn spec_safe_mode(&self) -> bool {
        self.total_faults >= SAFE_MODE_FAULT_THRESHOLD
            || exists|i: int| 0 <= i < MAX_TASKS && #[trigger] self.per_task[i] >= SAFE_MODE_TASK_THRESHOLD
    }

    /// Clean sealed state: counters at zero, one boot counted.
    pub fn fresh() -> (r: Self)
        ensures
            r == fresh_spec(),
    {
        FaultTelemetry {
            magic: MAGIC,
            boot_count: 1,
            total_faults: 0,
            per_task: [0u32; MAX_TASKS],
            has_last: false,
            last_kind: 0,
            last_task: 0,
            last_pc: 0,
            last_addr: 0,
        }
    }

    /// Validates the seal at boot. Returns `true` on a warm reset (history
    /// kept, boot counted) and `false` on a cold boot (ledger reset).
    pub fn boot(&mut self) -> (warm: bool)
        ensures
            warm == (old(self).magic == MAGIC),
            warm ==> *final(self) == (FaultTelemetry {
                boot_count: old(self).boot_count.wrapping_add(1),
                ..*old(self)
            }),
            !warm ==> *final(self) == fresh_spec(),
            final(self).magic == MAGIC,
    {
        if self.magic == MAGIC {
            self.boot_count = self.boot_count.wrapping_add(1);
            true
        } else {
            *self = Self::fresh();
            false
        }
    }

    /// Records a contained fault: total, per-task counter and last report.
    pub fn record(&mut self, report: &FaultReport)
        ensures
            final(self).magic == old(self).magic,
            final(self).boot_count == old(self).boot_count,
            final(self).total_faults == sat_inc(old(self).total_faults),
            (report.task_id.0 as usize) < MAX_TASKS ==> final(self).per_task@ == old(self).per_task@.update(
                report.task_id.0 as int,
                sat_inc(old(self).per_task[report.task_id.0 as int]),
            ),
            (report.task_id.0 as usize) >= MAX_TASKS ==> final(self).per_task == old(self).per_task,
            final(self).has_last,
            final(self).last_kind == fault_kind_code(report.kind),
            final(self).last_task == report.task_id.0,
            final(self).last_pc == report.pc,
            final(self).last_addr == (match report.addr {
                Some(a) => a,
                None => 0u32,
            }),
    {
        self.total_faults = self.total_faults.saturating_add(1);
        let idx = report.task_id.0 as usize;
        if idx < MAX_TASKS {
            self.per_task[idx] = self.per_task[idx].saturating_add(1);
        }
        self.has_last = true;
        self.last_kind = report.kind.code();
        self.last_task = report.task_id.0;
        self.last_pc = report.pc;
        self.last_addr = match report.addr {
            Some(a) => a,
            None => 0,
        };
    }

    /// `true` when the system must enter safe mode: too many faults in
    /// total, or too many for a single task.
    pub fn safe_mode(&self) -> (r: bool)
        ensures
            r == self.spec_safe_mode(),
    {
        if self.total_faults >= SAFE_MODE_FAULT_THRESHOLD {
            return true;
        }
        let mut i: usize = 0;
        while i < MAX_TASKS
            invariant
                i <= MAX_TASKS,
                forall|j: int| 0 <= j < i ==> self.per_task[j] < SAFE_MODE_TASK_THRESHOLD,
            decreases MAX_TASKS - i,
        {
            if self.per_task[i] >= SAFE_MODE_TASK_THRESHOLD {
                return true;
            }
            i = i + 1;
        }
        false
    }

    /// Faults counted for one task (0 when the index is out of range).
    pub fn faults_for(&self, task: usize) -> (r: u32)
        ensures
            task < MAX_TASKS ==> r == self.per_task[task as int],
            task >= MAX_TASKS ==> r == 0,
    {
        if task < MAX_TASKS {
            self.per_task[task]
        } else {
            0
        }
    }
}

} // verus!
