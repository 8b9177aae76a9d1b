//! Round-robin scheduler over three priority bands, with priority-inheriting
//! mutexes, counting semaphores and bounded blocking IPC channels.
//!
//! This module holds every decision of the scheduler. The context switch
//! itself, the stack painting and the waiting for an interrupt belong to the
//! architecture backend: the functions here return what should happen next
//! (switch to a task, wait, return) and take the monotonic clock as an
//! argument.
use vstd::prelude::*;
use crate::domain::Domain;
use crate::fault::FaultReport;
use crate::errno::{EBUSY, EDENIED, EINVAL, ETIMEDOUT};

verus! {

/// Maximum number of concurrent tasks (idle included).
pub const MAX_TASKS: usize = 4;
/// Maximum number of kernel mutexes (with priority inheritance).
pub const MAX_MUTEXES: usize = 4;
/// Maximum number of counting semaphores.
pub const MAX_SEMAPHORES: usize = 4;
/// Maximum number of blocking IPC channels.
pub const MAX_CHANNELS: usize = 4;
/// Capacity (messages in flight) of each IPC channel.
pub const CHAN_CAPACITY: usize = 4;
/// `timeout_ms` value meaning "wait forever".
pub const TIMEOUT_FOREVER: u32 = 0xFFFF_FFFF;
/// Stack fill pattern used to measure the high-water mark.
pub const STACK_FILL: u8 = 0xA5;
/// Number of priority bands.
pub const PRIORITY_BANDS: usize = 3;
/// Scheduling quantum in SysTick ticks.
pub const SLICE_TICKS: u32 = 10;
/// Smallest stack a task may be given, in bytes.
pub const MIN_STACK: u32 = 256;

/// Error when registering a task.
#[derive(Clone, Copy, Debug, PartialEq, Eq, Structural)]
pub enum SpawnError {
    /// Task table full.
    TooManyTasks,
    /// Stack too small (minimum 256 bytes).
    StackTooSmall,
    /// User stack unfit for the MPU region (power of two >= 32, aligned).
    UnalignedUserStack,
}

/// Execution mode of a task.
#[derive(Clone, Copy, Debug, PartialEq, Eq, Structural)]
pub enum TaskMode {
    /// Privileged (kernel / drivers).
    Privileged,
    /// User land with a restricted MPU.
    User,
}

/// Opaque task identifier.
#[derive(Clone, Copy, Debug, PartialEq, Eq, Structural)]
pub struct TaskId(pub u8);

/// Priority band. Lower number = higher priority.
#[derive(Clone, Copy, Debug, PartialEq, Eq, Structural)]
pub enum Priority {
    /// Reserved for kernel housekeeping.
    Kernel,
    /// Services (network, graphics).
    Service,
    /// Application tasks.
    App,
}

/// Numeric rank of a band (0 = Kernel, 1 = Service, 2 = App).
pub open spec fn rank(p: Priority) -> u8 {
    match p {
        Priority::Kernel => 0,
        Priority::Service => 1,
        Priority::App => 2,
    }
}

/// The band of a numeric rank (anything above 1 is App).
pub open spec fn band_of(r: u8) -> Priority {
    if r == 0 {
        Priority::Kernel
    } else if r == 1 {
        Priority::Service
    } else {
        Priority::App
    }
}

impl Priority {
    /// Numeric rank of the band (lower = more urgent).
    pub fn rank(self) -> (r: u8)
        ensures
            r == rank(self),
    {
        match self {
            Priority::Kernel => 0,
            Priority::Service => 1,
            Priority::App => 2,
        }
    }

    /// The band of a numeric rank (anything above 1 is App).
    pub fn from_rank(r: u8) -> (p: Priority)
        ensures
            p == band_of(r),
    {
        match r {
            0 => Priority::Kernel,
            1 => Priority::Service,
            _ => Priority::App,
        }
    }
}

/// Internal state of a task.
#[derive(Clone, Copy, Debug, PartialEq, Eq, Structural)]
pub enum TaskState {
    /// Eligible to run.
    Ready,
    /// Asleep until the monotonic clock reaches this deadline (ms).
    Sleeping(u32),
    /// Blocked on the mutex with this index.
    BlockedMutex(u8),
    /// Blocked on the semaphore with this index.
    BlockedSem(u8),
    /// Blocked receiving from the IPC channel with this index.
    BlockedRecv(u8),
    /// Blocked sending to the full IPC channel with this index.
    BlockedSend(u8),
    /// Killed by a fault (or by the supervisor).
    Killed,
}

/// Control block of a task, without its architecture context.
#[derive(Clone, Copy, Debug, PartialEq, Eq, Structural)]
pub struct TaskSlot {
    /// Effective priority (may be raised by priority inheritance).
    pub priority: Priority,
    /// Base priority the task was created with.
    pub base_priority: Priority,
    /// Scheduling state.
    pub state: TaskState,
    /// Execution mode.
    pub mode: TaskMode,
    /// Logical domain.
    pub domain: Domain,
    /// Lowest address of the stack.
    pub stack_base: u32,
    /// Stack length in bytes.
    pub stack_len: u32,
    /// Deadline of a bounded IPC block, if any.
    pub block_deadline: Option<u32>,
    /// Liveness period (ms), if the task is monitored.
    pub liveness_period: Option<u32>,
    /// Absolute deadline of the next liveness check-in, if monitored.
    pub liveness_deadline: Option<u32>,
}

/// Control block of a priority-inheriting mutex.
#[derive(Clone, Copy, Debug, PartialEq, Eq, Structural)]
pub struct MutexCb {
    /// Owning task, or `None` when free.
    pub owner: Option<u8>,
    /// Bit mask of the tasks blocked on this mutex.
    pub waiters: u8,
}

/// Control block of a counting semaphore.
#[derive(Clone, Copy, Debug, PartialEq, Eq, Structural)]
pub struct SemCb {
    /// Available permits.
    pub count: u32,
    /// Bit mask of the tasks blocked waiting for a permit.
    pub waiters: u8,
}

/// Control block of a blocking IPC channel with a bounded FIFO.
#[derive(Clone, Copy, Debug)]
pub struct ChanCb {
    /// Ring of opaque messages.
    pub buf: [u32; CHAN_CAPACITY],
    /// Index of the oldest message.
    pub head: u8,
    /// Messages in flight (`0..=CHAN_CAPACITY`).
    pub len: u8,
    /// Bit mask of the tasks blocked receiving.
    pub recv_waiters: u8,
    /// Bit mask of the tasks blocked sending.
    pub send_waiters: u8,
}

/// `true` when bit `i` of `m` is set.
pub open spec fn bit(m: u8, i: u8) -> bool {
    (m >> i) & 1u8 == 1u8
}

/// Every set bit of `m` names an index below `n`.
#[verifier::opaque]
pub open spec fn mask_within(m: u8, n: nat) -> bool {
    forall|i: u8| #![trigger bit(m, i)] i < 8 && bit(m, i) ==> (i as nat) < n
}

/// A set bit of a mask within `n` names an index below `n`.
pub proof fn lemma_within_bit(m: u8, n: nat, i: u8)
    requires
        mask_within(m, n),
        i < 8,
        bit(m, i),
    ensures
        (i as nat) < n,
{
    reveal(mask_within);
}

/// A mask whose bits are all bits of a mask within `n` is within `n`.
pub proof fn lemma_within_sub(new: u8, old: u8, n: nat)
    requires
        mask_within(old, n),
        forall|i: u8| i < 8 && #[trigger] bit(new, i) ==> bit(old, i),
    ensures
        mask_within(new, n),
{
    reveal(mask_within);
}

/// Within `n` stays within a larger bound.
pub proof fn lemma_within_grow(m: u8, n1: nat, n2: nat)
    requires
        mask_within(m, n1),
        n1 <= n2,
    ensures
        mask_within(m, n2),
{
    reveal(mask_within);
}

/// The empty mask is within any bound.
pub proof fn lemma_within_zero(n: nat)
    ensures
        mask_within(0u8, n),
{
    reveal(mask_within);
    lemma_mask_zero(0u8);
}

/// Adding an index below `n` keeps a mask within `n`.
pub proof fn lemma_within_added(new: u8, old: u8, n: nat, w: int)
    requires
        mask_within(old, n),
        mask_added(new, old, w),
        0 <= w < n,
    ensures
        mask_within(new, n),
{
    reveal(mask_within);
}

/// Bit `i` of `m` is set, as an index of type `int`.
pub open spec fn in_mask(m: u8, i: int) -> bool {
    0 <= i < 8 && bit(m, i as u8)
}

proof fn lemma_bit_set(m: u8, k: u8, i: u8)
    requires
        k < 8,
        i < 8,
    ensures
        bit(m | (1u8 << k), i) == (bit(m, i) || i == k),
{
    assert(((m | (1u8 << k)) >> i) & 1u8 == 1u8 <==> (((m >> i) & 1u8 == 1u8) || i == k))
        by (bit_vector)
        requires
            k < 8,
            i < 8,
    ;
}

proof fn lemma_bit_clear(m: u8, k: u8, i: u8)
    requires
        k < 8,
        i < 8,
    ensures
        bit(m & !(1u8 << k), i) == (bit(m, i) && i != k),
{
    assert(((m & !(1u8 << k)) >> i) & 1u8 == 1u8 <==> (((m >> i) & 1u8 == 1u8) && i != k))
        by (bit_vector)
        requires
            k < 8,
            i < 8,
    ;
}

/// Setting bit `k` of `m`: exactly bit `k` is added.
pub proof fn lemma_mask_set(m: u8, k: u8)
    requires
        k < 8,
    ensures
        forall|i: u8| i < 8 ==> #[trigger] bit(m | (1u8 << k), i) == (bit(m, i) || i == k),
{
    assert forall|i: u8| i < 8 implies #[trigger] bit(m | (1u8 << k), i) == (bit(m, i) || i == k) by {
        lemma_bit_set(m, k, i);
    }
}

/// Clearing bit `k` of `m`: exactly bit `k` is removed.
pub proof fn lemma_mask_clear(m: u8, k: u8)
    requires
        k < 8,
    ensures
        forall|i: u8| i < 8 ==> #[trigger] bit(m & !(1u8 << k), i) == (bit(m, i) && i != k),
{
    assert forall|i: u8| i < 8 implies #[trigger] bit(m & !(1u8 << k), i) == (bit(m, i) && i != k) by {
        lemma_bit_clear(m, k, i);
    }
}

/// A mask is zero exactly when it has no bit set.
pub proof fn lemma_mask_zero(m: u8)
    ensures
        m == 0 <==> forall|i: u8| i < 8 ==> !#[trigger] bit(m, i),
{
    if m != 0 {
        assert(m != 0 ==> (bit(m, 0) || bit(m, 1) || bit(m, 2) || bit(m, 3) || bit(m, 4) || bit(m, 5)
            || bit(m, 6) || bit(m, 7))) by (bit_vector);
    } else {
        assert forall|i: u8| i < 8 implies !#[trigger] bit(m, i) by {
            assert(m == 0 && i < 8 ==> !(((m >> i) & 1u8) == 1u8)) by (bit_vector);
        }
    }
}

/// Wrap-resistant deadline test: `now` has reached `deadline` when
/// `now - deadline`, taken modulo 2^32, lies in the lower half of the range.
pub open spec fn reached(now: u32, deadline: u32) -> bool {
    now.wrapping_sub(deadline) < 0x8000_0000u32
}

/// `true` when `now` has reached `deadline` (signed wrapping comparison).
pub fn deadline_reached(now: u32, deadline: u32) -> (r: bool)
    ensures
        r == reached(now, deadline),
{
    let d = now.wrapping_sub(deadline);
    proof {
        assert((d as i32) >= 0 <==> d < 0x8000_0000u32) by (bit_vector);
    }
    (d as i32) >= 0
}

/// Abstract state of the scheduler.
pub ghost struct SchedView {
    /// Registered tasks, in spawn order.
    pub tasks: Seq<TaskSlot>,
    /// Index of the running task.
    pub current: usize,
    /// Whether the scheduler was started.
    pub started: bool,
    /// Round-robin cursor per band.
    pub last_served: Seq<usize>,
    /// Ticks accumulated in the current slice.
    pub slice_ticks: u32,
    /// Mutex control blocks.
    pub mutexes: Seq<MutexCb>,
    /// Semaphore control blocks.
    pub sems: Seq<SemCb>,
    /// Channel control blocks.
    pub chans: Seq<ChanCb>,
}

/// Round-robin scheduler with three priority bands.
pub struct Scheduler {
    tasks: Vec<TaskSlot>,
    current: usize,
    started: bool,
    last_served: Vec<usize>,
    slice_ticks: u32,
    mutexes: Vec<MutexCb>,
    semaphores: Vec<SemCb>,
    channels: Vec<ChanCb>,
}

impl View for Scheduler {
    type V = SchedView;

    closed spec fn view(&self) -> SchedView {
        SchedView {
            tasks: self.tasks@,
            current: self.current,
            started: self.started,
            last_served: self.last_served@,
            slice_ticks: self.slice_ticks,
            mutexes: self.mutexes@,
            sems: self.semaphores@,
            chans: self.channels@,
        }
    }
}

/// A mutex's waiters and owner name tasks below `n` (a lock taken before
/// any task exists is owned by index 0).
pub open spec fn mutex_wf(m: MutexCb, n: nat) -> bool {
    &&& mask_within(m.waiters, n)
    &&& (m.owner matches Some(o) ==> (o as nat) < n || (n == 0 && o == 0))
}

/// A channel's ring indices are in range and its waiters name tasks below `n`.
pub open spec fn chan_wf(c: ChanCb, n: nat) -> bool {
    &&& c.head < CHAN_CAPACITY
    &&& c.len <= CHAN_CAPACITY
    &&& mask_within(c.recv_waiters, n)
    &&& mask_within(c.send_waiters, n)
}

/// The object index held by a blocked state lies within its table.
pub open spec fn state_wf(s: TaskState) -> bool {
    match s {
        TaskState::BlockedMutex(m) => (m as int) < MAX_MUTEXES,
        TaskState::BlockedSem(m) => (m as int) < MAX_SEMAPHORES,
        TaskState::BlockedRecv(c) => (c as int) < MAX_CHANNELS,
        TaskState::BlockedSend(c) => (c as int) < MAX_CHANNELS,
        _ => true,
    }
}

impl SchedView {
    /// Number of registered tasks.
    pub open spec fn count(self) -> nat {
        self.tasks.len()
    }

    /// Structural invariant of the scheduler.
    pub open spec fn wf(self) -> bool {
        &&& self.tasks.len() <= MAX_TASKS
        &&& self.mutexes.len() == MAX_MUTEXES
        &&& self.sems.len() == MAX_SEMAPHORES
        &&& self.chans.len() == MAX_CHANNELS
        &&& self.last_served.len() == PRIORITY_BANDS
        &&& (self.tasks.len() > 0 ==> self.current < self.tasks.len())
        &&& (self.tasks.len() == 0 ==> self.current == 0)
        &&& (self.started ==> self.tasks.len() > 0)
        &&& self.slice_ticks < SLICE_TICKS
        &&& forall|b: int| 0 <= b < PRIORITY_BANDS ==> #[trigger] self.last_served[b] < MAX_TASKS
        &&& forall|i: int| 0 <= i < self.tasks.len() ==> state_wf(#[trigger] self.tasks[i].state)
        &&& forall|m: int| 0 <= m < MAX_MUTEXES ==> mutex_wf(#[trigger] self.mutexes[m], self.tasks.len())
        &&& forall|m: int| 0 <= m < MAX_SEMAPHORES ==> mask_within(#[trigger] self.sems[m].waiters, self.tasks.len())
        &&& forall|c: int| 0 <= c < MAX_CHANNELS ==> chan_wf(#[trigger] self.chans[c], self.tasks.len())
    }
}

/// The messages in flight in a channel, oldest first.
pub open spec fn chan_msgs(c: ChanCb) -> Seq<u32> {
    Seq::new(c.len as nat, |k: int| c.buf[(c.head as int + k) % CHAN_CAPACITY as int])
}

/// An empty channel.
pub open spec fn empty_chan() -> ChanCb {
    ChanCb { buf: [0u32; CHAN_CAPACITY], head: 0, len: 0, recv_waiters: 0, send_waiters: 0 }
}

impl MutexCb {
    /// A free mutex with no waiters.
    pub fn new() -> (r: Self)
        ensures
            r == (MutexCb { owner: None, waiters: 0 }),
    {
        MutexCb { owner: None, waiters: 0 }
    }
}

impl SemCb {
    /// A semaphore with no permits and no waiters.
    pub fn new() -> (r: Self)
        ensures
            r == (SemCb { count: 0, waiters: 0 }),
    {
        SemCb { count: 0, waiters: 0 }
    }
}

impl ChanCb {
    /// An empty channel with no waiters.
    pub fn new() -> (r: Self)
        ensures
            r == empty_chan(),
    {
        ChanCb { buf: [0u32; CHAN_CAPACITY], head: 0, len: 0, recv_waiters: 0, send_waiters: 0 }
    }

    /// Enqueues `msg` when there is room; `true` when it did.
    pub fn push(&mut self, msg: u32) -> (ok: bool)
        requires
            old(self).head < CHAN_CAPACITY,
            old(self).len <= CHAN_CAPACITY,
        ensures
            ok == (old(self).len < CHAN_CAPACITY),
            final(self).head < CHAN_CAPACITY,
            final(self).len <= CHAN_CAPACITY,
            ok ==> chan_msgs(*final(self)) == chan_msgs(*old(self)).push(msg),
            !ok ==> *final(self) == *old(self),
            final(self).head == old(self).head,
            final(self).recv_waiters == old(self).recv_waiters,
            final(self).send_waiters == old(self).send_waiters,
    {
        if (self.len as usize) >= CHAN_CAPACITY {
            return false;
        }
        let tail = (self.head as usize + self.len as usize) % CHAN_CAPACITY;
        self.buf[tail] = msg;
        self.len = self.len + 1;
        proof {
            assert(chan_msgs(*self) =~= chan_msgs(*old(self)).push(msg)) by {
                assert forall|k: int| 0 <= k < self.len implies chan_msgs(*self)[k] == chan_msgs(*old(self)).push(msg)[k] by {
                    let pos = (self.head as int + k) % CHAN_CAPACITY as int;
                    if k < old(self).len {
                        assert(pos != tail as int);
                    }
                }
            }
        }
        true
    }

    /// Dequeues the oldest message, if any.
    pub fn pop(&mut self) -> (r: Option<u32>)
        requires
            old(self).head < CHAN_CAPACITY,
            old(self).len <= CHAN_CAPACITY,
        ensures
            final(self).head < CHAN_CAPACITY,
            final(self).len <= CHAN_CAPACITY,
            old(self).len == 0 ==> r is None && *final(self) == *old(self),
            old(self).len > 0 ==> r == Some(chan_msgs(*old(self))[0])
                && chan_msgs(*final(self)) == chan_msgs(*old(self)).drop_first(),
            final(self).recv_waiters == old(self).recv_waiters,
            final(self).send_waiters == old(self).send_waiters,
    {
        if self.len == 0 {
            return None;
        }
        let msg = self.buf[self.head as usize];
        self.head = ((self.head as usize + 1) % CHAN_CAPACITY) as u8;
        self.len = self.len - 1;
        proof {
            assert(chan_msgs(*self) =~= chan_msgs(*old(self)).drop_first()) by {
                assert forall|k: int| 0 <= k < self.len implies chan_msgs(*self)[k] == chan_msgs(*old(self)).drop_first()[k] by {
                    assert((self.head as int + k) % 4 == (old(self).head as int + (k + 1)) % 4);
                }
            }
        }
        Some(msg)
    }
}

/// A blocked IPC wait whose deadline has passed.
pub open spec fn expired_block(t: TaskSlot, now: u32) -> bool {
    (t.state is BlockedRecv || t.state is BlockedSend) && (t.block_deadline matches Some(d) && reached(now, d))
}

/// A task after the wake-up sweep at time `now`.
pub open spec fn wake_task(t: TaskSlot, now: u32) -> TaskSlot {
    match t.state {
        TaskState::Sleeping(w) => if reached(now, w) {
            TaskSlot { state: TaskState::Ready, ..t }
        } else {
            t
        },
        _ => if expired_block(t, now) {
            TaskSlot { state: TaskState::Ready, block_deadline: None, ..t }
        } else {
            t
        },
    }
}

/// All tasks after the wake-up sweep.
pub open spec fn wake_tasks(ts: Seq<TaskSlot>, now: u32) -> Seq<TaskSlot> {
    Seq::new(ts.len(), |i: int| wake_task(ts[i], now))
}

/// Task `i` leaves the receive list of channel `c` in the sweep.
pub open spec fn expired_recv(ts: Seq<TaskSlot>, i: int, c: int, now: u32) -> bool {
    0 <= i < ts.len() && ts[i].state == TaskState::BlockedRecv(c as u8) && expired_block(ts[i], now)
}

/// Task `i` leaves the send list of channel `c` in the sweep.
pub open spec fn expired_send(ts: Seq<TaskSlot>, i: int, c: int, now: u32) -> bool {
    0 <= i < ts.len() && ts[i].state == TaskState::BlockedSend(c as u8) && expired_block(ts[i], now)
}

/// Channel `new` is channel `old` (number `c`) after the sweep over `ts`.
pub open spec fn chan_woken(new: ChanCb, old: ChanCb, ts: Seq<TaskSlot>, c: int, now: u32) -> bool {
    &&& new.buf == old.buf
    &&& new.head == old.head
    &&& new.len == old.len
    &&& forall|i: u8| i < 8 ==> #[trigger] bit(new.recv_waiters, i) == (bit(old.recv_waiters, i)
        && !expired_recv(ts, i as int, c, now))
    &&& forall|i: u8| i < 8 ==> #[trigger] bit(new.send_waiters, i) == (bit(old.send_waiters, i)
        && !expired_send(ts, i as int, c, now))
}

/// `i` may be picked from band `b` when leaving task `from`.
pub open spec fn eligible(ts: Seq<TaskSlot>, i: int, from: int, b: Priority) -> bool {
    0 <= i < ts.len() && i != from && ts[i].state == TaskState::Ready && ts[i].priority == b
}

/// First eligible task of band `b` in round-robin order after `start`,
/// looking at rotation offsets `off..=len`.
pub open spec fn first_in_band(ts: Seq<TaskSlot>, b: Priority, start: int, from: int, off: nat) -> Option<int>
    decreases ts.len() + 1 - off,
{
    if off > ts.len() || ts.len() == 0 {
        None
    } else {
        let idx = (start + off) % (ts.len() as int);
        if eligible(ts, idx, from, b) {
            Some(idx)
        } else {
            first_in_band(ts, b, start, from, off + 1)
        }
    }
}

/// The band (as rank) and index the scheduler picks when leaving `from`:
/// bands in priority order, round robin within a band from its cursor.
pub open spec fn pick_in(ts: Seq<TaskSlot>, ls: Seq<usize>, from: int) -> Option<(int, int)> {
    match first_in_band(ts, Priority::Kernel, ls[0] as int, from, 1) {
        Some(i) => Some((0, i)),
        None => match first_in_band(ts, Priority::Service, ls[1] as int, from, 1) {
            Some(i) => Some((1, i)),
            None => match first_in_band(ts, Priority::App, ls[2] as int, from, 1) {
                Some(i) => Some((2, i)),
                None => None,
            },
        },
    }
}

/// A task found in a band is eligible in that band.
pub proof fn lemma_first_in_band_eligible(ts: Seq<TaskSlot>, b: Priority, start: int, from: int, off: nat)
    ensures
        first_in_band(ts, b, start, from, off) matches Some(i) ==> eligible(ts, i, from, b),
    decreases ts.len() + 1 - off,
{
    if !(off > ts.len() || ts.len() == 0) {
        let idx = (start + off) % (ts.len() as int);
        if !eligible(ts, idx, from, b) {
            lemma_first_in_band_eligible(ts, b, start, from, off + 1);
        }
    }
}

/// The picked task is eligible in the picked band.
pub proof fn lemma_pick_in_eligible(ts: Seq<TaskSlot>, ls: Seq<usize>, from: int)
    ensures
        pick_in(ts, ls, from) matches Some((b, i)) ==> eligible(ts, i, from, band_of(b as u8)) && 0 <= b < 3,
{
    lemma_first_in_band_eligible(ts, Priority::Kernel, ls[0] as int, from, 1);
    lemma_first_in_band_eligible(ts, Priority::Service, ls[1] as int, from, 1);
    lemma_first_in_band_eligible(ts, Priority::App, ls[2] as int, from, 1);
}

/// What a blocking step asks the caller to do next.
#[derive(Clone, Copy, Debug, PartialEq, Eq, Structural)]
pub enum Step {
    /// Nothing more to do: return to the task.
    Done,
    /// Switch the CPU from the calling task to the task at this index.
    Switch(usize),
    /// No other task is ready: wait for an interrupt and poll again.
    Wait,
}

impl SchedView {
    /// `new` is `self` after the wake-up sweep at `now`.
    pub open spec fn wakes_to(self, new: SchedView, now: u32) -> bool {
        &&& new.tasks == wake_tasks(self.tasks, now)
        &&& new.chans.len() == self.chans.len()
        &&& forall|c: int| 0 <= c < self.chans.len() ==> chan_woken(#[trigger] new.chans[c], self.chans[c], self.tasks, c, now)
        &&& new.current == self.current
        &&& new.started == self.started
        &&& new.last_served == self.last_served
        &&& new.slice_ticks == self.slice_ticks
        &&& new.mutexes == self.mutexes
        &&& new.sems == self.sems
    }

    /// `new` is `self` after the sweep and a pick when leaving `from`, which
    /// returned `r`.
    pub open spec fn picks_to(self, new: SchedView, from: int, r: int, now: u32) -> bool {
        let ts = wake_tasks(self.tasks, now);
        &&& new.tasks == ts
        &&& new.chans.len() == self.chans.len()
        &&& forall|c: int| 0 <= c < self.chans.len() ==> chan_woken(#[trigger] new.chans[c], self.chans[c], self.tasks, c, now)
        &&& new.current == self.current
        &&& new.started == self.started
        &&& new.slice_ticks == self.slice_ticks
        &&& new.mutexes == self.mutexes
        &&& new.sems == self.sems
        &&& match pick_in(ts, self.last_served, from) {
            Some((b, i)) => r == i && new.last_served == self.last_served.update(b, i as usize),
            None => r == from && new.last_served == self.last_served,
        }
    }

    /// `new` is `self` after a context-switch decision leaving `from` at `now`:
    /// the sweep, the pick, and on a switch the new current task and a fresh
    /// slice. `switched` tells whether another task was picked.
    pub open spec fn switches_to(self, new: SchedView, from: int, now: u32, next: Option<usize>) -> bool {
        let ts = wake_tasks(self.tasks, now);
        &&& new.tasks == ts
        &&& new.chans.len() == self.chans.len()
        &&& forall|c: int| 0 <= c < self.chans.len() ==> chan_woken(#[trigger] new.chans[c], self.chans[c], self.tasks, c, now)
        &&& new.started == self.started
        &&& new.mutexes == self.mutexes
        &&& new.sems == self.sems
        &&& match pick_in(ts, self.last_served, from) {
            Some((b, i)) => {
                &&& next == Some(i as usize)
                &&& new.last_served == self.last_served.update(b, i as usize)
                &&& new.current == i
                &&& new.slice_ticks == 0
            },
            None => {
                &&& next is None
                &&& new.last_served == self.last_served
                &&& new.current == self.current
                &&& new.slice_ticks == self.slice_ticks
            },
        }
    }
}

/// The slot of a freshly spawned task.
pub open spec fn new_slot(base: u32, len: u32, p: Priority, mode: TaskMode, domain: Domain) -> TaskSlot {
    TaskSlot {
        priority: p,
        base_priority: p,
        state: TaskState::Ready,
        mode,
        domain,
        stack_base: base,
        stack_len: len,
        block_deadline: None,
        liveness_period: None,
        liveness_deadline: None,
    }
}

/// `x` is a power of two.
pub open spec fn is_pow2(x: u32) -> bool {
    exists|k: u32| k < 32 && x == (1u32 << k)
}

/// Paints a task stack with [`STACK_FILL`], so that its high-water mark can
/// be measured later (done on spawn and respawn, before the first frame is
/// built).
pub fn paint_stack(stack: &mut [u8])
    ensures
        final(stack)@ == Seq::new(old(stack)@.len(), |i: int| STACK_FILL),
{
    let n = stack.len();
    let mut i: usize = 0;
    while i < n
        invariant
            n == stack@.len(),
            n == old(stack)@.len(),
            i <= n,
            forall|j: int| 0 <= j < i ==> #[trigger] stack@[j] == STACK_FILL,
        decreases n - i,
    {
        stack[i] = STACK_FILL;
        i = i + 1;
    }
    assert(stack@ =~= Seq::new(old(stack)@.len(), |i: int| STACK_FILL));
}

/// `true` when `x` is a power of two.
pub fn power_of_two(x: u32) -> (r: bool)
    ensures
        r == is_pow2(x),
{
    let mut k: u32 = 0;
    while k < 32
        invariant
            k <= 32,
            forall|j: u32| j < k ==> x != (1u32 << j),
        decreases 32 - k,
    {
        if x == (1u32 << k) {
            return true;
        }
        k = k + 1;
    }
    false
}

/// The error, if any, with which a spawn of this stack is refused.
pub open spec fn spawn_refusal(count: nat, base: u32, len: u32, mode: TaskMode) -> Option<SpawnError> {
    if len < MIN_STACK {
        Some(SpawnError::StackTooSmall)
    } else if count >= MAX_TASKS {
        Some(SpawnError::TooManyTasks)
    } else if mode == TaskMode::User && (len < 32 || !is_pow2(len) || base % len != 0) {
        Some(SpawnError::UnalignedUserStack)
    } else {
        None
    }
}

impl Scheduler {
    /// Empty scheduler.
    pub fn new() -> (r: Self)
        ensures
            r@.wf(),
            r@.tasks.len() == 0,
            r@.current == 0,
            !r@.started,
            r@.slice_ticks == 0,
            r@.last_served == seq![0usize, 0usize, 0usize],
            r@.mutexes == Seq::new(MAX_MUTEXES as nat, |i: int| MutexCb { owner: None, waiters: 0 }),
            r@.sems == Seq::new(MAX_SEMAPHORES as nat, |i: int| SemCb { count: 0, waiters: 0 }),
            forall|c: int| 0 <= c < MAX_CHANNELS ==> chan_msgs(#[trigger] r@.chans[c]).len() == 0
                && r@.chans[c].recv_waiters == 0 && r@.chans[c].send_waiters == 0,
    {
        let mut mutexes: Vec<MutexCb> = Vec::new();
        let mut semaphores: Vec<SemCb> = Vec::new();
        let mut channels: Vec<ChanCb> = Vec::new();
        let mut i: usize = 0;
        while i < 4
            invariant
                i <= 4,
                mutexes@.len() == i,
                semaphores@.len() == i,
                channels@.len() == i,
                forall|j: int| 0 <= j < i ==> #[trigger] mutexes@[j] == (MutexCb { owner: None, waiters: 0 }),
                forall|j: int| 0 <= j < i ==> #[trigger] semaphores@[j] == (SemCb { count: 0, waiters: 0 }),
                forall|j: int| 0 <= j < i ==> (#[trigger] channels@[j]).head == 0 && channels@[j].len == 0
                    && channels@[j].recv_waiters == 0 && channels@[j].send_waiters == 0,
            decreases 4 - i,
        {
            mutexes.push(MutexCb::new());
            semaphores.push(SemCb::new());
            channels.push(ChanCb::new());
            i = i + 1;
        }
        let mut last_served: Vec<usize> = Vec::new();
        last_served.push(0);
        last_served.push(0);
        last_served.push(0);
        let r = Scheduler {
            tasks: Vec::new(),
            current: 0,
            started: false,
            last_served,
            slice_ticks: 0,
            mutexes,
            semaphores,
            channels,
        };
        proof {
            assert(r@.last_served =~= seq![0usize, 0usize, 0usize]);
            assert(r@.mutexes =~= Seq::new(MAX_MUTEXES as nat, |i: int| MutexCb { owner: None, waiters: 0 }));
            assert(r@.sems =~= Seq::new(MAX_SEMAPHORES as nat, |i: int| SemCb { count: 0, waiters: 0 }));
            lemma_within_zero(0);
        }
        r
    }

    /// Registers a privileged task whose stack is `stack`, found at address
    /// `stack_base`. On success the stack is painted with [`STACK_FILL`];
    /// the caller then builds the initial frame on top of it.
    pub fn spawn(&mut self, stack: &mut [u8], stack_base: u32, priority: Priority) -> (r: Result<TaskId, SpawnError>)
        requires
            old(self)@.wf(),
            old(stack)@.len() <= u32::MAX,
        ensures
            final(self)@.wf(),
            spawned(old(self)@, final(self)@, stack_base, old(stack)@.len() as u32, priority, TaskMode::Privileged, Domain::Kernel, r),
            r is Ok ==> final(stack)@ == Seq::new(old(stack)@.len(), |i: int| STACK_FILL),
            r is Err ==> final(stack)@ == old(stack)@,
    {
        self.spawn_inner(stack, stack_base, priority, TaskMode::Privileged, Domain::Kernel)
    }

    /// Registers a user-land app (unprivileged, App domain) whose stack is
    /// `stack`, found at address `stack_base`; painted as for [`Self::spawn`].
    pub fn spawn_user(&mut self, stack: &mut [u8], stack_base: u32, priority: Priority) -> (r: Result<TaskId, SpawnError>)
        requires
            old(self)@.wf(),
            old(stack)@.len() <= u32::MAX,
        ensures
            final(self)@.wf(),
            spawned(old(self)@, final(self)@, stack_base, old(stack)@.len() as u32, priority, TaskMode::User, Domain::App, r),
            r is Ok ==> final(stack)@ == Seq::new(old(stack)@.len(), |i: int| STACK_FILL),
            r is Err ==> final(stack)@ == old(stack)@,
    {
        self.spawn_inner(stack, stack_base, priority, TaskMode::User, Domain::App)
    }

    fn spawn_inner(&mut self, stack: &mut [u8], stack_base: u32, priority: Priority, mode: TaskMode, domain: Domain) -> (r: Result<TaskId, SpawnError>)
        requires
            old(self)@.wf(),
            old(stack)@.len() <= u32::MAX,
        ensures
            final(self)@.wf(),
            spawned(old(self)@, final(self)@, stack_base, old(stack)@.len() as u32, priority, mode, domain, r),
            r is Ok ==> final(stack)@ == Seq::new(old(stack)@.len(), |i: int| STACK_FILL),
            r is Err ==> final(stack)@ == old(stack)@,
    {
        let stack_len = stack.len() as u32;
        if stack_len < MIN_STACK {
            return Err(SpawnError::StackTooSmall);
        }
        if self.tasks.len() >= MAX_TASKS {
            return Err(SpawnError::TooManyTasks);
        }
        if mode == TaskMode::User {
            if stack_len < 32 || !power_of_two(stack_len) || stack_base % stack_len != 0 {
                return Err(SpawnError::UnalignedUserStack);
            }
        }
        paint_stack(stack);
        let slot = TaskSlot {
            priority,
            base_priority: priority,
            state: TaskState::Ready,
            mode,
            domain,
            stack_base,
            stack_len,
            block_deadline: None,
            liveness_period: None,
            liveness_deadline: None,
        };
        let id = TaskId(self.tasks.len() as u8);
        self.tasks.push(slot);
        proof {
            let v = self@;
            let o = old(self)@;
            assert forall|m: int| 0 <= m < MAX_MUTEXES implies mutex_wf(#[trigger] v.mutexes[m], v.tasks.len()) by {
                assert(mutex_wf(o.mutexes[m], o.tasks.len()));
                lemma_within_grow(o.mutexes[m].waiters, o.tasks.len(), v.tasks.len());
            }
            assert forall|m: int| 0 <= m < MAX_SEMAPHORES implies mask_within(#[trigger] v.sems[m].waiters, v.tasks.len()) by {
                assert(mask_within(o.sems[m].waiters, o.tasks.len()));
                lemma_within_grow(o.sems[m].waiters, o.tasks.len(), v.tasks.len());
            }
            assert forall|c: int| 0 <= c < MAX_CHANNELS implies chan_wf(#[trigger] v.chans[c], v.tasks.len()) by {
                assert(chan_wf(o.chans[c], o.tasks.len()));
                lemma_within_grow(o.chans[c].recv_waiters, o.tasks.len(), v.tasks.len());
                lemma_within_grow(o.chans[c].send_waiters, o.tasks.len(), v.tasks.len());
            }
            assert forall|b: int| 0 <= b < PRIORITY_BANDS implies #[trigger] v.last_served[b] < MAX_TASKS by {
                assert(o.last_served[b] < MAX_TASKS);
            }
            assert forall|k: int| 0 <= k < v.tasks.len() implies state_wf(#[trigger] v.tasks[k].state) by {
                if k < o.tasks.len() {
                    assert(state_wf(o.tasks[k].state));
                }
            }
        }
        Ok(id)
    }

    /// Number of registered tasks.
    pub fn task_count(&self) -> (r: usize)
        ensures
            r == self@.count(),
    {
        self.tasks.len()
    }

    /// Whether the scheduler was started.
    pub fn is_started(&self) -> (r: bool)
        ensures
            r == self@.started,
    {
        self.started
    }

    /// Index of the running task.
    pub fn current_index(&self) -> (r: usize)
        ensures
            r == self@.current,
    {
        self.current
    }

    /// Id of the running task.
    pub fn current_id(&self) -> (r: TaskId)
        requires
            self@.wf(),
        ensures
            r == TaskId(self@.current as u8),
    {
        TaskId(self.current as u8)
    }

    /// Logical domain of the running task.
    pub fn current_domain(&self) -> (r: Domain)
        requires
            self@.wf(),
            self@.count() > 0,
        ensures
            r == self@.tasks[self@.current as int].domain,
    {
        self.tasks[self.current].domain
    }

    /// MPU region `(base, len)` of the running task's stack when it is a
    /// user task; `None` when it is privileged.
    pub fn current_user_region(&self) -> (r: Option<(u32, u32)>)
        requires
            self@.wf(),
            self@.count() > 0,
        ensures
            ({
                let t = self@.tasks[self@.current as int];
                r == (if t.mode == TaskMode::User { Some((t.stack_base, t.stack_len)) } else { None })
            }),
    {
        let slot = self.tasks[self.current];
        match slot.mode {
            TaskMode::User => Some((slot.stack_base, slot.stack_len)),
            TaskMode::Privileged => None,
        }
    }

    /// Mode and stack region of task `idx`, for the architecture hook that
    /// runs before switching to it.
    pub fn switch_info(&self, idx: usize) -> (r: (TaskMode, u32, u32))
        requires
            self@.wf(),
            idx < self@.count(),
        ensures
            r == (self@.tasks[idx as int].mode, self@.tasks[idx as int].stack_base, self@.tasks[idx as int].stack_len),
    {
        let t = self.tasks[idx];
        (t.mode, t.stack_base, t.stack_len)
    }

    /// `true` when task `idx` exists and no fault killed it (a sleeping or
    /// blocked task is alive).
    pub fn task_alive(&self, idx: usize) -> (r: bool)
        requires
            self@.wf(),
        ensures
            r == (idx < self@.count() && self@.tasks[idx as int].state != TaskState::Killed),
    {
        idx < self.tasks.len() && self.tasks[idx].state != TaskState::Killed
    }

    /// `true` when task `idx` was killed. Out of range => `false`.
    pub fn is_killed(&self, idx: usize) -> (r: bool)
        requires
            self@.wf(),
        ensures
            r == (idx < self@.count() && self@.tasks[idx as int].state == TaskState::Killed),
    {
        idx < self.tasks.len() && self.tasks[idx].state == TaskState::Killed
    }

    /// Number of killed tasks.
    pub fn killed_count(&self) -> (r: usize)
        requires
            self@.wf(),
        ensures
            r == killed_in(self@.tasks, self@.count()),
    {
        let mut n: usize = 0;
        let mut i: usize = 0;
        while i < self.tasks.len()
            invariant
                i <= self.tasks.len(),
                self.tasks.len() <= MAX_TASKS,
                n == killed_in(self.tasks@, i as nat),
                n <= i,
            decreases self.tasks.len() - i,
        {
            if self.tasks[i].state == TaskState::Killed {
                n = n + 1;
            }
            i = i + 1;
        }
        n
    }

    /// `true` when every task is killed.
    pub fn all_killed(&self) -> (r: bool)
        requires
            self@.wf(),
        ensures
            r == forall|i: int| 0 <= i < self@.count() ==> #[trigger] self@.tasks[i].state == TaskState::Killed,
    {
        let mut i: usize = 0;
        while i < self.tasks.len()
            invariant
                i <= self.tasks.len(),
                forall|j: int| 0 <= j < i ==> #[trigger] self.tasks@[j].state == TaskState::Killed,
            decreases self.tasks.len() - i,
        {
            if self.tasks[i].state != TaskState::Killed {
                return false;
            }
            i = i + 1;
        }
        true
    }

    /// Stack size of task `idx` in bytes (0 when it does not exist).
    pub fn stack_len(&self, idx: usize) -> (r: u32)
        requires
            self@.wf(),
        ensures
            r == (if idx < self@.count() { self@.tasks[idx as int].stack_len } else { 0 }),
    {
        if idx >= self.tasks.len() {
            return 0;
        }
        self.tasks[idx].stack_len
    }

    /// Effective priority of task `idx` as a number (lower = more urgent);
    /// `0xFF` when the task does not exist.
    pub fn task_priority(&self, idx: usize) -> (r: u8)
        requires
            self@.wf(),
        ensures
            r == (if idx < self@.count() { rank(self@.tasks[idx as int].priority) } else { 0xFFu8 }),
    {
        if idx >= self.tasks.len() {
            return 0xFF;
        }
        self.tasks[idx].priority.rank()
    }

    /// High-water mark of the stack `stack` of task `idx`: its length minus
    /// the untouched fill bytes at its base. 0 when the task does not exist.
    pub fn stack_high_water(&self, idx: usize, stack: &[u8]) -> (r: u32)
        requires
            self@.wf(),
            idx < self@.count() ==> stack@.len() == self@.tasks[idx as int].stack_len,
        ensures
            idx >= self@.count() ==> r == 0,
            idx < self@.count() ==> r == stack@.len() - untouched(stack@),
    {
        if idx >= self.tasks.len() {
            return 0;
        }
        let len = stack.len();
        let mut free: usize = 0;
        while free < len && stack[free] == STACK_FILL
            invariant
                free <= len,
                len == stack@.len(),
                forall|j: int| 0 <= j < free ==> stack@[j] == STACK_FILL,
            decreases len - free,
        {
            free = free + 1;
        }
        proof {
            lemma_untouched(stack@, free as int);
        }
        (len - free) as u32
    }
}

/// Effect of a spawn: refused with the error of [`spawn_refusal`] and no
/// change, or the new slot appended and its index returned.
pub open spec fn spawned(old: SchedView, new: SchedView, base: u32, len: u32, p: Priority, mode: TaskMode, domain: Domain, r: Result<TaskId, SpawnError>) -> bool {
    match spawn_refusal(old.count(), base, len, mode) {
        Some(e) => r == Err::<TaskId, SpawnError>(e) && new == old,
        None => {
            &&& r == Ok::<TaskId, SpawnError>(TaskId(old.count() as u8))
            &&& new == SchedView { tasks: old.tasks.push(new_slot(base, len, p, mode, domain)), ..old }
        },
    }
}


/// Number of killed tasks among the first `k`.
pub open spec fn killed_in(ts: Seq<TaskSlot>, k: nat) -> nat
    decreases k,
{
    if k == 0 {
        0
    } else {
        killed_in(ts, (k - 1) as nat) + if ts[k - 1].state == TaskState::Killed { 1nat } else { 0nat }
    }
}

/// Length of the run of fill bytes at the start of a stack.
pub open spec fn untouched(s: Seq<u8>) -> nat
    decreases s.len(),
{
    if s.len() == 0 || s[0] != STACK_FILL {
        0
    } else {
        1 + untouched(s.drop_first())
    }
}

proof fn lemma_untouched(s: Seq<u8>, k: int)
    requires
        0 <= k <= s.len(),
        forall|j: int| 0 <= j < k ==> s[j] == STACK_FILL,
        k == s.len() || s[k] != STACK_FILL,
    ensures
        untouched(s) == k,
    decreases k,
{
    if k > 0 {
        lemma_untouched(s.drop_first(), k - 1);
    }
}

/// Channel `new` is channel `old` after the sweep has looked at the first
/// `k` tasks of `ts`.
pub open spec fn chan_woken_upto(new: ChanCb, old: ChanCb, ts: Seq<TaskSlot>, c: int, now: u32, k: int) -> bool {
    &&& new.buf == old.buf
    &&& new.head == old.head
    &&& new.len == old.len
    &&& forall|i: u8| i < 8 ==> #[trigger] bit(new.recv_waiters, i) == (bit(old.recv_waiters, i)
        && !((i as int) < k && expired_recv(ts, i as int, c, now)))
    &&& forall|i: u8| i < 8 ==> #[trigger] bit(new.send_waiters, i) == (bit(old.send_waiters, i)
        && !((i as int) < k && expired_send(ts, i as int, c, now)))
}

/// Law (timed-out channel waits end in the sweep): when the wake-up sweep
/// runs at `now`, a task blocked sending to, or receiving from, channel `c`
/// whose deadline `d` `now` has reached (`now - d`, wrapping, below 2^31)
/// becomes ready, keeps no deadline, and is dropped from that channel's
/// list of waiting senders, or receivers; its retry then reports the
/// timeout.
pub proof fn lemma_sweep_ends_timed_out_waits(old: SchedView, new: SchedView, now: u32, i: int, c: u8, d: u32)
    requires
        old.wf(),
        old.wakes_to(new, now),
        0 <= i < old.tasks.len(),
        old.tasks[i].state == TaskState::BlockedSend(c) || old.tasks[i].state == TaskState::BlockedRecv(c),
        old.tasks[i].block_deadline == Some(d),
        now.wrapping_sub(d) < 0x8000_0000u32,
    ensures
        new.tasks[i].state == TaskState::Ready,
        new.tasks[i].block_deadline == None::<u32>,
        (c as int) < new.chans.len(),
        old.tasks[i].state == TaskState::BlockedSend(c) ==> !bit(new.chans[c as int].send_waiters, i as u8),
        old.tasks[i].state == TaskState::BlockedRecv(c) ==> !bit(new.chans[c as int].recv_waiters, i as u8),
{
    assert(state_wf(old.tasks[i].state));
    assert(new.tasks[i] == wake_task(old.tasks[i], now));
    assert(old.tasks.len() <= MAX_TASKS);
    let ch = c as int;
    assert(chan_woken(new.chans[ch], old.chans[ch], old.tasks, ch, now));
    if old.tasks[i].state == TaskState::BlockedSend(c) {
        assert(expired_send(old.tasks, i, ch, now));
        assert(bit(new.chans[ch].send_waiters, i as u8) == (bit(old.chans[ch].send_waiters, i as u8) && !expired_send(old.tasks, (i as u8) as int, ch, now)));
    } else {
        assert(expired_recv(old.tasks, i, ch, now));
        assert(bit(new.chans[ch].recv_waiters, i as u8) == (bit(old.chans[ch].recv_waiters, i as u8) && !expired_recv(old.tasks, (i as u8) as int, ch, now)));
    }
}

/// Law (the sweep wakes due sleepers and leaves other waits alone): at
/// `now`, a task sleeping until a time `now` has reached becomes ready; a
/// task blocked on a channel with no deadline, or one `now` has not
/// reached, is left as it was, and so is its place in that channel's lists.
pub proof fn lemma_sweep_keeps_pending_waits(old: SchedView, new: SchedView, now: u32, i: int, c: u8)
    requires
        old.wf(),
        old.wakes_to(new, now),
        0 <= i < old.tasks.len(),
    ensures
        (old.tasks[i].state matches TaskState::Sleeping(w) && now.wrapping_sub(w) < 0x8000_0000u32) ==> new.tasks[i].state
            == TaskState::Ready,
        (old.tasks[i].state matches TaskState::Sleeping(w) && now.wrapping_sub(w) >= 0x8000_0000u32) ==> new.tasks[i]
            == old.tasks[i],
        !(old.tasks[i].state is Sleeping || old.tasks[i].state is BlockedSend || old.tasks[i].state is BlockedRecv) ==> new.tasks[i]
            == old.tasks[i],
        ((old.tasks[i].state == TaskState::BlockedSend(c) || old.tasks[i].state == TaskState::BlockedRecv(c)) && (
        old.tasks[i].block_deadline matches Some(d) ==> now.wrapping_sub(d) >= 0x8000_0000u32)) ==> {
            &&& new.tasks[i] == old.tasks[i]
            &&& (c as int) < new.chans.len()
            &&& bit(new.chans[c as int].send_waiters, i as u8) == bit(old.chans[c as int].send_waiters, i as u8)
            &&& bit(new.chans[c as int].recv_waiters, i as u8) == bit(old.chans[c as int].recv_waiters, i as u8)
        },
{
    assert(state_wf(old.tasks[i].state));
    assert(new.tasks[i] == wake_task(old.tasks[i], now));
    assert(old.tasks.len() <= MAX_TASKS);
    if old.tasks[i].state == TaskState::BlockedSend(c) || old.tasks[i].state == TaskState::BlockedRecv(c) {
        let ch = c as int;
        assert(chan_woken(new.chans[ch], old.chans[ch], old.tasks, ch, now));
        assert(bit(new.chans[ch].send_waiters, i as u8) == (bit(old.chans[ch].send_waiters, i as u8) && !expired_send(old.tasks, (i as u8) as int, ch, now)));
        assert(bit(new.chans[ch].recv_waiters, i as u8) == (bit(old.chans[ch].recv_waiters, i as u8) && !expired_recv(old.tasks, (i as u8) as int, ch, now)));
    }
}

/// How a killed task's CPU is handed over.
#[derive(Clone, Copy, Debug, PartialEq, Eq, Structural)]
pub enum Resume {
    /// Resume the task at this index.
    Switch(usize),
    /// Every task is dead: halt and let the watchdog reset the board.
    Halt,
    /// Only sleeping or blocked tasks remain: wait for an interrupt and poll again.
    Wait,
}

impl SchedView {
    /// `new` is `self` after polling for another task when leaving `prev`:
    /// switch to the picked task, or report whether `prev` itself is ready.
    pub open spec fn polls_to(self, new: SchedView, prev: int, now: u32, r: Step) -> bool {
        let ts = wake_tasks(self.tasks, now);
        &&& self.switches_to(new, prev, now, match r {
            Step::Switch(i) => Some(i),
            _ => None,
        })
        &&& (pick_in(ts, self.last_served, prev) is None ==> r == (if ts[prev].state == TaskState::Ready {
            Step::Done
        } else {
            Step::Wait
        }))
    }
}

impl Scheduler {
    /// Wakes sleeping tasks whose deadline has passed, and times out IPC
    /// blocks whose deadline has passed (leaving the channel's wait list).
    fn wake_expired(&mut self, now: u32)
        requires
            old(self)@.wf(),
        ensures
            final(self)@.wf(),
            old(self)@.wakes_to(final(self)@, now),
    {
        let n = self.tasks.len();
        let ghost old_v = self@;
        let mut i: usize = 0;
        while i < n
            invariant
                old_v.wf(),
                i <= n,
                n == old_v.tasks.len(),
                self.tasks@.len() == n,
                self.channels@.len() == MAX_CHANNELS,
                forall|j: int| 0 <= j < i ==> #[trigger] self.tasks@[j] == wake_task(old_v.tasks[j], now),
                forall|j: int| i <= j < n ==> #[trigger] self.tasks@[j] == old_v.tasks[j],
                forall|c: int| 0 <= c < MAX_CHANNELS ==> chan_woken_upto(#[trigger] self.channels@[c], old_v.chans[c], old_v.tasks, c, now, i as int),
                self.current == old_v.current,
                self.started == old_v.started,
                self.last_served@ == old_v.last_served,
                self.slice_ticks == old_v.slice_ticks,
                self.mutexes@ == old_v.mutexes,
                self.semaphores@ == old_v.sems,
            decreases n - i,
        {
            let t = self.tasks[i];
            proof {
                assert(state_wf(old_v.tasks[i as int].state));
            }
            match t.state {
                TaskState::Sleeping(wake_at) => {
                    if deadline_reached(now, wake_at) {
                        let mut t2 = t;
                        t2.state = TaskState::Ready;
                        self.tasks.set(i, t2);
                    }
                    proof {
                        assert forall|c: int| 0 <= c < MAX_CHANNELS implies chan_woken_upto(#[trigger] self.channels@[c], old_v.chans[c], old_v.tasks, c, now, i + 1) by {
                            assert(!expired_recv(old_v.tasks, i as int, c, now));
                            assert(!expired_send(old_v.tasks, i as int, c, now));
                        }
                    }
                },
                TaskState::BlockedRecv(chan) | TaskState::BlockedSend(chan) => {
                    let is_recv = match t.state {
                        TaskState::BlockedRecv(_) => true,
                        _ => false,
                    };
                    let mut expired = false;
                    if let Some(deadline) = t.block_deadline {
                        if deadline_reached(now, deadline) {
                            expired = true;
                        }
                    }
                    let ghost pre = self.channels@;
                    if expired {
                        let bit: u8 = 1u8 << (i as u8);
                        let c = chan as usize;
                        let mut ch = self.channels[c];
                        if is_recv {
                            ch.recv_waiters = ch.recv_waiters & !bit;
                        } else {
                            ch.send_waiters = ch.send_waiters & !bit;
                        }
                        self.channels.set(c, ch);
                        let mut t2 = t;
                        t2.state = TaskState::Ready;
                        t2.block_deadline = None;
                        self.tasks.set(i, t2);
                    }
                    proof {
                        assert(t == old_v.tasks[i as int]);
                        assert(expired == expired_block(t, now));
                        assert forall|c: int| 0 <= c < MAX_CHANNELS implies chan_woken_upto(#[trigger] self.channels@[c], old_v.chans[c], old_v.tasks, c, now, i + 1) by {
                            let ch = self.channels@[c];
                            let pc = pre[c];
                            assert(chan_woken_upto(pc, old_v.chans[c], old_v.tasks, c, now, i as int));
                            assert forall|k: u8| k < 8 implies #[trigger] bit(ch.recv_waiters, k) == (bit(old_v.chans[c].recv_waiters, k)
                                && !((k as int) < i + 1 && expired_recv(old_v.tasks, k as int, c, now))) by {
                                assert(bit(pc.recv_waiters, k) == (bit(old_v.chans[c].recv_waiters, k)
                                    && !((k as int) < i && expired_recv(old_v.tasks, k as int, c, now))));
                                if expired && c == chan as int && is_recv {
                                    lemma_bit_clear(pc.recv_waiters, i as u8, k);
                                }
                            }
                            assert forall|k: u8| k < 8 implies #[trigger] bit(ch.send_waiters, k) == (bit(old_v.chans[c].send_waiters, k)
                                && !((k as int) < i + 1 && expired_send(old_v.tasks, k as int, c, now))) by {
                                assert(bit(pc.send_waiters, k) == (bit(old_v.chans[c].send_waiters, k)
                                    && !((k as int) < i && expired_send(old_v.tasks, k as int, c, now))));
                                if expired && c == chan as int && !is_recv {
                                    lemma_bit_clear(pc.send_waiters, i as u8, k);
                                }
                            }
                        }
                    }
                },
                _ => {
                    proof {
                        assert forall|c: int| 0 <= c < MAX_CHANNELS implies chan_woken_upto(#[trigger] self.channels@[c], old_v.chans[c], old_v.tasks, c, now, i + 1) by {
                            assert(!expired_recv(old_v.tasks, i as int, c, now));
                            assert(!expired_send(old_v.tasks, i as int, c, now));
                        }
                    }
                },
            }
            i = i + 1;
        }
        proof {
            assert(self.tasks@ =~= wake_tasks(old_v.tasks, now));
            assert forall|c: int| 0 <= c < MAX_CHANNELS implies chan_woken(#[trigger] self@.chans[c], old_v.chans[c], old_v.tasks, c, now) by {
                assert(chan_woken_upto(self.channels@[c], old_v.chans[c], old_v.tasks, c, now, n as int));
            }
            let v = self@;
            assert forall|k: int| 0 <= k < v.tasks.len() implies state_wf(#[trigger] v.tasks[k].state) by {
                assert(state_wf(old_v.tasks[k].state));
            }
            assert forall|c: int| 0 <= c < MAX_CHANNELS implies chan_wf(#[trigger] v.chans[c], v.tasks.len()) by {
                assert(chan_woken(v.chans[c], old_v.chans[c], old_v.tasks, c, now));
                assert(chan_wf(old_v.chans[c], old_v.tasks.len()));
                lemma_within_sub(v.chans[c].recv_waiters, old_v.chans[c].recv_waiters, v.tasks.len());
                lemma_within_sub(v.chans[c].send_waiters, old_v.chans[c].send_waiters, v.tasks.len());
            }
        }
    }

    /// First eligible task of band `band` in round-robin order from the
    /// band's cursor, skipping `from`.
    fn find_in_band(&self, band: Priority, from: usize) -> (r: Option<usize>)
        requires
            self@.wf(),
        ensures
            r matches Some(i) ==> first_in_band(self@.tasks, band, self@.last_served[rank(band) as int] as int, from as int, 1) == Some(i as int),
            r is None ==> first_in_band(self@.tasks, band, self@.last_served[rank(band) as int] as int, from as int, 1) is None,
            r matches Some(i) ==> i < self@.count(),
    {
        let n = self.tasks.len();
        let start = self.last_served[band.rank() as usize];
        let ghost ts = self@.tasks;
        let mut off: usize = 1;
        while off <= n
            invariant
                1 <= off <= n + 1,
                n == ts.len(),
                n <= MAX_TASKS,
                start < MAX_TASKS,
                start == self@.last_served[rank(band) as int],
                ts == self@.tasks,
                first_in_band(ts, band, start as int, from as int, 1) == first_in_band(ts, band, start as int, from as int, off as nat),
            decreases n + 1 - off,
        {
            let idx = (start + off) % n;
            let t = self.tasks[idx];
            if idx != from && t.state == TaskState::Ready && t.priority == band {
                assert(first_in_band(ts, band, start as int, from as int, off as nat) == Some(idx as int));
                return Some(idx);
            }
            assert(first_in_band(ts, band, start as int, from as int, off as nat)
                == first_in_band(ts, band, start as int, from as int, (off + 1) as nat));
            off = off + 1;
        }
        None
    }

    /// Sweeps expired deadlines and picks the next task to run when leaving
    /// `from` (returns `from` when no other task is ready).
    fn pick_next(&mut self, from: usize, now: u32) -> (r: usize)
        requires
            old(self)@.wf(),
        ensures
            final(self)@.wf(),
            old(self)@.picks_to(final(self)@, from as int, r as int, now),
            r != from ==> r < final(self)@.count(),
            pick_in(wake_tasks(old(self)@.tasks, now), old(self)@.last_served, from as int) matches Some((b, i))
                ==> eligible(wake_tasks(old(self)@.tasks, now), i, from as int, band_of(b as u8)) && 0 <= b < 3,
    {
        proof {
            lemma_pick_in_eligible(wake_tasks(old(self)@.tasks, now), old(self)@.last_served, from as int);
        }
        self.wake_expired(now);
        let ghost mid = self@;
        if let Some(i) = self.find_in_band(Priority::Kernel, from) {
            assert(pick_in(mid.tasks, mid.last_served, from as int) == Some((0int, i as int)));
            self.last_served.set(0, i);
            assert(self@.last_served == mid.last_served.update(0, i));
            assert(self@.tasks == mid.tasks);
            return i;
        }
        if let Some(i) = self.find_in_band(Priority::Service, from) {
            self.last_served.set(1, i);
            return i;
        }
        if let Some(i) = self.find_in_band(Priority::App, from) {
            self.last_served.set(2, i);
            return i;
        }
        from
    }

    /// Gives the CPU to the next ready task. Returns the task to switch to,
    /// or `None` when the caller keeps running.
    pub fn yield_now(&mut self, now: u32) -> (next: Option<usize>)
        requires
            old(self)@.wf(),
        ensures
            final(self)@.wf(),
            !old(self)@.started || old(self)@.count() <= 1 ==> next is None && final(self)@ == old(self)@,
            old(self)@.started && old(self)@.count() > 1 ==> old(self)@.switches_to(final(self)@, old(self)@.current as int, now, next),
            next matches Some(i) ==> i < final(self)@.count(),
    {
        if !self.started || self.tasks.len() <= 1 {
            return None;
        }
        let prev_idx = self.current;
        let next_idx = self.pick_next(prev_idx, now);
        if next_idx != prev_idx {
            self.current = next_idx;
            self.slice_ticks = 0;
            Some(next_idx)
        } else {
            None
        }
    }

    /// SysTick preemption: counts a tick and, when the slice is over, picks
    /// the next task round robin. Returns the task to switch to, if any.
    pub fn preempt_tick(&mut self, now: u32) -> (next: Option<usize>)
        requires
            old(self)@.wf(),
        ensures
            final(self)@.wf(),
            !old(self)@.started || old(self)@.count() <= 1 ==> next is None && final(self)@ == old(self)@,
            old(self)@.started && old(self)@.count() > 1 && old(self)@.slice_ticks + 1 < SLICE_TICKS ==> next is None
                && final(self)@ == (SchedView { slice_ticks: (old(self)@.slice_ticks + 1) as u32, ..old(self)@ }),
            old(self)@.started && old(self)@.count() > 1 && old(self)@.slice_ticks + 1 >= SLICE_TICKS ==> (SchedView {
                slice_ticks: 0,
                ..old(self)@
            }).switches_to(final(self)@, old(self)@.current as int, now, next),
            next matches Some(i) ==> i < final(self)@.count(),
    {
        if !self.started || self.tasks.len() <= 1 {
            return None;
        }
        self.slice_ticks = self.slice_ticks + 1;
        if self.slice_ticks < SLICE_TICKS {
            return None;
        }
        self.slice_ticks = 0;
        let prev_idx = self.current;
        let next_idx = self.pick_next(prev_idx, now);
        if next_idx == prev_idx {
            return None;
        }
        self.current = next_idx;
        Some(next_idx)
    }

    /// Starts the scheduler: marks it started and picks the first task.
    /// `None` when there is no task at all (the caller resets the board).
    pub fn start(&mut self, now: u32) -> (first: Option<usize>)
        requires
            old(self)@.wf(),
            old(self)@.count() > 0 ==> pick_in(wake_tasks(old(self)@.tasks, now), old(self)@.last_served, usize::MAX as int) is Some,
        ensures
            final(self)@.wf(),
            old(self)@.count() == 0 ==> first is None && final(self)@ == old(self)@,
            old(self)@.count() > 0 ==> first == Some(final(self)@.current) && (SchedView { started: true, ..old(self)@ }).picks_to(
                SchedView { current: old(self)@.current, ..final(self)@ },
                usize::MAX as int,
                final(self)@.current as int,
                now,
            ),
    {
        if self.tasks.len() == 0 {
            return None;
        }
        self.started = true;
        let c = self.pick_next(usize::MAX, now);
        assert(c != usize::MAX);
        assert(c < self.tasks.len());
        self.current = c;
        Some(c)
    }

    /// Starts the scheduler without jumping to the first task (host tests).
    pub fn force_start_for_test(&mut self, now: u32)
        requires
            old(self)@.wf(),
            old(self)@.count() > 0 ==> pick_in(wake_tasks(old(self)@.tasks, now), old(self)@.last_served, usize::MAX as int) is Some,
        ensures
            final(self)@.wf(),
            old(self)@.count() == 0 ==> final(self)@ == old(self)@,
            old(self)@.count() > 0 ==> (SchedView { started: true, ..old(self)@ }).picks_to(
                SchedView { current: old(self)@.current, ..final(self)@ },
                usize::MAX as int,
                final(self)@.current as int,
                now,
            ),
    {
        if self.tasks.len() == 0 {
            return;
        }
        self.started = true;
        let c = self.pick_next(usize::MAX, now);
        assert(c != usize::MAX);
        self.current = c;
    }

    /// Sets the running task without switching (host tests).
    pub fn set_current_for_test(&mut self, idx: usize)
        requires
            old(self)@.wf(),
        ensures
            final(self)@.wf(),
            idx < old(self)@.count() ==> final(self)@ == (SchedView { current: idx, ..old(self)@ }),
            idx >= old(self)@.count() ==> final(self)@ == old(self)@,
    {
        if idx < self.tasks.len() {
            self.current = idx;
        }
    }

    /// One round of waiting after leaving `prev`: switch to another ready
    /// task, return when `prev` itself is ready again, or wait.
    pub fn sleep_poll(&mut self, prev: usize, now: u32) -> (r: Step)
        requires
            old(self)@.wf(),
            prev < old(self)@.count(),
        ensures
            final(self)@.wf(),
            old(self)@.polls_to(final(self)@, prev as int, now, r),
            r matches Step::Switch(i) ==> i < final(self)@.count(),
    {
        let next_idx = self.pick_next(prev, now);
        if next_idx != prev {
            self.current = next_idx;
            self.slice_ticks = 0;
            return Step::Switch(next_idx);
        }
        if self.tasks[prev].state == TaskState::Ready {
            Step::Done
        } else {
            Step::Wait
        }
    }

    /// Puts the running task to sleep for `ms` milliseconds and gives the
    /// CPU away. `ms == 0` is a yield. On `Step::Wait` the caller waits for
    /// an interrupt and calls [`Self::sleep_poll`] with the sleeping task.
    pub fn sleep_ms(&mut self, ms: u32, now: u32) -> (r: Step)
        requires
            old(self)@.wf(),
        ensures
            final(self)@.wf(),
            !old(self)@.started || old(self)@.count() == 0 ==> r == Step::Done && final(self)@ == old(self)@,
            old(self)@.started && old(self)@.count() > 0 && ms == 0 ==> r != Step::Wait && ({
                let next = match r {
                    Step::Switch(i) => Some(i),
                    _ => None,
                };
                &&& (old(self)@.count() <= 1 ==> r == Step::Done && final(self)@ == old(self)@)
                &&& (old(self)@.count() > 1 ==> old(self)@.switches_to(final(self)@, old(self)@.current as int, now, next))
            }),
            old(self)@.started && old(self)@.count() > 0 && ms != 0 ==> (SchedView {
                tasks: old(self)@.tasks.update(old(self)@.current as int, TaskSlot {
                    state: TaskState::Sleeping(now.wrapping_add(ms)),
                    ..old(self)@.tasks[old(self)@.current as int]
                }),
                ..old(self)@
            }).polls_to(final(self)@, old(self)@.current as int, now, r),
            r matches Step::Switch(i) ==> i < final(self)@.count(),
    {
        if !self.started || self.tasks.len() == 0 {
            return Step::Done;
        }
        if ms == 0 {
            return match self.yield_now(now) {
                Some(n) => Step::Switch(n),
                None => Step::Done,
            };
        }
        let prev_idx = self.current;
        let wake_at = now.wrapping_add(ms);
        let mut t = self.tasks[prev_idx];
        t.state = TaskState::Sleeping(wake_at);
        self.tasks.set(prev_idx, t);
        self.sleep_poll(prev_idx, now)
    }

    /// One round of waiting for the blocked task `me` to become ready:
    /// return when it is, else switch to another ready task or wait.
    pub fn switch_until_ready(&mut self, me: usize, now: u32) -> (r: Step)
        requires
            old(self)@.wf(),
            me < old(self)@.count(),
        ensures
            final(self)@.wf(),
            old(self)@.tasks[me as int].state == TaskState::Ready ==> r == Step::Done && final(self)@ == old(self)@,
            old(self)@.tasks[me as int].state != TaskState::Ready ==> r != Step::Done && old(self)@.switches_to(
                final(self)@,
                me as int,
                now,
                match r {
                    Step::Switch(i) => Some(i),
                    _ => None,
                },
            ),
            r matches Step::Switch(i) ==> i < final(self)@.count(),
    {
        if self.tasks[me].state == TaskState::Ready {
            return Step::Done;
        }
        let next = self.pick_next(me, now);
        if next != me {
            self.current = next;
            self.slice_ticks = 0;
            Step::Switch(next)
        } else {
            Step::Wait
        }
    }
}

/// `w` is the waiter of `mask` with the most urgent effective priority,
/// the lowest index breaking ties.
pub open spec fn best_waiter(ts: Seq<TaskSlot>, mask: u8, w: int) -> bool {
    &&& 0 <= w < ts.len()
    &&& in_mask(mask, w)
    &&& forall|j: int| 0 <= j < ts.len() && #[trigger] in_mask(mask, j) ==> rank(ts[w].priority) < rank(ts[j].priority)
        || (rank(ts[w].priority) == rank(ts[j].priority) && w <= j)
}

/// No task of `ts` is in `mask`.
pub open spec fn no_waiter(ts: Seq<TaskSlot>, mask: u8) -> bool {
    forall|j: int| 0 <= j < ts.len() ==> !#[trigger] in_mask(mask, j)
}

/// `new` is `old` with bit `w` cleared.
pub open spec fn mask_removed(new: u8, old: u8, w: int) -> bool {
    forall|i: u8| i < 8 ==> #[trigger] bit(new, i) == (bit(old, i) && i as int != w)
}

/// `new` is `old` with bit `w` set.
pub open spec fn mask_added(new: u8, old: u8, w: int) -> bool {
    forall|i: u8| i < 8 ==> #[trigger] bit(new, i) == (bit(old, i) || i as int == w)
}

/// `r` is the effective rank of task `t`: its base rank raised to the most
/// urgent effective rank among the waiters of every mutex it owns.
pub open spec fn inherits(ts: Seq<TaskSlot>, ms: Seq<MutexCb>, t: int, r: u8) -> bool {
    &&& r <= rank(ts[t].base_priority)
    &&& forall|m: int, j: int| 0 <= m < ms.len() && 0 <= j < ts.len() && ms[m].owner == Some(t as u8)
        && #[trigger] in_mask(#[trigger] ms[m].waiters, j) ==> r <= rank(ts[j].priority)
    &&& (r == rank(ts[t].base_priority) || exists|m: int, j: int| 0 <= m < ms.len() && 0 <= j < ts.len()
        && ms[m].owner == Some(t as u8) && #[trigger] in_mask(#[trigger] ms[m].waiters, j) && r == rank(ts[j].priority))
}

/// What a blocking kernel call asks the caller to do.
#[derive(Clone, Copy, Debug, PartialEq, Eq, Structural)]
pub enum Blocking {
    /// Return this code to the task.
    Done(i32),
    /// The task is blocked: run [`Scheduler::switch_until_ready`] until it
    /// is ready again, then return 0.
    Block,
}

/// Outcome of one attempt of a blocking IPC operation.
#[derive(Clone, Copy, Debug, PartialEq, Eq, Structural)]
pub enum Ipc {
    /// Return this code to the task.
    Ret(i32),
    /// Yield the CPU (a waiter was woken), then return this code.
    RetAfterYield(i32),
    /// The task is blocked: run [`Scheduler::switch_until_ready`] until it
    /// is ready again, then attempt again with the same deadline.
    Block,
}

/// Absolute deadline of a bounded block of `timeout_ms` starting at `now`;
/// `None` for a non-blocking (0) or unbounded ([`TIMEOUT_FOREVER`]) wait.
pub open spec fn deadline_for(timeout_ms: u32, now: u32) -> Option<u32> {
    if timeout_ms == 0 || timeout_ms == TIMEOUT_FOREVER {
        None
    } else {
        Some(now.wrapping_add(timeout_ms))
    }
}

impl SchedView {
    /// `new` is `self` with only task `t` changed, to `slot`.
    pub open spec fn with_task(self, t: int, slot: TaskSlot) -> SchedView {
        SchedView { tasks: self.tasks.update(t, slot), ..self }
    }

    /// `new` is `self` after waking the best waiter `w` of the receive list
    /// of channel `c`.
    pub open spec fn wakes_waiter(self, new: SchedView, c: int, w: int, recv: bool) -> bool {
        &&& new.tasks == self.tasks.update(w, TaskSlot { state: TaskState::Ready, block_deadline: None, ..self.tasks[w] })
        &&& new.chans.len() == self.chans.len()
        &&& forall|k: int| 0 <= k < self.chans.len() && k != c ==> #[trigger] new.chans[k] == self.chans[k]
        &&& new.chans[c].buf == self.chans[c].buf
        &&& new.chans[c].head == self.chans[c].head
        &&& new.chans[c].len == self.chans[c].len
        &&& (recv ==> mask_removed(new.chans[c].recv_waiters, self.chans[c].recv_waiters, w)
            && new.chans[c].send_waiters == self.chans[c].send_waiters)
        &&& (!recv ==> mask_removed(new.chans[c].send_waiters, self.chans[c].send_waiters, w)
            && new.chans[c].recv_waiters == self.chans[c].recv_waiters)
        &&& new.current == self.current
        &&& new.started == self.started
        &&& new.last_served == self.last_served
        &&& new.slice_ticks == self.slice_ticks
        &&& new.mutexes == self.mutexes
        &&& new.sems == self.sems
    }
}

/// `true` when bit `i` of `m` is set.
fn bit_set(m: u8, i: usize) -> (r: bool)
    requires
        i < 8,
    ensures
        r == bit(m, i as u8),
{
    (m >> (i as u8)) & 1u8 == 1u8
}

impl Scheduler {
    /// The waiter of `mask` with the most urgent effective priority (lowest
    /// index on ties), or `None` when no task is in `mask`.
    fn highest_priority_waiter(&self, mask: u8) -> (r: Option<usize>)
        requires
            self@.wf(),
        ensures
            r matches Some(w) ==> best_waiter(self@.tasks, mask, w as int),
            r is None ==> no_waiter(self@.tasks, mask),
    {
        let n = self.tasks.len();
        let mut best: Option<usize> = None;
        let mut i: usize = 0;
        while i < n
            invariant
                i <= n,
                n == self@.tasks.len(),
                n <= MAX_TASKS,
                best matches Some(w) ==> (w < i && in_mask(mask, w as int)
                    && forall|j: int| 0 <= j < i && #[trigger] in_mask(mask, j) ==> rank(self@.tasks[w as int].priority) < rank(self@.tasks[j].priority)
                        || (rank(self@.tasks[w as int].priority) == rank(self@.tasks[j].priority) && w <= j)),
                best is None ==> forall|j: int| 0 <= j < i ==> !#[trigger] in_mask(mask, j),
            decreases n - i,
        {
            if bit_set(mask, i) {
                match best {
                    None => {
                        best = Some(i);
                    },
                    Some(b) => {
                        if self.tasks[i].priority.rank() < self.tasks[b].priority.rank() {
                            best = Some(i);
                        }
                    },
                }
            }
            i = i + 1;
        }
        best
    }

    /// Recomputes the effective priority of task `t` (priority inheritance).
    fn recompute_priority(&mut self, t: usize)
        requires
            old(self)@.wf(),
            t < old(self)@.count(),
        ensures
            final(self)@.wf(),
            final(self)@ == old(self)@.with_task(t as int, TaskSlot { priority: final(self)@.tasks[t as int].priority, ..old(self)@.tasks[t as int] }),
            inherits(old(self)@.tasks, old(self)@.mutexes, t as int, rank(final(self)@.tasks[t as int].priority)),
    {
        let ghost ts = self@.tasks;
        let ghost ms = self@.mutexes;
        let n = self.tasks.len();
        let base = self.tasks[t].base_priority.rank();
        let mut eff = base;
        let mut id: usize = 0;
        while id < MAX_MUTEXES
            invariant
                id <= MAX_MUTEXES,
                ts == self@.tasks,
                ms == self@.mutexes,
                self@.wf(),
                n == ts.len(),
                t < n,
                base == rank(ts[t as int].base_priority),
                eff <= base,
                forall|m: int, j: int| 0 <= m < id && 0 <= j < n && ms[m].owner == Some(t as u8)
                    && #[trigger] in_mask(#[trigger] ms[m].waiters, j) ==> eff <= rank(ts[j].priority),
                eff == base || exists|m: int, j: int| 0 <= m < id && 0 <= j < n
                    && ms[m].owner == Some(t as u8) && #[trigger] in_mask(#[trigger] ms[m].waiters, j) && eff == rank(ts[j].priority),
            decreases MAX_MUTEXES - id,
        {
            if self.mutexes[id].owner == Some(t as u8) {
                let w = self.mutexes[id].waiters;
                let mut i: usize = 0;
                while i < n
                    invariant
                        i <= n,
                        id < MAX_MUTEXES,
                        ts == self@.tasks,
                        ms == self@.mutexes,
                        self@.wf(),
                        n == ts.len(),
                        t < n,
                        w == ms[id as int].waiters,
                        ms[id as int].owner == Some(t as u8),
                        base == rank(ts[t as int].base_priority),
                        eff <= base,
                        forall|m: int, j: int| (0 <= m < id && 0 <= j < n || m == id && 0 <= j < i) && ms[m].owner == Some(t as u8)
                            && #[trigger] in_mask(#[trigger] ms[m].waiters, j) ==> eff <= rank(ts[j].priority),
                        eff == base || exists|m: int, j: int| (0 <= m < id && 0 <= j < n || m == id && 0 <= j < i)
                            && ms[m].owner == Some(t as u8) && #[trigger] in_mask(#[trigger] ms[m].waiters, j) && eff == rank(ts[j].priority),
                    decreases n - i,
                {
                    if bit_set(w, i) {
                        assert(in_mask(ms[id as int].waiters, i as int));
                        let wp = self.tasks[i].priority.rank();
                        if wp < eff {
                            eff = wp;
                        }
                    }
                    i = i + 1;
                }
            }
            id = id + 1;
        }
        let p = Priority::from_rank(eff);
        let mut slot = self.tasks[t];
        slot.priority = p;
        self.tasks.set(t, slot);
        proof {
            assert(rank(p) == eff);
            assert(self@.tasks =~= old(self)@.tasks.update(t as int, TaskSlot { priority: p, ..old(self)@.tasks[t as int] }));
            let v = self@;
            assert forall|k: int| 0 <= k < v.tasks.len() implies state_wf(#[trigger] v.tasks[k].state) by {
                assert(state_wf(old(self)@.tasks[k].state));
            }
        }
    }

    /// Mutex bookkeeping for task `me` taking mutex `id`: `true` when it got
    /// it; `false` when `me` is now blocked and lent its priority to the owner.
    fn mutex_acquire(&mut self, id: usize, me: usize) -> (r: bool)
        requires
            old(self)@.wf(),
            id < MAX_MUTEXES,
            me < old(self)@.count(),
        ensures
            final(self)@.wf(),
            acquires(old(self)@, final(self)@, id as int, me as int, r),
    {
        match self.mutexes[id].owner {
            None => {
                let mut m = self.mutexes[id];
                m.owner = Some(me as u8);
                self.mutexes.set(id, m);
                true
            },
            Some(o) => {
                if o as usize == me {
                    return true;
                }
                let mut m = self.mutexes[id];
                proof {
                    lemma_mask_set(m.waiters, me as u8);
                }
                m.waiters = m.waiters | (1u8 << (me as u8));
                self.mutexes.set(id, m);
                let mut slot = self.tasks[me];
                slot.state = TaskState::BlockedMutex(id as u8);
                self.tasks.set(me, slot);
                let ghost mid = self@;
                proof {
                    assert forall|k: int| 0 <= k < mid.tasks.len() implies state_wf(#[trigger] mid.tasks[k].state) by {
                        assert(state_wf(old(self)@.tasks[k].state));
                    }
                    assert forall|mm: int| 0 <= mm < MAX_MUTEXES implies mutex_wf(#[trigger] mid.mutexes[mm], mid.tasks.len()) by {
                        assert(mutex_wf(old(self)@.mutexes[mm], old(self)@.tasks.len()));
                        if mm == id as int {
                            assert(mask_added(mid.mutexes[mm].waiters, old(self)@.mutexes[mm].waiters, me as int));
                            lemma_within_added(mid.mutexes[mm].waiters, old(self)@.mutexes[mm].waiters, mid.tasks.len(), me as int);
                        }
                    }
                    assert(mid.wf());
                }
                self.recompute_priority(o as usize);
                false
            },
        }
    }

}

/// Effect of [`Self::mutex_acquire`] for task `me` on mutex `id`.
pub open spec fn acquires(old: SchedView, new: SchedView, id: int, me: int, r: bool) -> bool {
    match old.mutexes[id].owner {
        None => r && new == SchedView { mutexes: old.mutexes.update(id, MutexCb { owner: Some(me as u8), ..old.mutexes[id] }), ..old },
        Some(o) => if o as int == me {
            r && new == old
        } else {
            let mid_tasks = old.tasks.update(me, TaskSlot { state: TaskState::BlockedMutex(id as u8), ..old.tasks[me] });
            &&& !r
            &&& new.mutexes.len() == old.mutexes.len()
            &&& new.mutexes[id].owner == old.mutexes[id].owner
            &&& mask_added(new.mutexes[id].waiters, old.mutexes[id].waiters, me)
            &&& forall|k: int| 0 <= k < old.mutexes.len() && k != id ==> #[trigger] new.mutexes[k] == old.mutexes[k]
            &&& new.tasks == mid_tasks.update(o as int, TaskSlot { priority: new.tasks[o as int].priority, ..mid_tasks[o as int] })
            &&& inherits(mid_tasks, new.mutexes, o as int, rank(new.tasks[o as int].priority))
            &&& new.current == old.current
            &&& new.started == old.started
            &&& new.last_served == old.last_served
            &&& new.slice_ticks == old.slice_ticks
            &&& new.sems == old.sems
            &&& new.chans == old.chans
        },
    }
}

/// Law (priority inheritance): when task `me` blocks on mutex `id` held by
/// another task, the owner keeps it, `me` is among its waiters and blocked on
/// it, and the owner now runs at least as urgently as `me`.
pub proof fn lemma_owner_inherits(old: SchedView, new: SchedView, id: int, me: int)
    requires
        0 <= id < old.mutexes.len(),
        0 <= me < old.tasks.len(),
        me < 8,
        old.mutexes[id].owner matches Some(o) && o as int != me && (o as int) < old.tasks.len(),
        acquires(old, new, id, me, false),
    ensures
        old.mutexes[id].owner matches Some(o) && {
            &&& new.mutexes[id].owner == Some(o)
            &&& in_mask(new.mutexes[id].waiters, me)
            &&& new.tasks[me].state == TaskState::BlockedMutex(id as u8)
            &&& rank(new.tasks[o as int].priority) <= rank(old.tasks[me].priority)
        },
{
    let o = old.mutexes[id].owner->0;
    let mid_tasks = old.tasks.update(me, TaskSlot { state: TaskState::BlockedMutex(id as u8), ..old.tasks[me] });
    assert(bit(new.mutexes[id].waiters, me as u8) == (bit(old.mutexes[id].waiters, me as u8) || me as u8 as int == me));
    assert(in_mask(new.mutexes[id].waiters, me));
    assert(inherits(mid_tasks, new.mutexes, o as int, rank(new.tasks[o as int].priority)));
    assert(mid_tasks[me].priority == old.tasks[me].priority);
}

/// The running task taking mutex `id` without blocking: whether it holds it
/// afterwards, and the new state.
pub open spec fn try_lock_effect(v: SchedView, id: int) -> (bool, SchedView) {
    match v.mutexes[id].owner {
        None => (true, SchedView {
            mutexes: v.mutexes.update(id, MutexCb { owner: Some(v.current as u8), ..v.mutexes[id] }),
            ..v
        }),
        Some(o) => (o == v.current as u8, v),
    }
}

/// `new` is `v` with the effective priority of task `t` recomputed (no
/// change when `t` does not exist).
pub open spec fn reprioritized(v: SchedView, new: SchedView, t: int) -> bool {
    if 0 <= t < v.tasks.len() {
        &&& new == v.with_task(t, TaskSlot { priority: new.tasks[t].priority, ..v.tasks[t] })
        &&& inherits(v.tasks, v.mutexes, t, rank(new.tasks[t].priority))
    } else {
        new == v
    }
}

/// Mutex `id` after its owner let go of it: handed to its most urgent waiter
/// (made ready), or freed when nobody waits.
pub open spec fn handed_over(old: SchedView, mid: SchedView, id: int) -> bool {
    let ws = old.mutexes[id].waiters;
    ||| no_waiter(old.tasks, ws) && mid == SchedView {
        mutexes: old.mutexes.update(id, MutexCb { owner: None, ..old.mutexes[id] }),
        ..old
    }
    ||| exists|w: int| #[trigger] best_waiter(old.tasks, ws, w) && mid == SchedView {
        tasks: old.tasks.update(w, TaskSlot { state: TaskState::Ready, ..old.tasks[w] }),
        mutexes: old.mutexes.update(id, MutexCb { owner: Some(w as u8), waiters: ws & !(1u8 << (w as u8)) }),
        ..old
    }
}

/// Effect of [`Scheduler::mutex_unlock`] on mutex `id`, answered `r`.
pub open spec fn unlocks(old: SchedView, new: SchedView, id: int, r: Ipc) -> bool {
    if id >= MAX_MUTEXES {
        r == Ipc::Ret(EINVAL) && new == old
    } else if old.mutexes[id].owner != Some(old.current as u8) {
        r == Ipc::Ret(EDENIED) && new == old
    } else {
        &&& r == (if old.started { Ipc::RetAfterYield(0) } else { Ipc::Ret(0) })
        &&& exists|mid: SchedView| #[trigger] handed_over(old, mid, id) && reprioritized(mid, new, old.current as int)
    }
}

/// The running task taking a permit of semaphore `id` without blocking.
pub open spec fn try_wait_effect(v: SchedView, id: int) -> (bool, SchedView) {
    if id >= MAX_SEMAPHORES || v.sems[id].count == 0 {
        (false, v)
    } else {
        (true, SchedView { sems: v.sems.update(id, SemCb { count: (v.sems[id].count - 1) as u32, ..v.sems[id] }), ..v })
    }
}

/// The results of `k` try-waits in a row on semaphore `id` from `v` (each as
/// [`Scheduler::sem_try_wait`] states it), and the state then.
pub open spec fn try_waits(v: SchedView, id: int, k: nat) -> (Seq<bool>, SchedView)
    decreases k,
{
    if k == 0 {
        (Seq::empty(), v)
    } else {
        let prev = try_waits(v, id, (k - 1) as nat);
        let step = try_wait_effect(prev.1, id);
        (prev.0.push(step.0), step.1)
    }
}

/// `v` after [`Scheduler::sem_init`] gives semaphore `id` `count` permits.
pub open spec fn sem_inited(v: SchedView, id: int, count: u32) -> SchedView {
    SchedView { sems: v.sems.update(id, SemCb { count, ..v.sems[id] }), ..v }
}

proof fn lemma_try_waits_take(v: SchedView, id: int, k: nat)
    requires
        0 <= id < v.sems.len(),
        id < MAX_SEMAPHORES,
        k <= v.sems[id].count,
    ensures
        try_waits(v, id, k).0 == Seq::new(k, |i: int| true),
        try_waits(v, id, k).1.sems.len() == v.sems.len(),
        try_waits(v, id, k).1.sems[id].count == v.sems[id].count - k,
    decreases k,
{
    if k > 0 {
        lemma_try_waits_take(v, id, (k - 1) as nat);
        assert(Seq::new((k - 1) as nat, |i: int| true).push(true) =~= Seq::new(k, |i: int| true));
    }
}

/// Law: after giving semaphore `id` `count` permits, `count` try-waits in a
/// row succeed and the next one fails.
pub proof fn lemma_sem_init_permits(v: SchedView, id: int, count: u32)
    requires
        0 <= id < MAX_SEMAPHORES,
        v.sems.len() == MAX_SEMAPHORES,
    ensures
        try_waits(sem_inited(v, id, count), id, count as nat + 1).0 == Seq::new(count as nat, |i: int| true).push(false),
{
    let v1 = sem_inited(v, id, count);
    lemma_try_waits_take(v1, id, count as nat);
}

/// Effect of returning a permit to semaphore `id`: the most urgent waiter is
/// made ready and leaves the list, or the count grows (saturating).
pub open spec fn posts(old: SchedView, new: SchedView, id: int) -> bool {
    let ws = old.sems[id].waiters;
    ||| no_waiter(old.tasks, ws) && new == SchedView {
        sems: old.sems.update(id, SemCb { count: old.sems[id].count.saturating_add(1), ..old.sems[id] }),
        ..old
    }
    ||| exists|w: int| #[trigger] best_waiter(old.tasks, ws, w) && new == SchedView {
        tasks: old.tasks.update(w, TaskSlot { state: TaskState::Ready, ..old.tasks[w] }),
        sems: old.sems.update(id, SemCb { waiters: ws & !(1u8 << (w as u8)), ..old.sems[id] }),
        ..old
    }
}

/// At most one task is the most urgent waiter of a mask.
pub proof fn lemma_best_waiter_unique(ts: Seq<TaskSlot>, mask: u8, w1: int, w2: int)
    requires
        best_waiter(ts, mask, w1),
        best_waiter(ts, mask, w2),
    ensures
        w1 == w2,
{
}

/// The effective rank a task inherits is unique: the most urgent of its base
/// rank and the ranks of the waiters of the mutexes it owns.
pub proof fn lemma_inherits_unique(ts: Seq<TaskSlot>, ms: Seq<MutexCb>, t: int, r1: u8, r2: u8)
    requires
        inherits(ts, ms, t, r1),
        inherits(ts, ms, t, r2),
    ensures
        r1 == r2,
{
}

impl Scheduler {
    /// Takes mutex `id` without blocking: `true` when the running task got
    /// it (or already held it), `false` when another task holds it or `id`
    /// does not exist. Never sleeps nor switches.
    pub fn mutex_try_lock(&mut self, id: usize) -> (r: bool)
        requires
            old(self)@.wf(),
        ensures
            final(self)@.wf(),
            id >= MAX_MUTEXES ==> !r && final(self)@ == old(self)@,
            id < MAX_MUTEXES ==> (r, final(self)@) == try_lock_effect(old(self)@, id as int),
    {
        if id >= MAX_MUTEXES {
            return false;
        }
        let cur = self.current as u8;
        match self.mutexes[id].owner {
            None => {
                let mut m = self.mutexes[id];
                m.owner = Some(cur);
                self.mutexes.set(id, m);
                proof {
                    let v = self@;
                    assert forall|mm: int| 0 <= mm < MAX_MUTEXES implies mutex_wf(#[trigger] v.mutexes[mm], v.tasks.len()) by {
                        assert(mutex_wf(old(self)@.mutexes[mm], old(self)@.tasks.len()));
                    }
                }
                true
            },
            Some(o) => o == cur,
        }
    }

    /// Takes mutex `id`. When another task holds it, the running task is
    /// blocked and lends its priority to the owner ([`Blocking::Block`]).
    /// Before the scheduler starts this degrades to a try-lock.
    pub fn mutex_lock(&mut self, id: usize) -> (r: Blocking)
        requires
            old(self)@.wf(),
        ensures
            final(self)@.wf(),
            id >= MAX_MUTEXES ==> r == Blocking::Done(EINVAL) && final(self)@ == old(self)@,
            id < MAX_MUTEXES && !old(self)@.started ==> r == Blocking::Done(0) && final(self)@ == try_lock_effect(old(self)@, id as int).1,
            id < MAX_MUTEXES && old(self)@.started ==> (r == Blocking::Done(0) || r == Blocking::Block) && acquires(
                old(self)@,
                final(self)@,
                id as int,
                old(self)@.current as int,
                r == Blocking::Done(0),
            ),
    {
        if id >= MAX_MUTEXES {
            return Blocking::Done(EINVAL);
        }
        if !self.started {
            self.mutex_try_lock(id);
            return Blocking::Done(0);
        }
        let me = self.current;
        if self.mutex_acquire(id, me) {
            Blocking::Done(0)
        } else {
            Blocking::Block
        }
    }

    /// Hands mutex `id` to its most urgent waiter, or frees it.
    fn hand_over_mutex(&mut self, id: usize)
        requires
            old(self)@.wf(),
            id < MAX_MUTEXES,
        ensures
            final(self)@.wf(),
            handed_over(old(self)@, final(self)@, id as int),
            final(self)@.mutexes[id as int].owner matches Some(w) ==> (w as int) < final(self)@.count(),
    {
        let ws = self.mutexes[id].waiters;
        match self.highest_priority_waiter(ws) {
            Some(w) => {
                let mut m = self.mutexes[id];
                proof {
                    lemma_mask_clear(ws, w as u8);
                }
                m.waiters = ws & !(1u8 << (w as u8));
                m.owner = Some(w as u8);
                self.mutexes.set(id, m);
                let mut t = self.tasks[w];
                t.state = TaskState::Ready;
                self.tasks.set(w, t);
                proof {
                    let o = old(self)@;
                    let v = self@;
                    assert(best_waiter(o.tasks, ws, w as int));
                    assert(v =~= SchedView {
                        tasks: o.tasks.update(w as int, TaskSlot { state: TaskState::Ready, ..o.tasks[w as int] }),
                        mutexes: o.mutexes.update(id as int, MutexCb { owner: Some(w as u8), waiters: ws & !(1u8 << (w as u8)) }),
                        ..o
                    });
                    assert forall|k: int| 0 <= k < v.tasks.len() implies state_wf(#[trigger] v.tasks[k].state) by {
                        assert(state_wf(o.tasks[k].state));
                    }
                    assert forall|mm: int| 0 <= mm < MAX_MUTEXES implies mutex_wf(#[trigger] v.mutexes[mm], v.tasks.len()) by {
                        assert(mutex_wf(o.mutexes[mm], o.tasks.len()));
                        if mm == id as int {
                            lemma_within_sub(v.mutexes[mm].waiters, ws, v.tasks.len());
                        }
                    }
                }
            },
            None => {
                let mut m = self.mutexes[id];
                m.owner = None;
                self.mutexes.set(id, m);
                proof {
                    let o = old(self)@;
                    let v = self@;
                    assert(v =~= SchedView {
                        mutexes: o.mutexes.update(id as int, MutexCb { owner: None, ..o.mutexes[id as int] }),
                        ..o
                    });
                    assert forall|mm: int| 0 <= mm < MAX_MUTEXES implies mutex_wf(#[trigger] v.mutexes[mm], v.tasks.len()) by {
                        assert(mutex_wf(o.mutexes[mm], o.tasks.len()));
                    }
                }
            },
        }
    }

    /// Releases mutex `id` (the running task must own it): ownership passes
    /// to the most urgent waiter, if any, and the borrowed priority is given
    /// back. After a started release the caller yields
    /// ([`Ipc::RetAfterYield`]).
    pub fn mutex_unlock(&mut self, id: usize) -> (r: Ipc)
        requires
            old(self)@.wf(),
        ensures
            final(self)@.wf(),
            unlocks(old(self)@, final(self)@, id as int, r),
    {
        if id >= MAX_MUTEXES {
            return Ipc::Ret(EINVAL);
        }
        let me = self.current;
        if self.mutexes[id].owner != Some(me as u8) {
            return Ipc::Ret(EDENIED);
        }
        self.hand_over_mutex(id);
        let ghost mid = self@;
        if me < self.tasks.len() {
            self.recompute_priority(me);
        }
        proof {
            assert(handed_over(old(self)@, mid, id as int) && reprioritized(mid, self@, me as int));
        }
        if self.started {
            Ipc::RetAfterYield(0)
        } else {
            Ipc::Ret(0)
        }
    }

    /// Sets the permits of semaphore `id` (no-op when it does not exist).
    pub fn sem_init(&mut self, id: usize, count: u32)
        requires
            old(self)@.wf(),
        ensures
            final(self)@.wf(),
            id >= MAX_SEMAPHORES ==> final(self)@ == old(self)@,
            id < MAX_SEMAPHORES ==> final(self)@ == sem_inited(old(self)@, id as int, count),
    {
        if id < MAX_SEMAPHORES {
            let mut s = self.semaphores[id];
            s.count = count;
            self.semaphores.set(id, s);
            proof {
                let v = self@;
                assert forall|m: int| 0 <= m < MAX_SEMAPHORES implies mask_within(#[trigger] v.sems[m].waiters, v.tasks.len()) by {
                    assert(mask_within(old(self)@.sems[m].waiters, old(self)@.tasks.len()));
                }
            }
        }
    }

    /// Takes a permit of semaphore `id` without blocking: `true` when it did.
    pub fn sem_try_wait(&mut self, id: usize) -> (r: bool)
        requires
            old(self)@.wf(),
        ensures
            final(self)@.wf(),
            (r, final(self)@) == try_wait_effect(old(self)@, id as int),
    {
        if id >= MAX_SEMAPHORES {
            return false;
        }
        if self.semaphores[id].count > 0 {
            let mut s = self.semaphores[id];
            s.count = s.count - 1;
            self.semaphores.set(id, s);
            proof {
                let v = self@;
                assert forall|m: int| 0 <= m < MAX_SEMAPHORES implies mask_within(#[trigger] v.sems[m].waiters, v.tasks.len()) by {
                    assert(mask_within(old(self)@.sems[m].waiters, old(self)@.tasks.len()));
                }
            }
            true
        } else {
            false
        }
    }

    /// Takes a permit of semaphore `id`; when there is none the running task
    /// is blocked until a [`Self::sem_post`] wakes it ([`Blocking::Block`]).
    /// Before the scheduler starts this degrades to a try-wait.
    pub fn sem_wait(&mut self, id: usize) -> (r: Blocking)
        requires
            old(self)@.wf(),
        ensures
            final(self)@.wf(),
            id >= MAX_SEMAPHORES ==> r == Blocking::Done(EINVAL) && final(self)@ == old(self)@,
            id < MAX_SEMAPHORES && (!old(self)@.started || old(self)@.sems[id as int].count > 0) ==> r == Blocking::Done(0)
                && final(self)@ == try_wait_effect(old(self)@, id as int).1,
            id < MAX_SEMAPHORES && old(self)@.started && old(self)@.sems[id as int].count == 0 ==> r == Blocking::Block && ({
                let o = old(self)@;
                let me = o.current as int;
                final(self)@ == SchedView {
                    tasks: o.tasks.update(me, TaskSlot { state: TaskState::BlockedSem(id as u8), ..o.tasks[me] }),
                    sems: o.sems.update(id as int, SemCb { waiters: o.sems[id as int].waiters | (1u8 << (me as u8)), ..o.sems[id as int] }),
                    ..o
                }
            }),
    {
        if id >= MAX_SEMAPHORES {
            return Blocking::Done(EINVAL);
        }
        if !self.started || self.semaphores[id].count > 0 {
            self.sem_try_wait(id);
            return Blocking::Done(0);
        }
        let me = self.current;
        let mut s = self.semaphores[id];
        proof {
            lemma_mask_set(s.waiters, me as u8);
        }
        s.waiters = s.waiters | (1u8 << (me as u8));
        self.semaphores.set(id, s);
        let mut t = self.tasks[me];
        t.state = TaskState::BlockedSem(id as u8);
        self.tasks.set(me, t);
        proof {
            let o = old(self)@;
            let v = self@;
            assert forall|k: int| 0 <= k < v.tasks.len() implies state_wf(#[trigger] v.tasks[k].state) by {
                assert(state_wf(o.tasks[k].state));
            }
            assert forall|m: int| 0 <= m < MAX_SEMAPHORES implies mask_within(#[trigger] v.sems[m].waiters, v.tasks.len()) by {
                assert(mask_within(o.sems[m].waiters, o.tasks.len()));
                if m == id as int {
                    assert(mask_added(v.sems[m].waiters, o.sems[m].waiters, me as int));
                    lemma_within_added(v.sems[m].waiters, o.sems[m].waiters, v.tasks.len(), me as int);
                }
            }
        }
        Blocking::Block
    }

    /// Returns a permit to semaphore `id`: wakes its most urgent waiter, or
    /// increments the count. After a started post the caller yields.
    pub fn sem_post(&mut self, id: usize) -> (r: Ipc)
        requires
            old(self)@.wf(),
        ensures
            final(self)@.wf(),
            id >= MAX_SEMAPHORES ==> r == Ipc::Ret(EINVAL) && final(self)@ == old(self)@,
            id < MAX_SEMAPHORES ==> r == (if old(self)@.started { Ipc::RetAfterYield(0) } else { Ipc::Ret(0) })
                && posts(old(self)@, final(self)@, id as int),
    {
        if id >= MAX_SEMAPHORES {
            return Ipc::Ret(EINVAL);
        }
        let ws = self.semaphores[id].waiters;
        match self.highest_priority_waiter(ws) {
            Some(w) => {
                let mut s = self.semaphores[id];
                proof {
                    lemma_mask_clear(ws, w as u8);
                }
                s.waiters = ws & !(1u8 << (w as u8));
                self.semaphores.set(id, s);
                let mut t = self.tasks[w];
                t.state = TaskState::Ready;
                self.tasks.set(w, t);
                proof {
                    let o = old(self)@;
                    let v = self@;
                    assert(best_waiter(o.tasks, ws, w as int));
                    assert(v =~= SchedView {
                        tasks: o.tasks.update(w as int, TaskSlot { state: TaskState::Ready, ..o.tasks[w as int] }),
                        sems: o.sems.update(id as int, SemCb { waiters: ws & !(1u8 << (w as u8)), ..o.sems[id as int] }),
                        ..o
                    });
                    assert forall|k: int| 0 <= k < v.tasks.len() implies state_wf(#[trigger] v.tasks[k].state) by {
                        assert(state_wf(o.tasks[k].state));
                    }
                    assert forall|m: int| 0 <= m < MAX_SEMAPHORES implies mask_within(#[trigger] v.sems[m].waiters, v.tasks.len()) by {
                        assert(mask_within(o.sems[m].waiters, o.tasks.len()));
                        if m == id as int {
                            lemma_within_sub(v.sems[m].waiters, ws, v.tasks.len());
                        }
                    }
                }
            },
            None => {
                let mut s = self.semaphores[id];
                s.count = s.count.saturating_add(1);
                self.semaphores.set(id, s);
                proof {
                    let v = self@;
                    assert forall|m: int| 0 <= m < MAX_SEMAPHORES implies mask_within(#[trigger] v.sems[m].waiters, v.tasks.len()) by {
                        assert(mask_within(old(self)@.sems[m].waiters, old(self)@.tasks.len()));
                    }
                }
            },
        }
        if self.started {
            Ipc::RetAfterYield(0)
        } else {
            Ipc::Ret(0)
        }
    }
}

/// `mid` is `old` with `msg` queued at the tail of channel `c`.
pub open spec fn chan_pushed(old: SchedView, mid: SchedView, c: int, msg: u32) -> bool {
    &&& mid == SchedView { chans: old.chans.update(c, mid.chans[c]), ..old }
    &&& chan_msgs(mid.chans[c]) == chan_msgs(old.chans[c]).push(msg)
    &&& mid.chans[c].head < CHAN_CAPACITY
    &&& mid.chans[c].len <= CHAN_CAPACITY
    &&& mid.chans[c].recv_waiters == old.chans[c].recv_waiters
    &&& mid.chans[c].send_waiters == old.chans[c].send_waiters
}

/// `mid` is `old` with the oldest message of channel `c` taken out.
pub open spec fn chan_popped(old: SchedView, mid: SchedView, c: int) -> bool {
    &&& mid == SchedView { chans: old.chans.update(c, mid.chans[c]), ..old }
    &&& chan_msgs(mid.chans[c]) == chan_msgs(old.chans[c]).drop_first()
    &&& mid.chans[c].head < CHAN_CAPACITY
    &&& mid.chans[c].len <= CHAN_CAPACITY
    &&& mid.chans[c].recv_waiters == old.chans[c].recv_waiters
    &&& mid.chans[c].send_waiters == old.chans[c].send_waiters
}

/// Waking one waiter of channel `c` (its receivers when `recv`, else its
/// senders): `woke` tells whether there was one; the most urgent is woken.
pub open spec fn wakes_one(old: SchedView, new: SchedView, c: int, recv: bool, woke: bool) -> bool {
    if woke {
        exists|w: int| #[trigger] best_waiter(old.tasks, chan_waiters(old.chans[c], recv), w) && old.wakes_waiter(new, c, w, recv)
    } else {
        no_waiter(old.tasks, chan_waiters(old.chans[c], recv)) && new == old
    }
}

/// The receive (`recv`) or send wait list of a channel.
pub open spec fn chan_waiters(ch: ChanCb, recv: bool) -> u8 {
    if recv { ch.recv_waiters } else { ch.send_waiters }
}

/// The running task blocked on channel `c` (sending when `send`), with the
/// given deadline.
pub open spec fn blocks_on_chan(old: SchedView, new: SchedView, c: int, send: bool, deadline: Option<u32>) -> bool {
    let me = old.current as int;
    let ch = old.chans[c];
    let bit = 1u8 << (me as u8);
    &&& new == SchedView {
        tasks: old.tasks.update(me, TaskSlot {
            state: if send { TaskState::BlockedSend(c as u8) } else { TaskState::BlockedRecv(c as u8) },
            block_deadline: deadline,
            ..old.tasks[me]
        }),
        chans: old.chans.update(c, if send {
            ChanCb { send_waiters: ch.send_waiters | bit, ..ch }
        } else {
            ChanCb { recv_waiters: ch.recv_waiters | bit, ..ch }
        }),
        ..old
    }
}

/// One attempt of sending `msg` on channel `c` at `now`, answered `r`.
pub open spec fn send_attempt(old: SchedView, new: SchedView, c: int, msg: u32, timeout_ms: u32, deadline: Option<u32>, now: u32, r: Ipc) -> bool {
    if old.chans[c].len < CHAN_CAPACITY {
        exists|mid: SchedView| #[trigger] chan_pushed(old, mid, c, msg) && ((r == Ipc::Ret(0) && wakes_one(mid, new, c, true, false))
            || (r == Ipc::RetAfterYield(0) && wakes_one(mid, new, c, true, true)))
    } else if timeout_ms == 0 {
        r == Ipc::Ret(EBUSY) && new == old
    } else if deadline matches Some(d) && reached(now, d) {
        r == Ipc::Ret(ETIMEDOUT) && new == old
    } else {
        r == Ipc::Block && blocks_on_chan(old, new, c, true, deadline)
    }
}

/// One attempt of receiving from channel `c` at `now` into `out`, answered `r`.
pub open spec fn recv_attempt(old: SchedView, new: SchedView, c: int, timeout_ms: u32, deadline: Option<u32>, now: u32, r: Ipc, out_old: u32, out_new: u32) -> bool {
    if old.chans[c].len > 0 {
        &&& out_new == chan_msgs(old.chans[c])[0]
        &&& exists|mid: SchedView| #[trigger] chan_popped(old, mid, c) && ((r == Ipc::Ret(0) && wakes_one(mid, new, c, false, false))
            || (r == Ipc::RetAfterYield(0) && wakes_one(mid, new, c, false, true)))
    } else if timeout_ms == 0 {
        r == Ipc::Ret(EBUSY) && new == old && out_new == out_old
    } else if deadline matches Some(d) && reached(now, d) {
        r == Ipc::Ret(ETIMEDOUT) && new == old && out_new == out_old
    } else {
        r == Ipc::Block && blocks_on_chan(old, new, c, false, deadline) && out_new == out_old
    }
}

/// Absolute deadline of a bounded wait of `timeout_ms` from `now`; `None`
/// for a non-blocking (0) or unbounded ([`TIMEOUT_FOREVER`]) wait.
pub fn block_deadline(timeout_ms: u32, now: u32) -> (r: Option<u32>)
    ensures
        r == deadline_for(timeout_ms, now),
{
    if timeout_ms == 0 || timeout_ms == TIMEOUT_FOREVER {
        None
    } else {
        Some(now.wrapping_add(timeout_ms))
    }
}

impl Scheduler {
    /// Wakes the most urgent waiter of channel `chan` (receivers when
    /// `recv`, else senders): it leaves the list and becomes ready.
    fn wake_chan_waiter(&mut self, chan: usize, recv: bool) -> (woke: bool)
        requires
            old(self)@.wf(),
            chan < MAX_CHANNELS,
        ensures
            final(self)@.wf(),
            wakes_one(old(self)@, final(self)@, chan as int, recv, woke),
    {
        let ch = self.channels[chan];
        let ws = if recv { ch.recv_waiters } else { ch.send_waiters };
        match self.highest_priority_waiter(ws) {
            Some(w) => {
                let mut c2 = ch;
                proof {
                    lemma_mask_clear(ws, w as u8);
                }
                if recv {
                    c2.recv_waiters = ws & !(1u8 << (w as u8));
                } else {
                    c2.send_waiters = ws & !(1u8 << (w as u8));
                }
                self.channels.set(chan, c2);
                let mut t = self.tasks[w];
                t.state = TaskState::Ready;
                t.block_deadline = None;
                self.tasks.set(w, t);
                proof {
                    let o = old(self)@;
                    let v = self@;
                    assert(best_waiter(o.tasks, ws, w as int));
                    assert(v.tasks =~= o.tasks.update(w as int, TaskSlot { state: TaskState::Ready, block_deadline: None, ..o.tasks[w as int] }));
                    assert(o.wakes_waiter(v, chan as int, w as int, recv));
                    assert(ws == chan_waiters(o.chans[chan as int], recv));
                    assert(best_waiter(o.tasks, chan_waiters(o.chans[chan as int], recv), w as int));
                    assert forall|k: int| 0 <= k < v.tasks.len() implies state_wf(#[trigger] v.tasks[k].state) by {
                        assert(state_wf(o.tasks[k].state));
                    }
                    assert forall|c: int| 0 <= c < MAX_CHANNELS implies chan_wf(#[trigger] v.chans[c], v.tasks.len()) by {
                        assert(chan_wf(o.chans[c], o.tasks.len()));
                        if c == chan as int {
                            if recv {
                                lemma_within_sub(v.chans[c].recv_waiters, ws, v.tasks.len());
                            } else {
                                lemma_within_sub(v.chans[c].send_waiters, ws, v.tasks.len());
                            }
                        }
                    }
                }
                true
            },
            None => false,
        }
    }

    /// Wakes the most urgent task blocked receiving from channel `chan`.
    fn wake_one_recv(&mut self, chan: usize) -> (woke: bool)
        requires
            old(self)@.wf(),
            chan < MAX_CHANNELS,
        ensures
            final(self)@.wf(),
            wakes_one(old(self)@, final(self)@, chan as int, true, woke),
    {
        self.wake_chan_waiter(chan, true)
    }

    /// Wakes the most urgent task blocked sending to channel `chan`.
    fn wake_one_send(&mut self, chan: usize) -> (woke: bool)
        requires
            old(self)@.wf(),
            chan < MAX_CHANNELS,
        ensures
            final(self)@.wf(),
            wakes_one(old(self)@, final(self)@, chan as int, false, woke),
    {
        self.wake_chan_waiter(chan, false)
    }

    /// Blocks the running task on channel `chan` with `deadline`.
    fn block_on_chan(&mut self, chan: usize, send: bool, deadline: Option<u32>)
        requires
            old(self)@.wf(),
            old(self)@.count() > 0,
            chan < MAX_CHANNELS,
        ensures
            final(self)@.wf(),
            blocks_on_chan(old(self)@, final(self)@, chan as int, send, deadline),
    {
        let me = self.current;
        let mut ch = self.channels[chan];
        let bit: u8 = 1u8 << (me as u8);
        proof {
            if send {
                lemma_mask_set(ch.send_waiters, me as u8);
            } else {
                lemma_mask_set(ch.recv_waiters, me as u8);
            }
        }
        if send {
            ch.send_waiters = ch.send_waiters | bit;
        } else {
            ch.recv_waiters = ch.recv_waiters | bit;
        }
        self.channels.set(chan, ch);
        let mut t = self.tasks[me];
        t.state = if send { TaskState::BlockedSend(chan as u8) } else { TaskState::BlockedRecv(chan as u8) };
        t.block_deadline = deadline;
        self.tasks.set(me, t);
        proof {
            let o = old(self)@;
            let v = self@;
            assert forall|k: int| 0 <= k < v.tasks.len() implies state_wf(#[trigger] v.tasks[k].state) by {
                assert(state_wf(o.tasks[k].state));
            }
            assert forall|c: int| 0 <= c < MAX_CHANNELS implies chan_wf(#[trigger] v.chans[c], v.tasks.len()) by {
                assert(chan_wf(o.chans[c], o.tasks.len()));
                if c == chan as int {
                    if send {
                        assert(mask_added(v.chans[c].send_waiters, o.chans[c].send_waiters, me as int));
                        lemma_within_added(v.chans[c].send_waiters, o.chans[c].send_waiters, v.tasks.len(), me as int);
                    } else {
                        assert(mask_added(v.chans[c].recv_waiters, o.chans[c].recv_waiters, me as int));
                        lemma_within_added(v.chans[c].recv_waiters, o.chans[c].recv_waiters, v.tasks.len(), me as int);
                    }
                }
            }
        }
    }

    /// One attempt of sending `msg` on channel `chan` for the running task:
    /// queue it (waking a receiver), refuse it, time out, or block. After a
    /// [`Ipc::Block`] the caller runs [`Self::switch_until_ready`] and then
    /// attempts again with the same deadline.
    pub fn chan_send_attempt(&mut self, chan: usize, msg: u32, timeout_ms: u32, deadline: Option<u32>, now: u32) -> (r: Ipc)
        requires
            old(self)@.wf(),
            old(self)@.started,
            chan < MAX_CHANNELS,
        ensures
            final(self)@.wf(),
            send_attempt(old(self)@, final(self)@, chan as int, msg, timeout_ms, deadline, now, r),
    {
        let mut ch = self.channels[chan];
        if ch.push(msg) {
            self.channels.set(chan, ch);
            let ghost mid = self@;
            proof {
                let o = old(self)@;
                assert(mid.chans =~= o.chans.update(chan as int, mid.chans[chan as int]));
                assert(chan_pushed(o, mid, chan as int, msg));
                assert forall|c: int| 0 <= c < MAX_CHANNELS implies chan_wf(#[trigger] mid.chans[c], mid.tasks.len()) by {
                    assert(chan_wf(o.chans[c], o.tasks.len()));
                }
            }
            let woke = self.wake_one_recv(chan);
            return if woke { Ipc::RetAfterYield(0) } else { Ipc::Ret(0) };
        }
        if timeout_ms == 0 {
            return Ipc::Ret(EBUSY);
        }
        if let Some(d) = deadline {
            if deadline_reached(now, d) {
                return Ipc::Ret(ETIMEDOUT);
            }
        }
        self.block_on_chan(chan, true, deadline);
        Ipc::Block
    }

    /// Sends `msg` on channel `chan`, blocking up to `timeout_ms` ms when it
    /// is full (`0` = never block, [`TIMEOUT_FOREVER`] = no limit). Before
    /// the scheduler starts this never blocks.
    pub fn chan_send(&mut self, chan: usize, msg: u32, timeout_ms: u32, now: u32) -> (r: Ipc)
        requires
            old(self)@.wf(),
        ensures
            final(self)@.wf(),
            chan >= MAX_CHANNELS ==> r == Ipc::Ret(EINVAL) && final(self)@ == old(self)@,
            chan < MAX_CHANNELS && !old(self)@.started ==> (if old(self)@.chans[chan as int].len < CHAN_CAPACITY {
                r == Ipc::Ret(0) && chan_pushed(old(self)@, final(self)@, chan as int, msg)
            } else {
                r == Ipc::Ret(EBUSY) && final(self)@ == old(self)@
            }),
            chan < MAX_CHANNELS && old(self)@.started ==> send_attempt(
                old(self)@,
                final(self)@,
                chan as int,
                msg,
                timeout_ms,
                deadline_for(timeout_ms, now),
                now,
                r,
            ),
    {
        if chan >= MAX_CHANNELS {
            return Ipc::Ret(EINVAL);
        }
        if !self.started {
            let mut ch = self.channels[chan];
            if ch.push(msg) {
                self.channels.set(chan, ch);
                proof {
                    let o = old(self)@;
                    let v = self@;
                    assert(v.chans =~= o.chans.update(chan as int, v.chans[chan as int]));
                    assert forall|c: int| 0 <= c < MAX_CHANNELS implies chan_wf(#[trigger] v.chans[c], v.tasks.len()) by {
                        assert(chan_wf(o.chans[c], o.tasks.len()));
                    }
                }
                return Ipc::Ret(0);
            }
            return Ipc::Ret(EBUSY);
        }
        let deadline = block_deadline(timeout_ms, now);
        self.chan_send_attempt(chan, msg, timeout_ms, deadline, now)
    }

    /// One attempt of receiving from channel `chan` into `out` for the
    /// running task: take the oldest message (waking a sender), refuse,
    /// time out, or block.
    pub fn chan_recv_attempt(&mut self, chan: usize, timeout_ms: u32, deadline: Option<u32>, now: u32, out: &mut u32) -> (r: Ipc)
        requires
            old(self)@.wf(),
            old(self)@.started,
            chan < MAX_CHANNELS,
        ensures
            final(self)@.wf(),
            recv_attempt(old(self)@, final(self)@, chan as int, timeout_ms, deadline, now, r, *old(out), *final(out)),
    {
        let mut ch = self.channels[chan];
        if let Some(m) = ch.pop() {
            *out = m;
            self.channels.set(chan, ch);
            let ghost mid = self@;
            proof {
                let o = old(self)@;
                assert(mid.chans =~= o.chans.update(chan as int, mid.chans[chan as int]));
                assert(chan_popped(o, mid, chan as int));
                assert forall|c: int| 0 <= c < MAX_CHANNELS implies chan_wf(#[trigger] mid.chans[c], mid.tasks.len()) by {
                    assert(chan_wf(o.chans[c], o.tasks.len()));
                }
            }
            let woke = self.wake_one_send(chan);
            return if woke { Ipc::RetAfterYield(0) } else { Ipc::Ret(0) };
        }
        if timeout_ms == 0 {
            return Ipc::Ret(EBUSY);
        }
        if let Some(d) = deadline {
            if deadline_reached(now, d) {
                return Ipc::Ret(ETIMEDOUT);
            }
        }
        self.block_on_chan(chan, false, deadline);
        Ipc::Block
    }

    /// Receives from channel `chan` into `out`, blocking up to `timeout_ms`
    /// ms when it is empty (`0` = never block, [`TIMEOUT_FOREVER`] = no
    /// limit). Before the scheduler starts this never blocks.
    pub fn chan_recv(&mut self, chan: usize, timeout_ms: u32, now: u32, out: &mut u32) -> (r: Ipc)
        requires
            old(self)@.wf(),
        ensures
            final(self)@.wf(),
            chan >= MAX_CHANNELS ==> r == Ipc::Ret(EINVAL) && final(self)@ == old(self)@ && *final(out) == *old(out),
            chan < MAX_CHANNELS && !old(self)@.started ==> (if old(self)@.chans[chan as int].len > 0 {
                &&& r == Ipc::Ret(0)
                &&& *final(out) == chan_msgs(old(self)@.chans[chan as int])[0]
                &&& chan_popped(old(self)@, final(self)@, chan as int)
            } else {
                r == Ipc::Ret(EBUSY) && final(self)@ == old(self)@ && *final(out) == *old(out)
            }),
            chan < MAX_CHANNELS && old(self)@.started ==> recv_attempt(
                old(self)@,
                final(self)@,
                chan as int,
                timeout_ms,
                deadline_for(timeout_ms, now),
                now,
                r,
                *old(out),
                *final(out),
            ),
    {
        if chan >= MAX_CHANNELS {
            return Ipc::Ret(EINVAL);
        }
        if !self.started {
            let mut ch = self.channels[chan];
            return match ch.pop() {
                Some(m) => {
                    *out = m;
                    self.channels.set(chan, ch);
                    proof {
                        let o = old(self)@;
                        let v = self@;
                        assert(v.chans =~= o.chans.update(chan as int, v.chans[chan as int]));
                        assert forall|c: int| 0 <= c < MAX_CHANNELS implies chan_wf(#[trigger] v.chans[c], v.tasks.len()) by {
                            assert(chan_wf(o.chans[c], o.tasks.len()));
                        }
                    }
                    Ipc::Ret(0)
                },
                None => Ipc::Ret(EBUSY),
            };
        }
        let deadline = block_deadline(timeout_ms, now);
        self.chan_recv_attempt(chan, timeout_ms, deadline, now, out)
    }
}

/// State after task `idx` lets go of mutex `m`: it leaves the wait list, and
/// when it owned the mutex ownership passes to the most urgent remaining
/// waiter (made ready, its priority recomputed) or the mutex is freed.
pub open spec fn release_mutex(v: SchedView, idx: int, m: int) -> SchedView {
    let ws = v.mutexes[m].waiters & !(1u8 << (idx as u8));
    let cleared = SchedView { mutexes: v.mutexes.update(m, MutexCb { waiters: ws, ..v.mutexes[m] }), ..v };
    if v.mutexes[m].owner != Some(idx as u8) {
        cleared
    } else if exists|w: int| #[trigger] best_waiter(cleared.tasks, ws, w) {
        let w = choose|w: int| #[trigger] best_waiter(cleared.tasks, ws, w);
        let mid = SchedView {
            tasks: cleared.tasks.update(w, TaskSlot { state: TaskState::Ready, ..cleared.tasks[w] }),
            mutexes: cleared.mutexes.update(m, MutexCb { owner: Some(w as u8), waiters: ws & !(1u8 << (w as u8)) }),
            ..cleared
        };
        let r = choose|r: u8| inherits(mid.tasks, mid.mutexes, w, r);
        mid.with_task(w, TaskSlot { priority: band_of(r), ..mid.tasks[w] })
    } else {
        SchedView { mutexes: cleared.mutexes.update(m, MutexCb { owner: None, ..cleared.mutexes[m] }), ..cleared }
    }
}

/// State after task `idx` let go of the first `k` mutexes, in order.
pub open spec fn release_mutexes(v: SchedView, idx: int, k: nat) -> SchedView
    decreases k,
{
    if k == 0 {
        v
    } else {
        release_mutex(release_mutexes(v, idx, (k - 1) as nat), idx, k - 1)
    }
}

/// State after every synchronisation object let go of task `idx`: the
/// mutexes in order, then every semaphore and channel wait list.
pub open spec fn released(v: SchedView, idx: int) -> SchedView {
    let s = release_mutexes(v, idx, MAX_MUTEXES as nat);
    let bit = 1u8 << (idx as u8);
    SchedView {
        sems: Seq::new(s.sems.len(), |k: int| SemCb { waiters: s.sems[k].waiters & !bit, ..s.sems[k] }),
        chans: Seq::new(s.chans.len(), |k: int| ChanCb {
            recv_waiters: s.chans[k].recv_waiters & !bit,
            send_waiters: s.chans[k].send_waiters & !bit,
            ..s.chans[k]
        }),
        ..s
    }
}

/// No wait list holds task `idx` and no mutex is owned by it.
pub open spec fn detached(v: SchedView, idx: int) -> bool {
    &&& forall|m: int| 0 <= m < v.mutexes.len() ==> !in_mask(#[trigger] v.mutexes[m].waiters, idx)
        && v.mutexes[m].owner != Some(idx as u8)
    &&& forall|k: int| 0 <= k < v.sems.len() ==> !in_mask(#[trigger] v.sems[k].waiters, idx)
    &&& forall|c: int| 0 <= c < v.chans.len() ==> !in_mask(#[trigger] v.chans[c].recv_waiters, idx)
        && !in_mask(v.chans[c].send_waiters, idx)
}

proof fn lemma_rank_band(p: Priority)
    ensures
        band_of(rank(p)) == p,
{
}

/// One step of the release, as the executable code performs it.
proof fn lemma_release_step(before: SchedView, cleared: SchedView, mid: SchedView, new: SchedView, idx: int, m: int)
    requires
        0 <= m < before.mutexes.len(),
        0 <= idx < 8,
        cleared == (SchedView {
            mutexes: before.mutexes.update(m, MutexCb {
                waiters: before.mutexes[m].waiters & !(1u8 << (idx as u8)),
                ..before.mutexes[m]
            }),
            ..before
        }),
        before.mutexes[m].owner == Some(idx as u8),
        handed_over(cleared, mid, m),
        mid.mutexes[m].owner matches Some(w) ==> reprioritized(mid, new, w as int),
        mid.mutexes[m].owner is None ==> new == mid,
    ensures
        new == release_mutex(before, idx, m),
{
    let ws = before.mutexes[m].waiters & !(1u8 << (idx as u8));
    assert(cleared.mutexes[m].waiters == ws);
    if exists|w: int| #[trigger] best_waiter(cleared.tasks, ws, w) {
        let w = choose|w: int| #[trigger] best_waiter(cleared.tasks, ws, w);
        assert(!no_waiter(cleared.tasks, ws)) by {
            assert(in_mask(ws, w));
        }
        let w2 = choose|w2: int| #[trigger] best_waiter(cleared.tasks, ws, w2) && mid == (SchedView {
            tasks: cleared.tasks.update(w2, TaskSlot { state: TaskState::Ready, ..cleared.tasks[w2] }),
            mutexes: cleared.mutexes.update(m, MutexCb { owner: Some(w2 as u8), waiters: ws & !(1u8 << (w2 as u8)) }),
            ..cleared
        });
        lemma_best_waiter_unique(cleared.tasks, ws, w, w2);
        assert(mid.mutexes[m].owner == Some(w as u8));
        assert((w as u8) as int == w);
        let p = new.tasks[w].priority;
        assert(inherits(mid.tasks, mid.mutexes, w, rank(p)));
        let r = choose|r: u8| inherits(mid.tasks, mid.mutexes, w, r);
        lemma_inherits_unique(mid.tasks, mid.mutexes, w, r, rank(p));
        lemma_rank_band(p);
    } else {
        assert(no_waiter(cleared.tasks, ws));
    }
}

/// Letting go of mutex `m` detaches `idx` from it and touches no other
/// mutex nor the other tables.
proof fn lemma_release_mutex_detach(b: SchedView, idx: int, m: int)
    requires
        b.mutexes.len() == MAX_MUTEXES,
        0 <= idx < 8,
        0 <= m < MAX_MUTEXES,
    ensures
        ({
            let s = release_mutex(b, idx, m);
            &&& s.mutexes.len() == MAX_MUTEXES
            &&& s.sems == b.sems
            &&& s.chans == b.chans
            &&& s.tasks.len() == b.tasks.len()
            &&& !in_mask(s.mutexes[m].waiters, idx)
            &&& s.mutexes[m].owner != Some(idx as u8)
            &&& forall|mm: int| 0 <= mm < MAX_MUTEXES && mm != m ==> #[trigger] s.mutexes[mm] == b.mutexes[mm]
        }),
{
    let s = release_mutex(b, idx, m);
    let ws = b.mutexes[m].waiters & !(1u8 << (idx as u8));
    lemma_bit_clear(b.mutexes[m].waiters, idx as u8, idx as u8);
    assert(!in_mask(ws, idx));
    let cleared = SchedView { mutexes: b.mutexes.update(m, MutexCb { waiters: ws, ..b.mutexes[m] }), ..b };
    if b.mutexes[m].owner == Some(idx as u8) {
        if exists|w: int| #[trigger] best_waiter(cleared.tasks, ws, w) {
            let w = choose|w: int| #[trigger] best_waiter(cleared.tasks, ws, w);
            assert(in_mask(ws, w));
            assert(w != idx);
            lemma_bit_clear(ws, w as u8, idx as u8);
            assert((w as u8) as int == w);
        }
    }
}

/// After letting go of mutexes `0..k`, none of them holds or awaits `idx`,
/// and the tables keep their sizes.
proof fn lemma_release_mutexes_detach(v: SchedView, idx: int, k: nat)
    requires
        v.mutexes.len() == MAX_MUTEXES,
        0 <= idx < 8,
        k <= MAX_MUTEXES,
    ensures
        ({
            let s = release_mutexes(v, idx, k);
            &&& s.mutexes.len() == MAX_MUTEXES
            &&& s.sems == v.sems
            &&& s.chans == v.chans
            &&& s.tasks.len() == v.tasks.len()
            &&& forall|m: int| 0 <= m < k ==> !in_mask(#[trigger] s.mutexes[m].waiters, idx) && s.mutexes[m].owner != Some(idx as u8)
        }),
    decreases k,
{
    if k > 0 {
        let k1 = (k - 1) as nat;
        lemma_release_mutexes_detach(v, idx, k1);
        let b = release_mutexes(v, idx, k1);
        let m = k1 as int;
        lemma_release_mutex_detach(b, idx, m);
        let s = release_mutex(b, idx, m);
        assert(release_mutexes(v, idx, k) == s);
        assert forall|mm: int| 0 <= mm < k implies !in_mask(#[trigger] s.mutexes[mm].waiters, idx) && s.mutexes[mm].owner != Some(idx as u8) by {
            if mm < m {
                assert(s.mutexes[mm] == b.mutexes[mm]);
            }
        }
    }
}

/// Law: once every object let go of task `idx`, no wait list holds it and
/// it owns no mutex (so no other task stays blocked behind it).
pub proof fn lemma_released_detaches(v: SchedView, idx: int)
    requires
        v.wf(),
        0 <= idx < v.count(),
    ensures
        detached(released(v, idx), idx),
        released(v, idx).tasks.len() == v.tasks.len(),
{
    lemma_release_mutexes_detach(v, idx, MAX_MUTEXES as nat);
    let s = release_mutexes(v, idx, MAX_MUTEXES as nat);
    let r = released(v, idx);
    let bit = 1u8 << (idx as u8);
    assert forall|k: int| 0 <= k < r.sems.len() implies !in_mask(#[trigger] r.sems[k].waiters, idx) by {
        lemma_bit_clear(s.sems[k].waiters, idx as u8, idx as u8);
    }
    assert forall|c: int| 0 <= c < r.chans.len() implies !in_mask(#[trigger] r.chans[c].recv_waiters, idx)
        && !in_mask(r.chans[c].send_waiters, idx) by {
        lemma_bit_clear(s.chans[c].recv_waiters, idx as u8, idx as u8);
        lemma_bit_clear(s.chans[c].send_waiters, idx as u8, idx as u8);
    }
}

impl SchedView {
    /// `new` is `self` after polling for a task to resume when leaving the
    /// killed task `prev`: switch to the picked task, halt when every task
    /// is dead, or wait.
    pub open spec fn resumes_to(self, new: SchedView, prev: int, now: u32, r: Resume) -> bool {
        let ts = wake_tasks(self.tasks, now);
        &&& self.switches_to(new, prev, now, match r {
            Resume::Switch(i) => Some(i),
            _ => None,
        })
        &&& (pick_in(ts, self.last_served, prev) is None ==> r == (if forall|i: int| 0 <= i < ts.len() ==> #[trigger] ts[i].state == TaskState::Killed {
            Resume::Halt
        } else {
            Resume::Wait
        }))
    }
}

/// Task `i` is monitored, alive, not running and past its liveness deadline.
pub open spec fn overdue(v: SchedView, i: int, now: u32) -> bool {
    &&& 0 <= i < v.tasks.len()
    &&& i != v.current
    &&& v.tasks[i].state != TaskState::Killed
    &&& v.tasks[i].liveness_deadline matches Some(d) && reached(now, d)
}

impl Scheduler {
    /// Lets every synchronisation object go of task `idx`: it leaves every
    /// wait list, and each mutex it owned passes to its next waiter (or is
    /// freed).
    fn release_task_sync(&mut self, idx: usize)
        requires
            old(self)@.wf(),
            idx < old(self)@.count(),
        ensures
            final(self)@.wf(),
            final(self)@ == released(old(self)@, idx as int),
            final(self)@.count() == old(self)@.count(),
    {
        let bit: u8 = 1u8 << (idx as u8);
        let mut id: usize = 0;
        while id < MAX_MUTEXES
            invariant
                id <= MAX_MUTEXES,
                self@.wf(),
                idx < self@.count(),
                idx < MAX_TASKS,
                bit == 1u8 << (idx as u8),
                self@ == release_mutexes(old(self)@, idx as int, id as nat),
            decreases MAX_MUTEXES - id,
        {
            let ghost before = self@;
            let mut m = self.mutexes[id];
            let ws_old = m.waiters;
            proof {
                lemma_mask_clear(ws_old, idx as u8);
            }
            m.waiters = ws_old & !bit;
            self.mutexes.set(id, m);
            let ghost cleared = self@;
            proof {
                assert(cleared.mutexes =~= before.mutexes.update(id as int, MutexCb { waiters: ws_old & !bit, ..before.mutexes[id as int] }));
                assert forall|mm: int| 0 <= mm < MAX_MUTEXES implies mutex_wf(#[trigger] cleared.mutexes[mm], cleared.tasks.len()) by {
                    assert(mutex_wf(before.mutexes[mm], before.tasks.len()));
                    if mm == id as int {
                        lemma_within_sub(cleared.mutexes[mm].waiters, ws_old, cleared.tasks.len());
                    }
                }
            }
            if m.owner == Some(idx as u8) {
                self.hand_over_mutex(id);
                let ghost mid = self@;
                match self.mutexes[id].owner {
                    Some(w) => {
                        self.recompute_priority(w as usize);
                    },
                    None => {},
                }
                proof {
                    lemma_release_step(before, cleared, mid, self@, idx as int, id as int);
                }
            }
            id = id + 1;
        }
        let ghost base = self@;
        proof {
            lemma_release_mutexes_detach(old(self)@, idx as int, MAX_MUTEXES as nat);
            assert(self@.sems =~= Seq::new(MAX_SEMAPHORES as nat, |j: int| if j < 0 {
                SemCb { waiters: base.sems[j].waiters & !bit, ..base.sems[j] }
            } else {
                base.sems[j]
            }));
        }
        let mut k: usize = 0;
        while k < MAX_SEMAPHORES
            invariant
                k <= MAX_SEMAPHORES,
                base.wf(),
                base.sems.len() == MAX_SEMAPHORES,
                bit == 1u8 << (idx as u8),
                idx < MAX_TASKS,
                self@ == (SchedView {
                    sems: Seq::new(MAX_SEMAPHORES as nat, |j: int| if j < k {
                        SemCb { waiters: base.sems[j].waiters & !bit, ..base.sems[j] }
                    } else {
                        base.sems[j]
                    }),
                    ..base
                }),
            decreases MAX_SEMAPHORES - k,
        {
            let mut sc = self.semaphores[k];
            sc.waiters = sc.waiters & !bit;
            self.semaphores.set(k, sc);
            proof {
                assert(self@.sems =~= Seq::new(MAX_SEMAPHORES as nat, |j: int| if j < k + 1 {
                    SemCb { waiters: base.sems[j].waiters & !bit, ..base.sems[j] }
                } else {
                    base.sems[j]
                }));
            }
            k = k + 1;
        }
        let ghost base2 = self@;
        proof {
            assert(self@.chans =~= Seq::new(MAX_CHANNELS as nat, |j: int| if j < 0 {
                ChanCb {
                    recv_waiters: base2.chans[j].recv_waiters & !bit,
                    send_waiters: base2.chans[j].send_waiters & !bit,
                    ..base2.chans[j]
                }
            } else {
                base2.chans[j]
            }));
        }
        let mut c: usize = 0;
        while c < MAX_CHANNELS
            invariant
                c <= MAX_CHANNELS,
                base2.chans.len() == MAX_CHANNELS,
                bit == 1u8 << (idx as u8),
                idx < MAX_TASKS,
                self@ == (SchedView {
                    chans: Seq::new(MAX_CHANNELS as nat, |j: int| if j < c {
                        ChanCb {
                            recv_waiters: base2.chans[j].recv_waiters & !bit,
                            send_waiters: base2.chans[j].send_waiters & !bit,
                            ..base2.chans[j]
                        }
                    } else {
                        base2.chans[j]
                    }),
                    ..base2
                }),
            decreases MAX_CHANNELS - c,
        {
            let mut ch = self.channels[c];
            ch.recv_waiters = ch.recv_waiters & !bit;
            ch.send_waiters = ch.send_waiters & !bit;
            self.channels.set(c, ch);
            proof {
                assert(self@.chans =~= Seq::new(MAX_CHANNELS as nat, |j: int| if j < c + 1 {
                    ChanCb {
                        recv_waiters: base2.chans[j].recv_waiters & !bit,
                        send_waiters: base2.chans[j].send_waiters & !bit,
                        ..base2.chans[j]
                    }
                } else {
                    base2.chans[j]
                }));
            }
            c = c + 1;
        }
        proof {
            let v = self@;
            assert(v.sems =~= released(old(self)@, idx as int).sems);
            assert(v.chans =~= released(old(self)@, idx as int).chans);
            assert forall|m: int| 0 <= m < MAX_SEMAPHORES implies mask_within(#[trigger] v.sems[m].waiters, v.tasks.len()) by {
                assert(mask_within(base.sems[m].waiters, base.tasks.len()));
                lemma_mask_clear(base.sems[m].waiters, idx as u8);
                lemma_within_sub(v.sems[m].waiters, base.sems[m].waiters, v.tasks.len());
            }
            assert forall|cc: int| 0 <= cc < MAX_CHANNELS implies chan_wf(#[trigger] v.chans[cc], v.tasks.len()) by {
                assert(chan_wf(base.chans[cc], base.tasks.len()));
                lemma_mask_clear(base.chans[cc].recv_waiters, idx as u8);
                lemma_mask_clear(base.chans[cc].send_waiters, idx as u8);
                lemma_within_sub(v.chans[cc].recv_waiters, base.chans[cc].recv_waiters, v.tasks.len());
                lemma_within_sub(v.chans[cc].send_waiters, base.chans[cc].send_waiters, v.tasks.len());
            }
        }
    }

    /// One round of looking for a task to resume after task `prev` was
    /// killed: switch to it, halt when every task is dead, or wait for an
    /// interrupt and poll again.
    pub fn resume_poll(&mut self, prev: usize, now: u32) -> (r: Resume)
        requires
            old(self)@.wf(),
            prev < old(self)@.count(),
        ensures
            final(self)@.wf(),
            old(self)@.resumes_to(final(self)@, prev as int, now, r),
            r matches Resume::Switch(i) ==> i < final(self)@.count(),
    {
        let next_idx = self.pick_next(prev, now);
        if next_idx != prev {
            self.current = next_idx;
            self.slice_ticks = 0;
            return Resume::Switch(next_idx);
        }
        if self.all_killed() {
            Resume::Halt
        } else {
            Resume::Wait
        }
    }

    /// Kills the running task after a fault: marks it dead, lets every
    /// synchronisation object go of it, and picks the task to resume. The
    /// report is for the platform's fault hook, which saw it before.
    pub fn kill_current_and_resume(&mut self, report: FaultReport, now: u32) -> (r: Resume)
        requires
            old(self)@.wf(),
            old(self)@.count() > 0,
        ensures
            final(self)@.wf(),
            ({
                let o = old(self)@;
                let cur = o.current as int;
                released(o.with_task(cur, TaskSlot { state: TaskState::Killed, ..o.tasks[cur] }), cur).resumes_to(final(self)@, cur, now, r)
            }),
            r matches Resume::Switch(i) ==> i < final(self)@.count(),
    {
        let _ = report;
        let idx = self.current;
        let mut t = self.tasks[idx];
        t.state = TaskState::Killed;
        self.tasks.set(idx, t);
        proof {
            let v = self@;
            assert(v == old(self)@.with_task(idx as int, TaskSlot { state: TaskState::Killed, ..old(self)@.tasks[idx as int] }));
            assert forall|k: int| 0 <= k < v.tasks.len() implies state_wf(#[trigger] v.tasks[k].state) by {
                assert(state_wf(old(self)@.tasks[k].state));
            }
        }
        self.release_task_sync(idx);
        self.resume_poll(idx, now)
    }

    /// Brings a task killed by a fault back to life (`Killed` -> `Ready`),
    /// from a clean start: base priority, liveness disarmed, its stack
    /// (`stack`, the area it was spawned with) painted again. `false` (and no
    /// change) when `idx` does not exist or is not killed. The caller then
    /// rebuilds the initial frame.
    pub fn respawn(&mut self, idx: usize, stack: &mut [u8]) -> (r: bool)
        requires
            old(self)@.wf(),
            idx < old(self)@.count() ==> old(stack)@.len() == old(self)@.tasks[idx as int].stack_len,
        ensures
            final(self)@.wf(),
            r ==> final(stack)@ == Seq::new(old(stack)@.len(), |i: int| STACK_FILL),
            !r ==> final(stack)@ == old(stack)@,
            (idx >= old(self)@.count() || old(self)@.tasks[idx as int].state != TaskState::Killed) ==> !r && final(self)@ == old(self)@,
            (idx < old(self)@.count() && old(self)@.tasks[idx as int].state == TaskState::Killed) ==> r && final(self)@ == old(self)@.with_task(
                idx as int,
                TaskSlot {
                    state: TaskState::Ready,
                    priority: old(self)@.tasks[idx as int].base_priority,
                    liveness_period: None,
                    liveness_deadline: None,
                    ..old(self)@.tasks[idx as int]
                },
            ),
    {
        if idx >= self.tasks.len() || self.tasks[idx].state != TaskState::Killed {
            return false;
        }
        paint_stack(stack);
        let mut t = self.tasks[idx];
        t.state = TaskState::Ready;
        t.priority = t.base_priority;
        t.liveness_period = None;
        t.liveness_deadline = None;
        self.tasks.set(idx, t);
        proof {
            let v = self@;
            assert(v.tasks =~= old(self)@.tasks.update(idx as int, t));
            assert forall|k: int| 0 <= k < v.tasks.len() implies state_wf(#[trigger] v.tasks[k].state) by {
                assert(state_wf(old(self)@.tasks[k].state));
            }
        }
        true
    }

    /// Kills a live task other than the running one so the supervisor can
    /// respawn it: marks it dead, disarms its liveness and lets every
    /// synchronisation object go of it. `false` (and no change) when `idx`
    /// does not exist, is the running task, or is already dead.
    pub fn force_kill(&mut self, idx: usize) -> (r: bool)
        requires
            old(self)@.wf(),
        ensures
            final(self)@.wf(),
            (idx >= old(self)@.count() || idx == old(self)@.current || old(self)@.tasks[idx as int].state == TaskState::Killed) ==> !r
                && final(self)@ == old(self)@,
            !(idx >= old(self)@.count() || idx == old(self)@.current || old(self)@.tasks[idx as int].state == TaskState::Killed) ==> r
                && final(self)@ == released(
                old(self)@.with_task(
                    idx as int,
                    TaskSlot {
                        state: TaskState::Killed,
                        liveness_period: None,
                        liveness_deadline: None,
                        ..old(self)@.tasks[idx as int]
                    },
                ),
                idx as int,
            ),
    {
        if idx >= self.tasks.len() || idx == self.current {
            return false;
        }
        if self.tasks[idx].state == TaskState::Killed {
            return false;
        }
        let mut t = self.tasks[idx];
        t.state = TaskState::Killed;
        t.liveness_period = None;
        t.liveness_deadline = None;
        self.tasks.set(idx, t);
        proof {
            let v = self@;
            assert(v.tasks =~= old(self)@.tasks.update(idx as int, t));
            assert forall|k: int| 0 <= k < v.tasks.len() implies state_wf(#[trigger] v.tasks[k].state) by {
                assert(state_wf(old(self)@.tasks[k].state));
            }
        }
        self.release_task_sync(idx);
        true
    }

    /// Arms the liveness monitor of task `idx`: from now on it must check in
    /// at least every `period_ms`; the first deadline is `now + period_ms`.
    /// `period_ms == 0` disarms it. No-op when `idx` does not exist.
    pub fn set_liveness_period(&mut self, idx: usize, period_ms: u32, now: u32)
        requires
            old(self)@.wf(),
        ensures
            final(self)@.wf(),
            idx >= old(self)@.count() ==> final(self)@ == old(self)@,
            idx < old(self)@.count() ==> final(self)@ == old(self)@.with_task(
                idx as int,
                TaskSlot {
                    liveness_period: if period_ms == 0 { None } else { Some(period_ms) },
                    liveness_deadline: if period_ms == 0 { None } else { Some(now.wrapping_add(period_ms)) },
                    ..old(self)@.tasks[idx as int]
                },
            ),
    {
        if idx >= self.tasks.len() {
            return;
        }
        let mut t = self.tasks[idx];
        if period_ms == 0 {
            t.liveness_period = None;
            t.liveness_deadline = None;
        } else {
            t.liveness_period = Some(period_ms);
            t.liveness_deadline = Some(now.wrapping_add(period_ms));
        }
        self.tasks.set(idx, t);
        proof {
            let v = self@;
            assert(v.tasks =~= old(self)@.tasks.update(idx as int, t));
            assert forall|k: int| 0 <= k < v.tasks.len() implies state_wf(#[trigger] v.tasks[k].state) by {
                assert(state_wf(old(self)@.tasks[k].state));
            }
        }
    }

    /// Liveness heartbeat of task `idx`: its deadline becomes `now` plus its
    /// period. No-op when it does not exist or is not monitored.
    pub fn liveness_checkin(&mut self, idx: usize, now: u32)
        requires
            old(self)@.wf(),
        ensures
            final(self)@.wf(),
            (idx < old(self)@.count() && old(self)@.tasks[idx as int].liveness_period is Some) ==> final(self)@ == old(self)@.with_task(
                idx as int,
                TaskSlot {
                    liveness_deadline: Some(now.wrapping_add(old(self)@.tasks[idx as int].liveness_period->0)),
                    ..old(self)@.tasks[idx as int]
                },
            ),
            !(idx < old(self)@.count() && old(self)@.tasks[idx as int].liveness_period is Some) ==> final(self)@ == old(self)@,
    {
        if idx >= self.tasks.len() {
            return;
        }
        let mut t = self.tasks[idx];
        if let Some(period) = t.liveness_period {
            t.liveness_deadline = Some(now.wrapping_add(period));
            self.tasks.set(idx, t);
            proof {
                let v = self@;
                assert(v.tasks =~= old(self)@.tasks.update(idx as int, t));
                assert forall|k: int| 0 <= k < v.tasks.len() implies state_wf(#[trigger] v.tasks[k].state) by {
                    assert(state_wf(old(self)@.tasks[k].state));
                }
            }
        }
    }

    /// Liveness heartbeat of the running task.
    pub fn liveness_checkin_current(&mut self, now: u32)
        requires
            old(self)@.wf(),
        ensures
            final(self)@.wf(),
            ({
                let o = old(self)@;
                let c = o.current as int;
                if c < o.count() && o.tasks[c].liveness_period is Some {
                    final(self)@ == o.with_task(c, TaskSlot { liveness_deadline: Some(now.wrapping_add(o.tasks[c].liveness_period->0)), ..o.tasks[c] })
                } else {
                    final(self)@ == o
                }
            }),
    {
        let idx = self.current;
        self.liveness_checkin(idx, now);
    }

    /// The first monitored task (lowest index) that is alive, not running,
    /// and past its liveness deadline at `now`; `None` when no task hangs.
    pub fn liveness_overdue(&self, now: u32) -> (r: Option<usize>)
        requires
            self@.wf(),
        ensures
            r matches Some(i) ==> overdue(self@, i as int, now) && forall|j: int| 0 <= j < i ==> !#[trigger] overdue(self@, j, now),
            r is None ==> forall|j: int| !#[trigger] overdue(self@, j, now),
    {
        let mut idx: usize = 0;
        while idx < self.tasks.len()
            invariant
                idx <= self.tasks.len(),
                forall|j: int| 0 <= j < idx ==> !#[trigger] overdue(self@, j, now),
            decreases self.tasks.len() - idx,
        {
            if idx != self.current {
                let t = self.tasks[idx];
                if t.state != TaskState::Killed {
                    if let Some(deadline) = t.liveness_deadline {
                        if deadline_reached(now, deadline) {
                            return Some(idx);
                        }
                    }
                }
            }
            idx = idx + 1;
        }
        None
    }

    /// Runs only the bookkeeping of [`Self::mutex_lock`] for the running
    /// task (take, or block and lend priority). `true` when it took it.
    pub fn mutex_acquire_for_test(&mut self, id: usize) -> (r: bool)
        requires
            old(self)@.wf(),
            id < MAX_MUTEXES,
            old(self)@.count() > 0,
        ensures
            final(self)@.wf(),
            acquires(old(self)@, final(self)@, id as int, old(self)@.current as int, r),
    {
        let me = self.current;
        self.mutex_acquire(id, me)
    }

    /// Owner of mutex `id`, or `None` when free.
    pub fn mutex_owner_for_test(&self, id: usize) -> (r: Option<u8>)
        requires
            self@.wf(),
            id < MAX_MUTEXES,
        ensures
            r == self@.mutexes[id as int].owner,
    {
        self.mutexes[id].owner
    }

    /// `true` when task `idx` is blocked waiting for mutex `id`.
    pub fn is_blocked_on_mutex_for_test(&self, idx: usize, id: usize) -> (r: bool)
        requires
            self@.wf(),
        ensures
            r == (idx < self@.count() && self@.tasks[idx as int].state == TaskState::BlockedMutex(id as u8)),
    {
        idx < self.tasks.len() && self.tasks[idx].state == TaskState::BlockedMutex(id as u8)
    }

    /// Marks task `idx` dead without the fault path (no-op when it does not
    /// exist).
    pub fn mark_killed_for_test(&mut self, idx: usize)
        requires
            old(self)@.wf(),
        ensures
            final(self)@.wf(),
            idx >= old(self)@.count() ==> final(self)@ == old(self)@,
            idx < old(self)@.count() ==> final(self)@ == old(self)@.with_task(
                idx as int,
                TaskSlot { state: TaskState::Killed, ..old(self)@.tasks[idx as int] },
            ),
    {
        if idx < self.tasks.len() {
            let mut t = self.tasks[idx];
            t.state = TaskState::Killed;
            self.tasks.set(idx, t);
            proof {
                let v = self@;
                assert(v.tasks =~= old(self)@.tasks.update(idx as int, t));
                assert forall|k: int| 0 <= k < v.tasks.len() implies state_wf(#[trigger] v.tasks[k].state) by {
                    assert(state_wf(old(self)@.tasks[k].state));
                }
            }
        }
    }

    /// Number of messages in flight in channel `chan`.
    pub fn chan_len_for_test(&self, chan: usize) -> (r: usize)
        requires
            self@.wf(),
            chan < MAX_CHANNELS,
        ensures
            r == chan_msgs(self@.chans[chan as int]).len(),
    {
        self.channels[chan].len as usize
    }

    /// `true` when task `idx` is blocked receiving from channel `chan`.
    pub fn is_blocked_on_recv_for_test(&self, idx: usize, chan: usize) -> (r: bool)
        requires
            self@.wf(),
        ensures
            r == (idx < self@.count() && self@.tasks[idx as int].state == TaskState::BlockedRecv(chan as u8)),
    {
        idx < self.tasks.len() && self.tasks[idx].state == TaskState::BlockedRecv(chan as u8)
    }

    /// `true` when task `idx` is blocked sending to channel `chan`.
    pub fn is_blocked_on_send_for_test(&self, idx: usize, chan: usize) -> (r: bool)
        requires
            self@.wf(),
        ensures
            r == (idx < self@.count() && self@.tasks[idx as int].state == TaskState::BlockedSend(chan as u8)),
    {
        idx < self.tasks.len() && self.tasks[idx].state == TaskState::BlockedSend(chan as u8)
    }

    /// Blocks the running task receiving from channel `chan` until the
    /// absolute `deadline` (bookkeeping only).
    pub fn block_recv_for_test(&mut self, chan: usize, deadline: u32)
        requires
            old(self)@.wf(),
            chan < MAX_CHANNELS,
            old(self)@.count() > 0,
        ensures
            final(self)@.wf(),
            blocks_on_chan(old(self)@, final(self)@, chan as int, false, Some(deadline)),
    {
        self.block_on_chan(chan, false, Some(deadline));
    }

    /// Runs the wake-up sweep at `now` (sleepers and timed-out IPC waits).
    pub fn wake_expired_for_test(&mut self, now: u32)
        requires
            old(self)@.wf(),
        ensures
            final(self)@.wf(),
            old(self)@.wakes_to(final(self)@, now),
    {
        self.wake_expired(now);
    }

    /// Liveness deadline of task `idx` (`None` when not monitored).
    pub fn liveness_deadline_for_test(&self, idx: usize) -> (r: Option<u32>)
        requires
            self@.wf(),
            idx < self@.count(),
        ensures
            r == self@.tasks[idx as int].liveness_deadline,
    {
        self.tasks[idx].liveness_deadline
    }

    /// `true` when task `idx` is dead.
    pub fn is_killed_for_test(&self, idx: usize) -> (r: bool)
        requires
            self@.wf(),
            idx < self@.count(),
        ensures
            r == (self@.tasks[idx as int].state == TaskState::Killed),
    {
        self.tasks[idx].state == TaskState::Killed
    }
}

/// Slot visited at rotation offset `off` from cursor `start` over `n` tasks.
pub open spec fn rr_slot(start: int, off: int, n: int) -> int {
    (start + off) % n
}

proof fn lemma_first_in_band_none(ts: Seq<TaskSlot>, b: Priority, start: int, from: int, off: nat)
    requires
        first_in_band(ts, b, start, from, off) is None,
    ensures
        forall|o: int| off <= o <= ts.len() ==> !eligible(ts, #[trigger] rr_slot(start, o, ts.len() as int), from, b),
    decreases ts.len() + 1 - off,
{
    if !(off > ts.len() || ts.len() == 0) {
        lemma_first_in_band_none(ts, b, start, from, off + 1);
    }
}

/// A band in which the round robin finds nobody has no eligible task.
proof fn lemma_band_empty(ts: Seq<TaskSlot>, b: Priority, start: int, from: int)
    requires
        first_in_band(ts, b, start, from, 1) is None,
    ensures
        forall|j: int| !#[trigger] eligible(ts, j, from, b),
{
    lemma_first_in_band_none(ts, b, start, from, 1);
    let n = ts.len() as int;
    assert forall|j: int| !#[trigger] eligible(ts, j, from, b) by {
        if 0 <= j < n {
            let x = j - start;
            let q = x / n;
            let r = x % n;
            vstd::arithmetic::div_mod::lemma_fundamental_div_mod(x, n);
            vstd::arithmetic::div_mod::lemma_mod_bound(x, n);
            let o = if r == 0 { n } else { r };
            let a = if r == 0 { 1 - q } else { -q };
            assert(start + o == n * a + j) by (nonlinear_arith)
                requires
                    x == j - start,
                    x == n * q + r,
                    o == (if r == 0 { n } else { r }),
                    a == (if r == 0 { 1 - q } else { -q }),
            ;
            vstd::arithmetic::div_mod::lemma_mod_multiples_vanish(a, j, n);
            vstd::arithmetic::div_mod::lemma_small_mod(j as nat, n as nat);
            assert(rr_slot(start, o, n) == j);
        }
    }
}

/// Law (strict priority): the task picked when leaving `from` is ready and
/// no ready task other than `from` sits in a more urgent band; when none is
/// picked, no task other than `from` is ready.
pub proof fn lemma_pick_most_urgent(ts: Seq<TaskSlot>, ls: Seq<usize>, from: int)
    ensures
        pick_in(ts, ls, from) matches Some((b, i)) ==> {
            &&& eligible(ts, i, from, band_of(b as u8))
            &&& forall|j: int, c: int| 0 <= c < b ==> !#[trigger] eligible(ts, j, from, band_of(c as u8))
        },
        pick_in(ts, ls, from) is None ==> forall|j: int| 0 <= j < ts.len() && j != from ==> #[trigger] ts[j].state != TaskState::Ready,
{
    lemma_pick_in_eligible(ts, ls, from);
    let k = first_in_band(ts, Priority::Kernel, ls[0] as int, from, 1);
    let sv = first_in_band(ts, Priority::Service, ls[1] as int, from, 1);
    let ap = first_in_band(ts, Priority::App, ls[2] as int, from, 1);
    if k is None {
        lemma_band_empty(ts, Priority::Kernel, ls[0] as int, from);
        if sv is None {
            lemma_band_empty(ts, Priority::Service, ls[1] as int, from);
            if ap is None {
                lemma_band_empty(ts, Priority::App, ls[2] as int, from);
                assert forall|j: int| 0 <= j < ts.len() && j != from implies #[trigger] ts[j].state != TaskState::Ready by {
                    assert(!eligible(ts, j, from, Priority::Kernel));
                    assert(!eligible(ts, j, from, Priority::Service));
                    assert(!eligible(ts, j, from, Priority::App));
                }
            }
        }
    }
    match pick_in(ts, ls, from) {
        Some((b, i)) => {
            assert forall|j: int, c: int| 0 <= c < b implies !#[trigger] eligible(ts, j, from, band_of(c as u8)) by {
                if c == 0 {
                    assert(band_of(c as u8) == Priority::Kernel);
                } else {
                    assert(band_of(c as u8) == Priority::Service);
                }
            }
        },
        None => {},
    }
}
} // verus!
