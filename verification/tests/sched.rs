use rugus::domain::Domain;
use rugus::errno::{EBUSY, EDENIED, EINVAL, ETIMEDOUT};
use rugus::fault::{FaultKind, FaultReport};
use rugus::sched::{
    block_deadline, deadline_reached, power_of_two, Blocking, Ipc, Priority, Resume, Scheduler,
    SpawnError, Step, TaskId, TaskMode, CHAN_CAPACITY, TIMEOUT_FOREVER,
};

const STACK: u32 = 1024;

fn sched_with(prios: &[Priority]) -> Scheduler {
    let mut s = Scheduler::new();
    for (i, p) in prios.iter().enumerate() {
        let mut stack = vec![0u8; STACK as usize];
        s.spawn(&mut stack, 0x2000_0000 + (i as u32) * STACK, *p).unwrap();
    }
    s
}

fn fault(task: u8) -> FaultReport {
    FaultReport {
        kind: FaultKind::MemManage,
        pc: 0x0800_0100,
        domain: Domain::App,
        task_id: TaskId(task),
        addr: None,
    }
}

#[test]
fn spawn_refusals() {
    let mut s = Scheduler::new();
    let mut small = vec![0u8; 128];
    assert_eq!(s.spawn(&mut small, 0, Priority::App), Err(SpawnError::StackTooSmall));
    assert!(small.iter().all(|b| *b == 0), "a refused stack is left alone");
    let mut stack = vec![0u8; STACK as usize];
    for i in 0..4u8 {
        assert_eq!(s.spawn(&mut stack, 0x2000_0000, Priority::App), Ok(TaskId(i)));
    }
    assert_eq!(s.spawn(&mut stack, 0x2000_0000, Priority::App), Err(SpawnError::TooManyTasks));
    assert_eq!(s.task_count(), 4);
}

#[test]
fn user_stack_must_be_aligned_power_of_two() {
    let mut s = Scheduler::new();
    let mut stack = vec![0u8; 1024];
    let mut odd = vec![0u8; 768];
    assert_eq!(
        s.spawn_user(&mut stack, 0x2000_0100, Priority::App),
        Err(SpawnError::UnalignedUserStack)
    );
    assert_eq!(
        s.spawn_user(&mut odd, 0x2000_0000, Priority::App),
        Err(SpawnError::UnalignedUserStack)
    );
    assert_eq!(s.spawn_user(&mut stack, 0x2000_0400, Priority::App), Ok(TaskId(0)));
    assert!(stack.iter().all(|b| *b == 0xA5));
    assert_eq!(s.switch_info(0), (TaskMode::User, 0x2000_0400, 1024));
}

#[test]
fn start_runs_most_urgent_task() {
    let mut s = sched_with(&[Priority::App, Priority::Service, Priority::App]);
    assert!(!s.is_started());
    assert_eq!(s.start(0), Some(1));
    assert!(s.is_started());
    assert_eq!(s.current_id(), TaskId(1));
    assert_eq!(s.current_domain(), Domain::Kernel);
}

#[test]
fn yield_rotates_within_band() {
    let mut s = sched_with(&[Priority::App, Priority::App]);
    assert_eq!(s.start(0), Some(1), "round robin starts after the last served slot");
    assert_eq!(s.yield_now(0), Some(0));
    assert_eq!(s.yield_now(0), Some(1));
}

#[test]
fn preempt_after_a_full_slice() {
    let mut s = sched_with(&[Priority::App, Priority::App]);
    s.start(0);
    for _ in 0..9 {
        assert_eq!(s.preempt_tick(0), None);
    }
    assert_eq!(s.preempt_tick(0), Some(0));
}

#[test]
fn sleeping_task_wakes_at_deadline() {
    let mut s = sched_with(&[Priority::Service, Priority::App]);
    assert_eq!(s.start(0), Some(0));
    assert_eq!(s.sleep_ms(5, 100), Step::Switch(1));
    assert_eq!(s.yield_now(104), None);
    assert_eq!(s.yield_now(105), Some(0));
}

#[test]
fn sleep_with_nothing_else_ready_waits() {
    let mut s = sched_with(&[Priority::App]);
    s.start(0);
    assert_eq!(s.sleep_ms(10, 0), Step::Wait);
    assert_eq!(s.sleep_poll(0, 5), Step::Wait);
    assert_eq!(s.sleep_poll(0, 10), Step::Done);
}

#[test]
fn mutex_blocks_and_lends_priority() {
    let mut s = sched_with(&[Priority::App, Priority::Service]);
    s.force_start_for_test(0);
    s.set_current_for_test(0);
    assert_eq!(s.mutex_lock(0), Blocking::Done(0));
    assert_eq!(s.mutex_owner_for_test(0), Some(0));
    s.set_current_for_test(1);
    assert!(!s.mutex_try_lock(0));
    assert_eq!(s.mutex_lock(0), Blocking::Block);
    assert!(s.is_blocked_on_mutex_for_test(1, 0));
    assert_eq!(s.task_priority(0), 1, "owner inherits the waiter's band");
    assert_eq!(s.switch_until_ready(1, 0), Step::Switch(0));
    assert_eq!(s.mutex_unlock(0), Ipc::RetAfterYield(0));
    assert_eq!(s.mutex_owner_for_test(0), Some(1));
    assert_eq!(s.task_priority(0), 2, "borrowed priority given back");
    assert!(!s.is_blocked_on_mutex_for_test(1, 0));
}

#[test]
fn mutex_unlock_by_non_owner_is_refused() {
    let mut s = sched_with(&[Priority::App, Priority::App]);
    s.force_start_for_test(0);
    s.set_current_for_test(0);
    assert!(s.mutex_acquire_for_test(0));
    s.set_current_for_test(1);
    assert_eq!(s.mutex_unlock(0), Ipc::Ret(EDENIED));
    assert_eq!(s.mutex_lock(9), Blocking::Done(EINVAL));
}

#[test]
fn semaphore_counts_permits() {
    let mut s = sched_with(&[Priority::App]);
    s.sem_init(0, 2);
    assert!(s.sem_try_wait(0));
    assert!(s.sem_try_wait(0));
    assert!(!s.sem_try_wait(0));
    assert_eq!(s.sem_post(0), Ipc::Ret(0));
    assert!(s.sem_try_wait(0));
    assert!(!s.sem_try_wait(7));
}

#[test]
fn semaphore_post_wakes_waiter() {
    let mut s = sched_with(&[Priority::App, Priority::App]);
    s.force_start_for_test(0);
    s.set_current_for_test(1);
    assert_eq!(s.sem_wait(0), Blocking::Block);
    s.set_current_for_test(0);
    assert_eq!(s.sem_post(0), Ipc::RetAfterYield(0));
    assert_eq!(s.switch_until_ready(1, 0), Step::Done);
}

#[test]
fn channel_is_fifo_before_start() {
    let mut s = Scheduler::new();
    for m in 0..CHAN_CAPACITY as u32 {
        assert_eq!(s.chan_send(0, 10 + m, 0, 0), Ipc::Ret(0));
    }
    assert_eq!(s.chan_send(0, 99, 0, 0), Ipc::Ret(EBUSY));
    assert_eq!(s.chan_len_for_test(0), CHAN_CAPACITY);
    let mut out = 0u32;
    for m in 0..CHAN_CAPACITY as u32 {
        assert_eq!(s.chan_recv(0, 0, 0, &mut out), Ipc::Ret(0));
        assert_eq!(out, 10 + m);
    }
    assert_eq!(s.chan_recv(0, 0, 0, &mut out), Ipc::Ret(EBUSY));
    assert_eq!(s.chan_send(4, 1, 0, 0), Ipc::Ret(EINVAL));
}

#[test]
fn channel_receive_times_out() {
    let mut s = sched_with(&[Priority::App, Priority::App]);
    assert_eq!(s.start(0), Some(1));
    let mut out = 7u32;
    assert_eq!(s.chan_recv(1, 50, 100, &mut out), Ipc::Block);
    assert!(s.is_blocked_on_recv_for_test(1, 1));
    assert_eq!(s.switch_until_ready(1, 120), Step::Switch(0));
    s.wake_expired_for_test(150);
    assert!(!s.is_blocked_on_recv_for_test(1, 1));
    s.set_current_for_test(1);
    let r = s.chan_recv_attempt(1, 50, Some(150), 150, &mut out);
    assert_eq!(r, Ipc::Ret(ETIMEDOUT));
    assert_eq!(out, 7);
}

#[test]
fn channel_send_wakes_receiver() {
    let mut s = sched_with(&[Priority::App, Priority::App]);
    assert_eq!(s.start(0), Some(1));
    let mut out = 0u32;
    assert_eq!(s.chan_recv(2, TIMEOUT_FOREVER, 0, &mut out), Ipc::Block);
    assert_eq!(s.switch_until_ready(1, 0), Step::Switch(0));
    assert_eq!(s.chan_send(2, 0xCAFE, 0, 0), Ipc::RetAfterYield(0));
    s.set_current_for_test(1);
    assert_eq!(s.chan_recv_attempt(2, TIMEOUT_FOREVER, None, 0, &mut out), Ipc::Ret(0));
    assert_eq!(out, 0xCAFE);
}

#[test]
fn deadlines() {
    assert_eq!(block_deadline(0, 10), None);
    assert_eq!(block_deadline(TIMEOUT_FOREVER, 10), None);
    assert_eq!(block_deadline(5, 10), Some(15));
    assert_eq!(block_deadline(10, u32::MAX), Some(9));
    assert!(deadline_reached(15, 15));
    assert!(!deadline_reached(14, 15));
    assert!(deadline_reached(3, u32::MAX - 2));
}

#[test]
fn fault_kills_and_resumes_other_task() {
    let mut s = sched_with(&[Priority::App, Priority::App]);
    assert_eq!(s.start(0), Some(1));
    assert_eq!(s.kill_current_and_resume(fault(1), 0), Resume::Switch(0));
    assert!(s.is_killed(1));
    assert_eq!(s.killed_count(), 1);
    assert!(!s.all_killed());
    let mut stack = vec![0u8; STACK as usize];
    assert!(s.respawn(1, &mut stack));
    assert!(stack.iter().all(|b| *b == 0xA5), "respawn repaints the stack");
    assert!(!s.is_killed(1));
    stack[0] = 7;
    assert!(!s.respawn(1, &mut stack));
    assert_eq!(stack[0], 7);
}

#[test]
fn last_task_killed_halts() {
    let mut s = sched_with(&[Priority::App]);
    s.start(0);
    assert_eq!(s.kill_current_and_resume(fault(0), 0), Resume::Halt);
    assert!(s.all_killed());
}

#[test]
fn killed_owner_releases_mutex() {
    let mut s = sched_with(&[Priority::App, Priority::App, Priority::App]);
    s.force_start_for_test(0);
    s.set_current_for_test(0);
    assert!(s.mutex_acquire_for_test(1));
    s.set_current_for_test(2);
    assert_eq!(s.mutex_lock(1), Blocking::Block);
    s.set_current_for_test(0);
    assert!(!s.force_kill(0), "the running task is not force-killed");
    s.set_current_for_test(1);
    assert!(s.force_kill(0));
    assert_eq!(s.mutex_owner_for_test(1), Some(2));
    assert!(!s.is_blocked_on_mutex_for_test(2, 1));
}

#[test]
fn liveness_monitor_flags_hung_task() {
    let mut s = sched_with(&[Priority::App, Priority::App]);
    assert_eq!(s.start(0), Some(1));
    s.set_liveness_period(0, 100, 0);
    assert_eq!(s.liveness_deadline_for_test(0), Some(100));
    assert_eq!(s.liveness_overdue(99), None);
    assert_eq!(s.liveness_overdue(100), Some(0));
    s.liveness_checkin(0, 100);
    assert_eq!(s.liveness_overdue(150), None);
    s.set_liveness_period(1, 10, 0);
    assert_eq!(s.liveness_overdue(500), Some(0));
    s.set_liveness_period(0, 0, 0);
    assert_eq!(s.liveness_deadline_for_test(0), None);
    assert_eq!(s.liveness_overdue(500), None, "the running task is never reported");
}

#[test]
fn stack_high_water_counts_touched_bytes() {
    let mut s = Scheduler::new();
    let mut stack = vec![0u8; 256];
    s.spawn(&mut stack, 0x2000_0000, Priority::App).unwrap();
    assert!(stack.iter().all(|b| *b == 0xA5));
    for b in stack.iter_mut().skip(200) {
        *b = 0;
    }
    assert_eq!(s.stack_high_water(0, &stack), 56);
    assert_eq!(s.stack_high_water(3, &stack), 0);
}

#[test]
fn priority_ranks() {
    assert_eq!(Priority::Kernel.rank(), 0);
    assert_eq!(Priority::from_rank(1), Priority::Service);
    assert_eq!(Priority::from_rank(9), Priority::App);
    assert!(power_of_two(1024));
    assert!(!power_of_two(768));
    assert!(!power_of_two(0));
}
