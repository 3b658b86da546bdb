use rtsched::ktimer::{CFS_KTIMER, WAIT_KTIMER};
use rtsched::runq::cfs_vruntime_delta;
use rtsched::{
    handle_sched_tick, init_cfs, init_ktimer_queue, msleepyi, next_ktimer_reload,
    register_idle_thread, schedule, spawn_main_thread, update_sys_clk_freq, yieldyi, AlignedStack,
    BinarySemaphore, CfsThreadBuilder, CountingSemaphore, Kernel, Mutex, MutexError, RtKTimer,
    RtThreadBuilder, RtTiming, SemaphoreError, SyncType, ThreadHandle, ThreadState,
};

const BASE: usize = 0x2000_0000;

fn scheduler() -> Kernel {
    let mut kernel = Kernel::new();
    update_sys_clk_freq(&mut kernel.core.clock, 1_000);
    init_ktimer_queue(&mut kernel);
    init_cfs(&mut kernel, 100, 25);
    kernel
}

fn cfs(kernel: &mut Kernel, name: &'static str, priority: u32) -> ThreadHandle {
    let mut stack = AlignedStack([0; 16]);
    CfsThreadBuilder::new(name, 0x100, priority).spawn(kernel, &mut stack, BASE)
}

fn rt(kernel: &mut Kernel, name: &'static str, period: u32, deadline: u32) -> ThreadHandle {
    let mut stack = AlignedStack([0; 16]);
    let timing = RtTiming::new(period, deadline, deadline);
    let timer = RtKTimer::new_with_timing(timing, None, name);
    RtThreadBuilder::new(name, 0x100, Some(timer)).spawn(kernel, &mut stack, BASE)
}

fn running(kernel: &Kernel) -> Vec<usize> {
    (0..kernel.core.ctx.len())
        .filter(|&slot| kernel.core.ctx[slot].state == ThreadState::Running)
        .collect()
}

#[test]
fn synchronization_types_are_ordered_by_their_tags() {
    let kinds = [
        SyncType::Mutex,
        SyncType::BinarySemaphore,
        SyncType::CountingSemaphore,
    ];
    for a in kinds {
        for b in kinds {
            assert_eq!(a.cmp(&b), a.wait_event().cmp(&b.wait_event()));
            assert_eq!(a.partial_cmp(&b), Some(a.cmp(&b)));
        }
        assert_eq!(SyncType::from_wait_event(a.wait_event()), Some(a));
    }
}

#[test]
fn charge_is_a_share_of_the_elapsed_time() {
    assert_eq!(cfs_vruntime_delta(400, 1, 5), 80);
    assert_eq!(cfs_vruntime_delta(400, 4, 5), 320);
    assert_eq!(cfs_vruntime_delta(400, 5, 5), 400);
    assert_eq!(cfs_vruntime_delta(0, 4, 5), 0);
    assert_eq!(cfs_vruntime_delta(u64::MAX, 4, 4), u64::MAX);
}

#[test]
fn earliest_deadline_runs_first_and_jobs_alternate() {
    let mut kernel = scheduler();
    let idle = cfs(&mut kernel, "idle", 16);
    register_idle_thread(&mut kernel.core, idle);
    let slow = rt(&mut kernel, "tb", 10, 10);
    let fast = rt(&mut kernel, "ta", 5, 5);
    spawn_main_thread(&mut kernel, idle);

    schedule(&mut kernel, Some(0));
    assert_eq!(kernel.core.current, Some(fast.slot));
    yieldyi(&mut kernel, 2);
    schedule(&mut kernel, Some(1));
    assert_eq!(kernel.core.current, Some(slow.slot));
    yieldyi(&mut kernel, 3);
    assert_eq!(kernel.queue.now_ticks(), 5);
    schedule(&mut kernel, Some(2));
    assert_eq!(kernel.core.current, Some(idle.slot));
    handle_sched_tick(&mut kernel, Some(0));
    schedule(&mut kernel, Some(0));
    assert_eq!(kernel.core.current, Some(fast.slot));
    assert_eq!(running(&kernel), [fast.slot]);
    yieldyi(&mut kernel, 2);
    schedule(&mut kernel, Some(1));
    assert_eq!(kernel.core.current, Some(idle.slot));
    assert_eq!(running(&kernel), [idle.slot]);
}

#[test]
fn next_release_is_one_period_after_the_start_of_the_job() {
    let mut kernel = scheduler();
    let idle = cfs(&mut kernel, "idle", 16);
    register_idle_thread(&mut kernel.core, idle);
    let control = rt(&mut kernel, "control", 50, 20);
    spawn_main_thread(&mut kernel, idle);
    schedule(&mut kernel, Some(0));
    kernel.core.runtime[control.slot] = 3;
    kernel.queue.advance_time(3);

    yieldyi(&mut kernel, 4);

    let timer = kernel.core.ktimer_of[control.slot].unwrap();
    assert_eq!(kernel.core.timers[timer].deadline_at(), 50);
    assert!(!kernel.core.timers[timer].is_active());
    assert_eq!(kernel.core.runtime[control.slot], 0);
}

#[test]
fn missed_deadline_stops_the_scheduler() {
    let mut kernel = scheduler();
    let idle = cfs(&mut kernel, "idle", 16);
    register_idle_thread(&mut kernel.core, idle);
    let late = rt(&mut kernel, "late", 50, 20);
    spawn_main_thread(&mut kernel, idle);
    schedule(&mut kernel, Some(0));
    kernel.core.runtime[late.slot] = 21;

    handle_sched_tick(&mut kernel, Some(19));

    assert_eq!(kernel.core.fault, Some(late.slot));
    assert_eq!(kernel.core.trace.counters.deadline_misses, 1);
    assert!(!kernel.core.switch_pending);
}

#[test]
fn dispatch_leaves_no_timer_due() {
    let mut kernel = scheduler();
    let slow = rt(&mut kernel, "slow", 50, 20);
    let fast = rt(&mut kernel, "fast", 30, 10);
    let timers = [
        WAIT_KTIMER,
        CFS_KTIMER,
        kernel.core.ktimer_of[slow.slot].unwrap(),
        kernel.core.ktimer_of[fast.slot].unwrap(),
    ];
    kernel.queue.advance_time(100);

    let next = kernel.queue.dispatch_expired(&mut kernel.core, 100);

    assert_eq!(next, Some(timers[3]));
    assert_eq!(kernel.queue.now_ticks(), 100);
    let deadlines: Vec<u64> = timers
        .iter()
        .map(|&timer| {
            assert!(kernel.queue.contains(&kernel.core.timers, timer));
            kernel.core.timers[timer].deadline_at()
        })
        .collect();
    assert_eq!(deadlines, [u64::MAX, 200, 120, 110]);
}

#[test]
fn unlock_gives_the_deadline_back_after_waking_the_next_owner() {
    let mut kernel = scheduler();
    let idle = cfs(&mut kernel, "idle", 16);
    register_idle_thread(&mut kernel.core, idle);
    let late = rt(&mut kernel, "late", 50, 20);
    spawn_main_thread(&mut kernel, idle);
    schedule(&mut kernel, Some(0));
    assert_eq!(kernel.core.current, Some(late.slot));
    let mut mutex = Mutex::new(());
    let guard = mutex.lock(&mut kernel, 0).ok().unwrap();
    let early = rt(&mut kernel, "early", 60, 10);
    schedule(&mut kernel, Some(0));
    assert_eq!(kernel.core.current, Some(early.slot));
    assert!(mutex.lock(&mut kernel, 0).is_ok());
    let timer = kernel.core.ktimer_of[late.slot].unwrap();
    assert!(kernel.core.timers[timer].deadline_at() < 20);
    assert!(mutex.state.owner_boosted);
    schedule(&mut kernel, Some(0));
    assert_eq!(kernel.core.current, Some(late.slot));

    guard.unlock(&mut mutex, &mut kernel);

    assert_eq!(kernel.core.timers[timer].deadline_at(), 20);
    assert!(!mutex.state.owner_boosted);
    assert!(mutex.is_locked());
    assert_eq!(early.state(&kernel.core), ThreadState::Ready);
}

#[test]
fn long_deadlines_are_approached_in_chunks() {
    let mut kernel = Kernel::new();
    init_ktimer_queue(&mut kernel);
    rt(&mut kernel, "slow", 40_000_000, 40_000_000);
    kernel
        .queue
        .remove(&mut kernel.core.timers, WAIT_KTIMER);
    let mut left: u64 = 40_000_000;
    while left > 0 {
        let reload = next_ktimer_reload(&kernel).unwrap();
        let interval = u64::from(reload) + 1;
        assert!(interval <= left);
        assert_eq!(interval, left.min(0x0100_0000));
        kernel.queue.advance_time(reload + 1);
        left -= interval;
    }
    assert_eq!(kernel.queue.now_ticks(), 40_000_000);
}

#[test]
fn sleeper_wakes_at_the_first_tick_that_is_late_enough() {
    for (ticks, woken) in [(8, false), (9, true), (30, true)] {
        let mut kernel = scheduler();
        let idle = cfs(&mut kernel, "idle", 16);
        let worker = cfs(&mut kernel, "worker", 1);
        register_idle_thread(&mut kernel.core, idle);
        spawn_main_thread(&mut kernel, worker);
        msleepyi(&mut kernel, 10, 2);
        schedule(&mut kernel, Some(1));
        assert_eq!(kernel.core.wait[worker.slot].wake_at, 12);
        handle_sched_tick(&mut kernel, Some(ticks));
        let state = worker.state(&kernel.core);
        assert_eq!(state == ThreadState::Ready, woken);
        assert_eq!(state == ThreadState::Waiting, !woken);
    }
}

#[test]
fn take_and_give_cancel() {
    let mut kernel = scheduler();
    let mut semaphore = CountingSemaphore::new(3, 2);
    assert_eq!(semaphore.take(&mut kernel, 0), Ok(()));
    assert_eq!(semaphore.count(), 1);
    assert_eq!(semaphore.give(&mut kernel), Ok(()));
    assert_eq!(semaphore.count(), 2);
    assert_eq!(semaphore.give(&mut kernel), Ok(()));
    assert_eq!(semaphore.give(&mut kernel), Err(SemaphoreError::Full));
    assert_eq!(semaphore.count(), semaphore.max_count());
}

#[test]
fn give_hands_the_token_to_the_waiter() {
    let mut kernel = scheduler();
    let idle = cfs(&mut kernel, "idle", 16);
    let worker = cfs(&mut kernel, "worker", 1);
    register_idle_thread(&mut kernel.core, idle);
    let mut semaphore = BinarySemaphore::empty();
    assert_eq!(
        semaphore.take(&mut kernel, 0),
        Err(SemaphoreError::NoCurrentThread)
    );
    spawn_main_thread(&mut kernel, worker);
    assert_eq!(semaphore.take(&mut kernel, 0), Ok(()));
    assert_eq!(worker.state(&kernel.core), ThreadState::Waiting);
    schedule(&mut kernel, Some(0));
    assert_eq!(kernel.core.current, Some(idle.slot));
    assert_eq!(semaphore.give(&mut kernel), Ok(()));
    assert_eq!(worker.state(&kernel.core), ThreadState::Ready);
    assert!(!semaphore.is_available());
    assert_eq!(semaphore.try_take(), Err(SemaphoreError::WouldBlock));
}

#[test]
fn mutex_has_one_owner_and_passes_on() {
    let mut kernel = scheduler();
    let idle = cfs(&mut kernel, "idle", 16);
    let first = cfs(&mut kernel, "first", 1);
    let second = cfs(&mut kernel, "second", 1);
    register_idle_thread(&mut kernel.core, idle);
    let mut mutex = Mutex::new(5);
    assert!(matches!(
        mutex.lock(&mut kernel, 0),
        Err(MutexError::NoCurrentThread)
    ));
    spawn_main_thread(&mut kernel, first);
    let mut guard = mutex.lock(&mut kernel, 0).ok().unwrap();
    *guard.deref_mut(&mut mutex) = 6;
    assert!(matches!(
        mutex.lock(&mut kernel, 0),
        Err(MutexError::WouldDeadlock)
    ));
    kernel.core.sched[first.slot].vruntime = 10;
    kernel.core.next_ktimer = Some(CFS_KTIMER);
    schedule(&mut kernel, Some(9));
    assert_eq!(kernel.core.current, Some(second.slot));
    assert!(matches!(
        mutex.try_lock(&kernel),
        Err(MutexError::WouldBlock)
    ));
    let waiting = mutex.lock(&mut kernel, 0).ok().unwrap();
    assert_eq!(second.state(&kernel.core), ThreadState::Waiting);
    schedule(&mut kernel, Some(0));
    assert_eq!(kernel.core.current, Some(first.slot));
    guard.unlock(&mut mutex, &mut kernel);
    assert!(mutex.is_locked());
    assert_eq!(second.state(&kernel.core), ThreadState::Ready);
    assert_eq!(*waiting.deref(&mutex), 6);
    assert_eq!(waiting.owner, second.slot);
    assert_eq!(mutex.into_inner(), 6);
}

#[test]
fn identifiers_follow_each_other() {
    let mut kernel = scheduler();
    let handles = [
        cfs(&mut kernel, "a", 1),
        rt(&mut kernel, "b", 40, 40),
        cfs(&mut kernel, "c", 1),
    ];
    let ids: Vec<u32> = handles
        .iter()
        .map(|handle| handle.id(&kernel.core).as_u32())
        .collect();
    assert_eq!(ids, [0, 1, 2]);
    assert_eq!(kernel.core.timers.len(), 3);
}
