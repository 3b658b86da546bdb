use rtsched::dispatch::wake_wait_thread;
use rtsched::ktimer::{
    programmable_reload_from_ticks, reload_from_ticks, writable_reload, KTimerEntity, KTimerQueue,
    WaitKTimer, CFS_KTIMER, KTIMER_DEADLINE_NEVER, WAIT_KTIMER,
};
use rtsched::platform::{SCHEDULER_TIMER_RELOAD_MAX, SCHEDULER_TIMER_RELOAD_MIN};
use rtsched::print::set_print_fn;
use rtsched::render::drain_text;
use rtsched::runq::SchedEntity;
use rtsched::spawn::{add_rt_ktimer, rt_ktimer_entity};
use rtsched::sync::SyncEntity;
use rtsched::timers::{enqueue_ktimer, yield_ktimer_in_queue};
use rtsched::waitq::{insert_wait_thread, WaitEntity};
use rtsched::{
    dequeue_rt_thread_to_waitq, enqueue_rt_thread_from_waitq, handle_sched_tick, init_cfs,
    init_ktimer_queue, is_active_ktimer, next_ktimer_reload, traverse_ktimer_queue,
    traverse_ktimer_queue_fn, Core, Kernel, RtKTimer, RtTiming, ThreadCtx, ThreadHandle,
    ThreadState, WaitQueueError,
};

/// Two fixed timers, followed by those of the test.
fn timers(own: &[KTimerEntity]) -> Vec<KTimerEntity> {
    let mut timers = vec![KTimerEntity::new(0), KTimerEntity::new(0)];
    timers.extend_from_slice(own);
    timers
}

fn add_thread(core: &mut Core, name: &'static str, is_cfs: bool) -> usize {
    core.ctx.push(ThreadCtx {
        sp: 0,
        exc_return: 0,
        id: 1,
        name,
        state: ThreadState::Ready,
        is_cfs,
    });
    core.wait.push(WaitEntity::new());
    core.sync.push(SyncEntity::new());
    core.sched.push(SchedEntity::new(1));
    core.ktimer_of.push(None);
    core.runtime.push(0);
    core.ctx.len() - 1
}

fn add_timer(core: &mut Core, timer: RtKTimer, thread: Option<usize>) -> usize {
    core.timers.push(timer.entity);
    core.timer_names.push(timer.name);
    core.timer_owner.push(thread);
    let slot = core.timers.len() - 1;
    if let Some(thread) = thread {
        core.ktimer_of[thread] = Some(slot);
    }
    slot
}

/// A real-time thread with a timer, and an unowned timer behind it.
fn rt_setup(timing: RtTiming, later: u32) -> (KTimerQueue, Core, usize, usize, usize) {
    let mut queue = KTimerQueue::new();
    let mut core = Core::new();
    let rt = add_thread(&mut core, "rt", false);
    let timer = add_timer(
        &mut core,
        RtKTimer::new_with_timing(timing, None, "rt"),
        Some(rt),
    );
    let active_later = add_timer(&mut core, RtKTimer::new(later, None, "later"), None);
    queue.insert(&mut core.timers, timer);
    queue.insert(&mut core.timers, active_later);
    (queue, core, rt, timer, active_later)
}

fn collect(queue: &KTimerQueue, timers: &Vec<KTimerEntity>) -> Vec<usize> {
    let mut slots = Vec::new();
    let mut slot = queue.first();
    while let Some(here) = slot {
        slots.push(here);
        slot = queue.next(timers, here);
    }
    slots
}

fn collect_deadlines_at(queue: &KTimerQueue, timers: &Vec<KTimerEntity>) -> Vec<u64> {
    collect(queue, timers)
        .iter()
        .map(|slot| timers[*slot].deadline_at())
        .collect()
}

fn collect_remaining(queue: &KTimerQueue, timers: &Vec<KTimerEntity>) -> Vec<u32> {
    collect(queue, timers)
        .iter()
        .map(|slot| timers[*slot].remaining_at(queue.now_ticks()))
        .collect()
}

#[test]
fn reload_from_ticks_converts_to_scheduler_timer_reload() {
    assert_eq!(reload_from_ticks(0), None);
    assert_eq!(reload_from_ticks(1), Some(0));
    assert_eq!(reload_from_ticks(2), Some(SCHEDULER_TIMER_RELOAD_MIN));
    assert_eq!(reload_from_ticks(42), Some(41));
    assert_eq!(
        reload_from_ticks(SCHEDULER_TIMER_RELOAD_MAX + 1),
        Some(SCHEDULER_TIMER_RELOAD_MAX)
    );
    assert_eq!(reload_from_ticks(SCHEDULER_TIMER_RELOAD_MAX + 2), None);
}

#[test]
fn writable_reload_clamps_raw_zero_to_minimum_reload() {
    assert_eq!(writable_reload(0), SCHEDULER_TIMER_RELOAD_MIN);
    assert_eq!(
        writable_reload(SCHEDULER_TIMER_RELOAD_MAX + 1),
        SCHEDULER_TIMER_RELOAD_MAX
    );
    assert_eq!(
        programmable_reload_from_ticks(0),
        SCHEDULER_TIMER_RELOAD_MIN
    );
    assert_eq!(
        programmable_reload_from_ticks(1),
        SCHEDULER_TIMER_RELOAD_MIN
    );
}

#[test]
fn insert_orders_timers_by_deadline() {
    let mut queue = KTimerQueue::new();
    let mut timers = timers(&[
        KTimerEntity::new(30),
        KTimerEntity::new(10),
        KTimerEntity::new(20),
        KTimerEntity::new(5),
    ]);

    for slot in 2..6 {
        queue.insert(&mut timers, slot);
    }

    assert_eq!(queue.len(), 4);
    assert_eq!(collect_deadlines_at(&queue, &timers), [5, 10, 20, 30]);
    assert_eq!(collect_remaining(&queue, &timers), [5, 10, 20, 30]);
    assert_eq!(queue.next_deadline(&timers), Some(5));
    assert_eq!(queue.next_reload(&timers), Some(4));
    assert_eq!(timers[queue.first().unwrap()].deadline_at(), 5);
    assert_eq!(timers[queue.last(&timers).unwrap()].deadline_at(), 30);
}

#[test]
fn equal_deadlines_keep_strict_entity_ordering() {
    let mut queue = KTimerQueue::new();
    let mut timers = timers(&[KTimerEntity::new(12), KTimerEntity::new(12)]);

    queue.insert(&mut timers, 2);
    queue.insert(&mut timers, 3);

    assert_eq!(queue.len(), 2);
    assert_eq!(collect_deadlines_at(&queue, &timers), [12, 12]);
}

#[test]
fn advance_time_updates_queue_clock_without_rewriting_deadlines() {
    let mut queue = KTimerQueue::new();
    let parked = WaitKTimer::inactive();
    let mut timers = timers(&[KTimerEntity::new(3), KTimerEntity::new(20), parked.entity]);
    let (short, long, parked) = (2, 3, 4);

    queue.insert(&mut timers, short);
    queue.insert(&mut timers, long);
    queue.insert(&mut timers, parked);
    queue.advance_time(5);

    assert_eq!(queue.now_ticks(), 5);
    assert_eq!(timers[short].deadline_at(), 3);
    assert_eq!(timers[long].deadline_at(), 20);
    assert_eq!(timers[parked].deadline_at(), KTIMER_DEADLINE_NEVER);
    assert_eq!(timers[short].remaining_at(queue.now_ticks()), 0);
    assert_eq!(timers[long].remaining_at(queue.now_ticks()), 15);
    assert_eq!(
        timers[parked].remaining_at(queue.now_ticks()),
        SCHEDULER_TIMER_RELOAD_MAX
    );
    assert_eq!(
        collect_remaining(&queue, &timers),
        [0, 15, SCHEDULER_TIMER_RELOAD_MAX]
    );
}

#[test]
fn next_reload_clamps_immediate_deadlines_to_minimum_reload() {
    let mut queue = KTimerQueue::new();
    let mut timers = timers(&[KTimerEntity::new(0)]);

    queue.insert(&mut timers, 2);

    assert_eq!(queue.next_deadline(&timers), Some(0));
    assert_eq!(queue.next_reload(&timers), Some(SCHEDULER_TIMER_RELOAD_MIN));
}

#[test]
fn next_reload_clamps_far_deadlines_to_maximum_reload() {
    let mut queue = KTimerQueue::new();
    let mut far = KTimerEntity::new(1);
    far.set_deadline_at(u64::from(SCHEDULER_TIMER_RELOAD_MAX) + 42);
    let mut timers = timers(&[far]);

    queue.insert(&mut timers, 2);

    assert_eq!(queue.next_deadline(&timers), Some(SCHEDULER_TIMER_RELOAD_MAX));
    assert_eq!(queue.next_reload(&timers), Some(SCHEDULER_TIMER_RELOAD_MAX));
}

#[test]
fn cfs_reload_honors_boosted_deadline_before_execution_slice() {
    let mut kernel = Kernel::new();

    init_ktimer_queue(&mut kernel);
    init_cfs(&mut kernel, 100, 25);

    kernel.queue.remove(&mut kernel.core.timers, CFS_KTIMER);
    kernel.core.timers[CFS_KTIMER].set_deadline_at(5);
    kernel.core.timers[CFS_KTIMER].reset_links();
    kernel.queue.insert(&mut kernel.core.timers, CFS_KTIMER);

    assert_eq!(kernel.queue.next_reload(&kernel.core.timers), Some(4));
}

#[test]
fn long_rt_deadline_is_dispatched_after_multiple_scheduler_timer_chunks() {
    let mut queue = KTimerQueue::new();
    let mut core = Core::new();
    let rt = add_thread(&mut core, "rt", false);
    let timer = add_timer(&mut core, RtKTimer::new(50, None, "rt"), Some(rt));
    let max_chunk_ticks = SCHEDULER_TIMER_RELOAD_MAX + 1;
    let long_deadline = u64::from(max_chunk_ticks) * 2 + 5;

    core.timers[timer].set_deadline_at(long_deadline);
    queue.insert(&mut core.timers, timer);

    assert_eq!(queue.next_reload(&core.timers), Some(SCHEDULER_TIMER_RELOAD_MAX));

    queue.advance_time(max_chunk_ticks);
    let next = queue.dispatch_expired(&mut core, max_chunk_ticks);
    assert_eq!(next, Some(timer));
    assert_eq!(queue.now_ticks(), u64::from(max_chunk_ticks));
    assert_eq!(core.timers[timer].deadline_at(), long_deadline);
    assert_eq!(core.timers[timer].miss_cnt, 0);
    assert_eq!(queue.next_reload(&core.timers), Some(SCHEDULER_TIMER_RELOAD_MAX));

    queue.advance_time(max_chunk_ticks);
    let next = queue.dispatch_expired(&mut core, max_chunk_ticks);
    assert_eq!(next, Some(timer));
    assert_eq!(queue.now_ticks(), u64::from(max_chunk_ticks) * 2);
    assert_eq!(core.timers[timer].deadline_at(), long_deadline);
    assert_eq!(core.timers[timer].miss_cnt, 0);
    assert_eq!(queue.next_reload(&core.timers), Some(4));

    queue.advance_time(5);
    let next = queue.dispatch_expired(&mut core, 5);

    assert_eq!(next, Some(timer));
    assert_eq!(queue.now_ticks(), long_deadline);
    assert_eq!(core.timers[timer].miss_cnt, 0);
    assert_eq!(core.timers[timer].deadline_at(), long_deadline + 50);
}

#[test]
fn first_active_skips_inactive_timers() {
    let mut queue = KTimerQueue::new();
    let mut timers = timers(&[
        KTimerEntity::new(5),
        KTimerEntity::new(20),
        KTimerEntity::new(10),
    ]);
    let (inactive_early, active_late, inactive_middle) = (2, 3, 4);

    timers[inactive_early].set_active(false);
    timers[inactive_middle].set_active(false);

    queue.insert(&mut timers, active_late);
    queue.insert(&mut timers, inactive_early);
    queue.insert(&mut timers, inactive_middle);

    assert_eq!(queue.first_active(&timers), Some(active_late));
}

#[test]
fn active_timers_remain_sorted_by_absolute_deadline() {
    let mut queue = KTimerQueue::new();
    let mut timers = timers(&[
        KTimerEntity::new(30),
        KTimerEntity::new(5),
        KTimerEntity::new(10),
        KTimerEntity::new(40),
        KTimerEntity::new(50),
    ]);
    let (inactive_first, active_first, inactive_late) = (3, 4, 5);

    timers[inactive_first].set_active(false);
    timers[inactive_late].set_active(false);

    for slot in 2..7 {
        queue.insert(&mut timers, slot);
    }

    assert_eq!(collect_deadlines_at(&queue, &timers), [5, 10, 30, 40, 50]);
    let active: Vec<u64> = collect(&queue, &timers)
        .iter()
        .filter(|slot| timers[**slot].is_active())
        .map(|slot| timers[*slot].deadline_at())
        .collect();
    assert_eq!(active, [10, 30, 50]);
    assert_eq!(queue.first_active(&timers), Some(active_first));
}

#[test]
fn remove_detaches_timer_from_queue() {
    let mut queue = KTimerQueue::new();
    let mut timers = timers(&[
        KTimerEntity::new(8),
        KTimerEntity::new(4),
        KTimerEntity::new(12),
    ]);

    for slot in 2..5 {
        queue.insert(&mut timers, slot);
    }

    let removed = queue.remove(&mut timers, 3);

    assert_eq!(removed, 3);
    assert!(!timers[3].is_linked());
    assert_eq!(queue.len(), 2);
    assert_eq!(collect_deadlines_at(&queue, &timers), [8, 12]);
}

#[test]
fn left_most_cache_tracks_queue_mutations() {
    let mut queue = KTimerQueue::new();
    let mut timers = timers(&[
        KTimerEntity::new(30),
        KTimerEntity::new(5),
        KTimerEntity::new(20),
    ]);
    let (late, early, middle) = (2, 3, 4);

    assert_eq!(queue.left_most, None);

    queue.insert(&mut timers, late);
    assert_eq!(queue.first(), Some(late));

    queue.insert(&mut timers, early);
    assert_eq!(queue.first(), Some(early));

    queue.insert(&mut timers, middle);
    assert_eq!(queue.first(), Some(early));

    queue.remove(&mut timers, early);
    assert_eq!(queue.first(), Some(middle));

    assert_eq!(queue.pop_first(&mut timers), Some(middle));
    assert_eq!(queue.first(), Some(late));

    queue.remove(&mut timers, late);
    assert_eq!(queue.left_most, None);
    assert_eq!(queue.first(), None);
}

#[test]
fn pop_first_returns_timers_in_deadline_order() {
    let mut queue = KTimerQueue::new();
    let mut timers = timers(&[
        KTimerEntity::new(40),
        KTimerEntity::new(15),
        KTimerEntity::new(25),
        KTimerEntity::new(1),
    ]);

    for slot in 2..6 {
        queue.insert(&mut timers, slot);
    }

    let mut popped = Vec::new();
    while let Some(slot) = queue.pop_first(&mut timers) {
        popped.push(timers[slot].deadline_at());
        assert!(!timers[slot].is_linked());
    }

    assert_eq!(popped, [1, 15, 25, 40]);
    assert!(queue.is_empty(&timers));
    assert_eq!(queue.len(), 0);
    assert_eq!(queue.next_deadline(&timers), None);
    assert_eq!(queue.next_reload(&timers), None);
}

#[test]
fn rt_timing_constructor_separates_period_deadline_and_budget() {
    let ktimer = RtKTimer::new_with_timing(RtTiming::new(100, 40, 20), None, "rt");

    assert_eq!(ktimer.period_ticks(), 100);
    assert_eq!(ktimer.relative_deadline_ticks(), 40);
    assert_eq!(ktimer.budget_ticks(), 20);
    assert_eq!(ktimer.timing(), RtTiming::new(100, 40, 20));
    assert_eq!(ktimer.entity.timing(), RtTiming::new(100, 40, 20));
    assert_eq!(ktimer.entity.deadline_at(), 40);
}

#[test]
fn rt_yield_marks_timer_inactive_and_preserves_remaining_period() {
    let (mut queue, mut core, rt, timer, active_later) = rt_setup(RtTiming::from_period(100), 200);

    let next = yield_ktimer_in_queue(&mut queue, &mut core, Some(timer), 20, false);
    assert_eq!(next, Some(active_later));

    assert_eq!(core.runtime[rt], 20);
    assert!(!core.timers[timer].is_active());
    assert_eq!(core.timers[timer].deadline_at(), 100);
    assert_eq!(queue.now_ticks(), 20);
    assert_eq!(core.timers[timer].remaining_at(queue.now_ticks()), 80);
}

#[test]
fn rt_yield_with_reset_runtime_finishes_current_job_window() {
    let (mut queue, mut core, rt, timer, active_later) = rt_setup(RtTiming::from_period(60), 120);

    let next = yield_ktimer_in_queue(&mut queue, &mut core, Some(timer), 15, true);
    assert_eq!(next, Some(active_later));

    assert_eq!(core.runtime[rt], 0);
    assert!(!core.timers[timer].is_active());
    assert_eq!(core.timers[timer].deadline_at(), 60);
    assert_eq!(queue.now_ticks(), 15);
    assert_eq!(core.timers[timer].remaining_at(queue.now_ticks()), 45);
}

#[test]
fn rt_yield_uses_period_for_next_release_not_relative_deadline() {
    let (mut queue, mut core, rt, timer, active_later) =
        rt_setup(RtTiming::new(100, 40, 100), 200);

    let next = yield_ktimer_in_queue(&mut queue, &mut core, Some(timer), 15, false);
    assert_eq!(next, Some(active_later));

    assert_eq!(core.runtime[rt], 15);
    assert!(!core.timers[timer].is_active());
    assert_eq!(core.timers[timer].deadline_at(), 100);
    assert_eq!(queue.now_ticks(), 15);
    assert_eq!(core.timers[timer].remaining_at(queue.now_ticks()), 85);
    assert_eq!(core.timers[timer].miss_cnt, 0);
}

#[test]
fn rt_yield_records_budget_overrun_independent_of_deadline() {
    let (mut queue, mut core, rt, timer, active_later) = rt_setup(RtTiming::new(100, 80, 10), 200);
    set_print_fn(&mut core.printer);

    let next = yield_ktimer_in_queue(&mut queue, &mut core, Some(timer), 15, false);
    assert_eq!(next, Some(active_later));

    assert_eq!(core.runtime[rt], 15);
    assert_eq!(core.timers[timer].miss_cnt, 1);
    assert!(!core.timers[timer].is_active());
    assert_eq!(core.timers[timer].deadline_at(), 100);
    assert_eq!(
        drain_text(&mut core.printer),
        [
            "Budget overrun in thread 'rt': runtime 15 ticks exceeded budget 10 ticks",
            "\r\n"
        ]
    );
}

fn sleeping_rt(timing: RtTiming) -> (KTimerQueue, Core, usize, usize) {
    let mut queue = KTimerQueue::new();
    let mut core = Core::new();
    let rt = add_thread(&mut core, "rt", false);
    let timer = add_timer(
        &mut core,
        RtKTimer::new_with_timing(timing, None, "rt"),
        Some(rt),
    );
    core.runtime[rt] = 20;
    core.ctx[rt].state = ThreadState::Waiting;
    core.wait[rt].set_wake_after(0, 50);
    insert_wait_thread(&mut core, rt);
    queue.advance_time(50);
    (queue, core, rt, timer)
}

#[test]
fn wake_wait_thread_charges_wait_elapsed_to_rt_deadline() {
    let (mut queue, mut core, rt, timer) = sleeping_rt(RtTiming::from_period(100));

    wake_wait_thread(&mut queue, &mut core, 30);

    assert!(core.ctx[rt].state == ThreadState::Ready);
    assert_eq!(core.runtime[rt], 50);
    assert!(core.timers[timer].is_active());
    assert_eq!(core.timers[timer].deadline_at(), 100);
    assert_eq!(core.timers[timer].remaining_at(queue.now_ticks()), 50);
    assert_eq!(queue.first_active(&core.timers), Some(timer));
}

#[test]
fn wake_wait_thread_uses_relative_deadline_not_period() {
    let (mut queue, mut core, rt, timer) = sleeping_rt(RtTiming::new(100, 60, 100));

    wake_wait_thread(&mut queue, &mut core, 30);

    assert_eq!(core.runtime[rt], 50);
    assert!(core.timers[timer].is_active());
    assert_eq!(core.timers[timer].deadline_at(), 60);
    assert_eq!(core.timers[timer].remaining_at(queue.now_ticks()), 10);
}

#[test]
fn rt_waiting_thread_is_moved_from_ktimer_queue_to_wait_queue() {
    let mut kernel = Kernel::new();
    init_ktimer_queue(&mut kernel);
    init_cfs(&mut kernel, 1_000, 25);
    let rt = add_thread(&mut kernel.core, "rt", false);
    kernel.core.wait[rt].set_wake_after(0, 10);
    let handle = ThreadHandle { slot: rt };
    let timer = add_rt_ktimer(&mut kernel, RtKTimer::new(100, None, "rt"));
    RtKTimer::init_rt_thread(&mut kernel, timer, handle);
    enqueue_ktimer(&mut kernel, timer);

    assert!(kernel.queue.contains(&kernel.core.timers, timer));

    assert!(dequeue_rt_thread_to_waitq(&mut kernel, handle).is_ok());

    assert!(kernel.core.ctx[rt].state == ThreadState::Waiting);
    assert!(!kernel.queue.contains(&kernel.core.timers, timer));
    assert!(kernel.core.wait_queue.tree.contains(&kernel.core.wait, rt));
    assert_eq!(rt_ktimer_entity(&kernel.core, handle), Some(timer));
    assert_eq!(
        KTimerEntity::rt_ktimer(&kernel.core, timer).thread_ctx(),
        Some(rt)
    );

    assert!(enqueue_rt_thread_from_waitq(&mut kernel, handle).is_ok());

    assert!(kernel.core.ctx[rt].state == ThreadState::Ready);
    assert!(kernel.queue.contains(&kernel.core.timers, timer));
    assert!(!kernel.core.wait_queue.tree.contains(&kernel.core.wait, rt));
}

#[test]
fn fair_threads_and_threads_without_timer_are_not_found_in_the_timer_queue() {
    let mut kernel = Kernel::new();
    init_ktimer_queue(&mut kernel);
    init_cfs(&mut kernel, 1_000, 25);
    let rt = add_thread(&mut kernel.core, "rt", false);
    let cfs = add_thread(&mut kernel.core, "cfs", true);

    for slot in [rt, cfs] {
        let handle = ThreadHandle { slot };
        assert_eq!(
            dequeue_rt_thread_to_waitq(&mut kernel, handle),
            Err(WaitQueueError::NotFound)
        );
        assert_eq!(
            enqueue_rt_thread_from_waitq(&mut kernel, handle),
            Err(WaitQueueError::NotFound)
        );
    }
    assert_eq!(rt_ktimer_entity(&kernel.core, ThreadHandle { slot: rt }), None);
}

fn expiring_rt(timing: RtTiming, runtime: u32, deadline_at: u64) -> (KTimerQueue, Core, usize, usize) {
    let mut queue = KTimerQueue::new();
    let mut core = Core::new();
    let rt = add_thread(&mut core, "rt", false);
    let timer = add_timer(
        &mut core,
        RtKTimer::new_with_timing(timing, None, "rt"),
        Some(rt),
    );
    core.runtime[rt] = runtime;
    core.timers[timer].set_deadline_at(deadline_at);
    queue.insert(&mut core.timers, timer);
    queue.advance_time(deadline_at as u32);
    (queue, core, rt, timer)
}

#[test]
fn dispatch_expired_active_rt_timer_records_deadline_miss() {
    let (mut queue, mut core, rt, timer) = expiring_rt(RtTiming::from_period(50), 55, 10);
    set_print_fn(&mut core.printer);

    let next = queue.dispatch_until_miss(&mut core, 10);

    assert_eq!(next, None);
    assert_eq!(core.fault, Some(rt));
    let printed = drain_text(&mut core.printer);
    assert!(printed
        .iter()
        .any(|message| message.contains("ktimer queue statistics")));
    assert!(printed
        .iter()
        .any(|message| message.contains("thread statistics")));
    assert_eq!(core.timers[timer].miss_cnt, 1);
    assert_eq!(core.runtime[rt], 55);
    assert!(core.timers[timer].is_active());
    assert_eq!(core.timers[timer].deadline_at(), 10);
}

#[test]
fn deadline_miss_report_lists_timers_and_threads() {
    let (mut queue, mut core, rt, _) = expiring_rt(RtTiming::new(100, 50, 50), 55, 10);
    set_print_fn(&mut core.printer);
    let sleeper = add_thread(&mut core, "sleeper", true);
    core.wait[sleeper].set_wake_after(0, 25);
    core.ctx[sleeper].state = ThreadState::Waiting;
    insert_wait_thread(&mut core, sleeper);
    core.current = Some(rt);
    core.ctx[rt].state = ThreadState::Running;

    queue.dispatch_until_miss(&mut core, 10);

    let lines: Vec<String> = drain_text(&mut core.printer)
        .into_iter()
        .filter(|piece| piece != "\r\n")
        .collect();
    assert_eq!(
        lines,
        [
            "Deadline miss in thread 'rt': timer expired at relative deadline 50 ticks (runtime 55 ticks)",
            "rt deadline miss diagnostics:",
            "ktimer queue statistics: now=10 len=0 first_active='<none>'",
            "  * expired timer was already removed from the queue",
            "  * name='rt' kind=rt queued=no deadline_at=10 remaining=0 active=yes misses=1",
            "    rt timing: period=100 relative_deadline=50 budget=50 thread_id=1 thread_state=Running runtime=55",
            "thread statistics:",
            "  missed: id=1 name='rt' class=rt state=Running runtime=55 ktimer='rt' deadline_at=10 remaining=0 active=yes misses=1",
            "  current: id=1 name='rt' class=rt state=Running runtime=55 ktimer='rt' deadline_at=10 remaining=0 active=yes misses=1",
            "  idle: <none>",
            "  cfs threads:",
            "    <empty>",
            "  wait queue:",
            "    wait: id=1 name='sleeper' class=cfs state=Waiting wait_ticks=15 waitevt=none",
        ]
    );
}

#[test]
fn dispatch_expired_active_rt_timer_uses_relative_deadline() {
    let (mut queue, mut core, rt, timer) = expiring_rt(RtTiming::new(100, 40, 20), 45, 100);

    queue.dispatch_until_miss(&mut core, 100);

    assert_eq!(core.fault, Some(rt));
    assert_eq!(core.timers[timer].miss_cnt, 1);
    assert_eq!(core.runtime[rt], 45);
    assert!(core.timers[timer].is_active());
    assert_eq!(core.timers[timer].deadline_at(), 100);
}

#[test]
fn dispatch_expired_active_rt_timer_without_runtime_over_deadline_is_not_miss() {
    let (mut queue, mut core, rt, timer) = expiring_rt(RtTiming::from_period(50), 50, 10);

    let next = queue.dispatch_expired(&mut core, 10);

    assert_eq!(next, Some(timer));
    assert_eq!(core.timers[timer].miss_cnt, 0);
    assert_eq!(core.runtime[rt], 0);
    assert!(core.timers[timer].is_active());
    assert_eq!(core.timers[timer].deadline_at(), 60);
}

#[test]
fn dispatch_expired_inactive_rt_timer_reactivates_without_miss() {
    let (mut queue, mut core, rt, timer) = expiring_rt(RtTiming::from_period(50), 30, 10);
    core.timers[timer].set_active(false);

    let next = queue.dispatch_expired(&mut core, 10);

    assert_eq!(next, Some(timer));
    assert_eq!(core.timers[timer].miss_cnt, 0);
    assert_eq!(core.runtime[rt], 0);
    assert!(core.timers[timer].is_active());
    assert_eq!(core.timers[timer].deadline_at(), 60);
}

#[test]
fn dispatch_expired_inactive_rt_timer_uses_relative_deadline() {
    let (mut queue, mut core, rt, timer) = expiring_rt(RtTiming::new(100, 40, 20), 30, 100);
    core.timers[timer].set_active(false);

    let next = queue.dispatch_expired(&mut core, 100);

    assert_eq!(next, Some(timer));
    assert_eq!(core.timers[timer].miss_cnt, 0);
    assert_eq!(core.runtime[rt], 0);
    assert!(core.timers[timer].is_active());
    assert_eq!(core.timers[timer].deadline_at(), 140);
}

#[test]
fn fair_window_closes_and_opens_again() {
    let mut kernel = Kernel::new();
    init_ktimer_queue(&mut kernel);
    init_cfs(&mut kernel, 100, 25);
    assert_eq!(next_ktimer_reload(&kernel), Some(24));

    handle_sched_tick(&mut kernel, Some(24));
    assert_eq!(kernel.queue.now_ticks(), 25);
    assert_eq!(kernel.core.timers[CFS_KTIMER].deadline_at(), 100);
    assert_eq!(kernel.core.next_ktimer, Some(CFS_KTIMER));
    assert!(kernel.core.switch_pending);

    kernel.core.timers[CFS_KTIMER].set_active(false);
    handle_sched_tick(&mut kernel, Some(74));
    assert_eq!(kernel.queue.now_ticks(), 100);
    assert!(kernel.core.timers[CFS_KTIMER].is_active());
    assert_eq!(kernel.core.timers[CFS_KTIMER].deadline_at(), 200);
}

#[test]
fn traversal_names_timers_in_the_order_of_their_deadlines() {
    let mut kernel = Kernel::new();
    init_ktimer_queue(&mut kernel);
    init_cfs(&mut kernel, 100, 25);
    let rt = add_thread(&mut kernel.core, "rt", false);
    let timer = add_rt_ktimer(&mut kernel, RtKTimer::new(10, None, "control"));
    RtKTimer::init_rt_ktimer(&mut kernel, timer, rt);
    enqueue_ktimer(&mut kernel, timer);

    assert_eq!(
        traverse_ktimer_queue_fn(&kernel),
        [
            ("control", 10),
            ("cfs", 25),
            ("wait", SCHEDULER_TIMER_RELOAD_MAX)
        ]
    );
    assert!(is_active_ktimer(&kernel, "control"));
    assert!(!is_active_ktimer(&kernel, "wait"));
    assert!(!is_active_ktimer(&kernel, "missing"));
    assert_eq!(kernel.core.timers[WAIT_KTIMER].deadline_at(), KTIMER_DEADLINE_NEVER);

    set_print_fn(&mut kernel.core.printer);
    traverse_ktimer_queue(&mut kernel);
    assert_eq!(
        drain_text(&mut kernel.core.printer),
        [
            "ktimer queue:",
            "\r\n",
            "control ktimer's deadline=10, active=true",
            "\r\n",
            "cfs ktimer's deadline=25, active=true",
            "\r\n",
            "wait ktimer's deadline=16777215, active=false",
            "\r\n"
        ]
    );
}
