use rtsched::ktimer::{CFS_KTIMER, KTIMER_DEADLINE_NEVER, WAIT_KTIMER};
use rtsched::runq::{init_cfs_rq, SchedEntity};
use rtsched::sched::{is_idle_thread, is_selectable, schedule_next};
use rtsched::sync::SyncEntity;
use rtsched::timers::{elapsed_ticks_since_current_reload, elapsed_ticks_since_last_interrupt};
use rtsched::waitq::WaitEntity;
use rtsched::{
    can_schedule, handle_sched_tick, init_cfs, init_ktimer_queue, msleepyi, next_ktimer_reload,
    register_idle_thread, schedule, spawn_main_thread, traverse_idle_thread_fn,
    update_sys_clk_freq, yieldyi, AlignedStack, CfsThreadBuilder, Core, HostPlatform, Kernel,
    RtKTimer, RtThreadBuilder, RtTiming, ThreadCtx, ThreadHandle, ThreadState,
};

fn add_thread(core: &mut Core, name: &'static str, state: ThreadState, is_cfs: bool) -> usize {
    core.ctx.push(ThreadCtx {
        sp: 0,
        exc_return: 0,
        id: 1,
        name,
        state,
        is_cfs,
    });
    core.wait.push(WaitEntity::new());
    core.sync.push(SyncEntity::new());
    core.sched.push(SchedEntity::new(0));
    core.ktimer_of.push(None);
    core.runtime.push(0);
    core.ctx.len() - 1
}

fn cfs_thread(
    core: &mut Core,
    name: &'static str,
    priority: u32,
    vruntime: u64,
    state: ThreadState,
) -> usize {
    let slot = add_thread(core, name, state, true);
    core.sched[slot] = SchedEntity::new(priority);
    core.sched[slot].vruntime = vruntime;
    slot
}

fn rt_thread(core: &mut Core, name: &'static str) -> usize {
    add_thread(core, name, ThreadState::Running, false)
}

fn rt_timer(core: &mut Core, period: u32, thread: usize) -> usize {
    let timer = RtKTimer::new(period, None, "rt");
    core.timers.push(timer.entity);
    core.timer_names.push(timer.name);
    core.timer_owner.push(Some(thread));
    core.ktimer_of[thread] = Some(core.timers.len() - 1);
    core.timers.len() - 1
}

fn queue_cfs_thread(core: &mut Core, thread: usize) {
    core.sched[thread].reset_links();
    core.run_queue.tree.insert(&mut core.sched, thread);
    core.run_queue.priority_sum += core.sched[thread].priority;
}

fn set_current(core: &mut Core, thread: usize) {
    core.current = Some(thread);
    core.current_is_cfs = core.ctx[thread].is_cfs;
}

fn running_thread_count(core: &Core) -> usize {
    core.ctx
        .iter()
        .filter(|thread| thread.state == ThreadState::Running)
        .count()
}

fn first_runnable(core: &Core) -> Option<usize> {
    core.run_queue.tree.first(&core.sched)
}

#[test]
fn init_cfs_resets_run_queue_and_configures_cfs_timer() {
    let mut kernel = Kernel::new();

    init_ktimer_queue(&mut kernel);
    init_cfs(&mut kernel, 100, 25);

    assert_eq!(kernel.core.run_queue.tree.len(), 0);
    assert_eq!(kernel.core.run_queue.priority_sum, 0);
    let entity = &kernel.core.timers[CFS_KTIMER];
    assert_eq!(entity.period_ticks(), 100);
    assert_eq!(entity.deadline(), 25);
    assert_eq!(entity.relative_deadline_ticks(), 25);
    assert!(entity.is_active());
}

#[test]
fn cfs_accounting_updates_vruntime_and_sched_ticks() {
    let mut core = Core::new();
    let current = cfs_thread(&mut core, "current", 1, 0, ThreadState::Running);
    let queued = cfs_thread(&mut core, "queued", 3, 100, ThreadState::Ready);
    set_current(&mut core, current);
    queue_cfs_thread(&mut core, queued);
    core.run_queue.priority_sum += 1;

    schedule_next(&mut core, Some(CFS_KTIMER), 12);

    assert_eq!(core.sched[current].sched_tick_cnt(), 12);
    assert_eq!(core.sched[current].vruntime(), 3);
    assert!(core.ctx[current].state == ThreadState::Running);
}

#[test]
fn cfs_preempts_current_when_queued_thread_has_lower_vruntime() {
    let mut core = Core::new();
    let current = cfs_thread(&mut core, "current", 2, 10, ThreadState::Running);
    let queued = cfs_thread(&mut core, "queued", 2, 5, ThreadState::Ready);
    set_current(&mut core, current);
    queue_cfs_thread(&mut core, queued);
    core.run_queue.priority_sum += 2;

    schedule_next(&mut core, Some(CFS_KTIMER), 10);

    assert_eq!(core.sched[current].vruntime(), 15);
    assert!(core.ctx[current].state == ThreadState::Ready);
    assert!(core.ctx[queued].state == ThreadState::Running);
    assert_eq!(running_thread_count(&core), 1);
    assert_eq!(core.current, Some(queued));
    assert!(core.current_is_cfs);
    assert_eq!(first_runnable(&core), Some(current));
}

#[test]
fn cfs_keeps_current_when_it_still_has_lower_vruntime() {
    let mut core = Core::new();
    let current = cfs_thread(&mut core, "current", 2, 0, ThreadState::Running);
    let queued = cfs_thread(&mut core, "queued", 2, 10, ThreadState::Ready);
    set_current(&mut core, current);
    queue_cfs_thread(&mut core, queued);
    core.run_queue.priority_sum += 2;

    schedule_next(&mut core, Some(CFS_KTIMER), 2);

    assert_eq!(core.sched[current].vruntime(), 1);
    assert!(core.ctx[current].state == ThreadState::Running);
    assert!(core.ctx[queued].state == ThreadState::Ready);
    assert_eq!(running_thread_count(&core), 1);
    assert_eq!(core.current, Some(current));
    assert!(core.current_is_cfs);
    assert_eq!(first_runnable(&core), Some(queued));
    assert!(!core.sched[current].is_linked());
}

#[test]
fn cfs_timer_switches_from_rt_thread_to_leftmost_cfs_thread() {
    let mut core = Core::new();
    let rt = rt_thread(&mut core, "rt");
    let first = cfs_thread(&mut core, "first", 1, 30, ThreadState::Ready);
    let second = cfs_thread(&mut core, "second", 1, 10, ThreadState::Ready);
    set_current(&mut core, rt);
    queue_cfs_thread(&mut core, first);
    queue_cfs_thread(&mut core, second);

    schedule_next(&mut core, Some(CFS_KTIMER), 0);

    assert!(core.ctx[rt].state == ThreadState::Ready);
    assert!(core.ctx[second].state == ThreadState::Running);
    assert_eq!(running_thread_count(&core), 1);
    assert_eq!(core.current, Some(second));
    assert!(core.current_is_cfs);
    assert_eq!(first_runnable(&core), Some(first));
}

#[test]
fn rt_timer_switches_from_cfs_thread_to_rt_thread_and_requeues_cfs() {
    let mut core = Core::new();
    let current = cfs_thread(&mut core, "cfs", 2, 4, ThreadState::Running);
    let rt = rt_thread(&mut core, "rt");
    let timer = rt_timer(&mut core, 50, rt);
    set_current(&mut core, current);
    core.run_queue.priority_sum = 2;

    schedule_next(&mut core, Some(timer), 0);

    assert!(core.ctx[current].state == ThreadState::Ready);
    assert!(core.ctx[rt].state == ThreadState::Running);
    assert_eq!(running_thread_count(&core), 1);
    assert_eq!(core.current, Some(rt));
    assert!(!core.current_is_cfs);
    assert_eq!(first_runnable(&core), Some(current));
}

#[test]
fn register_idle_thread_removes_it_from_cfs_run_queue() {
    let mut core = Core::new();
    let idle = cfs_thread(&mut core, "idle", 16, 0, ThreadState::Ready);
    queue_cfs_thread(&mut core, idle);

    register_idle_thread(&mut core, ThreadHandle { slot: idle });

    assert!(is_idle_thread(&core, idle));
    assert_eq!(core.idle, Some(idle));
    assert_eq!(core.run_queue.tree.len(), 0);
    assert_eq!(core.run_queue.priority_sum, 0);
    assert!(core.ctx[idle].state == ThreadState::Ready);
}

#[test]
fn cfs_timer_switches_from_rt_thread_to_idle_when_run_queue_is_empty() {
    let mut core = Core::new();
    let idle = cfs_thread(&mut core, "idle", 16, 0, ThreadState::Ready);
    let rt = rt_thread(&mut core, "rt");
    register_idle_thread(&mut core, ThreadHandle { slot: idle });
    set_current(&mut core, rt);

    schedule_next(&mut core, Some(CFS_KTIMER), 0);

    assert!(core.ctx[idle].state == ThreadState::Running);
    assert!(core.ctx[rt].state == ThreadState::Ready);
    assert_eq!(core.current, Some(idle));
    assert!(core.current_is_cfs);
    assert_eq!(core.run_queue.tree.len(), 0);
    assert_eq!(core.run_queue.priority_sum, 0);
}

#[test]
fn idle_thread_yields_to_queued_cfs_thread_without_entering_run_queue() {
    let mut core = Core::new();
    let idle = cfs_thread(&mut core, "idle", 16, 0, ThreadState::Ready);
    let queued = cfs_thread(&mut core, "queued", 1, 0, ThreadState::Ready);
    register_idle_thread(&mut core, ThreadHandle { slot: idle });
    core.ctx[idle].state = ThreadState::Running;
    set_current(&mut core, idle);
    queue_cfs_thread(&mut core, queued);

    schedule_next(&mut core, Some(CFS_KTIMER), 0);

    assert!(core.ctx[idle].state == ThreadState::Ready);
    assert!(core.ctx[queued].state == ThreadState::Running);
    assert_eq!(core.current, Some(queued));
    assert!(core.current_is_cfs);
    assert_eq!(core.run_queue.tree.len(), 0);
    assert_eq!(core.run_queue.priority_sum, core.sched[queued].priority);
}

#[test]
fn rt_timer_switches_from_idle_thread_without_requeueing_idle() {
    let mut core = Core::new();
    let idle = cfs_thread(&mut core, "idle", 16, 0, ThreadState::Ready);
    let rt = rt_thread(&mut core, "rt");
    register_idle_thread(&mut core, ThreadHandle { slot: idle });
    core.ctx[idle].state = ThreadState::Running;
    let timer = rt_timer(&mut core, 50, rt);
    set_current(&mut core, idle);

    schedule_next(&mut core, Some(timer), 0);

    assert!(core.ctx[idle].state == ThreadState::Ready);
    assert!(core.ctx[rt].state == ThreadState::Running);
    assert_eq!(core.current, Some(rt));
    assert!(!core.current_is_cfs);
    assert_eq!(core.run_queue.tree.len(), 0);
    assert_eq!(core.run_queue.priority_sum, 0);
}

#[test]
fn traverse_idle_thread_visits_registered_idle_thread() {
    let mut core = Core::new();
    assert_eq!(traverse_idle_thread_fn(&core), None);
    let idle = cfs_thread(&mut core, "idle", 16, 0, ThreadState::Ready);

    register_idle_thread(&mut core, ThreadHandle { slot: idle });

    assert_eq!(traverse_idle_thread_fn(&core), Some(core.ctx[idle]));
}

#[test]
fn no_timer_selects_nothing() {
    let mut core = Core::new();
    let current = cfs_thread(&mut core, "current", 1, 5, ThreadState::Running);
    set_current(&mut core, current);
    core.run_queue.priority_sum = 1;
    schedule_next(&mut core, None, 10);
    assert_eq!(core.current, Some(current));
    assert_eq!(core.sched[current].vruntime(), 5);
    init_cfs_rq(&mut core);
    assert_eq!(core.run_queue.priority_sum, 0);
}

#[test]
fn idle_thread_is_not_charged() {
    let mut core = Core::new();
    let idle = cfs_thread(&mut core, "idle", 16, 0, ThreadState::Ready);
    register_idle_thread(&mut core, ThreadHandle { slot: idle });
    core.ctx[idle].state = ThreadState::Running;
    set_current(&mut core, idle);
    core.run_queue.priority_sum = 4;

    schedule_next(&mut core, Some(CFS_KTIMER), 100);

    assert_eq!(core.sched[idle].vruntime(), 0);
    assert_eq!(core.current, Some(idle));
}

#[test]
fn elapsed_ticks_follow_the_programmed_interval() {
    let mut kernel = Kernel::new();
    assert_eq!(elapsed_ticks_since_last_interrupt(&kernel, None), 0);
    init_ktimer_queue(&mut kernel);
    init_cfs(&mut kernel, 100, 25);
    assert_eq!(elapsed_ticks_since_last_interrupt(&kernel, None), 25);
    assert_eq!(elapsed_ticks_since_last_interrupt(&kernel, Some(9)), 10);
    assert_eq!(elapsed_ticks_since_current_reload(Some(24), Some(20)), 4);
    assert_eq!(elapsed_ticks_since_current_reload(Some(24), Some(30)), 0);
    assert_eq!(elapsed_ticks_since_current_reload(None, Some(20)), 0);
    assert_eq!(elapsed_ticks_since_current_reload(Some(24), None), 0);
}

const STACK: usize = 0x2000_0000;

fn booted() -> (Kernel, ThreadHandle, ThreadHandle) {
    let mut kernel = Kernel::new();
    update_sys_clk_freq(&mut kernel.core.clock, 2_000);
    init_ktimer_queue(&mut kernel);
    init_cfs(&mut kernel, 100, 25);
    let mut stack = AlignedStack([0; 32]);
    let idle = CfsThreadBuilder::new("cpu_idle", 0x100, 16).spawn(&mut kernel, &mut stack, STACK);
    let worker = CfsThreadBuilder::new("worker", 0x200, 2).spawn(&mut kernel, &mut stack, STACK);
    register_idle_thread(&mut kernel.core, idle);
    (kernel, idle, worker)
}

#[test]
fn sleeping_thread_leaves_the_processor_to_idle_and_comes_back() {
    let (mut kernel, idle, worker) = booted();
    spawn_main_thread(&mut kernel, worker);
    assert_eq!(kernel.core.current, Some(worker.slot));
    assert_eq!(kernel.core.run_queue.tree.len(), 0);

    msleepyi(&mut kernel, 30, 5);
    assert_eq!(worker.state(&kernel.core), ThreadState::Waiting);
    assert_eq!(kernel.core.wait[worker.slot].wake_at, 65);
    assert_eq!(kernel.core.timers[WAIT_KTIMER].deadline_at(), 65);
    assert!(kernel.core.switch_pending);

    schedule(&mut kernel, Some(24));
    assert_eq!(kernel.core.current, Some(idle.slot));
    assert_eq!(idle.state(&kernel.core), ThreadState::Running);
    assert!(!kernel.core.switch_pending);

    handle_sched_tick(&mut kernel, Some(58));
    assert_eq!(kernel.queue.now_ticks(), 64);
    assert_eq!(worker.state(&kernel.core), ThreadState::Waiting);
    handle_sched_tick(&mut kernel, Some(0));
    assert_eq!(worker.state(&kernel.core), ThreadState::Ready);
    assert_eq!(kernel.core.timers[WAIT_KTIMER].deadline_at(), KTIMER_DEADLINE_NEVER);
    assert_eq!(kernel.core.trace.counters.wakeups, 1);

    schedule(&mut kernel, Some(24));
    assert_eq!(kernel.core.current, Some(worker.slot));
    assert_eq!(idle.state(&kernel.core), ThreadState::Ready);
    assert_eq!(kernel.core.trace.counters.context_switches, 2);
}

#[test]
fn idle_thread_can_be_the_first_to_run() {
    let (mut kernel, idle, worker) = booted();
    spawn_main_thread(&mut kernel, idle);
    assert_eq!(kernel.core.current, Some(idle.slot));
    assert_eq!(first_runnable(&kernel.core), Some(worker.slot));
    assert_eq!(next_ktimer_reload(&kernel), Some(24));
}

#[test]
fn periodic_job_runs_yields_and_is_released_again() {
    let (mut kernel, idle, worker) = booted();
    let mut stack = AlignedStack([0; 32]);
    let timer = RtKTimer::new_with_timing(RtTiming::new(50, 20, 10), None, "control");
    let control = RtThreadBuilder::new("control", 0x300, Some(timer)).spawn(
        &mut kernel,
        &mut stack,
        STACK,
    );
    let slot = kernel.core.ktimer_of[control.slot].unwrap();
    assert_eq!(kernel.core.next_ktimer, Some(slot));
    spawn_main_thread(&mut kernel, idle);

    schedule(&mut kernel, Some(0));
    assert_eq!(kernel.core.current, Some(control.slot));
    assert!(control.is_rt(&kernel.core));

    yieldyi(&mut kernel, 7);
    assert_eq!(kernel.core.trace.counters.yields, 1);
    assert!(!kernel.core.timers[slot].is_active());
    assert_eq!(kernel.core.timers[slot].deadline_at(), 50);
    assert_eq!(kernel.core.runtime[control.slot], 0);
    assert_eq!(kernel.core.next_ktimer, Some(CFS_KTIMER));
    schedule(&mut kernel, Some(0));
    assert_eq!(kernel.core.current, Some(worker.slot));

    handle_sched_tick(&mut kernel, Some(42));
    assert_eq!(kernel.queue.now_ticks(), 50);
    assert!(kernel.core.timers[slot].is_active());
    assert_eq!(kernel.core.timers[slot].deadline_at(), 70);
    assert_eq!(kernel.core.next_ktimer, Some(slot));
    schedule(&mut kernel, Some(42));
    assert_eq!(kernel.core.current, Some(control.slot));
    assert_eq!(worker.state(&kernel.core), ThreadState::Ready);
    assert_eq!(running_thread_count(&kernel.core), 1);
}

#[test]
fn timer_of_a_platform_is_programmed_for_the_first_expiration() {
    let (kernel, _, _) = booted();
    assert_eq!(
        rtsched::timers::program_next_scheduler_timer::<HostPlatform>(&kernel),
        Some(24)
    );
    assert_eq!(
        rtsched::timers::program_next_scheduler_timer::<HostPlatform>(&Kernel::new()),
        None
    );
}

#[test]
fn closed_window_selects_idle_over_runnable_threads() {
    let mut core = Core::new();
    let idle = cfs_thread(&mut core, "idle", 16, 0, ThreadState::Ready);
    let queued = cfs_thread(&mut core, "queued", 1, 0, ThreadState::Ready);
    let rt = rt_thread(&mut core, "rt");
    register_idle_thread(&mut core, ThreadHandle { slot: idle });
    queue_cfs_thread(&mut core, queued);
    set_current(&mut core, rt);
    core.timers[CFS_KTIMER].set_active(false);
    assert!(is_selectable(&core, Some(CFS_KTIMER), 0));

    schedule_next(&mut core, Some(CFS_KTIMER), 0);

    assert_eq!(core.current, Some(idle));
    assert!(core.current_is_cfs);
    assert!(core.ctx[idle].state == ThreadState::Running);
    assert!(core.ctx[rt].state == ThreadState::Ready);
    assert!(core.ctx[queued].state == ThreadState::Ready);
    assert_eq!(first_runnable(&core), Some(queued));
    assert_eq!(core.run_queue.tree.len(), 1);
}

#[test]
fn closed_window_sends_the_running_fair_thread_back_to_the_queue() {
    let mut core = Core::new();
    let idle = cfs_thread(&mut core, "idle", 16, 0, ThreadState::Ready);
    let current = cfs_thread(&mut core, "current", 2, 3, ThreadState::Running);
    let queued = cfs_thread(&mut core, "queued", 2, 9, ThreadState::Ready);
    register_idle_thread(&mut core, ThreadHandle { slot: idle });
    queue_cfs_thread(&mut core, queued);
    core.run_queue.priority_sum += 2;
    set_current(&mut core, current);
    core.timers[CFS_KTIMER].set_active(false);

    schedule_next(&mut core, Some(CFS_KTIMER), 4);

    assert_eq!(core.current, Some(idle));
    assert_eq!(core.sched[current].vruntime(), 5);
    assert!(core.ctx[current].state == ThreadState::Ready);
    assert_eq!(first_runnable(&core), Some(current));
    assert_eq!(core.run_queue.tree.len(), 2);

    schedule_next(&mut core, Some(CFS_KTIMER), 4);
    assert_eq!(core.current, Some(idle));
    core.timers[CFS_KTIMER].set_active(true);
    schedule_next(&mut core, Some(CFS_KTIMER), 4);
    assert_eq!(core.current, Some(current));
    assert!(core.ctx[idle].state == ThreadState::Ready);
}

#[test]
fn closed_window_without_idle_thread_changes_nothing() {
    let mut core = Core::new();
    let queued = cfs_thread(&mut core, "queued", 1, 0, ThreadState::Ready);
    let rt = rt_thread(&mut core, "rt");
    queue_cfs_thread(&mut core, queued);
    set_current(&mut core, rt);
    core.timers[CFS_KTIMER].set_active(false);

    schedule_next(&mut core, Some(CFS_KTIMER), 0);

    assert_eq!(core.current, Some(queued));
}

#[test]
fn selection_is_refused_for_threads_that_wait() {
    let mut core = Core::new();
    let idle = cfs_thread(&mut core, "idle", 16, 0, ThreadState::Ready);
    let rt = rt_thread(&mut core, "rt");
    let other = add_thread(&mut core, "other", ThreadState::Waiting, false);
    let timer = rt_timer(&mut core, 50, other);
    register_idle_thread(&mut core, ThreadHandle { slot: idle });
    assert!(is_selectable(&core, None, 0));
    assert!(!is_selectable(&core, Some(timer), 0));
    set_current(&mut core, rt);
    assert!(!is_selectable(&core, Some(timer), 0));
    assert!(is_selectable(&core, Some(CFS_KTIMER), 0));
    core.ctx[other].state = ThreadState::Ready;
    assert!(is_selectable(&core, Some(timer), 0));
    assert!(!is_selectable(&core, Some(timer + 1), 0));
    core.ctx[idle].state = ThreadState::Waiting;
    assert!(!is_selectable(&core, Some(CFS_KTIMER), 0));
}

#[test]
fn charge_that_cannot_be_counted_is_refused() {
    let (mut kernel, _, worker) = booted();
    spawn_main_thread(&mut kernel, worker);
    assert!(can_schedule(&kernel, Some(9)));
    kernel.core.sched[worker.slot].vruntime = u64::MAX - 9;
    assert!(can_schedule(&kernel, Some(8)));
    assert!(!can_schedule(&kernel, Some(99)));
    kernel.core.sched[worker.slot].vruntime = 0;
    kernel.core.sched[worker.slot].sched_tick_cnt = u64::MAX;
    assert!(!can_schedule(&kernel, Some(9)));
}

#[test]
fn far_fair_deadlines_use_the_longest_interval() {
    for (window, reload) in [
        (0x0200_0000, 0x00ff_ffff),
        (0x0100_0001, 0x00ff_ffff),
        (0x0100_0000, 0x00ff_ffff),
        (0x00ff_ffff, 0x00ff_fffe),
        (2, 1),
        (1, 1),
    ] {
        let mut kernel = Kernel::new();
        init_ktimer_queue(&mut kernel);
        init_cfs(&mut kernel, 0x0200_0000, window);
        assert_eq!(next_ktimer_reload(&kernel), Some(reload));
    }
}
