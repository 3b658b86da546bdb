use rtsched::runq::{
    cfs_sched_ticks_from_vruntime, cfs_vruntime_delta, dequeue_thread, enqueue_thread,
    traverse_run_queue, update_from_leftmost, SchedEntity,
};
use rtsched::sync::SyncEntity;
use rtsched::waitq::{
    insert_wait_thread, pop_expired_wait_thread, remove_wait_thread, traverse_wait_queue,
    WaitEntity,
};
use rtsched::{
    dequeue_cfs_thread_to_waitq, init_ktimer_queue, traverse_run_queue_fn, traverse_wait_queue_fn,
    Core, Kernel, ThreadCtx, ThreadHandle, ThreadState,
};

fn add_thread(core: &mut Core, name: &'static str, state: ThreadState, priority: u32) -> usize {
    core.ctx.push(ThreadCtx {
        sp: 0,
        exc_return: 0,
        id: 0,
        name,
        state,
        is_cfs: true,
    });
    core.wait.push(WaitEntity::new());
    core.sync.push(SyncEntity::new());
    core.sched.push(SchedEntity::new(priority));
    core.ktimer_of.push(None);
    core.runtime.push(0);
    core.ctx.len() - 1
}

fn runnable(core: &mut Core, name: &'static str, priority: u32, vruntime: u64) -> usize {
    let slot = add_thread(core, name, ThreadState::Ready, priority);
    core.sched[slot].vruntime = vruntime;
    slot
}

fn waiting(core: &mut Core, name: &'static str, wake_at: u64, waitevt: u32) -> usize {
    let slot = add_thread(core, name, ThreadState::Waiting, 1);
    core.wait[slot].wake_at = wake_at;
    core.wait[slot].waitevt = waitevt;
    slot
}

fn run_names(core: &Core) -> Vec<&'static str> {
    traverse_run_queue_fn(core).iter().map(|thread| thread.name).collect()
}

fn waiting_slots(core: &Core) -> Vec<usize> {
    core.wait_queue.tree.entities(&core.wait)
}

fn collect_wake_at(core: &Core) -> Vec<u64> {
    waiting_slots(core).iter().map(|slot| core.wait[*slot].wake_at).collect()
}

#[test]
fn sched_entities_order_by_vruntime() {
    let mut core = Core::new();
    for (name, vruntime) in [("first", 30), ("second", 10), ("third", 20)] {
        let slot = runnable(&mut core, name, 1, vruntime);
        core.run_queue.tree.insert(&mut core.sched, slot);
    }

    let first = core.run_queue.tree.first(&core.sched).unwrap();
    let last = core.run_queue.tree.last(&core.sched).unwrap();
    assert_eq!(core.sched[first].vruntime(), 10);
    assert_eq!(core.sched[last].vruntime(), 30);
}

#[test]
fn enqueue_thread_updates_priority_sum_and_traversal_order() {
    let mut core = Core::new();
    let first = runnable(&mut core, "first", 2, 30);
    let second = runnable(&mut core, "second", 4, 10);
    let third = runnable(&mut core, "third", 8, 20);

    enqueue_thread(&mut core, first);
    enqueue_thread(&mut core, second);
    enqueue_thread(&mut core, third);

    assert_eq!(core.run_queue.priority_sum, 14);
    assert_eq!(run_names(&core), ["first", "second", "third"]);
}

#[test]
fn lower_numeric_priority_accumulates_vruntime_more_slowly() {
    let high_priority_delta = cfs_vruntime_delta(20, 1, 5);
    let low_priority_delta = cfs_vruntime_delta(20, 4, 5);

    assert_eq!(high_priority_delta, 4);
    assert_eq!(low_priority_delta, 16);
    assert!(high_priority_delta < low_priority_delta);
}

#[test]
fn vruntime_and_ticks_convert_by_the_share_of_the_priority() {
    assert_eq!(cfs_vruntime_delta(7, 2, 3), 4);
    assert_eq!(cfs_vruntime_delta(7, 2, 0), 0);
    assert_eq!(cfs_sched_ticks_from_vruntime(4, 2, 3), 6);
    assert_eq!(cfs_sched_ticks_from_vruntime(4, 2, 0), 0);
    assert_eq!(cfs_vruntime_delta(100, 3, 7), 42);
    assert_eq!(cfs_vruntime_delta(100, 12, 7), 171);
}

#[test]
fn traverse_run_queue_includes_running_cfs_thread_first() {
    let mut core = Core::new();
    let running = runnable(&mut core, "running", 1, 0);
    let queued = runnable(&mut core, "queued", 1, 10);

    core.current = Some(running);
    core.current_is_cfs = true;
    enqueue_thread(&mut core, queued);

    assert_eq!(run_names(&core), ["running", "queued"]);
    assert_eq!(traverse_run_queue(&core, None), Some(running));
    assert_eq!(traverse_run_queue(&core, Some(running)), Some(queued));
    assert_eq!(traverse_run_queue(&core, Some(queued)), None);
}

#[test]
fn dequeue_thread_removes_ready_thread_and_saturates_priority_sum() {
    let mut core = Core::new();
    let first = runnable(&mut core, "first", 3, 0);
    let second = runnable(&mut core, "second", 5, 10);

    enqueue_thread(&mut core, first);
    enqueue_thread(&mut core, second);
    dequeue_thread(&mut core, first);

    assert_eq!(core.run_queue.priority_sum, 5);
    assert_eq!(run_names(&core), ["second"]);
    assert!(!core.sched[first].is_linked());

    core.run_queue.priority_sum = 2;
    dequeue_thread(&mut core, second);
    assert_eq!(core.run_queue.priority_sum, 0);
    dequeue_thread(&mut core, second);
    assert_eq!(run_names(&core), [""; 0]);
}

#[test]
fn dequeue_runq_to_waitq_moves_thread_between_queues() {
    let mut kernel = Kernel::new();
    init_ktimer_queue(&mut kernel);
    let thread = runnable(&mut kernel.core, "waiting", 3, 0);

    enqueue_thread(&mut kernel.core, thread);
    assert!(kernel.core.run_queue.tree.contains(&kernel.core.sched, thread));

    assert!(dequeue_cfs_thread_to_waitq(&mut kernel, ThreadHandle { slot: thread }).is_ok());

    assert!(kernel.core.ctx[thread].state == ThreadState::Waiting);
    assert!(!kernel.core.run_queue.tree.contains(&kernel.core.sched, thread));
    assert!(kernel.core.wait_queue.tree.contains(&kernel.core.wait, thread));
    assert_eq!(kernel.core.run_queue.priority_sum, 0);
}

#[test]
fn update_from_leftmost_aligns_detached_entity() {
    let mut core = Core::new();
    let queued = runnable(&mut core, "queued", 4, 40);
    let detached = runnable(&mut core, "detached", 2, 0);

    enqueue_thread(&mut core, queued);
    update_from_leftmost(&mut core, detached);

    assert_eq!(core.sched[detached].vruntime(), 40);
    assert_eq!(core.sched[detached].sched_tick_cnt(), 80);
}

#[test]
fn wait_entities_order_by_ticks_then_event() {
    let mut core = Core::new();
    let first = waiting(&mut core, "first", 10, 2);
    let second = waiting(&mut core, "second", 5, 9);
    let third = waiting(&mut core, "third", 10, 1);

    insert_wait_thread(&mut core, first);
    insert_wait_thread(&mut core, second);
    insert_wait_thread(&mut core, third);

    assert_eq!(collect_wake_at(&core), [5, 10, 10]);
    let names: Vec<&str> = traverse_wait_queue_fn(&core)
        .iter()
        .map(|thread| thread.name)
        .collect();
    assert_eq!(names, ["second", "third", "first"]);
    let first_thread = traverse_wait_queue(&core, None).unwrap();
    let second_thread = traverse_wait_queue(&core, Some(first_thread)).unwrap();
    let third_thread = traverse_wait_queue(&core, Some(second_thread)).unwrap();

    assert_eq!(core.ctx[first_thread].name, "second");
    assert_eq!(core.ctx[second_thread].name, "third");
    assert_eq!(core.ctx[third_thread].name, "first");
    assert!(traverse_wait_queue(&core, Some(third_thread)).is_none());
}

#[test]
fn remaining_time_uses_absolute_wake_deadline() {
    let mut core = Core::new();
    let first = waiting(&mut core, "first", 3, 0);
    let second = waiting(&mut core, "second", 12, 0);
    let third = waiting(&mut core, "third", 7, 0);

    insert_wait_thread(&mut core, first);
    insert_wait_thread(&mut core, second);
    insert_wait_thread(&mut core, third);

    assert_eq!(core.wait[first].wake_at, 3);
    assert_eq!(core.wait[second].wake_at, 12);
    assert_eq!(core.wait[third].wake_at, 7);
    assert_eq!(collect_wake_at(&core), [3, 7, 12]);
    let remaining: Vec<u32> = waiting_slots(&core)
        .iter()
        .map(|slot| core.wait[*slot].remaining_at(5))
        .collect();
    assert_eq!(remaining, [0, 2, 7]);
}

#[test]
fn pop_expired_wait_thread_only_pops_zero_tick_threads() {
    let mut core = Core::new();
    let expired = waiting(&mut core, "expired", 0, 0);
    let pending = waiting(&mut core, "pending", 4, 0);

    insert_wait_thread(&mut core, pending);
    insert_wait_thread(&mut core, expired);

    assert_eq!(pop_expired_wait_thread(&mut core, 0), Some(expired));
    assert_eq!(pop_expired_wait_thread(&mut core, 0), None);
    assert_eq!(collect_wake_at(&core), [4]);
}

#[test]
fn remove_wait_thread_detaches_entity() {
    let mut core = Core::new();
    let first = waiting(&mut core, "first", 1, 0);
    let second = waiting(&mut core, "second", 2, 0);

    insert_wait_thread(&mut core, first);
    insert_wait_thread(&mut core, second);
    remove_wait_thread(&mut core, first);

    assert_eq!(collect_wake_at(&core), [2]);
    assert!(!core.wait[first].rb_node.is_linked());
}
