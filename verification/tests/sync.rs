use rtsched::ktimer::CFS_KTIMER;
use rtsched::runq::{enqueue_thread, SchedEntity};
use rtsched::spawn::add_rt_ktimer;
use rtsched::sync::{pop_waiting_thread, wake_waiter, SyncEntity, WaitTree, WAIT_FOREVER_TICKS};
use rtsched::timers::{enqueue_ktimer, next_ktimer};
use rtsched::waitq::WaitEntity;
use rtsched::{
    init_cfs, init_ktimer_queue, BinarySemaphore, CountingSemaphore, Kernel, Mutex, MutexError,
    RtKTimer, SemaphoreError, SyncType, ThreadCtx, ThreadState, WaitQueueError,
};

fn add_thread(kernel: &mut Kernel, name: &'static str, priority: u32, is_cfs: bool) -> usize {
    let core = &mut kernel.core;
    core.ctx.push(ThreadCtx {
        sp: 0,
        exc_return: 0,
        id: 1,
        name,
        state: ThreadState::Ready,
        is_cfs,
    });
    core.wait.push(WaitEntity::new());
    core.sync.push(SyncEntity::new());
    core.sched.push(SchedEntity::new(priority));
    core.ktimer_of.push(None);
    core.runtime.push(0);
    core.ctx.len() - 1
}

fn cfs_thread(kernel: &mut Kernel, name: &'static str, priority: u32) -> usize {
    add_thread(kernel, name, priority, true)
}

fn rt_thread(kernel: &mut Kernel, name: &'static str, period: u32) -> (usize, usize) {
    let thread = add_thread(kernel, name, 0, false);
    let timer = add_rt_ktimer(kernel, RtKTimer::new(period, None, name));
    RtKTimer::init_rt_ktimer(kernel, timer, thread);
    enqueue_ktimer(kernel, timer);
    (thread, timer)
}

fn fresh_scheduler() -> Kernel {
    let mut kernel = Kernel::new();
    init_ktimer_queue(&mut kernel);
    init_cfs(&mut kernel, 100, 25);
    kernel
}

fn run(kernel: &mut Kernel, thread: usize) {
    kernel.core.ctx[thread].set_state(ThreadState::Running);
    kernel.core.current = Some(thread);
    kernel.core.current_is_cfs = kernel.core.ctx[thread].is_cfs;
}

fn make_running_cfs(kernel: &mut Kernel, thread: usize) {
    enqueue_thread(&mut kernel.core, thread);
    kernel
        .core
        .run_queue
        .tree
        .remove(&mut kernel.core.sched, thread);
    run(kernel, thread);
}

fn is_waiting(kernel: &Kernel, thread: usize) -> bool {
    kernel.core.wait_queue.tree.contains(&kernel.core.wait, thread)
}

fn is_runnable(kernel: &Kernel, thread: usize) -> bool {
    kernel.core.run_queue.tree.contains(&kernel.core.sched, thread)
}

#[test]
fn sync_type_wait_events_decode_named_tags() {
    assert_eq!(
        SyncType::BinarySemaphore.wait_event(),
        u32::from_be_bytes(*b"semb")
    );
    assert_eq!(
        SyncType::CountingSemaphore.wait_event(),
        u32::from_be_bytes(*b"semc")
    );
    assert_eq!(SyncType::Mutex.wait_event(), u32::from_be_bytes(*b"mute"));

    assert_eq!(
        SyncType::from_wait_event(u32::from_be_bytes(*b"semb")),
        Some(SyncType::BinarySemaphore)
    );
    assert_eq!(
        SyncType::from_wait_event(u32::from_be_bytes(*b"semc")),
        Some(SyncType::CountingSemaphore)
    );
    assert_eq!(
        SyncType::from_wait_event(u32::from_be_bytes(*b"mute")),
        Some(SyncType::Mutex)
    );
    assert_eq!(SyncType::from_wait_event(0), None);
}

#[test]
fn sync_types_are_ordered_by_their_tags() {
    let mut types = [
        SyncType::CountingSemaphore,
        SyncType::Mutex,
        SyncType::BinarySemaphore,
    ];
    types.sort();
    assert_eq!(
        types,
        [
            SyncType::Mutex,
            SyncType::BinarySemaphore,
            SyncType::CountingSemaphore
        ]
    );
    assert!(types[0].wait_event() < types[1].wait_event());
    assert!(types[1].wait_event() < types[2].wait_event());
}

#[test]
fn sync_waiters_pop_by_earliest_deadline_not_insertion_order() {
    let mut kernel = Kernel::new();
    let mut waiters = WaitTree::new();
    let later = cfs_thread(&mut kernel, "later", 3);
    let earlier = cfs_thread(&mut kernel, "earlier", 3);

    for (thread, deadline_at) in [(later, 40), (earlier, 10)] {
        kernel.core.ctx[thread].set_state(ThreadState::Waiting);
        kernel.core.sync[thread].set_deadline_at(deadline_at);
        waiters.insert(&mut kernel.core.sync, thread);
    }

    assert_eq!(
        pop_waiting_thread(&mut kernel.core, &mut waiters),
        Some(earlier)
    );
    assert_eq!(
        pop_waiting_thread(&mut kernel.core, &mut waiters),
        Some(later)
    );
    assert!(pop_waiting_thread(&mut kernel.core, &mut waiters).is_none());
}

#[test]
fn threads_that_no_longer_wait_are_skipped() {
    let mut kernel = Kernel::new();
    let mut waiters = WaitTree::new();
    let gone = cfs_thread(&mut kernel, "gone", 3);
    let waiting = cfs_thread(&mut kernel, "waiting", 3);
    let also_gone = cfs_thread(&mut kernel, "also_gone", 3);
    kernel.core.ctx[waiting].set_state(ThreadState::Waiting);
    for (thread, deadline_at) in [(gone, 1), (waiting, 2), (also_gone, 3)] {
        kernel.core.sync[thread].set_deadline_at(deadline_at);
        waiters.insert(&mut kernel.core.sync, thread);
    }

    assert_eq!(
        pop_waiting_thread(&mut kernel.core, &mut waiters),
        Some(waiting)
    );
    assert_eq!(waiters.entities(&kernel.core.sync), [also_gone]);
    assert_eq!(pop_waiting_thread(&mut kernel.core, &mut waiters), None);
    assert!(waiters.is_empty(&kernel.core.sync));
}

#[test]
fn blocking_sync_take_copies_current_scheduler_deadline() {
    let mut kernel = fresh_scheduler();
    let mut semaphore = BinarySemaphore::empty();
    let thread = cfs_thread(&mut kernel, "waiter", 3);
    make_running_cfs(&mut kernel, thread);

    assert_eq!(semaphore.take(&mut kernel, 0), Ok(()));

    assert_eq!(kernel.core.sync[thread].deadline_at(), 25);
    assert_eq!(kernel.core.wait[thread].wake_at, WAIT_FOREVER_TICKS);
    assert!(kernel.core.switch_pending);
}

#[test]
fn mutex_lock_boosts_rt_owner_deadline_and_unlock_restores_it() {
    let mut kernel = fresh_scheduler();
    let mut mutex = Mutex::new(7);
    let (owner, owner_timer) = rt_thread(&mut kernel, "owner", 100);
    let (waiter, waiter_timer) = rt_thread(&mut kernel, "waiter", 10);
    run(&mut kernel, owner);

    let owner_guard = mutex.lock(&mut kernel, 0).ok().expect("owner should lock mutex");

    kernel.core.ctx[owner].set_state(ThreadState::Ready);
    run(&mut kernel, waiter);

    let waiter_guard = mutex
        .lock(&mut kernel, 0)
        .ok()
        .expect("waiter should block on mutex");

    assert_eq!(kernel.core.ctx[waiter].state, ThreadState::Waiting);
    assert_eq!(kernel.core.sync[waiter].deadline_at(), 10);
    assert_eq!(kernel.core.timers[owner_timer].deadline_at(), 10);
    assert_eq!(next_ktimer(&kernel.core), Some(owner_timer));
    assert_eq!(waiter_guard.owner, waiter);

    run(&mut kernel, owner);
    owner_guard.unlock(&mut mutex, &mut kernel);

    assert_eq!(kernel.core.timers[owner_timer].deadline_at(), 100);
    assert_eq!(kernel.core.ctx[waiter].state, ThreadState::Ready);
    assert_eq!(kernel.core.ktimer_of[waiter], Some(waiter_timer));
}

#[test]
fn mutex_lock_boosts_rt_owner_to_earliest_scheduler_deadline_and_unlock_restores_it() {
    let mut kernel = fresh_scheduler();
    let mut mutex = Mutex::new(7);
    let (owner, owner_timer) = rt_thread(&mut kernel, "owner", 100);
    let (waiter, _) = rt_thread(&mut kernel, "waiter", 40);
    run(&mut kernel, owner);

    let owner_guard = mutex.lock(&mut kernel, 0).ok().expect("owner should lock mutex");

    kernel.core.ctx[owner].set_state(ThreadState::Ready);
    run(&mut kernel, waiter);

    assert!(mutex.lock(&mut kernel, 0).is_ok());

    assert_eq!(kernel.core.ctx[waiter].state, ThreadState::Waiting);
    assert_eq!(kernel.core.sync[waiter].deadline_at(), 40);
    assert_eq!(kernel.core.timers[owner_timer].deadline_at(), 25);

    run(&mut kernel, owner);
    owner_guard.unlock(&mut mutex, &mut kernel);

    assert_eq!(kernel.core.timers[owner_timer].deadline_at(), 100);
    assert_eq!(kernel.core.ctx[waiter].state, ThreadState::Ready);
}

#[test]
fn mutex_lock_boosts_cfs_owner_to_earliest_scheduler_deadline_and_unlock_restores_it() {
    let mut kernel = fresh_scheduler();
    let mut mutex = Mutex::new(7);
    let owner = cfs_thread(&mut kernel, "owner", 3);
    let (waiter, _) = rt_thread(&mut kernel, "waiter", 10);
    let _ = rt_thread(&mut kernel, "earlier_rt", 8);
    make_running_cfs(&mut kernel, owner);

    let owner_guard = mutex.lock(&mut kernel, 0).ok().expect("owner should lock mutex");

    kernel.core.ctx[owner].set_state(ThreadState::Ready);
    run(&mut kernel, waiter);

    assert!(mutex.lock(&mut kernel, 0).is_ok());

    assert_eq!(kernel.core.ctx[waiter].state, ThreadState::Waiting);
    assert_eq!(kernel.core.timers[CFS_KTIMER].deadline_at(), 8);

    run(&mut kernel, owner);
    owner_guard.unlock(&mut mutex, &mut kernel);

    assert_eq!(kernel.core.timers[CFS_KTIMER].deadline_at(), 25);
    assert_eq!(kernel.core.ctx[waiter].state, ThreadState::Ready);
}

#[test]
fn repeated_boosts_keep_the_first_original_deadline() {
    let mut kernel = fresh_scheduler();
    let mut mutex = Mutex::new(());
    let (owner, owner_timer) = rt_thread(&mut kernel, "owner", 100);
    let (first, _) = rt_thread(&mut kernel, "first", 20);
    let (second, _) = rt_thread(&mut kernel, "second", 10);
    kernel.core.timers[CFS_KTIMER].set_active(false);
    run(&mut kernel, owner);
    let guard = mutex.lock(&mut kernel, 0).ok().expect("owner should lock mutex");
    kernel.core.ctx[owner].set_state(ThreadState::Ready);

    run(&mut kernel, first);
    assert!(mutex.lock(&mut kernel, 0).is_ok());
    assert_eq!(kernel.core.timers[owner_timer].deadline_at(), 10);
    run(&mut kernel, second);
    assert!(mutex.lock(&mut kernel, 0).is_ok());
    assert_eq!(kernel.core.timers[owner_timer].deadline_at(), 10);
    assert_eq!(mutex.state.owner_original_deadline_at, 100);

    run(&mut kernel, owner);
    guard.unlock(&mut mutex, &mut kernel);
    assert_eq!(kernel.core.timers[owner_timer].deadline_at(), 100);
    assert!(!mutex.state.owner_boosted);
    assert_eq!(kernel.core.ctx[second].state, ThreadState::Ready);
    assert_eq!(kernel.core.ctx[first].state, ThreadState::Waiting);
}

#[test]
fn binary_semaphore_try_take_and_give_track_single_token() {
    let mut kernel = Kernel::new();
    let mut semaphore = BinarySemaphore::available();

    assert_eq!(semaphore.try_take(), Ok(()));
    assert!(!semaphore.is_available());
    assert_eq!(semaphore.try_take(), Err(SemaphoreError::WouldBlock));

    assert_eq!(semaphore.give(&mut kernel), Ok(()));
    assert!(semaphore.is_available());
    assert_eq!(semaphore.give(&mut kernel), Err(SemaphoreError::Full));
}

#[test]
fn binary_semaphore_take_blocks_current_cfs_thread_until_give() {
    let mut kernel = fresh_scheduler();
    let mut semaphore = BinarySemaphore::empty();
    let thread = cfs_thread(&mut kernel, "waiter", 3);
    make_running_cfs(&mut kernel, thread);

    assert_eq!(semaphore.take(&mut kernel, 0), Ok(()));

    assert_eq!(kernel.core.ctx[thread].state, ThreadState::Waiting);
    assert!(!semaphore.is_available());
    assert!(is_waiting(&kernel, thread));
    assert_eq!(
        SyncType::from_wait_event(kernel.core.wait[thread].waitevt),
        Some(SyncType::BinarySemaphore)
    );

    assert_eq!(semaphore.give(&mut kernel), Ok(()));

    assert_eq!(kernel.core.ctx[thread].state, ThreadState::Ready);
    assert!(!semaphore.is_available());
    assert!(!is_waiting(&kernel, thread));
    assert!(is_runnable(&kernel, thread));
}

#[test]
fn binary_semaphore_take_without_current_thread_reports_error() {
    let mut kernel = fresh_scheduler();
    let mut semaphore = BinarySemaphore::empty();

    assert_eq!(
        semaphore.take(&mut kernel, 0),
        Err(SemaphoreError::NoCurrentThread)
    );
}

#[test]
fn counting_semaphore_try_take_and_give_track_bounded_tokens() {
    let mut kernel = Kernel::new();
    let mut semaphore = CountingSemaphore::new(3, 2);

    assert_eq!(semaphore.max_count(), 3);
    assert_eq!(semaphore.count(), 2);

    assert_eq!(semaphore.try_take(), Ok(()));
    assert_eq!(semaphore.count(), 1);
    assert_eq!(semaphore.try_take(), Ok(()));
    assert_eq!(semaphore.count(), 0);
    assert_eq!(semaphore.try_take(), Err(SemaphoreError::WouldBlock));

    assert_eq!(semaphore.give(&mut kernel), Ok(()));
    assert_eq!(semaphore.count(), 1);
    assert_eq!(semaphore.give(&mut kernel), Ok(()));
    assert_eq!(semaphore.count(), 2);
    assert_eq!(semaphore.give(&mut kernel), Ok(()));
    assert_eq!(semaphore.count(), 3);
    assert_eq!(semaphore.give(&mut kernel), Err(SemaphoreError::Full));
}

#[test]
fn counting_semaphore_take_blocks_current_cfs_thread_until_give() {
    let mut kernel = fresh_scheduler();
    let mut semaphore = CountingSemaphore::empty(3);
    let thread = cfs_thread(&mut kernel, "waiter", 3);
    make_running_cfs(&mut kernel, thread);

    assert_eq!(semaphore.take(&mut kernel, 0), Ok(()));

    assert_eq!(kernel.core.ctx[thread].state, ThreadState::Waiting);
    assert_eq!(semaphore.count(), 0);
    assert!(is_waiting(&kernel, thread));
    assert_eq!(
        SyncType::from_wait_event(kernel.core.wait[thread].waitevt),
        Some(SyncType::CountingSemaphore)
    );

    assert_eq!(semaphore.give(&mut kernel), Ok(()));

    assert_eq!(kernel.core.ctx[thread].state, ThreadState::Ready);
    assert_eq!(semaphore.count(), 0);
    assert!(!is_waiting(&kernel, thread));
    assert!(is_runnable(&kernel, thread));
}

#[test]
fn counting_semaphore_take_without_current_thread_reports_error() {
    let mut kernel = fresh_scheduler();
    let mut semaphore = CountingSemaphore::empty(2);

    assert_eq!(
        semaphore.take(&mut kernel, 0),
        Err(SemaphoreError::NoCurrentThread)
    );
}

#[test]
fn full_counting_semaphore_starts_with_all_tokens() {
    let mut kernel = Kernel::new();
    let mut semaphore = CountingSemaphore::full(2);
    assert_eq!(semaphore.count(), 2);
    assert_eq!(semaphore.take(&mut kernel, 0), Ok(()));
    assert_eq!(semaphore.give(&mut kernel), Ok(()));
    assert_eq!(semaphore.count(), 2);
}

#[test]
fn mutex_try_lock_protects_data_and_unlocks_on_drop() {
    let mut kernel = fresh_scheduler();
    let mut mutex = Mutex::new(41);
    let thread = cfs_thread(&mut kernel, "owner", 3);
    make_running_cfs(&mut kernel, thread);

    let mut guard = mutex.try_lock(&kernel).ok().expect("mutex should lock");
    *guard.deref_mut(&mut mutex) += 1;

    assert_eq!(*guard.deref(&mutex), 42);
    assert!(mutex.is_locked());
    assert!(matches!(
        mutex.try_lock(&kernel),
        Err(MutexError::WouldDeadlock)
    ));
    guard.unlock(&mut mutex, &mut kernel);

    assert!(!mutex.is_locked());
    let guard = mutex
        .lock(&mut kernel, 0)
        .ok()
        .expect("mutex should lock again");
    assert_eq!(*guard.deref(&mutex), 42);
}

#[test]
fn mutex_try_lock_reports_would_block_for_other_owner() {
    let mut kernel = fresh_scheduler();
    let mut mutex = Mutex::new(7);
    let owner = cfs_thread(&mut kernel, "owner", 3);
    let other = cfs_thread(&mut kernel, "other", 5);
    make_running_cfs(&mut kernel, owner);

    let guard = mutex.try_lock(&kernel).ok().expect("owner should lock mutex");

    kernel.core.ctx[owner].set_state(ThreadState::Ready);
    run(&mut kernel, other);

    assert!(matches!(mutex.try_lock(&kernel), Err(MutexError::WouldBlock)));

    kernel.core.ctx[other].set_state(ThreadState::Ready);
    run(&mut kernel, owner);

    guard.unlock(&mut mutex, &mut kernel);
    assert!(!mutex.is_locked());
}

#[test]
fn mutex_lock_blocks_waiter_and_drop_transfers_ownership() {
    let mut kernel = fresh_scheduler();
    let mut mutex = Mutex::new(7);
    let owner = cfs_thread(&mut kernel, "owner", 3);
    let waiter = cfs_thread(&mut kernel, "waiter", 5);
    make_running_cfs(&mut kernel, owner);

    let owner_guard = mutex.lock(&mut kernel, 0).ok().expect("owner should lock mutex");

    kernel.core.ctx[owner].set_state(ThreadState::Ready);
    make_running_cfs(&mut kernel, waiter);
    assert!(mutex.lock(&mut kernel, 0).is_ok());

    assert_eq!(kernel.core.ctx[waiter].state, ThreadState::Waiting);
    assert!(is_waiting(&kernel, waiter));
    assert_eq!(
        SyncType::from_wait_event(kernel.core.wait[waiter].waitevt),
        Some(SyncType::Mutex)
    );

    run(&mut kernel, owner);
    owner_guard.unlock(&mut mutex, &mut kernel);

    assert_eq!(kernel.core.ctx[waiter].state, ThreadState::Ready);
    assert!(!is_waiting(&kernel, waiter));
    assert!(is_runnable(&kernel, waiter));

    kernel.core.ctx[owner].set_state(ThreadState::Ready);
    run(&mut kernel, waiter);

    assert!(mutex.is_locked());
    assert!(matches!(
        mutex.try_lock(&kernel),
        Err(MutexError::WouldDeadlock)
    ));
}

#[test]
fn mutex_lock_without_current_thread_reports_error() {
    let mut kernel = fresh_scheduler();
    let mut mutex = Mutex::new(7);

    assert!(matches!(
        mutex.try_lock(&kernel),
        Err(MutexError::NoCurrentThread)
    ));
    assert!(matches!(
        mutex.lock(&mut kernel, 0),
        Err(MutexError::NoCurrentThread)
    ));
}

#[test]
fn mutex_unique_access_helpers_skip_scheduler_locking() {
    let mut mutex = Mutex::new(1);

    *mutex.get_mut() = 2;

    assert_eq!(mutex.into_inner(), 2);
}

#[test]
fn lock_by_the_owner_would_deadlock() {
    let mut kernel = fresh_scheduler();
    let mut mutex = Mutex::new(7);
    let owner = cfs_thread(&mut kernel, "owner", 3);
    make_running_cfs(&mut kernel, owner);
    assert!(mutex.lock(&mut kernel, 0).is_ok());
    assert!(matches!(
        mutex.lock(&mut kernel, 0),
        Err(MutexError::WouldDeadlock)
    ));
}

#[test]
fn unlock_by_another_thread_changes_nothing() {
    let mut kernel = fresh_scheduler();
    let mut mutex = Mutex::new(7);
    let owner = cfs_thread(&mut kernel, "owner", 3);
    let other = cfs_thread(&mut kernel, "other", 3);
    make_running_cfs(&mut kernel, owner);
    let guard = mutex.lock(&mut kernel, 0).ok().expect("owner should lock mutex");
    kernel.core.ctx[owner].set_state(ThreadState::Ready);
    run(&mut kernel, other);

    guard.unlock(&mut mutex, &mut kernel);

    assert!(mutex.is_locked());
}

#[test]
fn give_hands_tokens_to_waiters_in_deadline_order() {
    let mut kernel = fresh_scheduler();
    let mut semaphore = CountingSemaphore::empty(2);
    let (late, _) = rt_thread(&mut kernel, "late", 90);
    let (early, early_timer) = rt_thread(&mut kernel, "early", 60);

    run(&mut kernel, late);
    assert_eq!(semaphore.take(&mut kernel, 0), Ok(()));
    run(&mut kernel, early);
    assert_eq!(semaphore.take(&mut kernel, 0), Ok(()));
    assert!(!kernel.queue.contains(&kernel.core.timers, early_timer));

    assert_eq!(semaphore.give(&mut kernel), Ok(()));
    assert_eq!(kernel.core.ctx[early].state, ThreadState::Ready);
    assert_eq!(kernel.core.ctx[late].state, ThreadState::Waiting);
    assert!(kernel.queue.contains(&kernel.core.timers, early_timer));
    assert_eq!(semaphore.count(), 0);

    assert_eq!(semaphore.give(&mut kernel), Ok(()));
    assert_eq!(kernel.core.ctx[late].state, ThreadState::Ready);
    assert_eq!(semaphore.give(&mut kernel), Ok(()));
    assert_eq!(semaphore.count(), 1);
}

#[test]
fn blocking_without_a_timer_is_reported() {
    let mut kernel = fresh_scheduler();
    let mut semaphore = BinarySemaphore::new(false);
    let mut mutex = Mutex::new(0);
    let bare = add_thread(&mut kernel, "bare", 0, false);
    let owner = cfs_thread(&mut kernel, "owner", 1);
    make_running_cfs(&mut kernel, owner);
    assert!(mutex.lock(&mut kernel, 0).is_ok());
    kernel.core.ctx[owner].set_state(ThreadState::Ready);
    run(&mut kernel, bare);

    assert_eq!(
        semaphore.take(&mut kernel, 0),
        Err(SemaphoreError::WaitQueue(WaitQueueError::NotFound))
    );
    assert!(matches!(
        mutex.lock(&mut kernel, 0),
        Err(MutexError::WaitQueue(WaitQueueError::NotFound))
    ));
    assert_eq!(
        SemaphoreError::from(WaitQueueError::NotFound),
        SemaphoreError::WaitQueue(WaitQueueError::NotFound)
    );
}

#[test]
fn deadline_miss_while_waking_is_reported() {
    let mut kernel = fresh_scheduler();
    let mut semaphore = BinarySemaphore::empty();
    let waiter = cfs_thread(&mut kernel, "waiter", 3);
    make_running_cfs(&mut kernel, waiter);
    assert_eq!(semaphore.take(&mut kernel, 0), Ok(()));
    let (rt, timer) = rt_thread(&mut kernel, "rt", 10);
    kernel.core.runtime[rt] = 11;
    kernel.queue.remove(&mut kernel.core.timers, timer);
    kernel.core.timers[timer].set_deadline_at(0);
    kernel.queue.insert(&mut kernel.core.timers, timer);

    assert_eq!(
        semaphore.give(&mut kernel),
        Err(SemaphoreError::WaitQueue(WaitQueueError::DeadlineMiss))
    );
    assert_eq!(kernel.core.fault, Some(rt));
}

#[test]
fn woken_waiter_rejoins_its_queue() {
    let mut kernel = fresh_scheduler();
    let mut semaphore = BinarySemaphore::empty();
    let thread = cfs_thread(&mut kernel, "waiter", 3);
    make_running_cfs(&mut kernel, thread);
    assert_eq!(semaphore.take(&mut kernel, 4), Ok(()));
    assert_eq!(kernel.queue.now_ticks(), 4);
    assert_eq!(kernel.core.run_queue.priority_sum, 0);

    assert_eq!(wake_waiter(&mut kernel, thread), Ok(()));
    assert!(is_runnable(&kernel, thread));
    assert_eq!(kernel.core.run_queue.priority_sum, 3);
    assert_eq!(kernel.core.trace.counters.wakeups, 1);
}
