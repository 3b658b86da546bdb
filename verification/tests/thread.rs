use rtsched::runq::{init_cfs_rq, SchedEntity};
use rtsched::spawn::{add_rt_ktimer, rt_ktimer_entity};
use rtsched::sync::SyncEntity;
use rtsched::thread::{cfs_thread_from_handle, rt_thread_from_handle, thread_ref_from_handle};
use rtsched::waitq::WaitEntity;
use rtsched::{
    current_rt_thread_runtime, current_thread, current_thread_id, forkyi, init_ktimer_queue,
    set_rt_thread_start_time, AlignedStack, CfsThread, CfsThreadBuilder, Kernel, RtKTimer,
    RtThread, RtThreadBuilder, SchedInfo, ThreadCtx, ThreadHandle, ThreadId, ThreadRef,
    ThreadSpawnError, ThreadStart, ThreadState, ThreadStorage,
};

const INITIAL_FRAME_WORDS: usize = rtsched::platform::THREAD_INITIAL_FRAME_WORDS;
const ENTRY: usize = 0x0800_0101;
const BASE: usize = 0x2000_0000;

fn ctx(id: u32, name: &'static str, is_cfs: bool) -> ThreadCtx {
    ThreadCtx {
        sp: 0,
        exc_return: 0,
        id,
        name,
        state: ThreadState::Ready,
        is_cfs,
    }
}

fn cfs_thread(name: &'static str, priority: u32) -> CfsThread {
    CfsThread {
        thread: ctx(1, name, true),
        wait_entity: WaitEntity::new(),
        sync_entity: SyncEntity::new(),
        sched_entity: SchedEntity::new(priority),
    }
}

fn rt_thread(name: &'static str) -> RtThread {
    RtThread {
        thread: ctx(2, name, false),
        wait_entity: WaitEntity::new(),
        sync_entity: SyncEntity::new(),
        ktimer_entity: None,
        runtime: 0,
    }
}

fn add_thread(kernel: &mut Kernel, thread: ThreadCtx) -> ThreadHandle {
    kernel.core.ctx.push(thread);
    kernel.core.wait.push(WaitEntity::new());
    kernel.core.sync.push(SyncEntity::new());
    kernel.core.sched.push(SchedEntity::new(1));
    kernel.core.ktimer_of.push(None);
    kernel.core.runtime.push(0);
    ThreadHandle {
        slot: kernel.core.ctx.len() - 1,
    }
}

#[test]
fn thread_state_transition_matrix_documents_lifecycle() {
    assert!(ThreadState::Ready.can_transition_to(ThreadState::Running));
    assert!(ThreadState::Ready.can_transition_to(ThreadState::Waiting));
    assert!(ThreadState::Running.can_transition_to(ThreadState::Ready));
    assert!(ThreadState::Running.can_transition_to(ThreadState::Waiting));
    assert!(ThreadState::Waiting.can_transition_to(ThreadState::Ready));

    assert!(!ThreadState::Waiting.can_transition_to(ThreadState::Running));
}

#[test]
fn thread_context_helpers_follow_ready_running_waiting_ready_cycle() {
    let mut cfs = cfs_thread("cfs", 1);

    assert_eq!(cfs.thread.state, ThreadState::Ready);

    cfs.thread.set_state(ThreadState::Running);
    assert_eq!(cfs.thread.state, ThreadState::Running);

    cfs.thread.set_state(ThreadState::Waiting);
    assert_eq!(cfs.thread.state, ThreadState::Waiting);

    cfs.thread.set_state(ThreadState::Ready);
    assert_eq!(cfs.thread.state, ThreadState::Ready);
}

#[test]
fn cfs_thread_builder_initializes_typed_storage_and_stack() {
    let mut kernel = Kernel::new();
    let mut stack = AlignedStack([0; 64]);
    let arg = 0x1234;

    init_cfs_rq(&mut kernel.core);
    let handle = CfsThreadBuilder::new("cfs", ENTRY, 3)
        .with_arg(arg)
        .spawn(&mut kernel, &mut stack, BASE);
    let cfs = cfs_thread_from_handle(&kernel.core, handle);

    assert_eq!(handle.id(&kernel.core).as_u32(), cfs.thread.id);
    assert_eq!(handle.name(&kernel.core), "cfs");
    assert_eq!(handle.state(&kernel.core), ThreadState::Ready);
    assert!(handle.is_cfs(&kernel.core));
    assert!(!handle.is_rt(&kernel.core));
    assert_eq!(cfs.thread.name, "cfs");
    assert!(cfs.thread.is_cfs);
    assert_eq!(cfs.sched_entity.priority, 3);
    assert_eq!(cfs.thread.sp, (BASE + 4 * (64 - 16)) as u32);
    assert_eq!(stack.0[64 - 8], arg as u32);
    assert!(kernel
        .core
        .run_queue
        .tree
        .contains(&kernel.core.sched, handle.slot));
}

#[test]
fn rt_thread_builder_initializes_typed_storage_stack_and_timer() {
    let mut kernel = Kernel::new();
    let mut stack = AlignedStack([0; 64]);
    let ktimer = RtKTimer::new(10, None, "rt");

    init_ktimer_queue(&mut kernel);
    let handle =
        RtThreadBuilder::new("rt", ENTRY, Some(ktimer)).spawn(&mut kernel, &mut stack, BASE);
    let rt = rt_thread_from_handle(&kernel.core, handle);

    assert_eq!(handle.id(&kernel.core).as_u32(), rt.thread.id);
    assert_eq!(handle.name(&kernel.core), "rt");
    assert_eq!(handle.state(&kernel.core), ThreadState::Ready);
    assert!(!handle.is_cfs(&kernel.core));
    assert!(handle.is_rt(&kernel.core));
    assert_eq!(rt.thread.name, "rt");
    assert!(!rt.thread.is_cfs);
    assert_eq!(rt.runtime, 0);
    let timer = rt.ktimer_entity().unwrap();
    assert_eq!(kernel.core.timers[timer].timing(), ktimer.timing());
    assert_eq!(kernel.core.timer_owner[timer], Some(handle.slot));
    assert!(kernel.queue.contains(&kernel.core.timers, timer));
}

#[test]
fn cfs_thread_builder_try_spawn_reports_validation_errors() {
    let mut kernel = Kernel::new();
    let mut stack = AlignedStack([0; 64]);
    let mut small_stack = AlignedStack([0; INITIAL_FRAME_WORDS - 1]);
    let mut odd_stack = AlignedStack([0; INITIAL_FRAME_WORDS + 1]);

    assert_eq!(
        CfsThreadBuilder::new("bad", ENTRY, 1).try_spawn(
            &mut kernel,
            None,
            Some(&mut stack),
            BASE
        ),
        Err(ThreadSpawnError::NullThreadStorage)
    );
    assert_eq!(
        CfsThreadBuilder::new("bad", ENTRY, 1).try_spawn::<64>(
            &mut kernel,
            Some(ThreadStorage),
            None,
            BASE
        ),
        Err(ThreadSpawnError::NullStack)
    );
    assert_eq!(
        CfsThreadBuilder::new("bad", ENTRY, 1).try_spawn(
            &mut kernel,
            Some(ThreadStorage),
            Some(&mut small_stack),
            BASE
        ),
        Err(ThreadSpawnError::StackTooSmall {
            required_words: INITIAL_FRAME_WORDS,
            actual_words: INITIAL_FRAME_WORDS - 1,
        })
    );
    assert_eq!(
        CfsThreadBuilder::new("bad", ENTRY, 1).try_spawn(
            &mut kernel,
            Some(ThreadStorage),
            Some(&mut odd_stack),
            BASE
        ),
        Err(ThreadSpawnError::UnalignedStackTop)
    );
    assert_eq!(
        CfsThreadBuilder::new("bad", ENTRY, 0).try_spawn(
            &mut kernel,
            Some(ThreadStorage),
            Some(&mut stack),
            BASE
        ),
        Err(ThreadSpawnError::ZeroPriority)
    );
    assert!(kernel.core.ctx.is_empty());
    assert_eq!(stack.0, [0; 64]);
}

#[test]
fn rt_thread_builder_try_spawn_reports_null_timer() {
    let mut kernel = Kernel::new();
    let mut stack = AlignedStack([0; 64]);

    assert_eq!(
        RtThreadBuilder::new("bad", ENTRY, None).try_spawn(
            &mut kernel,
            Some(ThreadStorage),
            Some(&mut stack),
            BASE
        ),
        Err(ThreadSpawnError::NullRtTimer)
    );
}

#[test]
fn try_spawn_starts_valid_threads() {
    let mut kernel = Kernel::new();
    init_ktimer_queue(&mut kernel);
    let mut stack = AlignedStack([0; 16]);

    let cfs = CfsThreadBuilder::new("cfs", ENTRY, 5)
        .try_spawn(&mut kernel, Some(ThreadStorage), Some(&mut stack), BASE)
        .unwrap();
    let rt = RtThreadBuilder::new("rt", ENTRY, Some(RtKTimer::new(30, None, "rt")))
        .with_arg(9)
        .try_spawn(&mut kernel, Some(ThreadStorage), Some(&mut stack), BASE)
        .unwrap();

    assert_eq!(cfs.id(&kernel.core), ThreadId(0));
    assert_eq!(rt.id(&kernel.core), ThreadId(1));
    assert_eq!(kernel.core.next_thread_id, 2);
    assert_eq!(kernel.core.run_queue.priority_sum, 5);
    assert_eq!(stack.0[16 - 2], ENTRY as u32);
    assert_eq!(stack.0[16 - 8], 9);
}

#[test]
fn thread_identifiers_wrap_around() {
    let mut kernel = Kernel::new();
    kernel.core.next_thread_id = u32::MAX;
    let mut stack = AlignedStack([0; 16]);
    let start = ThreadStart::new("last", ENTRY).with_arg(1);

    let last = forkyi::<CfsThread, 16>(&mut kernel, &mut stack, BASE, start, 1);
    let first = forkyi::<CfsThread, 16>(&mut kernel, &mut stack, BASE, start, 1);

    assert_eq!(last.id(&kernel.core).as_u32(), u32::MAX);
    assert_eq!(first.id(&kernel.core).as_u32(), 0);
}

#[test]
fn spawn_errors_have_messages() {
    assert_eq!(
        ThreadSpawnError::NullThreadStorage.message(),
        "thread storage pointer must be non-null"
    );
    assert_eq!(
        ThreadSpawnError::NullStack.message(),
        "thread stack pointer must be non-null"
    );
    assert_eq!(
        ThreadSpawnError::StackTooSmall {
            required_words: 16,
            actual_words: 15
        }
        .message(),
        "thread stack must reserve at least 16 words for the initial platform frame"
    );
    assert_eq!(
        ThreadSpawnError::UnalignedStackTop.message(),
        "thread stack top must be 8-byte aligned"
    );
    assert_eq!(
        ThreadSpawnError::ZeroPriority.message(),
        "CFS thread priority must be non-zero"
    );
    assert_eq!(
        ThreadSpawnError::NullRtTimer.message(),
        "RT thread ktimer must be non-null"
    );
}

#[test]
fn cfs_thread_exposes_sched_info() {
    let cfs = cfs_thread("cfs", 3);

    assert_eq!(*cfs.thread_ctx(), cfs.thread);
    assert_eq!(cfs.sched_info().priority, 3);
    assert_eq!(
        cfs.sched_info(),
        SchedInfo {
            priority: 3,
            sched_tick_cnt: 0,
            vruntime: 0
        }
    );

    let mut kernel = Kernel::new();
    let handle = add_thread(&mut kernel, cfs.thread);
    assert_eq!(cfs_thread_from_handle(&kernel.core, handle).thread, cfs.thread);
}

#[test]
fn wait_info_selects_wait_entity_by_thread_class() {
    let mut cfs = cfs_thread("cfs", 1);
    let mut rt = rt_thread("rt");

    cfs.wait_entity.set_wake_after(0, 11);
    cfs.wait_entity.waitevt = 7;
    rt.wait_entity.set_wake_after(0, 13);
    rt.wait_entity.waitevt = 9;

    assert_eq!(cfs.wait_info(0), (11, 7));
    assert_eq!(rt.wait_info(0), (13, 9));
    assert_eq!(cfs.wait_info(12), (0, 7));
}

#[test]
fn wait_entity_recovers_thread_context_for_both_thread_classes() {
    let mut kernel = Kernel::new();
    let cfs = add_thread(&mut kernel, ctx(1, "cfs", true));
    let rt = add_thread(&mut kernel, ctx(2, "rt", false));
    kernel.core.wait[cfs.slot].waitevt = 5;
    kernel.core.wait[rt.slot].waitevt = 6;

    let ThreadRef::Cfs(fair) = thread_ref_from_handle(&kernel.core, cfs) else {
        panic!("fair thread expected");
    };
    let ThreadRef::Rt(real_time) = thread_ref_from_handle(&kernel.core, rt) else {
        panic!("real-time thread expected");
    };
    assert_eq!(fair.wait_entity.waitevt, 5);
    assert_eq!(fair.thread.name, "cfs");
    assert_eq!(real_time.wait_entity.waitevt, 6);
    assert_eq!(real_time.thread.name, "rt");
}

#[test]
fn sync_entity_recovers_thread_context_for_both_thread_classes() {
    let mut kernel = Kernel::new();
    let cfs = add_thread(&mut kernel, ctx(1, "cfs", true));
    let rt = add_thread(&mut kernel, ctx(2, "rt", false));
    kernel.core.sync[cfs.slot].set_deadline_at(5);
    kernel.core.sync[rt.slot].set_deadline_at(6);

    for (handle, deadline_at, name) in [(cfs, 5, "cfs"), (rt, 6, "rt")] {
        let record = thread_ref_from_handle(&kernel.core, handle);
        assert_eq!(record.thread_ctx().name, name);
        let entity = match record {
            ThreadRef::Cfs(thread) => thread.sync_entity,
            ThreadRef::Rt(thread) => thread.sync_entity,
        };
        assert_eq!(entity.deadline_at(), deadline_at);
    }
}

#[test]
fn current_thread_helpers_report_missing_current_thread() {
    let kernel = Kernel::new();

    assert_eq!(current_thread(&kernel.core), None);
    assert_eq!(current_thread_id(&kernel.core), None);
    assert_eq!(current_rt_thread_runtime(&kernel.core), None);
}

#[test]
fn current_thread_helpers_report_current_cfs_thread() {
    let mut kernel = Kernel::new();
    let cfs = add_thread(&mut kernel, ctx(1, "cfs", true));
    kernel.core.current = Some(cfs.slot);
    kernel.core.current_is_cfs = true;

    let handle = current_thread(&kernel.core).expect("current CFS thread should be set");
    assert_eq!(handle.id(&kernel.core), ThreadId(1));
    assert_eq!(handle.name(&kernel.core), "cfs");
    assert_eq!(handle.state(&kernel.core), ThreadState::Ready);
    assert!(handle.is_cfs(&kernel.core));
    assert_eq!(current_thread_id(&kernel.core), Some(ThreadId(1)));
    assert_eq!(current_rt_thread_runtime(&kernel.core), None);
}

#[test]
fn rt_thread_helpers_access_runtime_and_ktimer_entity() {
    let mut kernel = Kernel::new();
    let rt = rt_thread("rt");

    assert_eq!(*rt.thread_ctx(), rt.thread);
    assert!(!rt.has_ktimer());

    let handle = add_thread(&mut kernel, rt.thread);
    kernel.core.current = Some(handle.slot);
    kernel.core.current_is_cfs = false;
    let timer = add_rt_ktimer(&mut kernel, RtKTimer::new(10, None, "rt"));
    RtKTimer::init_rt_thread(&mut kernel, timer, handle);
    assert_eq!(rt_ktimer_entity(&kernel.core, handle), Some(timer));
    assert!(rt_thread_from_handle(&kernel.core, handle).has_ktimer());

    assert!(set_rt_thread_start_time(&mut kernel.core, 42));
    assert_eq!(rt_thread_from_handle(&kernel.core, handle).runtime(), 42);
    assert_eq!(current_rt_thread_runtime(&kernel.core), Some(42));
    assert_eq!(current_thread_id(&kernel.core), Some(rt.thread.id()));
    assert!(current_thread(&kernel.core)
        .expect("current RT thread should be set")
        .is_rt(&kernel.core));
}

#[test]
fn set_rt_thread_start_time_ignores_cfs_current_thread() {
    let mut kernel = Kernel::new();
    let cfs = add_thread(&mut kernel, ctx(1, "cfs", true));
    kernel.core.current = Some(cfs.slot);
    kernel.core.current_is_cfs = true;

    assert!(!set_rt_thread_start_time(&mut kernel.core, 42));
    assert_eq!(kernel.core.runtime[cfs.slot], 0);
}

#[test]
fn set_rt_thread_start_time_ignores_missing_current_thread() {
    let mut kernel = Kernel::new();

    assert!(!set_rt_thread_start_time(&mut kernel.core, 42));
}

#[test]
fn records_give_mutable_access_to_their_context() {
    let mut cfs = cfs_thread("cfs", 1);
    let mut rt = rt_thread("rt");
    cfs.thread_ctx_mut().set_state(ThreadState::Running);
    rt.thread_ctx_mut().set_state(ThreadState::Waiting);
    assert_eq!(cfs.thread.state(), ThreadState::Running);
    assert_eq!(rt.thread.state(), ThreadState::Waiting);
    assert!(cfs.thread.is_cfs());
    assert_eq!(rt.thread.name(), "rt");
}

#[test]
fn timer_can_be_bound_to_another_thread() {
    let mut kernel = Kernel::new();
    init_ktimer_queue(&mut kernel);
    let first = add_thread(&mut kernel, ctx(1, "first", false));
    let second = add_thread(&mut kernel, ctx(2, "second", false));
    let timer = add_rt_ktimer(&mut kernel, RtKTimer::new(10, None, "rt"));
    let entity = kernel.core.timers[timer];
    RtKTimer::init_rt_thread(&mut kernel, timer, first);

    RtKTimer::init_rt_thread(&mut kernel, timer, second);

    assert_eq!(kernel.core.timer_owner[timer], Some(second.slot));
    assert_eq!(rt_ktimer_entity(&kernel.core, second), Some(timer));
    assert_eq!(rt_ktimer_entity(&kernel.core, first), Some(timer));
    assert_eq!(kernel.core.timers[timer], entity);
}
