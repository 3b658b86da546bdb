//! Creation of threads.

use crate::kernel::{Core, CoreView, Kernel, KernelView};
use crate::ktimer::{KTimerEntity, RtKTimer};
use crate::platform::{
    init_thread_stack, AlignedStack, InitialThreadContext, EXC_RETURN_THREAD_MODE_PSP,
    THREAD_INITIAL_FRAME_WORDS, THREAD_STACK_ALIGNMENT,
};
use crate::rbtree::{RBTreeNode, RbNode};
use crate::runq::{enqueue_thread, SchedEntity};
use crate::sync::SyncEntity;
use crate::thread::{
    CfsThread, RtThread, ThreadCtx, ThreadHandle, ThreadSpawnError, ThreadState,
};
use crate::timers::enqueue_ktimer;
use crate::waitq::WaitEntity;
use vstd::prelude::*;

verus! {

impl CoreView {
    /// A thread joins the scheduler, in no queue yet.
    pub open spec fn thread_added(self, ctx: ThreadCtx, sched: SchedEntity) -> CoreView {
        CoreView {
            ctx: self.ctx.push(ctx),
            wait: self.wait.push(WaitEntity::fresh()),
            sync: self.sync.push(SyncEntity::fresh()),
            sched: self.sched.push(sched),
            ktimer_of: self.ktimer_of.push(None),
            runtime: self.runtime.push(0),
            ..self
        }
    }

    /// A timer joins the scheduler; nobody owns it and it is not queued.
    pub open spec fn timer_created(self, timer: RtKTimer) -> CoreView {
        CoreView {
            timers: self.timers.push(timer.entity.payload()),
            timer_names: self.timer_names.push(timer.name),
            timer_owner: self.timer_owner.push(None),
            ..self
        }
    }

    /// Real-time thread `i` and timer `t` refer to each other.
    pub open spec fn timer_bound(self, t: usize, i: usize) -> CoreView {
        CoreView {
            timer_owner: self.timer_owner.update(t as int, Some(i)),
            ktimer_of: self.ktimer_of.update(i as int, Some(t)),
            ..self
        }
    }
}

proof fn lemma_thread_added_ok(k: KernelView, ctx: ThreadCtx, sched: SchedEntity)
    requires
        k.ok(),
        ctx.is_cfs ==> sched.priority != 0,
    ensures
        k.with_core(k.core.thread_added(ctx, sched)).ok(),
{
    let r = k.with_core(k.core.thread_added(ctx, sched));
    assert forall|j: usize|
        j < r.core.ctx.len() && (#[trigger] r.core.ctx[j as int]).is_cfs implies r.core.sched[j as int].priority
        != 0 by {
        if j < k.core.ctx.len() {
            assert(k.core.ctx[j as int].is_cfs);
        }
    }
    assert forall|j: usize| #[trigger] r.core.run.contains(j) implies j < r.core.ctx.len()
        && r.core.ctx[j as int].is_cfs by {
        assert(k.core.run.contains(j));
    }
    assert forall|j: usize|
        j < r.core.ctx.len() && (#[trigger] r.core.ktimer_of[j as int]) is Some implies {
        let t = r.core.ktimer_of[j as int]->0;
        2 <= t < r.core.timers.len() && r.core.timer_owner[t as int] is Some
    } by {
        if j < k.core.ctx.len() {
            assert(k.core.ktimer_of[j as int] is Some);
        }
    }
    assert forall|t: usize|
        t < r.core.timers.len() && (#[trigger] r.core.timer_owner[t as int]) is Some implies {
        let i = r.core.timer_owner[t as int]->0;
        t >= 2 && i < r.core.ctx.len() && !r.core.ctx[i as int].is_cfs
    } by {
        assert(k.core.timer_owner[t as int] is Some);
    }
}

proof fn lemma_timer_created_ok(k: KernelView, timer: RtKTimer)
    requires
        k.ok(),
    ensures
        k.with_core(k.core.timer_created(timer)).ok(),
{
    let r = k.with_core(k.core.timer_created(timer));
    assert forall|t: usize|
        t < r.core.timers.len() && (#[trigger] r.core.timer_owner[t as int]) is Some implies {
        let i = r.core.timer_owner[t as int]->0;
        t >= 2 && i < r.core.ctx.len() && !r.core.ctx[i as int].is_cfs
    } by {
        if t < k.core.timers.len() {
            assert(k.core.timer_owner[t as int] is Some);
        }
    }
    assert forall|j: usize|
        j < r.core.ctx.len() && (#[trigger] r.core.ktimer_of[j as int]) is Some implies {
        let t = r.core.ktimer_of[j as int]->0;
        2 <= t < r.core.timers.len() && r.core.timer_owner[t as int] is Some
    } by {
        assert(k.core.ktimer_of[j as int] is Some);
    }
}

proof fn lemma_timer_bound_ok(k: KernelView, t: usize, i: usize)
    requires
        k.ok(),
        2 <= t < k.core.timers.len(),
        i < k.core.ctx.len(),
        !k.core.ctx[i as int].is_cfs,
    ensures
        k.with_core(k.core.timer_bound(t, i)).ok(),
{
    let r = k.with_core(k.core.timer_bound(t, i));
    assert forall|s: usize|
        s < r.core.timers.len() && (#[trigger] r.core.timer_owner[s as int]) is Some implies {
        let o = r.core.timer_owner[s as int]->0;
        s >= 2 && o < r.core.ctx.len() && !r.core.ctx[o as int].is_cfs
    } by {
        if s != t {
            assert(k.core.timer_owner[s as int] is Some);
        }
    }
    assert forall|j: usize|
        j < r.core.ctx.len() && (#[trigger] r.core.ktimer_of[j as int]) is Some implies {
        let s = r.core.ktimer_of[j as int]->0;
        2 <= s < r.core.timers.len() && r.core.timer_owner[s as int] is Some
    } by {
        if j != i {
            assert(k.core.ktimer_of[j as int] is Some);
        }
    }
}

/// Adds a thread to the scheduler state; it is in no queue yet.
fn add_thread(kernel: &mut Kernel, ctx: ThreadCtx, sched: SchedEntity) -> (slot: usize)
    requires
        old(kernel).wf(),
        ctx.is_cfs ==> sched.priority != 0,
        sched.rb_node == RbNode::detached(),
    ensures
        final(kernel).wf(),
        slot == old(kernel).core.ctx.len(),
        final(kernel)@ == old(kernel)@.with_core(old(kernel)@.core.thread_added(ctx, sched)),
        final(kernel).core.timers@ == old(kernel).core.timers@,
        final(kernel).core.sync@ == old(kernel).core.sync@.push(SyncEntity::fresh()),
{
    let ghost k = kernel@;
    let ghost core0 = kernel.core;
    let slot: usize = kernel.core.ctx.len();
    kernel.core.ctx.push(ctx);
    kernel.core.wait.push(WaitEntity::new());
    kernel.core.sync.push(SyncEntity::new());
    kernel.core.sched.push(sched);
    kernel.core.ktimer_of.push(None);
    kernel.core.runtime.push(0);
    proof {
        kernel.core.run_queue.tree.lemma_frame(core0.sched@, kernel.core.sched@);
        kernel.core.wait_queue.tree.lemma_frame(core0.wait@, kernel.core.wait@);
        assert(kernel@ =~= k.with_core(k.core.thread_added(ctx, sched)));
        lemma_thread_added_ok(k, ctx, sched);
    }
    slot
}

/// Adds a timer to the scheduler state; nobody owns it and it is not queued.
pub fn add_rt_ktimer(kernel: &mut Kernel, timer: RtKTimer) -> (slot: usize)
    requires
        old(kernel).wf(),
    ensures
        final(kernel).wf(),
        slot == old(kernel).core.timers.len(),
        final(kernel)@ == old(kernel)@.with_core(old(kernel)@.core.timer_created(timer)),
        final(kernel).core.sync@ == old(kernel).core.sync@,
{
    let ghost k = kernel@;
    let ghost timers0 = kernel.core.timers@;
    let slot: usize = kernel.core.timers.len();
    kernel.core.timers.push(timer.entity);
    kernel.core.timer_names.push(timer.name);
    kernel.core.timer_owner.push(None);
    proof {
        kernel.queue.tree.lemma_members(timers0);
        kernel.queue.lemma_frame(timers0, kernel.core.timers@);
        assert(kernel@ =~= k.with_core(k.core.timer_created(timer)));
        lemma_timer_created_ok(k, timer);
    }
    slot
}

/// Records the timer of a real-time thread.
fn set_rt_ktimer_entity(core: &mut Core, thread: usize, timer: usize)
    requires
        thread < old(core).ktimer_of.len(),
    ensures
        *final(core) == (Core { ktimer_of: final(core).ktimer_of, ..*old(core) }),
        final(core).ktimer_of@ == old(core).ktimer_of@.update(thread as int, Some(timer)),
{
    core.ktimer_of[thread] = Some(timer);
}

/// Timer of a real-time thread.
pub fn rt_ktimer_entity(core: &Core, thread: ThreadHandle) -> (timer: Option<usize>)
    requires
        core.wf(),
        thread.valid(core@),
    ensures
        timer == core@.ktimer_of[thread.slot as int],
{
    core.ktimer_of[thread.slot]
}

impl KTimerEntity {
    /// The timer in a slot with its name and its owner.
    ///
    /// The slot must not be that of the fair scheduling timer.
    pub fn rt_ktimer(core: &Core, entity: usize) -> (timer: RtKTimer)
        requires
            core.wf(),
            2 <= entity < core.timers.len(),
        ensures
            timer == (RtKTimer {
                entity: core.timers@[entity as int],
                name: core@.timer_names[entity as int],
                thread: core@.timer_owner[entity as int],
            }),
    {
        RtKTimer {
            entity: core.timers[entity],
            name: core.timer_names[entity],
            thread: core.timer_owner[entity],
        }
    }
}

impl RtKTimer {
    /// Binds a timer to a real-time thread: the two refer to each other from now on.
    pub fn init_rt_ktimer(kernel: &mut Kernel, timer: usize, thread: usize)
        requires
            old(kernel).wf(),
            2 <= timer < old(kernel).core.timers.len(),
            thread < old(kernel).core.ctx.len(),
            !old(kernel)@.core.ctx[thread as int].is_cfs,
        ensures
            final(kernel).wf(),
            final(kernel)@ == old(kernel)@.with_core(old(kernel)@.core.timer_bound(timer, thread)),
            final(kernel).core.sync@ == old(kernel).core.sync@,
    {
        let ghost k = kernel@;
        kernel.core.timer_owner[timer] = Some(thread);
        set_rt_ktimer_entity(&mut kernel.core, thread, timer);
        proof {
            assert(kernel@ =~= k.with_core(k.core.timer_bound(timer, thread)));
            lemma_timer_bound_ok(k, timer, thread);
        }
    }

    /// Binds a timer to a real-time thread, named by its handle.
    pub fn init_rt_thread(kernel: &mut Kernel, timer: usize, thread: ThreadHandle)
        requires
            old(kernel).wf(),
            2 <= timer < old(kernel).core.timers.len(),
            thread.valid(old(kernel)@.core),
            !old(kernel)@.core.ctx[thread.slot as int].is_cfs,
        ensures
            final(kernel).wf(),
            final(kernel)@ == old(kernel)@.with_core(
                old(kernel)@.core.timer_bound(timer, thread.slot),
            ),
            final(kernel).core.sync@ == old(kernel).core.sync@,
    {
        Self::init_rt_ktimer(kernel, timer, thread.slot)
    }
}

/// Scheduler-class-specific initialization for concrete thread control blocks.
pub trait ThreadControlBlock: Sized {
    /// Scheduler-class-specific initialization argument.
    type InitArgs;

    /// The class is that of fair threads.
    spec fn fair() -> bool;

    /// The scheduler can take one more thread of this class.
    spec fn can_init(k: KernelView, args: Self::InitArgs) -> bool;

    /// The scheduler after it has taken one more thread of this class.
    spec fn initialized(k: KernelView, common: ThreadCtx, args: Self::InitArgs) -> KernelView;

    fn is_fair() -> (is_cfs: bool)
        ensures
            is_cfs == Self::fair(),
    ;

    /// Adds a thread with the given context to the scheduler and returns its slot.
    fn init(kernel: &mut Kernel, common: ThreadCtx, args: Self::InitArgs) -> (slot: usize)
        requires
            old(kernel).wf(),
            Self::can_init(old(kernel)@, args),
            common.is_cfs == Self::fair(),
            common.state is Ready,
        ensures
            final(kernel).wf(),
            slot == old(kernel)@.core.ctx.len(),
            slot < final(kernel)@.core.ctx.len(),
            final(kernel)@ == Self::initialized(old(kernel)@, common, args),
            final(kernel).core.sync@ == old(kernel).core.sync@.push(SyncEntity::fresh()),
    ;
}

impl ThreadControlBlock for CfsThread {
    type InitArgs = u32;

    open spec fn fair() -> bool {
        true
    }

    /// The priority counts, and the sum of priorities can be represented.
    open spec fn can_init(k: KernelView, priority: u32) -> bool {
        priority != 0 && k.core.priority_sum + priority <= u32::MAX
    }

    /// The thread joins the run queue.
    open spec fn initialized(k: KernelView, common: ThreadCtx, priority: u32) -> KernelView {
        k.with_core(
            k.core.thread_added(common, SchedEntity::fresh(priority)).runnable(
                k.core.ctx.len() as usize,
            ),
        )
    }

    fn is_fair() -> (is_cfs: bool) {
        true
    }

    fn init(kernel: &mut Kernel, common: ThreadCtx, priority: u32) -> (slot: usize) {
        let ghost k = kernel@;
        let slot: usize = add_thread(kernel, common, SchedEntity::new(priority));
        let ghost k1 = kernel@;
        proof {
            assert(!k.core.run.contains(slot));
            assert(!k.core.waiting.contains(slot));
        }
        enqueue_thread(&mut kernel.core, slot);
        proof {
            let r = kernel@;
            assert(r.core.run == k1.core.run.insert(slot));
        }
        slot
    }
}

impl ThreadControlBlock for RtThread {
    type InitArgs = RtKTimer;

    open spec fn fair() -> bool {
        false
    }

    /// The timers have owners, and no deadline was missed.
    open spec fn can_init(k: KernelView, timer: RtKTimer) -> bool {
        k.owned() && k.core.fault is None
    }

    /// The thread gets its timer, and the timer is queued.
    open spec fn initialized(k: KernelView, common: ThreadCtx, timer: RtKTimer) -> KernelView {
        let t = k.core.timers.len() as usize;
        k.with_core(
            k.core.thread_added(common, SchedEntity::fresh(0)).timer_created(timer).timer_bound(
                t,
                k.core.ctx.len() as usize,
            ),
        ).timer_added(t)
    }

    fn is_fair() -> (is_cfs: bool) {
        false
    }

    fn init(kernel: &mut Kernel, common: ThreadCtx, timer: RtKTimer) -> (slot: usize) {
        let ghost k = kernel@;
        let slot: usize = add_thread(kernel, common, SchedEntity::new(0));
        let t: usize = add_rt_ktimer(kernel, timer);
        proof {
            assert(!k.core.waiting.contains(slot));
        }
        RtKTimer::init_rt_ktimer(kernel, t, slot);
        let ghost k1 = kernel@;
        proof {
            assert(!k.queued.contains(t));
            assert(k1.owned()) by {
                assert forall|s: usize| #[trigger] k1.queued.contains(s) && s >= 2 implies
                    k1.core.timer_owner[s as int] is Some by {
                    assert(k.queued.contains(s));
                }
            }
            crate::timers::lemma_refreshed(k1.enqueued(t));
        }
        enqueue_ktimer(kernel, t);
        slot
    }
}

/// Address of the function that a thread starts with.
pub type ThreadEntry = usize;

/// Room for the control block of one thread.
#[derive(Clone, Copy, Debug, PartialEq, Eq)]
pub struct ThreadStorage;

/// Name, entry function and argument of a thread.
#[derive(Clone, Copy, Debug, PartialEq, Eq)]
pub struct ThreadStart {
    pub name: &'static str,
    pub entry: ThreadEntry,
    pub arg: usize,
}

impl ThreadStart {
    pub fn new(name: &'static str, entry: ThreadEntry) -> (start: Self)
        ensures
            start == (ThreadStart { name, entry, arg: 0 }),
    {
        Self { name, entry, arg: 0 }
    }

    pub fn with_arg(self, arg: usize) -> (start: Self)
        ensures
            start == (ThreadStart { arg, ..self }),
    {
        Self { arg, ..self }
    }
}

impl KernelView {
    /// Context of a new thread: it is ready, and its saved stack pointer is that
    /// of the initial frame at the top of its stack of `words` words.
    pub open spec fn new_context(
        self,
        start: ThreadStart,
        words: int,
        base: usize,
        is_cfs: bool,
    ) -> ThreadCtx {
        ThreadCtx {
            sp: (base + 4 * (words - THREAD_INITIAL_FRAME_WORDS)) as u32,
            exc_return: EXC_RETURN_THREAD_MODE_PSP,
            id: self.core.next_thread_id,
            name: start.name,
            state: ThreadState::Ready,
            is_cfs,
        }
    }

    /// The identifier of the next thread has been handed out.
    pub open spec fn id_taken(self) -> KernelView {
        self.with_core(
            CoreView {
                next_thread_id: if self.core.next_thread_id == u32::MAX {
                    0
                } else {
                    (self.core.next_thread_id + 1) as u32
                },
                ..self.core
            },
        )
    }

    /// A thread of class `T` starts on a stack of `words` words at `base`.
    pub open spec fn forked<T: ThreadControlBlock>(
        self,
        start: ThreadStart,
        words: int,
        base: usize,
        args: T::InitArgs,
    ) -> KernelView {
        T::initialized(self.id_taken(), self.new_context(start, words, base, T::fair()), args)
    }
}

/// The address is one that a stack of `N` words can have.
pub open spec fn stack_fits(words: int, base: usize) -> bool {
    base % 4 == 0 && base + 4 * words <= usize::MAX
}

/// What is wrong with a stack of `words` words at `base`, if anything.
pub open spec fn stack_fault(words: int, base: usize) -> Option<ThreadSpawnError> {
    if words < THREAD_INITIAL_FRAME_WORDS {
        Some(
            ThreadSpawnError::StackTooSmall {
                required_words: THREAD_INITIAL_FRAME_WORDS,
                actual_words: words as usize,
            },
        )
    } else if (base + 4 * words) % (THREAD_STACK_ALIGNMENT as int) != 0 {
        Some(ThreadSpawnError::UnalignedStackTop)
    } else {
        None
    }
}

fn validate_thread_storage(thread: &Option<ThreadStorage>) -> (result: Result<
    (),
    ThreadSpawnError,
>)
    ensures
        result == if *thread is None {
            Err::<(), ThreadSpawnError>(ThreadSpawnError::NullThreadStorage)
        } else {
            Ok(())
        },
{
    if thread.is_none() {
        Err(ThreadSpawnError::NullThreadStorage)
    } else {
        Ok(())
    }
}

/// Checks a stack of `words` words at `base`.
pub fn validate_stack(present: bool, words: usize, base: usize) -> (result: Result<
    (),
    ThreadSpawnError,
>)
    requires
        present ==> stack_fits(words as int, base),
    ensures
        result == if !present {
            Err::<(), ThreadSpawnError>(ThreadSpawnError::NullStack)
        } else {
            match stack_fault(words as int, base) {
                Some(error) => Err(error),
                None => Ok(()),
            }
        },
{
    if !present {
        return Err(ThreadSpawnError::NullStack);
    }
    if words < THREAD_INITIAL_FRAME_WORDS {
        return Err(
            ThreadSpawnError::StackTooSmall {
                required_words: THREAD_INITIAL_FRAME_WORDS,
                actual_words: words,
            },
        );
    }
    let top: usize = base + 4 * words;
    assert(top & 7 == top % 8) by (bit_vector);
    if top & (THREAD_STACK_ALIGNMENT - 1) != 0 {
        return Err(ThreadSpawnError::UnalignedStackTop);
    }
    Ok(())
}

/// Low-level thread initializer used by the typed thread builders.
///
/// The initial frame is built at the top of the stack, whose first word is at
/// address `base`. The thread gets the next identifier.
pub fn forkyi<T: ThreadControlBlock, const N: usize>(
    kernel: &mut Kernel,
    stack: &mut AlignedStack<N>,
    base: usize,
    start: ThreadStart,
    init_args: T::InitArgs,
) -> (handle: ThreadHandle)
    requires
        old(kernel).wf(),
        stack_fits(N as int, base),
        stack_fault(N as int, base) is None,
        T::can_init(old(kernel)@.id_taken(), init_args),
    ensures
        final(kernel).wf(),
        handle.slot == old(kernel)@.core.ctx.len(),
        handle.valid(final(kernel)@.core),
        final(kernel)@ == old(kernel)@.forked::<T>(start, N as int, base, init_args),
        final(kernel).core.sync@ == old(kernel).core.sync@.push(SyncEntity::fresh()),
        final(stack).0@ == crate::platform::framed(
            old(stack).0@,
            N as int,
            start.entry,
            start.arg,
        ),
{
    let ghost k = kernel@;
    let initial_context: InitialThreadContext = init_thread_stack(
        stack,
        base,
        start.entry,
        start.arg,
    );
    let id: u32 = kernel.core.next_thread_id;
    kernel.core.next_thread_id = id.wrapping_add(1);
    proof {
        assert(kernel@ =~= k.id_taken());
    }
    let common = ThreadCtx {
        sp: initial_context.sp,
        exc_return: initial_context.exc_return,
        id,
        name: start.name,
        state: ThreadState::Ready,
        is_cfs: T::is_fair(),
    };
    let slot: usize = T::init(kernel, common, init_args);
    ThreadHandle { slot }
}

/// Validates storage and stack and starts a thread.
fn try_spawn_thread<T: ThreadControlBlock, const N: usize>(
    kernel: &mut Kernel,
    thread: Option<ThreadStorage>,
    stack: Option<&mut AlignedStack<N>>,
    base: usize,
    start: ThreadStart,
    init_args: T::InitArgs,
) -> (result: Result<ThreadHandle, ThreadSpawnError>)
    requires
        old(kernel).wf(),
        stack is Some ==> stack_fits(N as int, base),
        spawn_fault(thread, stack is Some, N as int, base) is None ==> T::can_init(
            old(kernel)@.id_taken(),
            init_args,
        ),
    ensures
        final(kernel).wf(),
        match spawn_fault(thread, stack is Some, N as int, base) {
            Some(error) => {
                &&& result == Err::<ThreadHandle, ThreadSpawnError>(error)
                &&& final(kernel)@ == old(kernel)@
                &&& final(kernel).core.sync@ == old(kernel).core.sync@
                &&& stack matches Some(s) ==> *final(s) == *s
            },
            None => {
                &&& result is Ok
                &&& result->Ok_0.slot == old(kernel)@.core.ctx.len()
                &&& result->Ok_0.valid(final(kernel)@.core)
                &&& final(kernel)@ == old(kernel)@.forked::<T>(start, N as int, base, init_args)
                &&& final(kernel).core.sync@ == old(kernel).core.sync@.push(SyncEntity::fresh())
                &&& stack matches Some(s) ==> final(s).0@ == crate::platform::framed(
                    s.0@,
                    N as int,
                    start.entry,
                    start.arg,
                )
            },
        },
{
    match validate_thread_storage(&thread) {
        Ok(()) => {},
        Err(error) => {
            return Err(error);
        },
    }
    match validate_stack(stack.is_some(), N, base) {
        Ok(()) => {},
        Err(error) => {
            return Err(error);
        },
    }
    match stack {
        Some(words) => Ok(forkyi::<T, N>(kernel, words, base, start, init_args)),
        None => Err(ThreadSpawnError::NullStack),
    }
}

/// What prevents a thread from being spawned, if anything.
pub open spec fn spawn_fault(
    thread: Option<ThreadStorage>,
    has_stack: bool,
    words: int,
    base: usize,
) -> Option<ThreadSpawnError> {
    if thread is None {
        Some(ThreadSpawnError::NullThreadStorage)
    } else if !has_stack {
        Some(ThreadSpawnError::NullStack)
    } else {
        stack_fault(words, base)
    }
}

/// Builder of fair threads.
pub struct CfsThreadBuilder {
    pub start: ThreadStart,
    pub priority: u32,
}

impl CfsThreadBuilder {
    /// Create a CFS thread builder.
    ///
    /// `priority` must be non-zero. Lower numeric priority values are favored
    /// because they accumulate CFS `vruntime` more slowly.
    pub fn new(name: &'static str, entry: ThreadEntry, priority: u32) -> (builder: Self)
        ensures
            builder == (CfsThreadBuilder { start: ThreadStart { name, entry, arg: 0 }, priority }),
    {
        Self { start: ThreadStart::new(name, entry), priority }
    }

    pub fn with_arg(self, arg: usize) -> (builder: Self)
        ensures
            builder == (CfsThreadBuilder { start: ThreadStart { arg, ..self.start }, ..self }),
    {
        Self { start: self.start.with_arg(arg), ..self }
    }

    /// Initialize a CFS thread on a stack whose first word is at address `base`.
    pub fn spawn<const N: usize>(
        self,
        kernel: &mut Kernel,
        stack: &mut AlignedStack<N>,
        base: usize,
    ) -> (handle: ThreadHandle)
        requires
            old(kernel).wf(),
            self.priority != 0,
            old(kernel)@.core.priority_sum + self.priority <= u32::MAX,
            stack_fits(N as int, base),
            stack_fault(N as int, base) is None,
        ensures
            final(kernel).wf(),
            handle.slot == old(kernel)@.core.ctx.len(),
            handle.valid(final(kernel)@.core),
            final(kernel)@ == old(kernel)@.forked::<CfsThread>(
                self.start,
                N as int,
                base,
                self.priority,
            ),
            final(kernel).core.sync@ == old(kernel).core.sync@.push(SyncEntity::fresh()),
            final(stack).0@ == crate::platform::framed(
                old(stack).0@,
                N as int,
                self.start.entry,
                self.start.arg,
            ),
    {
        forkyi::<CfsThread, N>(kernel, stack, base, self.start, self.priority)
    }

    /// Validate and initialize a CFS thread.
    ///
    /// This method reports missing storage, a missing, undersized or misaligned
    /// stack, and zero priority as `ThreadSpawnError`.
    pub fn try_spawn<const N: usize>(
        self,
        kernel: &mut Kernel,
        thread: Option<ThreadStorage>,
        stack: Option<&mut AlignedStack<N>>,
        base: usize,
    ) -> (result: Result<ThreadHandle, ThreadSpawnError>)
        requires
            old(kernel).wf(),
            stack is Some ==> stack_fits(N as int, base),
            spawn_fault(thread, stack is Some, N as int, base) is None ==> old(
                kernel,
            )@.core.priority_sum + self.priority <= u32::MAX,
        ensures
            final(kernel).wf(),
            match (if self.priority == 0 {
                Some(ThreadSpawnError::ZeroPriority)
            } else {
                spawn_fault(thread, stack is Some, N as int, base)
            }) {
                Some(error) => {
                    &&& result == Err::<ThreadHandle, ThreadSpawnError>(error)
                    &&& final(kernel)@ == old(kernel)@
                    &&& final(kernel).core.sync@ == old(kernel).core.sync@
                    &&& stack matches Some(s) ==> *final(s) == *s
                },
                None => {
                    &&& result is Ok
                    &&& result->Ok_0.slot == old(kernel)@.core.ctx.len()
                    &&& result->Ok_0.valid(final(kernel)@.core)
                    &&& final(kernel)@ == old(kernel)@.forked::<CfsThread>(
                        self.start,
                        N as int,
                        base,
                        self.priority,
                    )
                    &&& final(kernel).core.sync@ == old(kernel).core.sync@.push(SyncEntity::fresh())
                    &&& stack matches Some(s) ==> final(s).0@ == crate::platform::framed(
                        s.0@,
                        N as int,
                        self.start.entry,
                        self.start.arg,
                    )
                },
            },
    {
        if self.priority == 0 {
            return Err(ThreadSpawnError::ZeroPriority);
        }
        try_spawn_thread::<CfsThread, N>(
            kernel,
            thread,
            stack,
            base,
            self.start,
            self.priority,
        )
    }
}

/// Builder of real-time threads.
pub struct RtThreadBuilder {
    pub start: ThreadStart,
    pub ktimer: Option<RtKTimer>,
}

impl RtThreadBuilder {
    pub fn new(name: &'static str, entry: ThreadEntry, ktimer: Option<RtKTimer>) -> (builder: Self)
        ensures
            builder == (RtThreadBuilder { start: ThreadStart { name, entry, arg: 0 }, ktimer }),
    {
        Self { start: ThreadStart::new(name, entry), ktimer }
    }

    pub fn with_arg(self, arg: usize) -> (builder: Self)
        ensures
            builder == (RtThreadBuilder { start: ThreadStart { arg, ..self.start }, ..self }),
    {
        Self { start: self.start.with_arg(arg), ..self }
    }

    /// Initialize an RT thread with its timer on a stack whose first word is at
    /// address `base`.
    pub fn spawn<const N: usize>(
        self,
        kernel: &mut Kernel,
        stack: &mut AlignedStack<N>,
        base: usize,
    ) -> (handle: ThreadHandle)
        requires
            old(kernel).wf(),
            old(kernel)@.owned(),
            old(kernel)@.core.fault is None,
            self.ktimer is Some,
            stack_fits(N as int, base),
            stack_fault(N as int, base) is None,
        ensures
            final(kernel).wf(),
            handle.slot == old(kernel)@.core.ctx.len(),
            handle.valid(final(kernel)@.core),
            final(kernel)@ == old(kernel)@.forked::<RtThread>(
                self.start,
                N as int,
                base,
                self.ktimer->0,
            ),
            final(kernel).core.sync@ == old(kernel).core.sync@.push(SyncEntity::fresh()),
            final(stack).0@ == crate::platform::framed(
                old(stack).0@,
                N as int,
                self.start.entry,
                self.start.arg,
            ),
    {
        forkyi::<RtThread, N>(kernel, stack, base, self.start, self.ktimer.unwrap())
    }

    /// Validate and initialize an RT thread.
    ///
    /// This method reports missing storage, a missing, undersized or misaligned
    /// stack, and a missing timer as `ThreadSpawnError`.
    pub fn try_spawn<const N: usize>(
        self,
        kernel: &mut Kernel,
        thread: Option<ThreadStorage>,
        stack: Option<&mut AlignedStack<N>>,
        base: usize,
    ) -> (result: Result<ThreadHandle, ThreadSpawnError>)
        requires
            old(kernel).wf(),
            stack is Some ==> stack_fits(N as int, base),
            self.ktimer is Some && spawn_fault(thread, stack is Some, N as int, base) is None
                ==> old(kernel)@.owned() && old(kernel)@.core.fault is None,
        ensures
            final(kernel).wf(),
            match (if self.ktimer is None {
                Some(ThreadSpawnError::NullRtTimer)
            } else {
                spawn_fault(thread, stack is Some, N as int, base)
            }) {
                Some(error) => {
                    &&& result == Err::<ThreadHandle, ThreadSpawnError>(error)
                    &&& final(kernel)@ == old(kernel)@
                    &&& final(kernel).core.sync@ == old(kernel).core.sync@
                    &&& stack matches Some(s) ==> *final(s) == *s
                },
                None => {
                    &&& result is Ok
                    &&& result->Ok_0.slot == old(kernel)@.core.ctx.len()
                    &&& result->Ok_0.valid(final(kernel)@.core)
                    &&& final(kernel)@ == old(kernel)@.forked::<RtThread>(
                        self.start,
                        N as int,
                        base,
                        self.ktimer->0,
                    )
                    &&& final(kernel).core.sync@ == old(kernel).core.sync@.push(SyncEntity::fresh())
                    &&& stack matches Some(s) ==> final(s).0@ == crate::platform::framed(
                        s.0@,
                        N as int,
                        self.start.entry,
                        self.start.arg,
                    )
                },
            },
    {
        match self.ktimer {
            None => Err(ThreadSpawnError::NullRtTimer),
            Some(ktimer) => try_spawn_thread::<RtThread, N>(
                kernel,
                thread,
                stack,
                base,
                self.start,
                ktimer,
            ),
        }
    }
}

impl CoreView {
    /// Identifiers count the threads in the order of their creation.
    pub open spec fn ids_in_sequence(self) -> bool {
        &&& self.next_thread_id as int == self.ctx.len() % 0x1_0000_0000
        &&& forall|i: int|
            0 <= i < self.ctx.len() ==> (#[trigger] self.ctx[i]).id as int == i % 0x1_0000_0000
    }
}

/// Each new thread gets the next identifier.
pub proof fn lemma_ids_stay_in_sequence(
    k: KernelView,
    start: ThreadStart,
    words: int,
    base: usize,
    priority: u32,
    timer: RtKTimer,
)
    requires
        k.core.ids_in_sequence(),
        k.core.ctx.len() < usize::MAX,
    ensures
        k.forked::<CfsThread>(start, words, base, priority).core.ids_in_sequence(),
        k.forked::<RtThread>(start, words, base, timer).core.ids_in_sequence(),
{
    let fair = k.forked::<CfsThread>(start, words, base, priority).core;
    assert(fair.ctx =~= k.core.ctx.push(k.new_context(start, words, base, true)));
    let t = k.core.timers.len() as usize;
    let joined = k.id_taken().with_core(
        k.id_taken().core.thread_added(
            k.new_context(start, words, base, false),
            SchedEntity::fresh(0),
        ).timer_created(timer).timer_bound(t, k.core.ctx.len() as usize),
    ).enqueued(t);
    crate::lifecycle::lemma_refreshed_threads(joined);
}

/// As long as there are no more threads than identifiers, every identifier is
/// unique.
pub proof fn lemma_ids_are_unique(core: CoreView, i: int, j: int)
    requires
        core.ids_in_sequence(),
        core.ctx.len() <= 0x1_0000_0000,
        0 <= i < core.ctx.len(),
        0 <= j < core.ctx.len(),
        i != j,
    ensures
        core.ctx[i].id != core.ctx[j].id,
{
    assert(core.ctx[i].id as int == i % 0x1_0000_0000);
    assert(core.ctx[j].id as int == j % 0x1_0000_0000);
}

} // verus!
