//! Core thread definitions for the runtime scheduler.

use crate::kernel::{Core, CoreView};
use crate::runq::SchedEntity;
use crate::sync::SyncEntity;
use crate::waitq::WaitEntity;
use vstd::prelude::*;

verus! {

/// Scheduler-assigned thread identifier.
#[derive(Clone, Copy, Debug, PartialEq, Eq, PartialOrd, Ord, Hash, Structural)]
pub struct ThreadId(pub u32);

impl ThreadId {
    /// Return the numeric identifier assigned when the thread was spawned.
    pub fn as_u32(self) -> (id: u32)
        ensures
            id == self.0,
    {
        self.0
    }
}

/// Opaque reference to a scheduler thread.
///
/// Handles are returned by thread builders. The handle is copyable and
/// non-owning: it identifies the slot of the thread in the scheduler state.
#[derive(Clone, Copy, Debug, PartialEq, Eq, Structural)]
pub struct ThreadHandle {
    pub slot: usize,
}

impl ThreadHandle {
    /// The handle refers to a thread of the scheduler.
    pub open spec fn valid(self, core: CoreView) -> bool {
        self.slot < core.ctx.len()
    }

    /// Return this thread's scheduler-assigned identifier.
    pub fn id(self, core: &Core) -> (id: ThreadId)
        requires
            self.valid(core@),
        ensures
            id == ThreadId(core@.ctx[self.slot as int].id),
    {
        core.ctx[self.slot].id()
    }

    /// Return this thread's static diagnostic name.
    pub fn name(self, core: &Core) -> (name: &'static str)
        requires
            self.valid(core@),
        ensures
            name == core@.ctx[self.slot as int].name,
    {
        core.ctx[self.slot].name()
    }

    /// Return this thread's current scheduler state.
    pub fn state(self, core: &Core) -> (state: ThreadState)
        requires
            self.valid(core@),
        ensures
            state == core@.ctx[self.slot as int].state,
    {
        core.ctx[self.slot].state()
    }

    /// Return whether this handle refers to a CFS thread.
    pub fn is_cfs(self, core: &Core) -> (is_cfs: bool)
        requires
            self.valid(core@),
        ensures
            is_cfs == core@.ctx[self.slot as int].is_cfs,
    {
        core.ctx[self.slot].is_cfs()
    }

    /// Return whether this handle refers to an RT thread.
    pub fn is_rt(self, core: &Core) -> (is_rt: bool)
        requires
            self.valid(core@),
        ensures
            is_rt == !core@.ctx[self.slot as int].is_cfs,
    {
        !self.is_cfs(core)
    }
}

/// Validation failures that can be reported before a thread is spawned.
///
/// Use `try_spawn` when setup code wants to handle these failures explicitly.
/// The `spawn` convenience methods take only what passes the validation.
#[derive(Clone, Copy, Debug, PartialEq, Eq, Structural)]
pub enum ThreadSpawnError {
    NullThreadStorage,
    NullStack,
    StackTooSmall { required_words: usize, actual_words: usize },
    UnalignedStackTop,
    ZeroPriority,
    NullRtTimer,
}

impl ThreadSpawnError {
    /// Text for each failure.
    pub open spec fn text(self) -> &'static str {
        match self {
            ThreadSpawnError::NullThreadStorage => "thread storage pointer must be non-null",
            ThreadSpawnError::NullStack => "thread stack pointer must be non-null",
            ThreadSpawnError::StackTooSmall { .. } =>
                "thread stack must reserve at least 16 words for the initial platform frame",
            ThreadSpawnError::UnalignedStackTop => "thread stack top must be 8-byte aligned",
            ThreadSpawnError::ZeroPriority => "CFS thread priority must be non-zero",
            ThreadSpawnError::NullRtTimer => "RT thread ktimer must be non-null",
        }
    }

    pub fn message(self) -> (message: &'static str)
        ensures
            message == self.text(),
    {
        match self {
            ThreadSpawnError::NullThreadStorage => "thread storage pointer must be non-null",
            ThreadSpawnError::NullStack => "thread stack pointer must be non-null",
            ThreadSpawnError::StackTooSmall { .. } =>
                "thread stack must reserve at least 16 words for the initial platform frame",
            ThreadSpawnError::UnalignedStackTop => "thread stack top must be 8-byte aligned",
            ThreadSpawnError::ZeroPriority => "CFS thread priority must be non-zero",
            ThreadSpawnError::NullRtTimer => "RT thread ktimer must be non-null",
        }
    }
}

/// Execution state for a scheduled thread.
#[derive(Clone, Copy, Debug, PartialEq, Eq, Structural)]
pub enum ThreadState {
    /// The thread is eligible to run when selected by the scheduler.
    ///
    /// Normal transitions:
    /// - `Ready -> Running` when selected by the scheduler.
    /// - `Ready -> Waiting` when moved to a wait queue before it runs.
    Ready,
    /// The thread is currently executing on the CPU.
    ///
    /// Normal transitions:
    /// - `Running -> Ready` when preempted or voluntarily yielding.
    /// - `Running -> Waiting` when sleeping or waiting for an event.
    Running,
    /// The thread cannot run until an external event or resource becomes ready.
    ///
    /// Normal transition:
    /// - `Waiting -> Ready` when its wait condition expires or is satisfied.
    ///
    /// `Waiting -> Running` is deliberately not a scheduler transition; a
    /// thread must become `Ready` before it can be selected to run.
    Waiting,
}

impl ThreadState {
    /// Every change of state is allowed but the one from waiting to running.
    pub open spec fn allows(self, next: ThreadState) -> bool {
        !(self is Waiting && next is Running)
    }

    pub fn can_transition_to(self, next: Self) -> (allowed: bool)
        ensures
            allowed == self.allows(next),
    {
        match (self, next) {
            (ThreadState::Ready, _) => true,
            (ThreadState::Running, _) => true,
            (ThreadState::Waiting, ThreadState::Running) => false,
            (ThreadState::Waiting, _) => true,
        }
    }
}

/// Common scheduler-visible thread context.
///
/// `sp` points at the saved stack frame used when restoring the thread.
/// `exc_return` is a platform restore token prepared and consumed by the
/// active context-switch backend.
#[derive(Clone, Copy, Debug, PartialEq, Eq)]
pub struct ThreadCtx {
    /// Stack pointer captured for the next restore of this thread.
    pub sp: u32,
    /// Saved platform restore token.
    pub exc_return: u32,
    /// Scheduler-assigned thread identifier.
    pub id: u32,
    /// Human-readable thread name for logs and diagnostics.
    pub name: &'static str,
    /// Current lifecycle state used by the scheduler.
    pub state: ThreadState,
    /// Scheduler class of the thread.
    pub is_cfs: bool,
}

impl ThreadCtx {
    pub fn id(&self) -> (id: ThreadId)
        ensures
            id == ThreadId(self.id),
    {
        ThreadId(self.id)
    }

    pub fn name(&self) -> (name: &'static str)
        ensures
            name == self.name,
    {
        self.name
    }

    pub fn state(&self) -> (state: ThreadState)
        ensures
            state == self.state,
    {
        self.state
    }

    pub fn is_cfs(&self) -> (is_cfs: bool)
        ensures
            is_cfs == self.is_cfs,
    {
        self.is_cfs
    }

    pub fn set_state(&mut self, next: ThreadState)
        requires
            old(self).state.allows(next),
        ensures
            *final(self) == (ThreadCtx { state: next, ..*old(self) }),
    {
        self.state = next;
    }
}

/// Scheduling metrics of a fair thread.
#[derive(Clone, Copy, Debug, PartialEq, Eq, Structural)]
pub struct SchedInfo {
    /// CFS priority. Must be non-zero; lower numeric values are favored.
    pub priority: u32,
    /// Raw execution ticks accumulated by the CFS scheduler.
    pub sched_tick_cnt: u64,
    /// Virtual runtime used for CFS run-queue ordering.
    pub vruntime: u64,
}

/// Thread control block for CFS-scheduled threads.
#[derive(Clone, Copy, Debug, PartialEq, Eq)]
pub struct CfsThread {
    pub thread: ThreadCtx,
    /// Wait entity used for wait-queue ordering.
    pub wait_entity: WaitEntity,
    /// Sync entity used for semaphore and mutex waiter ordering.
    pub sync_entity: SyncEntity,
    /// Scheduler entity used for CFS run-queue ordering.
    pub sched_entity: SchedEntity,
}

impl CfsThread {
    pub fn thread_ctx(&self) -> (thread: &ThreadCtx)
        ensures
            *thread == self.thread,
    {
        &self.thread
    }

    pub fn thread_ctx_mut(&mut self) -> (thread: &mut ThreadCtx)
        ensures
            *thread == old(self).thread,
            *final(self) == (CfsThread { thread: *final(thread), ..*old(self) }),
    {
        &mut self.thread
    }

    /// Return this thread's CFS scheduling entity.
    pub fn sched_entity(&self) -> (entity: &SchedEntity)
        ensures
            *entity == self.sched_entity,
    {
        &self.sched_entity
    }

    /// Return a copy of this CFS thread's scheduling metrics.
    pub fn sched_info(&self) -> (info: SchedInfo)
        ensures
            info == (SchedInfo {
                priority: self.sched_entity.priority,
                sched_tick_cnt: self.sched_entity.sched_tick_cnt,
                vruntime: self.sched_entity.vruntime,
            }),
    {
        let entity = self.sched_entity();
        SchedInfo {
            priority: entity.priority,
            sched_tick_cnt: entity.sched_tick_cnt(),
            vruntime: entity.vruntime(),
        }
    }

    /// Return this thread's remaining wait ticks at time `now` and its wait event.
    pub fn wait_info(&self, now: u64) -> (info: (u32, u32))
        ensures
            info == (self.wait_entity.remaining(now), self.wait_entity.waitevt),
    {
        wait_info_from_entity(&self.wait_entity, now)
    }
}

/// Thread control block for RT-scheduled threads.
#[derive(Clone, Copy, Debug, PartialEq, Eq)]
pub struct RtThread {
    pub thread: ThreadCtx,
    /// Wait entity used for wait-queue ordering.
    pub wait_entity: WaitEntity,
    /// Sync entity used for semaphore and mutex waiter ordering.
    pub sync_entity: SyncEntity,
    /// Timer used for deadline ordering.
    pub ktimer_entity: Option<usize>,
    /// Elapsed tick counter for the RT thread's current period/job window.
    ///
    /// This is not only CPU execution time: it also covers time spent waiting
    /// after the thread yields into the wait queue, so RT deadlines continue to
    /// advance while the thread is sleeping. The counter is charged when the RT
    /// thread gives up the processor, and also when it wakes from the wait queue.
    /// It is reset when the RT thread starts a new period.
    pub runtime: u32,
}

impl RtThread {
    pub fn thread_ctx(&self) -> (thread: &ThreadCtx)
        ensures
            *thread == self.thread,
    {
        &self.thread
    }

    pub fn thread_ctx_mut(&mut self) -> (thread: &mut ThreadCtx)
        ensures
            *thread == old(self).thread,
            *final(self) == (RtThread { thread: *final(thread), ..*old(self) }),
    {
        &mut self.thread
    }

    pub fn ktimer_entity(&self) -> (timer: Option<usize>)
        ensures
            timer == self.ktimer_entity,
    {
        self.ktimer_entity
    }

    pub fn has_ktimer(&self) -> (has: bool)
        ensures
            has == (self.ktimer_entity is Some),
    {
        self.ktimer_entity().is_some()
    }

    pub fn runtime(&self) -> (runtime: u32)
        ensures
            runtime == self.runtime,
    {
        self.runtime
    }

    /// Return this thread's remaining wait ticks at time `now` and its wait event.
    pub fn wait_info(&self, now: u64) -> (info: (u32, u32))
        ensures
            info == (self.wait_entity.remaining(now), self.wait_entity.waitevt),
    {
        wait_info_from_entity(&self.wait_entity, now)
    }
}

/// Control block of a thread of either class.
#[derive(Clone, Copy, Debug, PartialEq, Eq)]
pub enum ThreadRef {
    Cfs(CfsThread),
    Rt(RtThread),
}

impl ThreadRef {
    pub open spec fn ctx(self) -> ThreadCtx {
        match self {
            ThreadRef::Cfs(thread) => thread.thread,
            ThreadRef::Rt(thread) => thread.thread,
        }
    }

    pub fn thread_ctx(&self) -> (thread: &ThreadCtx)
        ensures
            *thread == self.ctx(),
    {
        match self {
            ThreadRef::Cfs(thread) => thread.thread_ctx(),
            ThreadRef::Rt(thread) => thread.thread_ctx(),
        }
    }
}

fn wait_info_from_entity(entity: &WaitEntity, now: u64) -> (info: (u32, u32))
    ensures
        info == (entity.remaining(now), entity.waitevt),
{
    (entity.remaining_at(now), entity.waitevt)
}

/// The columns of a fair thread.
pub open spec fn cfs_record(core: &Core, i: usize) -> CfsThread {
    CfsThread {
        thread: core.ctx@[i as int],
        wait_entity: core.wait@[i as int],
        sync_entity: core.sync@[i as int],
        sched_entity: core.sched@[i as int],
    }
}

/// The columns of a real-time thread.
pub open spec fn rt_record(core: &Core, i: usize) -> RtThread {
    RtThread {
        thread: core.ctx@[i as int],
        wait_entity: core.wait@[i as int],
        sync_entity: core.sync@[i as int],
        ktimer_entity: core.ktimer_of@[i as int],
        runtime: core.runtime@[i as int],
    }
}

pub fn cfs_thread_from_handle(core: &Core, thread: ThreadHandle) -> (record: CfsThread)
    requires
        core.wf(),
        thread.valid(core@),
    ensures
        record == cfs_record(core, thread.slot),
{
    CfsThread {
        thread: core.ctx[thread.slot],
        wait_entity: core.wait[thread.slot],
        sync_entity: core.sync[thread.slot],
        sched_entity: core.sched[thread.slot],
    }
}

pub fn rt_thread_from_handle(core: &Core, thread: ThreadHandle) -> (record: RtThread)
    requires
        core.wf(),
        thread.valid(core@),
    ensures
        record == rt_record(core, thread.slot),
{
    RtThread {
        thread: core.ctx[thread.slot],
        wait_entity: core.wait[thread.slot],
        sync_entity: core.sync[thread.slot],
        ktimer_entity: core.ktimer_of[thread.slot],
        runtime: core.runtime[thread.slot],
    }
}

pub fn thread_ref_from_handle(core: &Core, thread: ThreadHandle) -> (record: ThreadRef)
    requires
        core.wf(),
        thread.valid(core@),
    ensures
        record == if core@.ctx[thread.slot as int].is_cfs {
            ThreadRef::Cfs(cfs_record(core, thread.slot))
        } else {
            ThreadRef::Rt(rt_record(core, thread.slot))
        },
{
    if core.ctx[thread.slot].is_cfs {
        ThreadRef::Cfs(cfs_thread_from_handle(core, thread))
    } else {
        ThreadRef::Rt(rt_thread_from_handle(core, thread))
    }
}

} // verus!
