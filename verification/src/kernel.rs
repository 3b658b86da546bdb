//! Scheduler state.
//!
//! Threads and timers live in arenas and are named by their slots. The state of
//! a thread is spread over columns, one per aspect, so that each queue can link
//! the entities of its own column.

use crate::clock::Clock;
use crate::ktimer::{CfsKTimer, KTimerEntity, KTimerQueue, RtTiming, WaitKTimer};
use crate::print::{Printer, PrinterView};
use crate::runq::{RunQueue, SchedEntity};
use crate::sync::SyncEntity;
use crate::thread::ThreadCtx;
use crate::trace::{Trace, TraceCounters, TraceView};
use crate::waitq::{WaitEntity, WaitQueue};
use vstd::prelude::*;

verus! {

/// Everything the scheduler keeps besides the timer queue.
pub struct Core {
    /// Common context of each thread.
    pub ctx: Vec<ThreadCtx>,
    /// Wait-queue entity of each thread.
    pub wait: Vec<WaitEntity>,
    /// Waiter entity of each thread for semaphores and mutexes.
    pub sync: Vec<SyncEntity>,
    /// Run-queue entity of each thread; used by fair threads only.
    pub sched: Vec<SchedEntity>,
    /// Timer of each thread; real-time threads have one once they are set up.
    pub ktimer_of: Vec<Option<usize>>,
    /// Elapsed ticks of each real-time thread in its current job window.
    ///
    /// This is not only execution time: it also covers time spent waiting after
    /// the thread yields into the wait queue, so deadlines continue to advance
    /// while the thread is sleeping.
    pub runtime: Vec<u32>,
    /// Timers: the fair scheduling timer, the wait timer, then those of
    /// real-time threads.
    pub timers: Vec<KTimerEntity>,
    pub timer_names: Vec<&'static str>,
    /// Thread that owns each timer.
    pub timer_owner: Vec<Option<usize>>,
    pub run_queue: RunQueue,
    pub wait_queue: WaitQueue,
    /// Thread that the scheduler selected.
    pub current: Option<usize>,
    pub current_is_cfs: bool,
    /// Thread that runs when nothing else can.
    pub idle: Option<usize>,
    /// Timer that decides the next dispatch.
    pub next_ktimer: Option<usize>,
    pub clock: Clock,
    pub next_thread_id: u32,
    pub trace: Trace,
    pub printer: Printer,
    /// A context switch was requested and not performed yet.
    pub switch_pending: bool,
    /// Thread that missed its deadline. The scheduler has stopped.
    pub fault: Option<usize>,
}

/// Abstract state of `Core`: entities without their links, queues as sets.
#[verifier::ext_equal]
pub struct CoreView {
    pub ctx: Seq<ThreadCtx>,
    pub wait: Seq<WaitEntity>,
    pub sync: Seq<SyncEntity>,
    pub sched: Seq<SchedEntity>,
    pub ktimer_of: Seq<Option<usize>>,
    pub runtime: Seq<u32>,
    pub timers: Seq<KTimerEntity>,
    pub timer_names: Seq<&'static str>,
    pub timer_owner: Seq<Option<usize>>,
    pub run: Set<usize>,
    pub priority_sum: u32,
    pub waiting: Set<usize>,
    pub current: Option<usize>,
    pub current_is_cfs: bool,
    pub idle: Option<usize>,
    pub next_ktimer: Option<usize>,
    pub clock: Clock,
    pub next_thread_id: u32,
    pub trace: TraceView,
    pub printer: PrinterView,
    pub switch_pending: bool,
    pub fault: Option<usize>,
}

impl View for Core {
    type V = CoreView;

    open spec fn view(&self) -> CoreView {
        CoreView {
            ctx: self.ctx@,
            wait: crate::rbtree::payloads(self.wait@),
            sync: crate::rbtree::payloads(self.sync@),
            sched: crate::rbtree::payloads(self.sched@),
            ktimer_of: self.ktimer_of@,
            runtime: self.runtime@,
            timers: crate::rbtree::payloads(self.timers@),
            timer_names: self.timer_names@,
            timer_owner: self.timer_owner@,
            run: self.run_queue.tree.ids(),
            priority_sum: self.run_queue.priority_sum,
            waiting: self.wait_queue.tree.ids(),
            current: self.current,
            current_is_cfs: self.current_is_cfs,
            idle: self.idle,
            next_ktimer: self.next_ktimer,
            clock: self.clock,
            next_thread_id: self.next_thread_id,
            trace: self.trace@,
            printer: self.printer@,
            switch_pending: self.switch_pending,
            fault: self.fault,
        }
    }
}

impl CoreView {
    /// No threads, and only the two timers that every scheduler has.
    pub open spec fn initial() -> CoreView {
        CoreView {
            ctx: Seq::empty(),
            wait: Seq::empty(),
            sync: Seq::empty(),
            sched: Seq::empty(),
            ktimer_of: Seq::empty(),
            runtime: Seq::empty(),
            timers: seq![
                KTimerEntity::armed(
                    0,
                    RtTiming { period_ticks: 0, relative_deadline_ticks: 0, budget_ticks: 0 },
                ),
                WaitKTimer::parked(),
            ],
            timer_names: seq!["cfs", "wait"],
            timer_owner: seq![None, None],
            run: Set::empty(),
            priority_sum: 0,
            waiting: Set::empty(),
            current: None,
            current_is_cfs: false,
            idle: None,
            next_ktimer: None,
            clock: Clock { freq: 0 },
            next_thread_id: 0,
            trace: TraceView {
                counters: TraceCounters {
                    context_switches: 0,
                    deadline_misses: 0,
                    wakeups: 0,
                    yields: 0,
                },
                enabled: false,
                events: Seq::empty(),
            },
            printer: PrinterView { enabled: false, lines: Seq::empty() },
            switch_pending: false,
            fault: None,
        }
    }

    /// The columns fit together and every reference leads somewhere.
    pub open spec fn ok(self) -> bool {
        &&& self.wait.len() == self.ctx.len()
        &&& self.sync.len() == self.ctx.len()
        &&& self.sched.len() == self.ctx.len()
        &&& self.ktimer_of.len() == self.ctx.len()
        &&& self.runtime.len() == self.ctx.len()
        &&& self.timers.len() >= 2
        &&& self.timer_names.len() == self.timers.len()
        &&& self.timer_owner.len() == self.timers.len()
        &&& forall|i: usize|
            i < self.ctx.len() && (#[trigger] self.ctx[i as int]).is_cfs
                ==> self.sched[i as int].priority != 0
        &&& forall|i: usize| #[trigger]
            self.run.contains(i) ==> i < self.ctx.len() && self.ctx[i as int].is_cfs
        &&& forall|i: usize| #[trigger] self.waiting.contains(i) ==> i < self.ctx.len()
        &&& self.current is Some ==> self.current->0 < self.ctx.len()
            && self.ctx[self.current->0 as int].is_cfs == self.current_is_cfs
        &&& self.idle is Some ==> self.idle->0 < self.ctx.len()
            && self.ctx[self.idle->0 as int].is_cfs
        &&& self.next_ktimer is Some ==> self.next_ktimer->0 < self.timers.len()
        &&& forall|i: usize|
            i < self.ctx.len() && (#[trigger] self.ktimer_of[i as int]) is Some ==> {
                let t = self.ktimer_of[i as int]->0;
                2 <= t < self.timers.len() && self.timer_owner[t as int] is Some
            }
        &&& forall|t: usize|
            t < self.timers.len() && (#[trigger] self.timer_owner[t as int]) is Some ==> {
                let i = self.timer_owner[t as int]->0;
                t >= 2 && i < self.ctx.len() && !self.ctx[i as int].is_cfs
            }
        &&& !self.timers[1].active
    }

    pub open spec fn with_state(self, i: usize, state: crate::thread::ThreadState) -> CoreView {
        CoreView {
            ctx: self.ctx.update(i as int, ThreadCtx { state, ..self.ctx[i as int] }),
            ..self
        }
    }

    pub open spec fn with_timer(self, t: usize, timer: KTimerEntity) -> CoreView {
        CoreView { timers: self.timers.update(t as int, timer), ..self }
    }

    pub open spec fn with_runtime(self, i: usize, ticks: u32) -> CoreView {
        CoreView { runtime: self.runtime.update(i as int, ticks), ..self }
    }

    pub open spec fn with_wait(self, i: usize, entity: WaitEntity) -> CoreView {
        CoreView { wait: self.wait.update(i as int, entity), ..self }
    }

    pub open spec fn with_sched(self, i: usize, entity: SchedEntity) -> CoreView {
        CoreView { sched: self.sched.update(i as int, entity), ..self }
    }
}

impl Core {
    /// The queues are in order and the columns fit together.
    pub open spec fn wf(&self) -> bool {
        &&& self.run_queue.tree.wf(self.sched@)
        &&& self.wait_queue.tree.wf(self.wait@)
        &&& self@.ok()
    }

    /// Scheduler state without threads, before initialization.
    pub fn new() -> (core: Self)
        ensures
            core.wf(),
            core@ == CoreView::initial(),
    {
        let cfs = CfsKTimer::new(0, 0, "cfs");
        let wait = WaitKTimer::inactive();
        let mut timers: Vec<KTimerEntity> = Vec::new();
        timers.push(cfs.entity);
        timers.push(wait.entity);
        let mut timer_names: Vec<&'static str> = Vec::new();
        timer_names.push(cfs.name);
        timer_names.push(wait.name);
        let mut timer_owner: Vec<Option<usize>> = Vec::new();
        timer_owner.push(None);
        timer_owner.push(None);
        let core = Core {
            ctx: Vec::new(),
            wait: Vec::new(),
            sync: Vec::new(),
            sched: Vec::new(),
            ktimer_of: Vec::new(),
            runtime: Vec::new(),
            timers,
            timer_names,
            timer_owner,
            run_queue: RunQueue::new(),
            wait_queue: WaitQueue::new(),
            current: None,
            current_is_cfs: false,
            idle: None,
            next_ktimer: None,
            clock: Clock::new(),
            next_thread_id: 0,
            trace: Trace::new(),
            printer: Printer::new(),
            switch_pending: false,
            fault: None,
        };
        assert(core@ =~= CoreView::initial());
        core
    }
}

/// Abstract state of the scheduler: the core, the queued timers and the clock of
/// the timer queue.
#[verifier::ext_equal]
pub struct KernelView {
    pub core: CoreView,
    pub queued: Set<usize>,
    pub now: u64,
}

/// Abstract state of a timer queue together with the core it works on.
pub open spec fn kview(queue: &KTimerQueue, core: &Core) -> KernelView {
    KernelView { core: core@, queued: queue.ids(), now: queue.now_ticks }
}

impl KernelView {
    /// The core is consistent, the queued timers exist, and no thread is both waiting
    /// and runnable.
    pub open spec fn ok(self) -> bool {
        &&& self.core.ok()
        &&& forall|t: usize| #[trigger] self.queued.contains(t) ==> t < self.core.timers.len()
        &&& self.core.run.disjoint(self.core.waiting)
    }

    /// The timer that expires first.
    pub open spec fn first(self) -> Option<usize> {
        crate::rbtree::first_of::<KTimerEntity>(self.core.timers, self.queued)
    }

    /// The active timer that expires first.
    pub open spec fn first_active(self) -> Option<usize> {
        crate::rbtree::first_of::<KTimerEntity>(
            self.core.timers,
            crate::ktimer::active_ids(self.core.timers, self.queued),
        )
    }

    pub open spec fn enqueued(self, t: usize) -> KernelView {
        KernelView { queued: self.queued.insert(t), ..self }
    }

    pub open spec fn dequeued(self, t: usize) -> KernelView {
        KernelView { queued: self.queued.remove(t), ..self }
    }

    pub open spec fn with_core(self, core: CoreView) -> KernelView {
        KernelView { core, ..self }
    }
}

/// The queues are in order and the state is consistent.
pub open spec fn kernel_wf(queue: &KTimerQueue, core: &Core) -> bool {
    &&& core.run_queue.tree.wf(core.sched@)
    &&& core.wait_queue.tree.wf(core.wait@)
    &&& queue.wf(core.timers@)
    &&& kview(queue, core).ok()
}

/// A scheduler: its timer queue and everything else.
pub struct Kernel {
    pub queue: KTimerQueue,
    pub core: Core,
}

impl View for Kernel {
    type V = KernelView;

    open spec fn view(&self) -> KernelView {
        kview(&self.queue, &self.core)
    }
}

impl Kernel {
    pub open spec fn wf(&self) -> bool {
        kernel_wf(&self.queue, &self.core)
    }

    /// Scheduler without threads, before initialization.
    pub fn new() -> (kernel: Self)
        ensures
            kernel.wf(),
            kernel@ == (KernelView {
                core: CoreView::initial(),
                queued: Set::empty(),
                now: 0,
            }),
    {
        Kernel { queue: KTimerQueue::new(), core: Core::new() }
    }
}

} // verus!
