//! Timer dispatch: expiration, wake-ups, yielding and the choice of the next
//! timer.

use crate::diag::print_rt_deadline_miss_diagnostics;
use crate::kernel::{Core, CoreView, KernelView};
use crate::ktimer::{
    KTimerEntity, KTimerQueue, CFS_KTIMER, KTIMER_DEADLINE_NEVER, WAIT_KTIMER,
};
use crate::print::DiagLine;
use crate::runq::enqueue_runq_from_waitq;
use crate::thread::ThreadState;
use crate::trace::{record_deadline_miss, record_wakeup};
use crate::waitq::pop_expired_wait_thread;
use vstd::prelude::*;

verus! {

impl CoreView {
    /// A thread that ran beyond its budget is reported and counted as a miss.
    pub open spec fn budget_charged(self, t: usize, i: usize) -> CoreView {
        let budget = self.timers[t as int].timing.budget_ticks;
        if self.runtime[i as int] > budget {
            CoreView {
                printer: self.printer.say(
                    seq![
                        DiagLine::BudgetOverrun {
                            name: self.ctx[i as int].name,
                            runtime: self.runtime[i as int],
                            budget,
                        },
                    ],
                ),
                ..self.with_timer(t, self.timers[t as int].missed())
            }
        } else {
            self
        }
    }

    /// The job of thread `i` took longer than its relative deadline.
    pub open spec fn over_deadline(self, t: usize, i: usize) -> bool {
        self.runtime[i as int] > self.timers[t as int].timing.relative_deadline_ticks
    }
}

impl KernelView {
    /// Thread `i` missed the deadline of timer `t`: the miss is counted, traced
    /// and reported, and the scheduler stops.
    pub open spec fn deadline_missed(self, t: usize, i: usize) -> KernelView {
        let core = self.core;
        let counted = CoreView {
            trace: core.trace.deadline_miss(
                core.ctx[i as int],
                core.runtime[i as int],
                core.timers[t as int].timing.relative_deadline_ticks,
            ),
            ..core.with_timer(t, core.timers[t as int].missed())
        };
        self.with_core(
            CoreView {
                printer: counted.printer.say(self.with_core(counted).miss_report(t, i)),
                fault: Some(i),
                ..counted
            },
        )
    }

    /// The wait timer expires when the first waiting thread must wake.
    pub open spec fn wait_armed(self) -> KernelView {
        let timer = self.core.timers[WAIT_KTIMER as int];
        self.with_core(
            self.core.with_timer(
                WAIT_KTIMER,
                KTimerEntity {
                    deadline_at: match self.core.first_wait() {
                        None => KTIMER_DEADLINE_NEVER,
                        Some(i) => self.core.wait[i as int].wake_at,
                    },
                    active: false,
                    ..timer
                },
            ),
        )
    }

    /// A real-time thread that was away is charged the elapsed time and competes
    /// again with what is left of its relative deadline.
    pub open spec fn resumed(self, i: usize, elapsed: u32) -> KernelView {
        let core = self.core;
        let t = core.ktimer_of[i as int]->0;
        let charged = core.with_runtime(
            i,
            core.runtime[i as int].saturating_add(elapsed),
        ).budget_charged(t, i);
        let timer = charged.timers[t as int];
        self.with_core(
            charged.with_timer(
                t,
                timer.with_active(true).after(
                    self.now,
                    timer.timing.relative_deadline_ticks.saturating_sub(charged.runtime[i as int]),
                ),
            ),
        ).enqueued(t)
    }

    /// Waiting thread `i` becomes ready: a fair thread rejoins the run queue, a
    /// real-time thread with a timer resumes its job.
    pub open spec fn woken(self, i: usize, elapsed: u32) -> KernelView {
        let ready = self.core.waiting_without(i).with_state(i, ThreadState::Ready);
        let core = CoreView { trace: ready.trace.wakeup(ready.ctx[i as int]), ..ready };
        if core.ctx[i as int].is_cfs {
            self.with_core(core.rejoined(i))
        } else if core.ktimer_of[i as int] is Some {
            self.with_core(core).resumed(i, elapsed)
        } else {
            self.with_core(core)
        }
    }

    /// Some waiting thread must wake now.
    pub open spec fn has_due_waiter(self) -> bool {
        self.core.first_wait() is Some
            && self.core.wait[self.core.first_wait()->0 as int].expired(self.now)
    }

    /// All waiting threads whose time has come become ready, the earliest first.
    pub open spec fn woken_all(self, elapsed: u32) -> KernelView
        decreases self.core.waiting.len(),
    {
        if self.has_due_waiter() && self.core.waiting.finite() {
            proof {
                lemma_woken_shrinks(self, self.core.first_wait()->0, elapsed);
            }
            self.woken(self.core.first_wait()->0, elapsed).woken_all(elapsed)
        } else {
            self
        }
    }
}

/// A woken thread leaves the wait queue.
pub proof fn lemma_woken_shrinks(k: KernelView, i: usize, elapsed: u32)
    requires
        k.core.first_wait() == Some(i),
        k.core.waiting.finite(),
    ensures
        k.core.waiting.contains(i),
        k.woken(i, elapsed).core.waiting == k.core.waiting.remove(i),
        k.woken(i, elapsed).core.waiting.len() < k.core.waiting.len(),
{
    let f = choose|f: usize|
        crate::rbtree::is_first::<crate::waitq::WaitEntity>(k.core.wait, k.core.waiting, f);
    assert(crate::rbtree::is_first::<crate::waitq::WaitEntity>(k.core.wait, k.core.waiting, f));
    assert(f == i);
}

/// Counts and reports a job that used more than its budget.
pub fn record_rt_budget_overrun(core: &mut Core, timer: usize, thread: usize)
    requires
        old(core).wf(),
        timer < old(core).timers.len(),
        thread < old(core).ctx.len(),
    ensures
        final(core).wf(),
        final(core)@ == old(core)@.budget_charged(timer, thread),
        crate::rbtree::links(final(core).timers@) == crate::rbtree::links(old(core).timers@),
        final(core).sync@ == old(core).sync@,
{
    let runtime: u32 = core.runtime[thread];
    let budget: u32 = core.timers[timer].budget_ticks();
    assert(budget == core@.timers[timer as int].timing.budget_ticks);
    if runtime > budget {
        let name = core.ctx[thread].name;
        core.printer.println(DiagLine::BudgetOverrun { name, runtime, budget });
        let misses: u32 = core.timers[timer].miss_cnt;
        core.timers[timer].miss_cnt = misses.saturating_add(1);
        assert(core@ =~= old(core)@.budget_charged(timer, thread));
        assert(crate::rbtree::links(core.timers@) =~= crate::rbtree::links(old(core).timers@));
    }
}

pub fn is_real_rt_deadline_miss(core: &Core, timer: usize, thread: usize) -> (missed: bool)
    requires
        core.wf(),
        timer < core.timers.len(),
        thread < core.ctx.len(),
    ensures
        missed == core@.over_deadline(timer, thread),
{
    assert(core@.timers[timer as int].timing == core.timers@[timer as int].timing);
    core.runtime[thread] > core.timers[timer].relative_deadline_ticks()
}

/// Counts, traces and reports a missed deadline and stops the scheduler.
pub fn record_rt_deadline_miss(
    queue: &KTimerQueue,
    core: &mut Core,
    timer: usize,
    thread: usize,
)
    requires
        old(core).wf(),
        queue.wf(old(core).timers@),
        timer < old(core).timers.len(),
        thread < old(core).ctx.len(),
    ensures
        final(core).wf(),
        queue.wf(final(core).timers@),
        crate::kernel::kview(queue, final(core)) == crate::kernel::kview(
            queue,
            old(core),
        ).deadline_missed(timer, thread),
        final(core).sync@ == old(core).sync@,
{
    let ghost k = crate::kernel::kview(queue, core);
    let runtime: u32 = core.runtime[thread];
    let relative_deadline: u32 = core.timers[timer].relative_deadline_ticks();
    assert(relative_deadline == core@.timers[timer as int].timing.relative_deadline_ticks);
    record_deadline_miss(&mut core.trace, &core.ctx[thread], runtime, relative_deadline);
    let misses: u32 = core.timers[timer].miss_cnt;
    core.timers[timer].miss_cnt = misses.saturating_add(1);
    proof {
        queue.lemma_frame(old(core).timers@, core.timers@);
        assert(core@ =~= (CoreView {
            trace: core@.trace,
            ..k.core.with_timer(timer, k.core.timers[timer as int].missed())
        }));
    }
    let lines = print_rt_deadline_miss_diagnostics(queue, core, timer, thread);
    core.printer.print_all(&lines);
    core.fault = Some(thread);
    assert(crate::kernel::kview(queue, core) =~= k.deadline_missed(timer, thread));
}

/// Lets the wait timer expire when the first waiting thread must wake.
pub fn update_wait_ktimer_deadline(queue: &KTimerQueue, core: &mut Core)
    requires
        old(core).wf(),
        queue.wf(old(core).timers@),
        !queue.ids().contains(WAIT_KTIMER),
    ensures
        final(core).wf(),
        queue.wf(final(core).timers@),
        crate::kernel::kview(queue, final(core)) == crate::kernel::kview(
            queue,
            old(core),
        ).wait_armed(),
        final(core).sync@ == old(core).sync@,
{
    match core.wait_queue.tree.first(&core.wait) {
        None => {
            core.timers[WAIT_KTIMER].set_deadline_never();
        },
        Some(first) => {
            let wake_at: u64 = core.wait[first].wake_at;
            assert(wake_at == core@.wait[first as int].wake_at);
            core.timers[WAIT_KTIMER].set_deadline_at(wake_at);
        },
    }
    core.timers[WAIT_KTIMER].set_active(false);
    proof {
        queue.lemma_frame(old(core).timers@, core.timers@);
        assert(crate::kernel::kview(queue, core) =~= crate::kernel::kview(
            queue,
            old(core),
        ).wait_armed());
    }
}

proof fn lemma_resumed_ok(k: KernelView, i: usize, elapsed: u32)
    requires
        k.ok(),
        i < k.core.ctx.len(),
        k.core.ktimer_of[i as int] is Some,
    ensures
        k.resumed(i, elapsed).ok(),
{
}

/// Charges the elapsed time to a real-time thread and queues its timer again. A
/// timer that is still queued is taken out first.
fn resume_rt_thread(queue: &mut KTimerQueue, core: &mut Core, thread: usize, elapsed: u32)
    requires
        crate::kernel::kernel_wf(old(queue), old(core)),
        thread < old(core).ctx.len(),
        old(core)@.ktimer_of[thread as int] is Some,
    ensures
        crate::kernel::kernel_wf(final(queue), final(core)),
        crate::kernel::kview(final(queue), final(core)) == crate::kernel::kview(
            old(queue),
            old(core),
        ).resumed(thread, elapsed),
        final(core).sync@ == old(core).sync@,
{
    let ghost k = crate::kernel::kview(queue, core);
    let timer: usize = core.ktimer_of[thread].unwrap();
    assert(core@.ktimer_of[thread as int] == Some(timer));
    if queue.contains(&core.timers, timer) {
        queue.remove(&mut core.timers, timer);
    }
    assert(core@ =~= k.core);
    let runtime: u32 = core.runtime[thread].saturating_add(elapsed);
    core.runtime[thread] = runtime;
    assert(core@ =~= k.core.with_runtime(thread, runtime));
    let ghost timers0 = core.timers@;
    record_rt_budget_overrun(core, timer, thread);
    let ghost charged = core@;
    let ghost timers1 = core.timers@;
    let relative_deadline: u32 = core.timers[timer].relative_deadline_ticks();
    assert(relative_deadline == charged.timers[timer as int].timing.relative_deadline_ticks);
    core.timers[timer].set_active(true);
    core.timers[timer].set_deadline_after(
        queue.now_ticks(),
        relative_deadline.saturating_sub(runtime),
    );
    core.timers[timer].reset_links();
    proof {
        queue.tree.lemma_members(timers0);
        assert forall|t: usize| t < timers0.len() && #[trigger] queue.ids().contains(t) implies
            core.timers@[t as int].node == timers0[t as int].node
            && core.timers@[t as int].deadline_at == timers0[t as int].deadline_at by {
            assert(crate::rbtree::links(timers0)[t as int] == timers0[t as int].node);
            assert(crate::rbtree::links(timers1)[t as int] == timers1[t as int].node);
            assert(charged.timers[t as int] == k.core.timers[t as int]);
            assert(charged.timers[t as int].deadline_at == timers1[t as int].deadline_at);
        }
        queue.lemma_frame(timers0, core.timers@);
    }
    queue.insert(&mut core.timers, timer);
    proof {
        lemma_resumed_ok(k, thread, elapsed);
        assert(queue.ids() =~= k.queued.insert(timer));
        assert(core@.timers =~= k.resumed(thread, elapsed).core.timers);
        assert(crate::kernel::kview(queue, core) =~= k.resumed(thread, elapsed));
    }
}

/// Makes one waiting thread ready that has left the wait queue already.
fn wake_thread(queue: &mut KTimerQueue, core: &mut Core, thread: usize, elapsed: u32)
    requires
        crate::kernel::kernel_wf(old(queue), old(core)),
        thread < old(core).ctx.len(),
        !old(core)@.waiting.contains(thread),
        old(core)@.ctx[thread as int].is_cfs ==> !old(core)@.run.contains(thread),
    ensures
        crate::kernel::kernel_wf(final(queue), final(core)),
        crate::kernel::kview(final(queue), final(core)) == crate::kernel::kview(
            old(queue),
            old(core),
        ).woken(thread, elapsed),
        final(core).sync@ == old(core).sync@,
{
    let ghost k = crate::kernel::kview(queue, core);
    core.ctx[thread].set_state(ThreadState::Ready);
    record_wakeup(&mut core.trace, &core.ctx[thread]);
    let ghost ready = core@;
    proof {
        assert(k.core.waiting.remove(thread) =~= k.core.waiting);
        assert(ready =~= (CoreView {
            trace: ready.trace,
            ..k.core.waiting_without(thread).with_state(thread, ThreadState::Ready)
        }));
    }
    if core.ctx[thread].is_cfs {
        enqueue_runq_from_waitq(core, thread);
    } else if core.ktimer_of[thread].is_some() {
        resume_rt_thread(queue, core, thread, elapsed);
    }
    assert(crate::kernel::kview(queue, core) =~= k.woken(thread, elapsed));
}

/// Wakes all waiting threads whose time has come.
pub fn wake_wait_thread(queue: &mut KTimerQueue, core: &mut Core, elapsed: u32)
    requires
        crate::kernel::kernel_wf(old(queue), old(core)),
    ensures
        crate::kernel::kernel_wf(final(queue), final(core)),
        crate::kernel::kview(final(queue), final(core)) == crate::kernel::kview(
            old(queue),
            old(core),
        ).woken_all(elapsed),
        final(core).sync@ == old(core).sync@,
{
    let ghost begin = crate::kernel::kview(queue, core);
    loop
        invariant
            crate::kernel::kernel_wf(queue, core),
            begin == crate::kernel::kview(old(queue), old(core)),
            crate::kernel::kview(queue, core).woken_all(elapsed) == begin.woken_all(elapsed),
            core.sync@ == old(core).sync@,
        ensures
            crate::kernel::kernel_wf(queue, core),
            crate::kernel::kview(queue, core) == begin.woken_all(elapsed),
            core.sync@ == old(core).sync@,
        decreases core.wait_queue.tree.len,
    {
        let ghost k = crate::kernel::kview(queue, core);
        proof {
            core.wait_queue.tree.lemma_in_order(core.wait@);
        }
        match pop_expired_wait_thread(core, queue.now_ticks()) {
            None => {
                break;
            },
            Some(thread) => {
                let ghost k1 = crate::kernel::kview(queue, core);
                wake_thread(queue, core, thread, elapsed);
                proof {
                    assert(k1.core == k.core.waiting_without(thread));
                    assert(k.core.waiting.remove(thread).remove(thread) =~= k.core.waiting.remove(
                        thread,
                    ));
                    assert(k1.woken(thread, elapsed) == k.woken(thread, elapsed));
                    lemma_woken_shrinks(k, thread, elapsed);
                    core.wait_queue.tree.lemma_in_order(core.wait@);
                }
            },
        }
    }
}

impl KernelView {
    /// The fair scheduling timer becomes active.
    pub open spec fn cfs_activated(self) -> KernelView {
        self.with_core(
            self.core.with_timer(
                CFS_KTIMER,
                self.core.timers[CFS_KTIMER as int].with_active(true),
            ),
        )
    }

    /// The timer that decides the next dispatch: the earliest active one or, when
    /// no timer is active, the fair scheduling timer, which then becomes active.
    pub open spec fn chosen(self) -> (KernelView, Option<usize>) {
        match self.first_active() {
            Some(t) => (self, Some(t)),
            None => (self.cfs_activated(), Some(CFS_KTIMER)),
        }
    }

    /// A timer has expired and the scheduler has not stopped.
    pub open spec fn due(self) -> bool {
        &&& self.core.fault is None
        &&& self.first() is Some
        &&& self.core.timers[self.first()->0 as int].expired(self.now)
    }

    /// The job of thread `i` ends at the expiration of its timer `t`; the next job
    /// starts with a fresh relative deadline.
    pub open spec fn released(self, t: usize, i: usize) -> KernelView {
        let timer = self.core.timers[t as int];
        self.with_core(
            self.core.with_runtime(i, 0).with_timer(
                t,
                timer.after(self.now, timer.timing.relative_deadline_ticks).with_active(true),
            ),
        ).enqueued(t)
    }

    /// The expired fair scheduling timer closes the window until the end of the
    /// period, or opens the next one.
    pub open spec fn cfs_window(self, elapsed: u32) -> KernelView {
        let timer = self.core.timers[CFS_KTIMER as int];
        let period = timer.timing.period_ticks;
        self.with_core(
            self.core.with_timer(
                CFS_KTIMER,
                if timer.active {
                    timer.after(self.now, period.saturating_sub(elapsed)).with_active(false)
                } else {
                    timer.after(self.now, period).with_active(true)
                },
            ),
        ).enqueued(CFS_KTIMER)
    }

    /// The first timer expires and is re-armed.
    pub open spec fn dispatched_first(self, elapsed: u32) -> KernelView {
        let t = self.first()->0;
        let k = self.dequeued(t);
        if t == WAIT_KTIMER {
            k.woken_all(elapsed).wait_armed().enqueued(WAIT_KTIMER)
        } else if t == CFS_KTIMER {
            k.cfs_window(elapsed)
        } else {
            let i = k.core.timer_owner[t as int]->0;
            if k.core.timers[t as int].active && k.core.over_deadline(t, i) {
                k.deadline_missed(t, i)
            } else {
                k.released(t, i)
            }
        }
    }

    /// Every timer that is about to expire moves on when it is re-armed: the
    /// clock is not at its end, and neither the fair scheduling period nor the
    /// relative deadline of an owner is zero.
    pub open spec fn dispatchable(self) -> bool {
        &&& self.ok()
        &&& self.now < u64::MAX
        &&& self.queued.finite()
        &&& self.core.waiting.finite()
        &&& self.queued.contains(CFS_KTIMER) && self.core.timers[CFS_KTIMER as int].expired(
            self.now,
        ) ==> self.core.timers[CFS_KTIMER as int].timing.period_ticks > 0
        &&& forall|t: usize| #[trigger]
            self.queued.contains(t) && t >= 2 && self.core.timers[t as int].expired(self.now)
                ==> self.core.timer_owner[t as int] is Some
                && self.core.timers[t as int].timing.relative_deadline_ticks > 0
        &&& forall|i: usize| #[trigger]
            self.core.waiting.contains(i) && !self.core.ctx[i as int].is_cfs
                && self.core.wait[i as int].expired(self.now) && self.core.ktimer_of[i as int] is Some
                ==> self.core.timers[self.core.ktimer_of[i as int]->0 as int].timing.relative_deadline_ticks
                > 0
    }

    /// Real-time thread `i` competes by timer `t` and its time to wake has come.
    pub open spec fn due_waiter_of(self, i: usize, t: usize) -> bool {
        &&& !self.core.ctx[i as int].is_cfs
        &&& self.core.wait[i as int].expired(self.now)
        &&& self.core.ktimer_of[i as int] == Some(t)
    }

    /// Timer `t` belongs to a real-time thread whose time to wake has come.
    pub open spec fn due_timer(self, t: usize) -> bool {
        t >= 2 && exists|i: usize| #[trigger]
            self.core.waiting.contains(i) && self.due_waiter_of(i, t)
    }

    /// Slots of the queued timers that have expired.
    pub open spec fn expired_ids(self) -> Set<usize> {
        self.queued.filter(|t: usize| self.core.timers[t as int].expired(self.now))
    }

    /// The fair scheduling timer is about to close its window.
    pub open spec fn closing(self) -> nat {
        if self.queued.contains(CFS_KTIMER) && self.core.timers[CFS_KTIMER as int].active
            && self.core.timers[CFS_KTIMER as int].expired(self.now) {
            1
        } else {
            0
        }
    }

    /// All expired timers are dispatched, the earliest first, until none is left
    /// or a deadline was missed.
    pub open spec fn dispatched(self, elapsed: u32) -> KernelView
        decreases self.core.waiting.len(), self.closing(), self.expired_ids().len(),
    {
        if self.due() && self.dispatchable() {
            proof {
                lemma_dispatch_progress(self, elapsed);
            }
            self.dispatched_first(elapsed).dispatched(elapsed)
        } else {
            self
        }
    }
}

proof fn lemma_rejoined_ok(core: CoreView, i: usize)
    requires
        core.ok(),
        i < core.ctx.len(),
        core.ctx[i as int].is_cfs,
    ensures
        core.rejoined(i).ok(),
        core.rejoined(i).ctx.len() == core.ctx.len(),
        forall|j: int|
            0 <= j < core.ctx.len() ==> (#[trigger] core.rejoined(i).ctx[j]).is_cfs
                == core.ctx[j].is_cfs,
        core.rejoined(i).run == core.run.insert(i),
{
    let r = core.rejoined(i);
    assert forall|j: usize| j < r.ctx.len() && (#[trigger] r.ctx[j as int]).is_cfs implies
        r.sched[j as int].priority != 0 by {
        assert(core.ctx[j as int].is_cfs);
    }
    assert forall|t: usize|
        t < r.timers.len() && (#[trigger] r.timer_owner[t as int]) is Some implies {
        let j = r.timer_owner[t as int]->0;
        t >= 2 && j < r.ctx.len() && !r.ctx[j as int].is_cfs
    } by {
        assert(core.timer_owner[t as int] is Some);
    }
    assert forall|j: usize|
        j < r.ctx.len() && (#[trigger] r.ktimer_of[j as int]) is Some implies {
        let t = r.ktimer_of[j as int]->0;
        2 <= t < r.timers.len() && r.timer_owner[t as int] is Some
    } by {
        assert(core.ktimer_of[j as int] is Some);
    }
}

/// Waking a thread keeps the state consistent and touches no timer but its own.
pub proof fn lemma_woken(k: KernelView, i: usize, elapsed: u32)
    requires
        k.ok(),
        k.core.waiting.contains(i),
    ensures
        k.woken(i, elapsed).ok(),
        k.woken(i, elapsed).now == k.now,
        k.woken(i, elapsed).core.fault == k.core.fault,
        k.woken(i, elapsed).core.waiting == k.core.waiting.remove(i),
        k.woken(i, elapsed).core.wait == k.core.wait,
        k.woken(i, elapsed).core.ktimer_of == k.core.ktimer_of,
        k.woken(i, elapsed).core.timer_owner == k.core.timer_owner,
        k.woken(i, elapsed).core.ctx.len() == k.core.ctx.len(),
        k.woken(i, elapsed).core.timers.len() == k.core.timers.len(),
        k.woken(i, elapsed).queued == if k.core.ctx[i as int].is_cfs
            || k.core.ktimer_of[i as int] is None {
            k.queued
        } else {
            k.queued.insert(k.core.ktimer_of[i as int]->0)
        },
        forall|j: int|
            0 <= j < k.core.ctx.len() ==> (#[trigger] k.woken(i, elapsed).core.ctx[j]).is_cfs
                == k.core.ctx[j].is_cfs,
        forall|t: int|
            0 <= t < k.core.timers.len() ==> {
                &&& (#[trigger] k.woken(i, elapsed).core.timers[t]).timing
                    == k.core.timers[t].timing
                &&& k.core.ctx[i as int].is_cfs || k.core.ktimer_of[i as int] is None
                    || k.core.ktimer_of[i as int]->0 != t ==> k.woken(i, elapsed).core.timers[t] == k.core.timers[t]
            },
{
    let ready = k.core.waiting_without(i).with_state(i, ThreadState::Ready);
    let core = CoreView { trace: ready.trace.wakeup(ready.ctx[i as int]), ..ready };
    let k1 = k.with_core(core);
    assert(core.ok()) by {
        assert forall|j: usize| j < core.ctx.len() && (#[trigger] core.ctx[j as int]).is_cfs implies
            core.sched[j as int].priority != 0 by {
            assert(k.core.ctx[j as int].is_cfs);
        }
        assert forall|t: usize|
            t < core.timers.len() && (#[trigger] core.timer_owner[t as int]) is Some implies {
            let j = core.timer_owner[t as int]->0;
            t >= 2 && j < core.ctx.len() && !core.ctx[j as int].is_cfs
        } by {
            assert(k.core.timer_owner[t as int] is Some);
        }
    }
    assert(k1.ok());
    if core.ctx[i as int].is_cfs {
        lemma_rejoined_ok(core, i);
    } else if core.ktimer_of[i as int] is Some {
        lemma_resumed_ok(k1, i, elapsed);
    }
}

/// Waking all due threads keeps the state consistent. Queued timers stay queued;
/// only those of woken real-time threads change, and they join the queue.
pub proof fn lemma_woken_all(k: KernelView, elapsed: u32)
    requires
        k.ok(),
        k.core.waiting.finite(),
    ensures
        ({
            let r = k.woken_all(elapsed);
            &&& r.ok()
            &&& r.now == k.now
            &&& r.core.fault == k.core.fault
            &&& r.core.waiting.finite()
            &&& r.core.waiting.subset_of(k.core.waiting)
            &&& !r.has_due_waiter()
            &&& k.has_due_waiter() ==> r.core.waiting.len() < k.core.waiting.len()
            &&& !k.has_due_waiter() ==> r == k
            &&& r.core.wait == k.core.wait
            &&& r.core.ktimer_of == k.core.ktimer_of
            &&& r.core.timer_owner == k.core.timer_owner
            &&& r.core.ctx.len() == k.core.ctx.len()
            &&& r.core.timers.len() == k.core.timers.len()
            &&& forall|j: int|
                0 <= j < k.core.ctx.len() ==> (#[trigger] r.core.ctx[j]).is_cfs
                    == k.core.ctx[j].is_cfs
            &&& forall|t: int|
                0 <= t < k.core.timers.len() ==> (#[trigger] r.core.timers[t]).timing
                    == k.core.timers[t].timing
            &&& forall|t: usize| #[trigger] k.queued.contains(t) ==> r.queued.contains(t)
            &&& forall|t: usize| #[trigger]
                r.queued.contains(t) ==> k.due_timer(t) || (k.queued.contains(t)
                    && r.core.timers[t as int] == k.core.timers[t as int])
            &&& forall|t: usize| t < 2 ==> r.core.timers[t as int] == k.core.timers[t as int]
            &&& k.queued.finite() ==> r.queued.finite()
        }),
    decreases k.core.waiting.len(),
{
    if k.has_due_waiter() {
        let i = k.core.first_wait()->0;
        lemma_woken_shrinks(k, i, elapsed);
        lemma_woken(k, i, elapsed);
        let w = k.woken(i, elapsed);
        lemma_woken_all(w, elapsed);
        let r = w.woken_all(elapsed);
        assert forall|t: usize| #[trigger] k.queued.contains(t) implies r.queued.contains(t) by {
            assert(w.queued.contains(t));
        }
        assert forall|t: usize| #[trigger] r.queued.contains(t) implies k.due_timer(t) || (
        k.queued.contains(t) && r.core.timers[t as int] == k.core.timers[t as int]) by {
            if w.due_timer(t) {
                let j = choose|j: usize| #[trigger] w.core.waiting.contains(j) && w.due_waiter_of(j, t);
                assert(k.core.waiting.contains(j) && k.due_waiter_of(j, t));
            } else if !k.core.ctx[i as int].is_cfs && k.core.ktimer_of[i as int] == Some(t) {
                assert(k.core.waiting.contains(i) && k.due_waiter_of(i, t));
            } else {
                assert(w.core.timers[t as int] == k.core.timers[t as int]);
            }
        }
        assert forall|j: int| 0 <= j < k.core.ctx.len() implies (#[trigger] r.core.ctx[j]).is_cfs
            == k.core.ctx[j].is_cfs by {
            assert(w.core.ctx[j].is_cfs == k.core.ctx[j].is_cfs);
        }
        assert forall|t: int| 0 <= t < k.core.timers.len() implies (
        #[trigger] r.core.timers[t]).timing == k.core.timers[t].timing by {
            assert(w.core.timers[t].timing == k.core.timers[t].timing);
        }
        assert forall|t: usize| t < 2 implies r.core.timers[t as int] == k.core.timers[t as int] by {
            assert(k.core.ktimer_of[i as int] is Some ==> k.core.ktimer_of[i as int]->0 >= 2);
            assert(w.core.timers[t as int] == k.core.timers[t as int]);
        }
    }
}

/// Each dispatch brings the end of the loop nearer: fewer threads wait, or the
/// fair scheduling window has closed, or fewer timers are expired.
pub proof fn lemma_dispatch_progress(k: KernelView, elapsed: u32)
    requires
        k.due(),
        k.dispatchable(),
    ensures
        decreases_to!(
            k.core.waiting.len(), k.closing(), k.expired_ids().len() =>
            k.dispatched_first(elapsed).core.waiting.len(),
            k.dispatched_first(elapsed).closing(),
            k.dispatched_first(elapsed).expired_ids().len()
        ),
{
    let t = k.first()->0;
    let r = k.dispatched_first(elapsed);
    let d = k.dequeued(t);
    let f = choose|f: usize|
        crate::rbtree::is_first::<KTimerEntity>(k.core.timers, k.queued, f);
    assert(crate::rbtree::is_first::<KTimerEntity>(k.core.timers, k.queued, f));
    assert(k.queued.contains(t));
    assert(k.expired_ids().contains(t));
    assert(k.expired_ids().finite());
    if t == WAIT_KTIMER {
        assert(d.ok());
        lemma_woken_all(d, elapsed);
        if !d.has_due_waiter() {
            assert(r.core.timers[WAIT_KTIMER as int].deadline_at > k.now);
            assert(r.expired_ids().subset_of(k.expired_ids().remove(t))) by {
                assert forall|x: usize| r.expired_ids().contains(x) implies k.expired_ids().remove(
                    t,
                ).contains(x) by {
                    assert(x != WAIT_KTIMER);
                    assert(d.queued.contains(x));
                }
            }
            vstd::set_lib::lemma_len_subset(r.expired_ids(), k.expired_ids().remove(t));
            assert(r.closing() == k.closing()) by {
                assert(d.queued.contains(CFS_KTIMER) == k.queued.contains(CFS_KTIMER));
            }
        }
    } else if t == CFS_KTIMER {
        let timer = k.core.timers[CFS_KTIMER as int];
        if !timer.active {
            assert(r.core.timers[CFS_KTIMER as int].deadline_at > k.now);
            assert(r.expired_ids().subset_of(k.expired_ids().remove(t)));
            vstd::set_lib::lemma_len_subset(r.expired_ids(), k.expired_ids().remove(t));
        }
    } else {
        assert(r.expired_ids().subset_of(k.expired_ids().remove(t)));
        vstd::set_lib::lemma_len_subset(r.expired_ids(), k.expired_ids().remove(t));
    }
}

/// A dispatched timer leaves the rest ready for dispatch.
pub proof fn lemma_dispatchable_kept(k: KernelView, elapsed: u32)
    requires
        k.due(),
        k.dispatchable(),
        k.dispatched_first(elapsed).ok(),
    ensures
        k.dispatched_first(elapsed).dispatchable(),
{
    let t = k.first()->0;
    let r = k.dispatched_first(elapsed);
    let d = k.dequeued(t);
    let f = choose|f: usize|
        crate::rbtree::is_first::<KTimerEntity>(k.core.timers, k.queued, f);
    assert(crate::rbtree::is_first::<KTimerEntity>(k.core.timers, k.queued, f));
    assert(k.queued.contains(t));
    if t == WAIT_KTIMER {
        assert(d.ok());
        lemma_woken_all(d, elapsed);
        let w = d.woken_all(elapsed);
        assert forall|x: usize| #[trigger]
            r.queued.contains(x) && x >= 2 && r.core.timers[x as int].expired(
                r.now,
            ) implies r.core.timer_owner[x as int] is Some
            && r.core.timers[x as int].timing.relative_deadline_ticks > 0 by {
            assert(w.queued.contains(x));
            assert(w.core.timers[x as int].timing == d.core.timers[x as int].timing);
            if d.due_timer(x) {
                let i = choose|i: usize| #[trigger]
                    d.core.waiting.contains(i) && d.due_waiter_of(i, x);
                assert(k.core.waiting.contains(i));
                assert(k.core.ktimer_of[i as int] is Some);
            } else {
                assert(k.queued.contains(x));
            }
        }
        assert forall|i: usize| #[trigger]
            r.core.waiting.contains(i) && !r.core.ctx[i as int].is_cfs
                && r.core.wait[i as int].expired(r.now)
                && r.core.ktimer_of[i as int] is Some implies r.core.timers[r.core.ktimer_of[i as int]->0 as int].timing.relative_deadline_ticks
            > 0 by {
            assert(k.core.waiting.contains(i));
            assert(w.core.ctx[i as int].is_cfs == k.core.ctx[i as int].is_cfs);
            assert(k.core.ktimer_of[i as int] is Some);
            let x = k.core.ktimer_of[i as int]->0;
            assert(w.core.timers[x as int].timing == d.core.timers[x as int].timing);
        }
    } else {
        assert forall|x: usize| #[trigger]
            r.queued.contains(x) && x >= 2 && r.core.timers[x as int].expired(
                r.now,
            ) implies r.core.timer_owner[x as int] is Some
            && r.core.timers[x as int].timing.relative_deadline_ticks > 0 by {
            assert(k.queued.contains(x));
        }
        assert forall|i: usize| #[trigger]
            r.core.waiting.contains(i) && !r.core.ctx[i as int].is_cfs
                && r.core.wait[i as int].expired(r.now)
                && r.core.ktimer_of[i as int] is Some implies r.core.timers[r.core.ktimer_of[i as int]->0 as int].timing.relative_deadline_ticks
            > 0 by {
            assert(k.core.waiting.contains(i));
            assert(k.core.ktimer_of[i as int] is Some);
        }
    }
}

/// The dispatch of one timer keeps the state consistent and the clock where it is.
/// No timer leaves the queue, unless its deadline was missed.
pub proof fn lemma_dispatched_first_kept(k: KernelView, elapsed: u32)
    requires
        k.due(),
        k.dispatchable(),
    ensures
        k.dispatched_first(elapsed).ok(),
        k.dispatched_first(elapsed).now == k.now,
        k.dispatched_first(elapsed).core.fault is None ==> k.queued.subset_of(
            k.dispatched_first(elapsed).queued,
        ),
{
    let t = k.first()->0;
    let r = k.dispatched_first(elapsed);
    let d = k.dequeued(t);
    let f = choose|f: usize|
        crate::rbtree::is_first::<KTimerEntity>(k.core.timers, k.queued, f);
    assert(crate::rbtree::is_first::<KTimerEntity>(k.core.timers, k.queued, f));
    assert(k.queued.contains(t));
    assert(d.ok());
    if t == WAIT_KTIMER {
        lemma_woken_all(d, elapsed);
        assert forall|x: usize| k.queued.contains(x) implies r.queued.contains(x) by {
            if x != t {
                assert(d.queued.contains(x));
            }
        }
    }
}

/// After a dispatch without a missed deadline no queued timer has expired. All timers
/// that were queued still are, and the clock has not moved.
pub proof fn lemma_dispatch_leaves_nothing_due(k: KernelView, elapsed: u32)
    requires
        k.dispatchable(),
        k.core.fault is None,
        k.dispatched(elapsed).core.fault is None,
    ensures
        ({
            let r = k.dispatched(elapsed).chosen().0;
            &&& r.now == k.now
            &&& k.queued.subset_of(r.queued)
            &&& forall|t: usize| #[trigger]
                r.queued.contains(t) ==> !r.core.timers[t as int].expired(r.now)
        }),
    decreases k.core.waiting.len(), k.closing(), k.expired_ids().len(),
{
    if k.due() {
        lemma_dispatch_progress(k, elapsed);
        lemma_dispatched_first_kept(k, elapsed);
        let first = k.dispatched_first(elapsed);
        if first.core.fault is None {
            lemma_dispatchable_kept(k, elapsed);
            lemma_dispatch_leaves_nothing_due(first, elapsed);
        }
    } else if k.queued != Set::<usize>::empty() {
        crate::rbtree::lemma_first_exists::<KTimerEntity>(k.core.timers, k.queued);
        let first = k.first()->0;
        let r = k.chosen().0;
        assert forall|t: usize| #[trigger] r.queued.contains(t) implies !r.core.timers[t as int].expired(
            r.now,
        ) by {
            if t != first {
                assert(crate::rbtree::before::<KTimerEntity>(k.core.timers, first, t));
            }
        }
    }
}

/// The dispatch of a real-time timer that is alone in the queue and has expired.
///
/// An active timer whose thread ran past its relative deadline is a miss: it is
/// counted and the dispatch stops, with nothing else about the timer and its thread
/// changed. In all other cases the next job starts, by its relative deadline.
pub proof fn lemma_sole_timer_dispatched(k: KernelView, t: usize, elapsed: u32)
    requires
        k.dispatchable(),
        k.core.fault is None,
        k.queued == Set::<usize>::empty().insert(t),
        t >= 2,
        k.core.timers[t as int].expired(k.now),
    ensures
        ({
            let timer = k.core.timers[t as int];
            let i = k.core.timer_owner[t as int]->0;
            let r = k.dispatched(elapsed);
            if timer.active && k.core.runtime[i as int] > timer.timing.relative_deadline_ticks {
                &&& r.core.fault == Some(i)
                &&& r.core.timers[t as int] == (KTimerEntity {
                    miss_cnt: timer.miss_cnt.saturating_add(1),
                    ..timer
                })
                &&& r.core.runtime == k.core.runtime
            } else {
                &&& r.core.fault is None
                &&& r.chosen() == (r, Some(t))
                &&& r.core.timers[t as int] == (KTimerEntity {
                    deadline_at: k.now.saturating_add(timer.timing.relative_deadline_ticks as u64),
                    active: true,
                    ..timer
                })
                &&& r.core.runtime[i as int] == 0
                &&& r.now == k.now
            }
        }),
{
    crate::rbtree::lemma_first_of::<KTimerEntity>(k.core.timers, k.queued, t);
    assert(k.queued.contains(t));
    let r = k.dispatched_first(elapsed);
    assert(k.due());
    lemma_dispatch_progress(k, elapsed);
    if r.core.fault is None {
        let ids = crate::ktimer::active_ids(r.core.timers, r.queued);
        assert(r.queued =~= k.queued);
        assert(ids =~= k.queued);
        crate::rbtree::lemma_first_of::<KTimerEntity>(r.core.timers, r.queued, t);
        crate::rbtree::lemma_first_of::<KTimerEntity>(r.core.timers, ids, t);
    }
    assert(!r.due());
    assert(r.dispatched(elapsed) == r);
}

pub fn activate_cfs_ktimer(queue: &KTimerQueue, core: &mut Core) -> (timer: usize)
    requires
        crate::kernel::kernel_wf(queue, old(core)),
    ensures
        timer == CFS_KTIMER,
        crate::kernel::kernel_wf(queue, final(core)),
        crate::kernel::kview(queue, final(core)) == crate::kernel::kview(
            queue,
            old(core),
        ).cfs_activated(),
        final(core).sync@ == old(core).sync@,
{
    let ghost k = crate::kernel::kview(queue, core);
    core.timers[CFS_KTIMER].set_active(true);
    proof {
        queue.lemma_frame(old(core).timers@, core.timers@);
        assert(crate::kernel::kview(queue, core) =~= k.cfs_activated());
    }
    CFS_KTIMER
}

/// Closes or opens the fair scheduling window; the timer has left the queue.
fn dispatch_cfs(queue: &mut KTimerQueue, core: &mut Core, elapsed: u32)
    requires
        crate::kernel::kernel_wf(old(queue), old(core)),
        !old(queue).ids().contains(CFS_KTIMER),
    ensures
        crate::kernel::kernel_wf(final(queue), final(core)),
        crate::kernel::kview(final(queue), final(core)) == crate::kernel::kview(
            old(queue),
            old(core),
        ).cfs_window(elapsed),
        final(core).sync@ == old(core).sync@,
{
    let ghost k = crate::kernel::kview(queue, core);
    let now: u64 = queue.now_ticks();
    let period: u32 = core.timers[CFS_KTIMER].period_ticks();
    if core.timers[CFS_KTIMER].is_active() {
        core.timers[CFS_KTIMER].set_deadline_after(now, period.saturating_sub(elapsed));
        core.timers[CFS_KTIMER].set_active(false);
    } else {
        core.timers[CFS_KTIMER].set_deadline_after(now, period);
        core.timers[CFS_KTIMER].set_active(true);
    }
    proof {
        queue.lemma_frame(old(core).timers@, core.timers@);
        let timer = core@.timers[CFS_KTIMER as int];
        assert(core@ =~= k.core.with_timer(CFS_KTIMER, timer));
    }
    queue.insert(&mut core.timers, CFS_KTIMER);
    assert(crate::kernel::kview(queue, core) =~= k.cfs_window(elapsed));
}

/// Starts the next job of a real-time thread; its timer has left the queue.
fn release_rt_job(queue: &mut KTimerQueue, core: &mut Core, timer: usize, thread: usize, active: bool)
    requires
        crate::kernel::kernel_wf(old(queue), old(core)),
        2 <= timer < old(core).timers.len(),
        thread < old(core).ctx.len(),
        !old(queue).ids().contains(timer),
    ensures
        crate::kernel::kernel_wf(final(queue), final(core)),
        crate::kernel::kview(final(queue), final(core)) == ({
            let k = crate::kernel::kview(old(queue), old(core));
            let entity = k.core.timers[timer as int];
            k.with_core(
                k.core.with_runtime(thread, 0).with_timer(
                    timer,
                    entity.after(k.now, entity.timing.relative_deadline_ticks).with_active(active),
                ),
            ).enqueued(timer)
        }),
        final(core).sync@ == old(core).sync@,
{
    let ghost k = crate::kernel::kview(queue, core);
    let now: u64 = queue.now_ticks();
    core.runtime[thread] = 0;
    let relative_deadline: u32 = core.timers[timer].relative_deadline_ticks();
    core.timers[timer].set_deadline_after(now, relative_deadline);
    core.timers[timer].set_active(active);
    proof {
        queue.lemma_frame(old(core).timers@, core.timers@);
        let entity = core@.timers[timer as int];
        let k0 = k.with_core(k.core.with_runtime(thread, 0));
        assert(k0.ok());
        assert(core@ =~= k.core.with_runtime(thread, 0).with_timer(timer, entity));
    }
    queue.insert(&mut core.timers, timer);
    assert(crate::kernel::kview(queue, core) =~= ({
        let entity = k.core.timers[timer as int];
        k.with_core(
            k.core.with_runtime(thread, 0).with_timer(
                timer,
                entity.after(k.now, entity.timing.relative_deadline_ticks).with_active(active),
            ),
        ).enqueued(timer)
    }));
}

/// Dispatches the first timer, which has expired.
fn dispatch_first(queue: &mut KTimerQueue, core: &mut Core, expired: usize, elapsed: u32)
    requires
        crate::kernel::kernel_wf(old(queue), old(core)),
        old(queue).left_most == Some(expired),
        expired >= 2 ==> old(core)@.timer_owner[expired as int] is Some,
    ensures
        crate::kernel::kernel_wf(final(queue), final(core)),
        crate::kernel::kview(final(queue), final(core)) == crate::kernel::kview(
            old(queue),
            old(core),
        ).dispatched_first(elapsed),
        final(core).sync@ == old(core).sync@,
{
    let ghost k = crate::kernel::kview(queue, core);
    queue.remove(&mut core.timers, expired);
    assert(crate::kernel::kview(queue, core) =~= k.dequeued(expired));
    let ghost d = crate::kernel::kview(queue, core);
    if expired == WAIT_KTIMER {
        proof {
            core.wait_queue.tree.lemma_in_order(core.wait@);
            lemma_woken_all(d, elapsed);
        }
        wake_wait_thread(queue, core, elapsed);
        update_wait_ktimer_deadline(queue, core);
        queue.insert(&mut core.timers, WAIT_KTIMER);
        assert(crate::kernel::kview(queue, core) =~= k.dispatched_first(elapsed));
    } else if expired == CFS_KTIMER {
        dispatch_cfs(queue, core, elapsed);
    } else {
        assert(core@.timer_owner[expired as int] is Some);
        let thread: usize = core.timer_owner[expired].unwrap();
        if core.timers[expired].is_active() && is_real_rt_deadline_miss(core, expired, thread) {
            record_rt_deadline_miss(queue, core, expired, thread);
        } else {
            release_rt_job(queue, core, expired, thread, true);
        }
        assert(crate::kernel::kview(queue, core) =~= k.dispatched_first(elapsed));
    }
}

impl KTimerQueue {
    /// Dispatch all timers that expired at the queue's current time.
    ///
    /// `elapsed` is the tick count of the scheduler interval being dispatched. The
    /// result is the timer that decides the next dispatch. No thread may have missed
    /// its deadline; `dispatch_until_miss` is for a dispatch in which one may have.
    pub fn dispatch_expired(&mut self, core: &mut Core, elapsed: u32) -> (next: Option<usize>)
        requires
            crate::kernel::kernel_wf(old(self), old(core)),
            old(core)@.fault is None,
            crate::kernel::kview(old(self), old(core)).dispatchable(),
            crate::kernel::kview(old(self), old(core)).dispatched(elapsed).core.fault is None,
        ensures
            crate::kernel::kernel_wf(final(self), final(core)),
            (crate::kernel::kview(final(self), final(core)), next) == crate::kernel::kview(
                old(self),
                old(core),
            ).dispatched(elapsed).chosen(),
            next is Some ==> next->0 < final(core).timers.len(),
            final(core).sync@ == old(core).sync@,
    {
        self.dispatch_until_miss(core, elapsed)
    }

    /// Dispatches the timers that expired, up to the first missed deadline.
    ///
    /// A missed deadline is counted, traced and reported and ends the dispatch
    /// without a result; the fault tells which thread missed.
    pub fn dispatch_until_miss(&mut self, core: &mut Core, elapsed: u32) -> (next: Option<usize>)
        requires
            crate::kernel::kernel_wf(old(self), old(core)),
            old(core)@.fault is None,
            crate::kernel::kview(old(self), old(core)).dispatchable(),
        ensures
            crate::kernel::kernel_wf(final(self), final(core)),
            ({
                let k = crate::kernel::kview(old(self), old(core)).dispatched(elapsed);
                if k.core.fault is Some {
                    crate::kernel::kview(final(self), final(core)) == k && next is None
                } else {
                    (crate::kernel::kview(final(self), final(core)), next) == k.chosen()
                }
            }),
            next is Some ==> next->0 < final(core).timers.len(),
            final(core).sync@ == old(core).sync@,
    {
        let ghost begin = crate::kernel::kview(self, core);
        loop
            invariant
                crate::kernel::kernel_wf(self, core),
                begin == crate::kernel::kview(old(self), old(core)),
                core@.fault is None,
                crate::kernel::kview(self, core).dispatchable(),
                crate::kernel::kview(self, core).dispatched(elapsed) == begin.dispatched(elapsed),
                core.sync@ == old(core).sync@,
            decreases
                    core@.waiting.len(),
                    crate::kernel::kview(self, core).closing(),
                    crate::kernel::kview(self, core).expired_ids().len(),
        {
            let ghost k = crate::kernel::kview(self, core);
            let (expired, first_active) = self.first_and_first_active(&core.timers);
            let ready: bool = match expired {
                None => false,
                Some(t) => {
                    assert(core.timers@[t as int].deadline_at == core@.timers[t as int].deadline_at);
                    core.timers[t].is_expired_at(self.now_ticks)
                },
            };
            if !ready {
                return match first_active {
                    Some(t) => Some(t),
                    None => Some(activate_cfs_ktimer(self, core)),
                };
            }
            proof {
                assert(k.due());
                lemma_dispatch_progress(k, elapsed);
            }
            dispatch_first(self, core, expired.unwrap(), elapsed);
            if core.fault.is_some() {
                return None;
            }
            proof {
                lemma_dispatchable_kept(k, elapsed);
            }
        }
    }
}

impl KernelView {
    /// Every queued timer of the real-time class has an owner.
    pub open spec fn owned(self) -> bool {
        forall|t: usize| #[trigger]
            self.queued.contains(t) && t >= 2 ==> self.core.timer_owner[t as int] is Some
    }

    /// The scheduler is set up and running: the wait timer is queued, real-time
    /// timers have owners, and no deadline was missed.
    pub open spec fn steady(self) -> bool {
        &&& self.ok()
        &&& self.queued.contains(WAIT_KTIMER)
        &&& self.owned()
        &&& self.core.fault is None
    }

    /// The timer `t` for the next dispatch has expired already: it is re-armed, the
    /// fair scheduling timer with a miss, a real-time timer with a new job, and
    /// the choice is made again.
    pub open spec fn rearmed(self, t: usize) -> (KernelView, Option<usize>) {
        let d = self.dequeued(t);
        let timer = d.core.timers[t as int];
        if t == CFS_KTIMER {
            d.with_core(
                d.core.with_timer(t, timer.missed().after(d.now, timer.timing.period_ticks)),
            ).enqueued(t).chosen()
        } else {
            let i = d.core.timer_owner[t as int]->0;
            if d.core.over_deadline(t, i) {
                (d.deadline_missed(t, i), None)
            } else {
                d.with_core(
                    d.core.with_runtime(i, 0).with_timer(
                        t,
                        timer.after(d.now, timer.timing.relative_deadline_ticks),
                    ),
                ).enqueued(t).chosen()
            }
        }
    }

    /// The proposed timer for the next dispatch, or the fair scheduling timer when
    /// none is proposed; one that has expired is re-armed first.
    pub open spec fn normalized(self, entity: Option<usize>) -> (KernelView, Option<usize>) {
        let (k, t) = match entity {
            None => (self.cfs_activated(), CFS_KTIMER),
            Some(t) => (self, t),
        };
        if k.core.timers[t as int].expired(k.now) {
            k.rearmed(t)
        } else {
            (k, Some(t))
        }
    }

    /// The timer for the next dispatch is chosen anew.
    pub open spec fn refreshed(self) -> KernelView {
        let (k, next) = self.normalized(self.first_active());
        if k.core.fault is Some {
            k
        } else {
            k.with_core(CoreView { next_ktimer: next, ..k.core })
        }
    }

    /// The wait timer is set to the first wake-up.
    pub open spec fn wait_programmed(self) -> KernelView {
        self.dequeued(WAIT_KTIMER).wait_armed().enqueued(WAIT_KTIMER).refreshed()
    }
}

/// Choosing the next timer disturbs no queue: only the fair scheduling timer may
/// join, and only a missed deadline takes a timer out.
pub proof fn lemma_normalized(k: KernelView, entity: Option<usize>)
    requires
        k.ok(),
        entity is Some ==> entity->0 != WAIT_KTIMER && k.queued.contains(entity->0),
        entity is Some && entity->0 >= 2 ==> k.core.timer_owner[entity->0 as int] is Some,
    ensures
        ({
            let r = k.normalized(entity).0;
            &&& r.ok()
            &&& r.core == (CoreView {
                timers: r.core.timers,
                runtime: r.core.runtime,
                trace: r.core.trace,
                printer: r.core.printer,
                fault: r.core.fault,
                ..k.core
            })
            &&& r.now == k.now
            &&& forall|t: usize| #[trigger]
                r.queued.contains(t) ==> k.queued.contains(t) || t == CFS_KTIMER
            &&& k.queued.contains(WAIT_KTIMER) ==> r.queued.contains(WAIT_KTIMER)
            &&& r.core.timers.len() == k.core.timers.len()
            &&& forall|t: int|
                0 <= t < k.core.timers.len() ==> (#[trigger] r.core.timers[t]).timing
                    == k.core.timers[t].timing
            &&& k.owned() ==> r.owned()
            &&& k.core.fault is Some ==> r.core.fault is Some
        }),
        ({
            let (r, next) = k.normalized(entity);
            r.core.fault is None ==> next is Some && next->0 < r.core.timers.len()
        }),
{
    let (k1, t) = match entity {
        None => (k.cfs_activated(), CFS_KTIMER),
        Some(t) => (k, t),
    };
    assert(k1.ok());
    if k1.core.timers[t as int].expired(k1.now) {
        let d = k1.dequeued(t);
        let timer = d.core.timers[t as int];
        if t == CFS_KTIMER {
            let re = timer.missed().after(d.now, timer.timing.period_ticks);
            let k2 = d.with_core(d.core.with_timer(t, re));
            lemma_chosen(k2.enqueued(t));
        } else {
            let i = d.core.timer_owner[t as int]->0;
            if !d.core.over_deadline(t, i) {
                let re = timer.after(d.now, timer.timing.relative_deadline_ticks);
                let d0 = d.with_core(d.core.with_runtime(i, 0));
                assert(d.core.timer_owner[t as int] is Some);
                assert(d0.ok());
                let k2 = d0.with_core(d0.core.with_timer(t, re));
                lemma_chosen(k2.enqueued(t));
            }
        }
    }
}

/// The timer that decides the next dispatch exists.
proof fn lemma_chosen(k: KernelView)
    requires
        k.ok(),
    ensures
        k.chosen().0.ok(),
        k.chosen().1 is Some,
        k.chosen().1->0 < k.core.timers.len(),
        k.chosen().1->0 != WAIT_KTIMER,
{
    if let Some(t) = k.first_active() {
        let ids = crate::ktimer::active_ids(k.core.timers, k.queued);
        let f = choose|f: usize| crate::rbtree::is_first::<KTimerEntity>(k.core.timers, ids, f);
        assert(crate::rbtree::is_first::<KTimerEntity>(k.core.timers, ids, f));
        assert(ids.contains(t));
    }
}

/// Settles the timer for the next dispatch.
///
/// Without a proposal the fair scheduling timer is taken. A timer that has
/// expired already is re-armed first. There is no result after a missed deadline.
pub fn normalize_next_ktimer(
    queue: &mut KTimerQueue,
    core: &mut Core,
    entity: Option<usize>,
) -> (next: Option<usize>)
    requires
        crate::kernel::kernel_wf(old(queue), old(core)),
        old(core)@.fault is None,
        entity is Some ==> entity->0 != WAIT_KTIMER && old(queue).ids().contains(entity->0),
        entity is Some && entity->0 >= 2 ==> old(core)@.timer_owner[entity->0 as int] is Some,
    ensures
        crate::kernel::kernel_wf(final(queue), final(core)),
        (crate::kernel::kview(final(queue), final(core)), next) == crate::kernel::kview(
            old(queue),
            old(core),
        ).normalized(entity),
        final(core).sync@ == old(core).sync@,
{
    let ghost k = crate::kernel::kview(queue, core);
    let timer: usize = match entity {
        Some(timer) => timer,
        None => activate_cfs_ktimer(queue, core),
    };
    let ghost k1 = crate::kernel::kview(queue, core);
    proof {
        queue.tree.lemma_members(core.timers@);
        lemma_normalized(k, entity);
    }
    assert(core.timers@[timer as int].deadline_at == core@.timers[timer as int].deadline_at);
    if !core.timers[timer].is_expired_at(queue.now_ticks()) {
        return Some(timer);
    }
    if queue.contains(&core.timers, timer) {
        queue.remove(&mut core.timers, timer);
    }
    let ghost d = crate::kernel::kview(queue, core);
    assert(d =~= k1.dequeued(timer));
    if timer == CFS_KTIMER {
        let now: u64 = queue.now_ticks();
        let period: u32 = core.timers[timer].period_ticks();
        let misses: u32 = core.timers[timer].miss_cnt;
        let ghost timers0 = core.timers@;
        core.timers[timer].miss_cnt = misses.saturating_add(1);
        core.timers[timer].set_deadline_after(now, period);
        proof {
            queue.lemma_frame(timers0, core.timers@);
            let re = d.core.timers[timer as int].missed().after(
                now,
                d.core.timers[timer as int].timing.period_ticks,
            );
            assert(core@ =~= d.core.with_timer(timer, re));
        }
        queue.insert(&mut core.timers, timer);
    } else {
        assert(core@.timer_owner[timer as int] is Some);
        let thread: usize = core.timer_owner[timer].unwrap();
        if is_real_rt_deadline_miss(core, timer, thread) {
            record_rt_deadline_miss(queue, core, timer, thread);
            assert(crate::kernel::kview(queue, core) == k.normalized(entity).0);
            return None;
        }
        let active: bool = core.timers[timer].is_active();
        release_rt_job(queue, core, timer, thread, active);
        assert(d.core.timers[timer as int].active == active);
    }
    let next = queue.first_active(&core.timers);
    match next {
        Some(t) => Some(t),
        None => Some(activate_cfs_ktimer(queue, core)),
    }
}

/// Chooses the timer for the next dispatch anew.
pub fn refresh_next_ktimer(queue: &mut KTimerQueue, core: &mut Core)
    requires
        crate::kernel::kernel_wf(old(queue), old(core)),
        old(core)@.fault is None,
        crate::kernel::kview(old(queue), old(core)).owned(),
    ensures
        crate::kernel::kernel_wf(final(queue), final(core)),
        crate::kernel::kview(final(queue), final(core)) == crate::kernel::kview(
            old(queue),
            old(core),
        ).refreshed(),
        final(core).sync@ == old(core).sync@,
{
    let ghost k = crate::kernel::kview(queue, core);
    let first_active = queue.first_active(&core.timers);
    proof {
        if let Some(t) = first_active {
            assert(core@.timers[t as int].active == core.timers@[t as int].active);
            assert(t != WAIT_KTIMER);
        }
        lemma_normalized(k, first_active);
    }
    let next = normalize_next_ktimer(queue, core, first_active);
    if core.fault.is_none() {
        core.next_ktimer = next;
    }
    assert(crate::kernel::kview(queue, core) =~= k.refreshed());
}

} // verus!
