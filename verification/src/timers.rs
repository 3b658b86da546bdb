//! Operations on the timer queue of the kernel.

use crate::dispatch::{
    activate_cfs_ktimer, record_rt_budget_overrun, refresh_next_ktimer, update_wait_ktimer_deadline,
};
use crate::diag::ktimer_name;
use crate::kernel::{Core, CoreView, Kernel, KernelView};
use crate::ktimer::{
    KTimerEntity, KTimerQueue, WaitKTimer, CFS_KTIMER, KTIMER_DEADLINE_NEVER, WAIT_KTIMER,
};
use crate::platform::SchedulerTimerPort;
use crate::print::DiagLine;
use crate::thread::{ThreadHandle, ThreadState};
use crate::trace::record_wakeup;
use crate::waitq::{insert_wait_thread, remove_wait_thread, WaitQueueError};
use vstd::prelude::*;

verus! {

impl KernelView {
    /// Timer `t` joins the queue.
    pub open spec fn timer_added(self, t: usize) -> KernelView {
        self.enqueued(t).refreshed()
    }

    /// Timer `t` leaves the queue and becomes inactive. If it was to decide the
    /// next dispatch, another choice is made.
    pub open spec fn timer_removed(self, t: usize) -> KernelView {
        let k = self.dequeued(t);
        let parked = k.with_core(
            k.core.with_timer(t, k.core.timers[t as int].with_active(false)),
        );
        if self.core.next_ktimer == Some(t) {
            parked.refreshed()
        } else {
            parked
        }
    }

    /// Timer `t` becomes active and rejoins the queue.
    pub open spec fn timer_reinserted(self, t: usize) -> KernelView {
        self.with_core(
            self.core.with_timer(t, self.core.timers[t as int].with_active(true)),
        ).enqueued(t).refreshed()
    }

    /// A real-time thread moves from the timer queue to the wait queue.
    pub open spec fn rt_parked(self, i: usize) -> (KernelView, Result<(), WaitQueueError>) {
        if self.core.ctx[i as int].is_cfs || self.core.ktimer_of[i as int] is None {
            (self, Err(WaitQueueError::NotFound))
        } else {
            let k = self.timer_removed(self.core.ktimer_of[i as int]->0);
            if k.core.fault is Some {
                (k, Err(WaitQueueError::DeadlineMiss))
            } else {
                k.with_core(
                    k.core.with_state(i, ThreadState::Waiting).waiting_with(i),
                ).wait_programmed().completed()
            }
        }
    }

    /// A real-time thread moves from the wait queue back to the timer queue.
    pub open spec fn rt_unparked(self, i: usize) -> (KernelView, Result<(), WaitQueueError>) {
        if self.core.ctx[i as int].is_cfs || self.core.ktimer_of[i as int] is None {
            (self, Err(WaitQueueError::NotFound))
        } else {
            let ready = self.core.waiting_without(i).with_state(i, ThreadState::Ready);
            let k = self.with_core(
                CoreView { trace: ready.trace.wakeup(ready.ctx[i as int]), ..ready },
            ).timer_reinserted(self.core.ktimer_of[i as int]->0);
            if k.core.fault is Some {
                (k, Err(WaitQueueError::DeadlineMiss))
            } else {
                k.wait_programmed().completed()
            }
        }
    }

    /// An operation is done, unless a deadline was missed on the way.
    pub open spec fn completed(self) -> (KernelView, Result<(), WaitQueueError>) {
        (
            self,
            if self.core.fault is Some {
                Err(WaitQueueError::DeadlineMiss)
            } else {
                Ok(())
            },
        )
    }
}

/// Facts that every choice of the next timer keeps.
pub proof fn lemma_refreshed(k: KernelView)
    requires
        k.ok(),
        k.owned(),
    ensures
        k.refreshed().ok(),
        k.refreshed().owned(),
        k.queued.contains(WAIT_KTIMER) ==> k.refreshed().queued.contains(WAIT_KTIMER),
        k.refreshed().now == k.now,
        k.refreshed().core == (CoreView {
            timers: k.refreshed().core.timers,
            runtime: k.refreshed().core.runtime,
            trace: k.refreshed().core.trace,
            printer: k.refreshed().core.printer,
            fault: k.refreshed().core.fault,
            next_ktimer: k.refreshed().core.next_ktimer,
            ..k.core
        }),
        forall|t: usize| #[trigger]
            k.refreshed().queued.contains(t) ==> k.queued.contains(t) || t == CFS_KTIMER,
        k.core.fault is Some ==> k.refreshed().core.fault is Some,
        k.refreshed().core.timers.len() == k.core.timers.len(),
        forall|t: int|
            0 <= t < k.core.timers.len() ==> (#[trigger] k.refreshed().core.timers[t]).timing
                == k.core.timers[t].timing,
{
    let entity = k.first_active();
    if let Some(t) = entity {
        let ids = crate::ktimer::active_ids(k.core.timers, k.queued);
        let f = choose|f: usize| crate::rbtree::is_first::<KTimerEntity>(k.core.timers, ids, f);
        assert(crate::rbtree::is_first::<KTimerEntity>(k.core.timers, ids, f));
        assert(ids.contains(t));
        assert(k.queued.contains(t));
    }
    crate::dispatch::lemma_normalized(k, entity);
}

/// Initialize the timer queue and the wait timer.
///
/// Call this during setup, before threads can access the timer or wait queues.
/// `init_cfs` and real-time thread spawning must happen after it. Timers that
/// were queued lose their place.
pub fn init_ktimer_queue(kernel: &mut Kernel)
    requires
        old(kernel).wf(),
    ensures
        final(kernel).wf(),
        final(kernel)@ == (KernelView {
            core: CoreView {
                next_ktimer: None,
                ..old(kernel)@.core.with_timer(WAIT_KTIMER, WaitKTimer::parked())
            },
            queued: Set::<usize>::empty().insert(WAIT_KTIMER),
            now: 0,
        }),
        final(kernel).core.sync@ == old(kernel).core.sync@,
{
    kernel.queue = KTimerQueue::new();
    kernel.core.next_ktimer = None;
    let wait = WaitKTimer::inactive();
    kernel.core.timers[WAIT_KTIMER] = wait.entity;
    kernel.queue.insert(&mut kernel.core.timers, WAIT_KTIMER);
    proof {
        assert(kernel@.core.timers =~= old(kernel)@.core.with_timer(
            WAIT_KTIMER,
            WaitKTimer::parked(),
        ).timers);
    }
}

/// Queues a timer that is not queued yet.
pub fn enqueue_ktimer(kernel: &mut Kernel, entity: usize)
    requires
        old(kernel).wf(),
        old(kernel)@.owned(),
        old(kernel)@.core.fault is None,
        entity < old(kernel).core.timers.len(),
        !old(kernel)@.queued.contains(entity),
        entity >= 2 ==> old(kernel)@.core.timer_owner[entity as int] is Some,
    ensures
        final(kernel).wf(),
        final(kernel)@ == old(kernel)@.timer_added(entity),
        final(kernel).core.sync@ == old(kernel).core.sync@,
{
    let ghost k = kernel@;
    kernel.core.timers[entity].reset_links();
    proof {
        kernel.queue.lemma_frame(old(kernel).core.timers@, kernel.core.timers@);
    }
    kernel.queue.insert(&mut kernel.core.timers, entity);
    proof {
        assert(kernel@ =~= k.enqueued(entity));
    }
    refresh_next_ktimer(&mut kernel.queue, &mut kernel.core);
}

/// Sets the wait timer to the first wake-up.
pub fn program_wait_ktimer(kernel: &mut Kernel)
    requires
        old(kernel).wf(),
        old(kernel)@.steady(),
    ensures
        final(kernel).wf(),
        final(kernel)@ == old(kernel)@.wait_programmed(),
        final(kernel)@.core.fault is None ==> final(kernel)@.steady(),
        final(kernel).core.sync@ == old(kernel).core.sync@,
{
    let ghost k = kernel@;
    kernel.queue.remove(&mut kernel.core.timers, WAIT_KTIMER);
    assert(kernel@ =~= k.dequeued(WAIT_KTIMER));
    update_wait_ktimer_deadline(&kernel.queue, &mut kernel.core);
    kernel.queue.insert(&mut kernel.core.timers, WAIT_KTIMER);
    proof {
        assert(kernel@ =~= k.dequeued(WAIT_KTIMER).wait_armed().enqueued(WAIT_KTIMER));
        assert(kernel@.owned());
        lemma_refreshed(kernel@);
    }
    refresh_next_ktimer(&mut kernel.queue, &mut kernel.core);
}

/// Takes a queued timer out of the queue and parks it.
pub fn remove_ktimer(kernel: &mut Kernel, entity: usize) -> (removed: usize)
    requires
        old(kernel).wf(),
        old(kernel)@.owned(),
        old(kernel)@.core.fault is None,
        old(kernel)@.queued.contains(entity),
    ensures
        removed == entity,
        final(kernel).wf(),
        final(kernel)@ == old(kernel)@.timer_removed(entity),
        final(kernel)@.owned(),
        final(kernel)@.core == (CoreView {
            timers: final(kernel)@.core.timers,
            runtime: final(kernel)@.core.runtime,
            trace: final(kernel)@.core.trace,
            printer: final(kernel)@.core.printer,
            fault: final(kernel)@.core.fault,
            next_ktimer: final(kernel)@.core.next_ktimer,
            ..old(kernel)@.core
        }),
        entity != CFS_KTIMER ==> !final(kernel)@.queued.contains(entity),
        entity != WAIT_KTIMER && old(kernel)@.queued.contains(WAIT_KTIMER)
            ==> final(kernel)@.queued.contains(WAIT_KTIMER),
        final(kernel).core.sync@ == old(kernel).core.sync@,
{
    let ghost k = kernel@;
    let removed: usize = kernel.queue.remove(&mut kernel.core.timers, entity);
    let ghost timers0 = kernel.core.timers@;
    kernel.core.timers[removed].set_active(false);
    proof {
        kernel.queue.lemma_frame(timers0, kernel.core.timers@);
        let d = k.dequeued(entity);
        let parked = d.core.timers[entity as int].with_active(false);
        assert(kernel@ =~= d.with_core(d.core.with_timer(entity, parked)));
        assert(kernel@.owned());
        lemma_refreshed(kernel@);
    }
    if kernel.core.next_ktimer == Some(removed) {
        refresh_next_ktimer(&mut kernel.queue, &mut kernel.core);
    }
    removed
}

/// Makes a timer active and queues it again. A timer that is still queued is taken
/// out first.
pub fn reinsert_ktimer(kernel: &mut Kernel, entity: usize)
    requires
        old(kernel).wf(),
        old(kernel)@.owned(),
        old(kernel)@.core.fault is None,
        entity < old(kernel).core.timers.len(),
        entity != WAIT_KTIMER,
        entity >= 2 ==> old(kernel)@.core.timer_owner[entity as int] is Some,
    ensures
        final(kernel).wf(),
        final(kernel)@ == old(kernel)@.timer_reinserted(entity),
        final(kernel)@.owned(),
        old(kernel)@.queued.contains(WAIT_KTIMER) ==> final(kernel)@.queued.contains(WAIT_KTIMER),
        final(kernel).core.sync@ == old(kernel).core.sync@,
{
    let ghost k = kernel@;
    if kernel.queue.contains(&kernel.core.timers, entity) {
        kernel.queue.remove(&mut kernel.core.timers, entity);
    }
    let ghost d = kernel@;
    let ghost timers0 = kernel.core.timers@;
    kernel.core.timers[entity].set_active(true);
    kernel.core.timers[entity].reset_links();
    proof {
        kernel.queue.lemma_frame(timers0, kernel.core.timers@);
        assert(d.core =~= k.core);
    }
    kernel.queue.insert(&mut kernel.core.timers, entity);
    proof {
        assert(kernel@.queued =~= k.queued.insert(entity));
        assert(kernel@ =~= k.with_core(
            k.core.with_timer(entity, k.core.timers[entity as int].with_active(true)),
        ).enqueued(entity));
        assert(kernel@.owned());
        lemma_refreshed(kernel@);
    }
    refresh_next_ktimer(&mut kernel.queue, &mut kernel.core);
}

/// The state stays consistent when a thread that is in no other queue starts to
/// wait.
pub proof fn lemma_waiting_ok(k: KernelView, i: usize)
    requires
        k.ok(),
        i < k.core.ctx.len(),
        !k.core.run.contains(i),
    ensures
        k.with_core(k.core.with_state(i, ThreadState::Waiting).waiting_with(i)).ok(),
{
    let r = k.with_core(k.core.with_state(i, ThreadState::Waiting).waiting_with(i));
    assert forall|j: usize| j < r.core.ctx.len() && (#[trigger] r.core.ctx[j as int]).is_cfs implies
        r.core.sched[j as int].priority != 0 by {
        assert(k.core.ctx[j as int].is_cfs);
    }
    assert forall|t: usize|
        t < r.core.timers.len() && (#[trigger] r.core.timer_owner[t as int]) is Some implies {
        let j = r.core.timer_owner[t as int]->0;
        t >= 2 && j < r.core.ctx.len() && !r.core.ctx[j as int].is_cfs
    } by {
        assert(k.core.timer_owner[t as int] is Some);
    }
}

/// Moves a real-time thread from the timer queue to the wait queue.
pub fn dequeue_ktimerq_to_waitq(kernel: &mut Kernel, thread: usize) -> (result: Result<
    (),
    WaitQueueError,
>)
    requires
        old(kernel).wf(),
        old(kernel)@.steady(),
        thread < old(kernel).core.ctx.len(),
        !old(kernel)@.core.ctx[thread as int].is_cfs && old(kernel)@.core.ktimer_of[thread as int]
            is Some ==> old(kernel)@.queued.contains(old(kernel)@.core.ktimer_of[thread as int]->0)
            && !old(kernel)@.core.waiting.contains(thread),
    ensures
        final(kernel).wf(),
        (final(kernel)@, result) == old(kernel)@.rt_parked(thread),
        final(kernel)@.core.fault is None ==> final(kernel)@.steady(),
        final(kernel).core.sync@ == old(kernel).core.sync@,
{
    let ghost k = kernel@;
    if kernel.core.ctx[thread].is_cfs {
        return Err(WaitQueueError::NotFound);
    }
    let Some(timer) = kernel.core.ktimer_of[thread] else {
        return Err(WaitQueueError::NotFound);
    };
    proof {
        assert(k.core.ktimer_of[thread as int] == Some(timer));
    }
    remove_ktimer(kernel, timer);
    if kernel.core.fault.is_some() {
        return Err(WaitQueueError::DeadlineMiss);
    }
    let ghost k1 = kernel@;
    kernel.core.ctx[thread].set_state(ThreadState::Waiting);
    proof {
        assert(kernel.core.ctx@ =~= k1.core.with_state(thread, ThreadState::Waiting).ctx);
        lemma_waiting_ok(k1, thread);
        let r = k1.core.with_state(thread, ThreadState::Waiting);
        assert(r.ok()) by {
            assert(r.waiting_with(thread).ok());
            assert forall|j: usize| #[trigger] r.waiting.contains(j) implies j < r.ctx.len() by {
                assert(r.waiting_with(thread).waiting.contains(j));
            }
        }
    }
    insert_wait_thread(&mut kernel.core, thread);
    proof {
        assert(kernel@ =~= k1.with_core(
            k1.core.with_state(thread, ThreadState::Waiting).waiting_with(thread),
        ));
    }
    program_wait_ktimer(kernel);
    if kernel.core.fault.is_some() {
        return Err(WaitQueueError::DeadlineMiss);
    }
    Ok(())
}

/// Moves a real-time thread from the wait queue back to the timer queue.
pub fn enqueue_ktimerq_from_waitq(kernel: &mut Kernel, thread: usize) -> (result: Result<
    (),
    WaitQueueError,
>)
    requires
        old(kernel).wf(),
        old(kernel)@.steady(),
        thread < old(kernel).core.ctx.len(),
        !old(kernel)@.core.ctx[thread as int].is_cfs && old(kernel)@.core.ktimer_of[thread as int]
            is Some ==> old(kernel)@.core.waiting.contains(thread),
    ensures
        final(kernel).wf(),
        (final(kernel)@, result) == old(kernel)@.rt_unparked(thread),
        final(kernel)@.core.fault is None ==> final(kernel)@.steady(),
        final(kernel).core.sync@ == old(kernel).core.sync@,
{
    let ghost k = kernel@;
    if kernel.core.ctx[thread].is_cfs {
        return Err(WaitQueueError::NotFound);
    }
    let Some(timer) = kernel.core.ktimer_of[thread] else {
        return Err(WaitQueueError::NotFound);
    };
    proof {
        assert(k.core.ktimer_of[thread as int] == Some(timer));
    }
    remove_wait_thread(&mut kernel.core, thread);
    kernel.core.ctx[thread].set_state(ThreadState::Ready);
    record_wakeup(&mut kernel.core.trace, &kernel.core.ctx[thread]);
    let ghost ready = kernel@;
    proof {
        assert(ready.core =~= (CoreView {
            trace: ready.core.trace,
            ..k.core.waiting_without(thread).with_state(thread, ThreadState::Ready)
        }));
        assert(ready.ok()) by {
            assert forall|j: usize| j < ready.core.ctx.len() && (
            #[trigger] ready.core.ctx[j as int]).is_cfs implies ready.core.sched[j as int].priority
                != 0 by {
                assert(k.core.ctx[j as int].is_cfs);
            }
            assert forall|t: usize|
                t < ready.core.timers.len() && (#[trigger] ready.core.timer_owner[t as int])
                    is Some implies {
                let j = ready.core.timer_owner[t as int]->0;
                t >= 2 && j < ready.core.ctx.len() && !ready.core.ctx[j as int].is_cfs
            } by {
                assert(k.core.timer_owner[t as int] is Some);
            }
        }
    }
    reinsert_ktimer(kernel, timer);
    if kernel.core.fault.is_some() {
        return Err(WaitQueueError::DeadlineMiss);
    }
    program_wait_ktimer(kernel);
    if kernel.core.fault.is_some() {
        return Err(WaitQueueError::DeadlineMiss);
    }
    Ok(())
}

/// Moves a real-time thread, named by its handle, to the wait queue.
pub fn dequeue_rt_thread_to_waitq(kernel: &mut Kernel, thread: ThreadHandle) -> (result: Result<
    (),
    WaitQueueError,
>)
    requires
        old(kernel).wf(),
        old(kernel)@.steady(),
        thread.valid(old(kernel)@.core),
        !old(kernel)@.core.ctx[thread.slot as int].is_cfs
            && old(kernel)@.core.ktimer_of[thread.slot as int] is Some
            ==> old(kernel)@.queued.contains(old(kernel)@.core.ktimer_of[thread.slot as int]->0)
            && !old(kernel)@.core.waiting.contains(thread.slot),
    ensures
        final(kernel).wf(),
        (final(kernel)@, result) == old(kernel)@.rt_parked(thread.slot),
        final(kernel)@.core.fault is None ==> final(kernel)@.steady(),
        final(kernel).core.sync@ == old(kernel).core.sync@,
{
    dequeue_ktimerq_to_waitq(kernel, thread.slot)
}

/// Moves a real-time thread, named by its handle, back to the timer queue.
pub fn enqueue_rt_thread_from_waitq(kernel: &mut Kernel, thread: ThreadHandle) -> (result: Result<
    (),
    WaitQueueError,
>)
    requires
        old(kernel).wf(),
        old(kernel)@.steady(),
        thread.valid(old(kernel)@.core),
        !old(kernel)@.core.ctx[thread.slot as int].is_cfs
            && old(kernel)@.core.ktimer_of[thread.slot as int] is Some
            ==> old(kernel)@.core.waiting.contains(thread.slot),
    ensures
        final(kernel).wf(),
        (final(kernel)@, result) == old(kernel)@.rt_unparked(thread.slot),
        final(kernel)@.core.fault is None ==> final(kernel)@.steady(),
        final(kernel).core.sync@ == old(kernel).core.sync@,
{
    enqueue_ktimerq_from_waitq(kernel, thread.slot)
}

impl KernelView {
    /// Deadline of timer `t` and runtime of its thread after the current turn ends
    /// `elapsed` ticks into the interval. The fair scheduling timer waits for the
    /// rest of its period. A real-time timer waits for the next release, which is
    /// due one period after the start of the job.
    pub open spec fn turn_ended(self, t: usize, elapsed: u32, reset_runtime: bool) -> CoreView {
        let later = self.now.saturating_add(elapsed as u64);
        if t == CFS_KTIMER {
            let timer = self.core.timers[t as int];
            self.core.with_timer(
                t,
                timer.after(later, timer.timing.period_ticks.saturating_sub(elapsed)),
            )
        } else {
            let i = self.core.timer_owner[t as int]->0;
            let charged = self.core.with_runtime(
                i,
                self.core.runtime[i as int].saturating_add(elapsed),
            ).budget_charged(t, i);
            let timer = charged.timers[t as int];
            let waiting = charged.with_timer(
                t,
                timer.after(
                    later,
                    timer.timing.period_ticks.saturating_sub(charged.runtime[i as int]),
                ),
            );
            if reset_runtime {
                waiting.with_runtime(i, 0)
            } else {
                waiting
            }
        }
    }

    /// The current turn of timer `t` ends: the timer becomes inactive, the clock
    /// advances, and the next timer is chosen.
    pub open spec fn turn_yielded(self, t: usize, elapsed: u32, reset_runtime: bool) -> (
        KernelView,
        Option<usize>,
    ) {
        let core = self.turn_ended(t, elapsed, reset_runtime);
        KernelView {
            core: core.with_timer(t, core.timers[t as int].with_active(false)),
            queued: self.queued,
            now: self.now.saturating_add(elapsed as u64),
        }.chosen()
    }
}

/// Ends the turn of a real-time thread; its timer has left the queue.
fn end_rt_turn(
    queue: &KTimerQueue,
    core: &mut Core,
    timer: usize,
    thread: usize,
    elapsed: u32,
    reset_runtime: bool,
)
    requires
        old(core).wf(),
        queue.wf(old(core).timers@),
        2 <= timer < old(core).timers.len(),
        old(core)@.timer_owner[timer as int] == Some(thread),
        !queue.ids().contains(timer),
    ensures
        final(core).wf(),
        queue.wf(final(core).timers@),
        final(core)@ == crate::kernel::kview(queue, old(core)).turn_ended(
            timer,
            elapsed,
            reset_runtime,
        ),
        final(core).sync@ == old(core).sync@,
{
    let ghost k = crate::kernel::kview(queue, core);
    assert(k.core.timer_owner[timer as int] is Some);
    let runtime: u32 = core.runtime[thread].saturating_add(elapsed);
    core.runtime[thread] = runtime;
    assert(core@ =~= k.core.with_runtime(thread, runtime));
    let ghost timers0 = core.timers@;
    record_rt_budget_overrun(core, timer, thread);
    let ghost charged = core@;
    let ghost timers1 = core.timers@;
    let period: u32 = core.timers[timer].period_ticks();
    assert(period == charged.timers[timer as int].timing.period_ticks);
    core.timers[timer].set_deadline_after(
        queue.now_ticks().saturating_add(elapsed as u64),
        period.saturating_sub(runtime),
    );
    proof {
        queue.tree.lemma_members(timers0);
        assert forall|t: usize| t < timers0.len() && #[trigger] queue.ids().contains(t) implies
            core.timers@[t as int].node == timers0[t as int].node
            && core.timers@[t as int].deadline_at == timers0[t as int].deadline_at by {
            assert(crate::rbtree::links(timers0)[t as int] == timers0[t as int].node);
            assert(crate::rbtree::links(timers1)[t as int] == timers1[t as int].node);
            assert(charged.timers[t as int] == k.core.timers[t as int]);
            assert(charged.timers[t as int].deadline_at == timers1[t as int].deadline_at);
        }
        queue.lemma_frame(timers0, core.timers@);
    }
    if reset_runtime {
        core.runtime[thread] = 0;
    }
    assert(core@.timers =~= k.turn_ended(timer, elapsed, reset_runtime).timers);
    assert(core@ =~= k.turn_ended(timer, elapsed, reset_runtime));
}

/// Ends the turn of a queued timer and chooses the next one.
///
/// `elapsed` is what has passed of the current interval. With `reset_runtime` the
/// job of a real-time thread is finished.
pub fn yield_ktimer_in_queue(
    queue: &mut KTimerQueue,
    core: &mut Core,
    entity: Option<usize>,
    elapsed: u32,
    reset_runtime: bool,
) -> (next: Option<usize>)
    requires
        crate::kernel::kernel_wf(old(queue), old(core)),
        entity is Some ==> entity->0 != WAIT_KTIMER && old(queue).ids().contains(entity->0),
        entity is Some && entity->0 >= 2 ==> old(core)@.timer_owner[entity->0 as int] is Some,
    ensures
        crate::kernel::kernel_wf(final(queue), final(core)),
        ({
            let k = crate::kernel::kview(old(queue), old(core));
            let r = crate::kernel::kview(final(queue), final(core));
            match entity {
                None => r == k && next is None,
                Some(t) => (r, next) == k.turn_yielded(t, elapsed, reset_runtime),
            }
        }),
        next is Some ==> next->0 < final(core).timers.len(),
        final(core).sync@ == old(core).sync@,
{
    let ghost k = crate::kernel::kview(queue, core);
    let Some(timer) = entity else {
        return None;
    };
    proof {
        queue.tree.lemma_members(core.timers@);
    }
    queue.remove(&mut core.timers, timer);
    assert(crate::kernel::kview(queue, core) =~= k.dequeued(timer));
    if timer == CFS_KTIMER {
        let ghost timers0 = core.timers@;
        let period: u32 = core.timers[timer].period_ticks();
        assert(period == k.core.timers[timer as int].timing.period_ticks);
        core.timers[timer].set_deadline_after(
            queue.now_ticks().saturating_add(elapsed as u64),
            period.saturating_sub(elapsed),
        );
        proof {
            queue.lemma_frame(timers0, core.timers@);
            assert(core@ =~= k.turn_ended(timer, elapsed, reset_runtime));
        }
    } else {
        assert(core@.timer_owner[timer as int] is Some);
        let thread: usize = core.timer_owner[timer].unwrap();
        end_rt_turn(queue, core, timer, thread, elapsed, reset_runtime);
        assert(core@ == k.turn_ended(timer, elapsed, reset_runtime));
    }
    let ghost ended = core@;
    let ghost timers1 = core.timers@;
    core.timers[timer].set_active(false);
    proof {
        queue.lemma_frame(timers1, core.timers@);
        assert(core@ =~= ended.with_timer(timer, ended.timers[timer as int].with_active(false)));
    }
    queue.advance_time(elapsed);
    proof {
        queue.lemma_frame(core.timers@, core.timers@);
    }
    let ghost parked = core@;
    queue.insert(&mut core.timers, timer);
    proof {
        let later = k.now.saturating_add(elapsed as u64);
        assert(k.queued.remove(timer).insert(timer) =~= k.queued);
        assert(crate::kernel::kview(queue, core) =~= (KernelView {
            core: parked,
            queued: k.queued,
            now: later,
        }));
    }
    match queue.first_active(&core.timers) {
        Some(t) => Some(t),
        None => Some(activate_cfs_ktimer(queue, core)),
    }
}

/// Ends the turn of a timer in the queue of the kernel.
pub fn yield_ktimer(
    kernel: &mut Kernel,
    entity: Option<usize>,
    elapsed: u32,
    reset_runtime: bool,
) -> (next: Option<usize>)
    requires
        old(kernel).wf(),
        entity is Some ==> entity->0 != WAIT_KTIMER && old(kernel)@.queued.contains(entity->0),
        entity is Some && entity->0 >= 2 ==> old(kernel)@.core.timer_owner[entity->0 as int]
            is Some,
    ensures
        final(kernel).wf(),
        match entity {
            None => final(kernel)@ == old(kernel)@ && next is None,
            Some(t) => (final(kernel)@, next) == old(kernel)@.turn_yielded(
                t,
                elapsed,
                reset_runtime,
            ),
        },
        final(kernel)@.queued == old(kernel)@.queued,
        final(kernel)@.core == (CoreView {
            timers: final(kernel)@.core.timers,
            runtime: final(kernel)@.core.runtime,
            printer: final(kernel)@.core.printer,
            ..old(kernel)@.core
        }),
        next is Some ==> next->0 < final(kernel).core.timers.len(),
        final(kernel).core.sync@ == old(kernel).core.sync@,
{
    yield_ktimer_in_queue(&mut kernel.queue, &mut kernel.core, entity, elapsed, reset_runtime)
}

impl CoreView {
    /// The timer by which a thread competes: all fair threads share one, a
    /// real-time thread has its own.
    pub open spec fn scheduler_timer(self, i: usize) -> Option<usize> {
        if self.ctx[i as int].is_cfs {
            Some(CFS_KTIMER)
        } else {
            self.ktimer_of[i as int]
        }
    }

    /// Deadline by which a thread competes.
    pub open spec fn scheduler_deadline(self, i: usize) -> u64 {
        match self.scheduler_timer(i) {
            None => KTIMER_DEADLINE_NEVER,
            Some(t) => self.timers[t as int].deadline_at,
        }
    }
}

impl KernelView {
    /// Reload value for the interval up to the first expiration.
    pub open spec fn next_reload(self) -> Option<u32> {
        match self.first() {
            None => None,
            Some(t) => Some(
                crate::ktimer::reload_of(self.core.timers[t as int], t == CFS_KTIMER, self.now),
            ),
        }
    }

    /// Earliest deadline of all queued timers but the wait timer.
    pub open spec fn earliest_deadline(self) -> u64 {
        match crate::rbtree::first_of::<KTimerEntity>(
            self.core.timers,
            self.queued.remove(WAIT_KTIMER),
        ) {
            None => KTIMER_DEADLINE_NEVER,
            Some(t) => self.core.timers[t as int].deadline_at,
        }
    }

    /// The deadline by which thread `i` competes is changed. The next timer is
    /// chosen again if that can make a difference.
    pub open spec fn deadline_set(self, i: usize, deadline_at: u64) -> KernelView {
        match self.core.scheduler_timer(i) {
            None => self,
            Some(t) => {
                let k = self.with_core(
                    self.core.with_timer(
                        t,
                        KTimerEntity { deadline_at, ..self.core.timers[t as int] },
                    ),
                );
                if self.queued.contains(t) || self.core.next_ktimer == Some(t) {
                    k.refreshed()
                } else {
                    k
                }
            },
        }
    }

    /// The queued timers with the given name.
    pub open spec fn all_named(self, name: Seq<char>) -> Set<usize> {
        self.queued.filter(|t: usize| self.core.timer_names[t as int]@ == name)
    }

    /// The first timer in the queue with the given name.
    pub open spec fn named(self, name: Seq<char>) -> Option<usize> {
        crate::rbtree::first_of::<KTimerEntity>(self.core.timers, self.all_named(name))
    }

    /// Name and remaining ticks of the queued timers, in order.
    pub open spec fn timer_table(self) -> Seq<(&'static str, u32)> {
        let order = self.queue_order();
        Seq::new(
            order.len(),
            |n: int|
                (
                    self.core.timer_names[order[n] as int],
                    self.core.timers[order[n] as int].remaining(self.now),
                ),
        )
    }

    /// Listing of the timer queue.
    pub open spec fn timer_listing(self) -> Seq<DiagLine> {
        let order = self.queue_order();
        seq![DiagLine::KTimerHeader] + Seq::new(
            order.len(),
            |n: int|
                DiagLine::KTimer {
                    name: self.core.timer_names[order[n] as int],
                    remaining: self.core.timers[order[n] as int].remaining(self.now),
                    active: self.core.timers[order[n] as int].active,
                },
        )
    }
}

pub fn thread_scheduler_ktimer(core: &Core, thread: usize) -> (timer: Option<usize>)
    requires
        core.wf(),
        thread < core.ctx.len(),
    ensures
        timer == core@.scheduler_timer(thread),
        timer is Some ==> timer->0 < core.timers.len() && timer->0 != WAIT_KTIMER,
{
    if core.ctx[thread].is_cfs {
        Some(CFS_KTIMER)
    } else {
        assert(core@.ktimer_of[thread as int] == core.ktimer_of@[thread as int]);
        core.ktimer_of[thread]
    }
}

pub fn thread_scheduler_deadline_at(core: &Core, thread: usize) -> (deadline_at: u64)
    requires
        core.wf(),
        thread < core.ctx.len(),
    ensures
        deadline_at == core@.scheduler_deadline(thread),
{
    match thread_scheduler_ktimer(core, thread) {
        None => KTIMER_DEADLINE_NEVER,
        Some(timer) => {
            assert(core@.timers[timer as int].deadline_at == core.timers@[timer as int].deadline_at);
            core.timers[timer].deadline_at()
        },
    }
}

pub fn earliest_queued_scheduler_deadline_at(kernel: &Kernel) -> (deadline_at: u64)
    requires
        kernel.wf(),
    ensures
        deadline_at == kernel@.earliest_deadline(),
{
    let ghost k = kernel@;
    let ghost ids = k.queued.remove(WAIT_KTIMER);
    let slots = kernel.queue.tree.entities(&kernel.core.timers);
    proof {
        kernel.queue.tree.lemma_members(kernel.core.timers@);
        kernel.queue.tree.lemma_in_order(kernel.core.timers@);
    }
    let mut n: usize = 0;
    while n < slots.len()
        invariant
            n <= slots.len(),
            kernel.wf(),
            k == kernel@,
            ids == k.queued.remove(WAIT_KTIMER),
            slots@ == kernel.queue.tree.order(),
            crate::rbtree::lists::<KTimerEntity>(k.core.timers, k.queued, slots@),
            forall|j: int|
                0 <= j < slots@.len() ==> (#[trigger] slots@[j]) < kernel.core.timers.len(),
            forall|j: int| 0 <= j < n ==> #[trigger] slots@[j] == WAIT_KTIMER,
        decreases slots.len() - n,
    {
        let timer: usize = slots[n];
        if timer != WAIT_KTIMER {
            proof {
                assert(slots@.contains(timer));
                assert(ids.contains(timer));
                assert forall|i: usize| #[trigger] ids.contains(i) && i != timer implies
                    crate::rbtree::before::<KTimerEntity>(k.core.timers, timer, i) by {
                    assert(k.queued.contains(i));
                    let j = choose|j: int| 0 <= j < slots@.len() && slots@[j] == i;
                    if j < n {
                        assert(slots@[j] == WAIT_KTIMER);
                    }
                    assert(crate::rbtree::before::<KTimerEntity>(
                        k.core.timers,
                        slots@[n as int],
                        slots@[j],
                    ));
                }
                crate::rbtree::lemma_first_of::<KTimerEntity>(k.core.timers, ids, timer);
                assert(k.core.timers[timer as int].deadline_at
                    == kernel.core.timers@[timer as int].deadline_at);
            }
            return kernel.core.timers[timer].deadline_at();
        }
        n = n + 1;
    }
    proof {
        assert forall|i: usize| !ids.contains(i) by {
            if ids.contains(i) {
                assert(k.queued.contains(i));
                let j = choose|j: int| 0 <= j < slots@.len() && slots@[j] == i;
                assert(slots@[j] == WAIT_KTIMER);
            }
        }
        assert(ids =~= Set::<usize>::empty());
        crate::rbtree::lemma_first_of_empty::<KTimerEntity>(k.core.timers, ids);
    }
    KTIMER_DEADLINE_NEVER
}

/// Changes the deadline by which a thread competes.
pub fn set_thread_scheduler_deadline_at(kernel: &mut Kernel, thread: usize, deadline_at: u64)
    requires
        old(kernel).wf(),
        old(kernel)@.owned(),
        old(kernel)@.core.fault is None,
        thread < old(kernel).core.ctx.len(),
    ensures
        final(kernel).wf(),
        final(kernel)@ == old(kernel)@.deadline_set(thread, deadline_at),
        final(kernel)@.owned(),
        old(kernel)@.queued.contains(WAIT_KTIMER) ==> final(kernel)@.queued.contains(WAIT_KTIMER),
        final(kernel)@.core == (CoreView {
            timers: final(kernel)@.core.timers,
            runtime: final(kernel)@.core.runtime,
            trace: final(kernel)@.core.trace,
            printer: final(kernel)@.core.printer,
            fault: final(kernel)@.core.fault,
            next_ktimer: final(kernel)@.core.next_ktimer,
            ..old(kernel)@.core
        }),
        forall|t: usize| #[trigger]
            final(kernel)@.queued.contains(t) ==> old(kernel)@.queued.contains(t) || t
                == CFS_KTIMER,
        final(kernel).core.sync@ == old(kernel).core.sync@,
{
    let ghost k = kernel@;
    let Some(timer) = thread_scheduler_ktimer(&kernel.core, thread) else {
        return;
    };
    let was_queued: bool = kernel.queue.contains(&kernel.core.timers, timer);
    let ghost entity = KTimerEntity { deadline_at, ..k.core.timers[timer as int] };
    let ghost moved = k.with_core(k.core.with_timer(timer, entity));
    if was_queued {
        kernel.queue.remove(&mut kernel.core.timers, timer);
    }
    let ghost timers0 = kernel.core.timers@;
    kernel.core.timers[timer].set_deadline_at(deadline_at);
    proof {
        kernel.queue.lemma_frame(timers0, kernel.core.timers@);
    }
    if was_queued {
        let ghost timers1 = kernel.core.timers@;
        kernel.core.timers[timer].reset_links();
        proof {
            kernel.queue.lemma_frame(timers1, kernel.core.timers@);
        }
        kernel.queue.insert(&mut kernel.core.timers, timer);
    }
    proof {
        assert(kernel@.queued =~= k.queued);
        assert(kernel@ =~= moved);
        assert(kernel@.owned());
        lemma_refreshed(moved);
    }
    if was_queued || kernel.core.next_ktimer == Some(timer) {
        refresh_next_ktimer(&mut kernel.queue, &mut kernel.core);
    }
}

/// Reload value that lets the timer interrupt at the first expiration.
pub fn next_ktimer_reload(kernel: &Kernel) -> (reload: Option<u32>)
    requires
        kernel.wf(),
    ensures
        reload == kernel@.next_reload(),
        reload is Some ==> crate::platform::SCHEDULER_TIMER_RELOAD_MIN <= reload->0
            <= crate::platform::SCHEDULER_TIMER_RELOAD_MAX,
{
    proof {
        kernel.queue.tree.lemma_members(kernel.core.timers@);
    }
    kernel.queue.next_reload(&kernel.core.timers)
}

/// Programs the timer of a platform to interrupt at the first expiration. Without a
/// queued timer there is nothing to program.
pub fn program_next_scheduler_timer<P: SchedulerTimerPort>(kernel: &Kernel) -> (reload: Option<u32>)
    requires
        kernel.wf(),
    ensures
        reload == kernel@.next_reload(),
        reload is Some ==> exists|programmed: bool| #[trigger]
            call_ensures(P::program_reload, (reload->0,), programmed),
{
    let reload: u32 = match next_ktimer_reload(kernel) {
        Some(reload) => reload,
        None => {
            return None;
        },
    };
    let _ = P::program_reload(reload);
    Some(reload)
}

/// Length of the interval that an interrupt ends: the interval that the timer
/// was programmed with, or the one up to the first expiration when the timer
/// cannot be read.
pub open spec fn interval_ticks(programmed: Option<u32>, next: Option<u32>) -> u32 {
    match programmed {
        Some(reload) => reload.saturating_add(1),
        None => match next {
            Some(reload) => reload.saturating_add(1),
            None => 0,
        },
    }
}

/// Ticks of the interval that has just ended. `programmed` is the reload value
/// read from the timer.
pub fn elapsed_ticks_since_last_interrupt(kernel: &Kernel, programmed: Option<u32>) -> (ticks: u32)
    requires
        kernel.wf(),
    ensures
        ticks == interval_ticks(programmed, kernel@.next_reload()),
{
    let next = next_ktimer_reload(kernel);
    match programmed {
        Some(reload) => reload.saturating_add(1),
        None => match next {
            Some(reload) => reload.saturating_add(1),
            None => 0,
        },
    }
}

/// Ticks that have passed since the timer was programmed. `reload` and `current`
/// are its reload value and its down-counter.
pub fn elapsed_ticks_since_current_reload(reload: Option<u32>, current: Option<u32>) -> (ticks: u32)
    ensures
        ticks == match (reload, current) {
            (Some(r), Some(c)) => r.saturating_sub(c),
            _ => 0,
        },
{
    match (reload, current) {
        (Some(reload), Some(current)) => reload.saturating_sub(current),
        _ => 0,
    }
}

/// Advances the clock of the timer queue.
pub fn advance_ktimers(kernel: &mut Kernel, elapsed: u32)
    requires
        old(kernel).wf(),
    ensures
        final(kernel).wf(),
        final(kernel)@ == (KernelView {
            now: old(kernel)@.now.saturating_add(elapsed as u64),
            ..old(kernel)@
        }),
        final(kernel).core == old(kernel).core,
{
    kernel.queue.advance_time(elapsed);
}

/// Dispatches the expired timers of the kernel, up to the first missed deadline.
pub fn dispatch_expired_ktimer(kernel: &mut Kernel, elapsed: u32) -> (next: Option<usize>)
    requires
        old(kernel).wf(),
        old(kernel)@.core.fault is None,
        old(kernel)@.dispatchable(),
    ensures
        final(kernel).wf(),
        ({
            let k = old(kernel)@.dispatched(elapsed);
            if k.core.fault is Some {
                final(kernel)@ == k && next is None
            } else {
                (final(kernel)@, next) == k.chosen()
            }
        }),
        next is Some ==> next->0 < final(kernel).core.timers.len(),
        final(kernel).core.sync@ == old(kernel).core.sync@,
{
    kernel.queue.dispatch_until_miss(&mut kernel.core, elapsed)
}

pub fn update_next_ktimer(core: &mut Core, entity: Option<usize>)
    requires
        old(core).wf(),
        entity is Some ==> entity->0 < old(core).timers.len(),
    ensures
        final(core).wf(),
        final(core)@ == (CoreView { next_ktimer: entity, ..old(core)@ }),
        final(core).timers@ == old(core).timers@,
        final(core).sync@ == old(core).sync@,
{
    core.next_ktimer = entity;
}

pub fn next_ktimer(core: &Core) -> (timer: Option<usize>)
    ensures
        timer == core@.next_ktimer,
{
    core.next_ktimer
}

pub fn ktimer_now_ticks(kernel: &Kernel) -> (now: u64)
    ensures
        now == kernel@.now,
{
    kernel.queue.now_ticks()
}

/// Name and remaining ticks of the queued timers, in the order in which they
/// expire. This is similar to `traverse_ktimer_queue` but allows the caller to
/// handle formatting and output.
pub fn traverse_ktimer_queue_fn(kernel: &Kernel) -> (entries: Vec<(&'static str, u32)>)
    requires
        kernel.wf(),
    ensures
        entries@ == kernel@.timer_table(),
{
    let ghost k = kernel@;
    let slots = kernel.queue.tree.entities(&kernel.core.timers);
    let now: u64 = kernel.queue.now_ticks();
    let mut entries: Vec<(&'static str, u32)> = Vec::new();
    let mut n: usize = 0;
    while n < slots.len()
        invariant
            n <= slots.len(),
            kernel.wf(),
            k == kernel@,
            now == k.now,
            slots@ == k.queue_order(),
            forall|j: int|
                0 <= j < slots@.len() ==> (#[trigger] slots@[j]) < kernel.core.timers.len(),
            entries@.len() == n,
            forall|j: int| 0 <= j < n ==> #[trigger] entries@[j] == k.timer_table()[j],
        decreases slots.len() - n,
    {
        let timer: usize = slots[n];
        assert(kernel.core.timers@[timer as int].deadline_at == k.core.timers[timer as int].deadline_at);
        let name = ktimer_name(&kernel.core, timer);
        let remaining: u32 = kernel.core.timers[timer].remaining_at(now);
        entries.push((name, remaining));
        n = n + 1;
    }
    assert(entries@ =~= k.timer_table());
    entries
}

/// Lists the timer queue on the diagnostic output.
pub fn traverse_ktimer_queue(kernel: &mut Kernel)
    requires
        old(kernel).wf(),
    ensures
        final(kernel).wf(),
        final(kernel)@ == old(kernel)@.with_core(
            CoreView {
                printer: old(kernel)@.core.printer.say(old(kernel)@.timer_listing()),
                ..old(kernel)@.core
            },
        ),
        final(kernel).core.sync@ == old(kernel).core.sync@,
{
    let ghost k = kernel@;
    let slots = kernel.queue.tree.entities(&kernel.core.timers);
    let now: u64 = kernel.queue.now_ticks();
    let mut lines: Vec<DiagLine> = Vec::new();
    lines.push(DiagLine::KTimerHeader);
    let mut n: usize = 0;
    while n < slots.len()
        invariant
            n <= slots.len(),
            kernel.wf(),
            k == kernel@,
            now == k.now,
            slots@ == k.queue_order(),
            forall|j: int|
                0 <= j < slots@.len() ==> (#[trigger] slots@[j]) < kernel.core.timers.len(),
            lines@.len() == n + 1,
            forall|j: int| 0 <= j < n + 1 ==> #[trigger] lines@[j] == k.timer_listing()[j],
        decreases slots.len() - n,
    {
        let timer: usize = slots[n];
        assert(kernel.core.timers@[timer as int].deadline_at == k.core.timers[timer as int].deadline_at);
        assert(kernel.core.timers@[timer as int].active == k.core.timers[timer as int].active);
        let name = ktimer_name(&kernel.core, timer);
        let remaining: u32 = kernel.core.timers[timer].remaining_at(now);
        let active: bool = kernel.core.timers[timer].is_active();
        lines.push(DiagLine::KTimer { name, remaining, active });
        n = n + 1;
    }
    assert(lines@ =~= k.timer_listing());
    kernel.core.printer.print_all(&lines);
    assert(kernel@ =~= k.with_core(
        CoreView { printer: k.core.printer.say(k.timer_listing()), ..k.core },
    ));
}

/// Return whether the named kernel timer is currently active.
///
/// Returns `false` when no timer with the given name is queued.
pub fn is_active_ktimer(kernel: &Kernel, name: &str) -> (active: bool)
    requires
        kernel.wf(),
    ensures
        active == match kernel@.named(name@) {
            None => false,
            Some(t) => kernel@.core.timers[t as int].active,
        },
{
    let ghost k = kernel@;
    let ghost ids = k.all_named(name@);
    let slots = kernel.queue.tree.entities(&kernel.core.timers);
    proof {
        kernel.queue.tree.lemma_in_order(kernel.core.timers@);
    }
    let wanted: String = name.to_owned();
    let mut n: usize = 0;
    while n < slots.len()
        invariant
            n <= slots.len(),
            kernel.wf(),
            k == kernel@,
            wanted@ == name@,
            ids == k.all_named(name@),
            crate::rbtree::lists::<KTimerEntity>(k.core.timers, k.queued, slots@),
            forall|j: int|
                0 <= j < slots@.len() ==> (#[trigger] slots@[j]) < kernel.core.timers.len(),
            forall|j: int|
                0 <= j < n ==> k.core.timer_names[(#[trigger] slots@[j]) as int]@ != name@,
        decreases slots.len() - n,
    {
        let timer: usize = slots[n];
        let found: String = ktimer_name(&kernel.core, timer).to_owned();
        if found == wanted {
            proof {
                assert(slots@.contains(timer));
                assert(k.queued.contains(timer));
                assert(ids.contains(timer));
                assert forall|i: usize| #[trigger] ids.contains(i) && i != timer implies
                    crate::rbtree::before::<KTimerEntity>(k.core.timers, timer, i) by {
                    assert(k.queued.contains(i));
                    let j = choose|j: int| 0 <= j < slots@.len() && slots@[j] == i;
                    assert(slots@[j] == i);
                    assert(crate::rbtree::before::<KTimerEntity>(
                        k.core.timers,
                        slots@[n as int],
                        slots@[j],
                    ));
                }
                crate::rbtree::lemma_first_of::<KTimerEntity>(k.core.timers, ids, timer);
                assert(k.core.timers[timer as int].active
                    == kernel.core.timers@[timer as int].active);
            }
            return kernel.core.timers[timer].is_active();
        }
        n = n + 1;
    }
    proof {
        assert forall|i: usize| !ids.contains(i) by {
            if ids.contains(i) {
                assert(k.queued.contains(i));
                let j = choose|j: int| 0 <= j < slots@.len() && slots@[j] == i;
                assert(slots@[j] == i);
            }
        }
        assert(ids =~= Set::<usize>::empty());
        crate::rbtree::lemma_first_of_empty::<KTimerEntity>(k.core.timers, ids);
    }
    false
}

/// An interval that the timer can hold is programmed as one tick less, and ends
/// after exactly that many ticks.
pub proof fn lemma_interval_round_trip(ticks: u32, next: Option<u32>)
    requires
        crate::platform::SCHEDULER_TIMER_RELOAD_MIN < ticks
            <= crate::platform::SCHEDULER_TIMER_RELOAD_MAX + 1,
    ensures
        crate::ktimer::writable(ticks - 1) == ticks - 1,
        interval_ticks(Some(crate::ktimer::writable(ticks - 1)), next) == ticks,
{
}

/// A programmed interval never passes the first deadline, unless that is due within
/// a tick, and reaches it as soon as the timer can hold the whole distance. Farther
/// deadlines are approached in chunks.
pub proof fn lemma_interval_approaches_deadline(k: KernelView)
    requires
        k.first() is Some,
        k.first()->0 != CFS_KTIMER,
    ensures
        ({
            let distance = k.core.timers[k.first()->0 as int].deadline_at - k.now;
            let interval = interval_ticks(None, k.next_reload());
            &&& interval >= 2
            &&& distance >= 2 ==> interval <= distance
            &&& 2 <= distance <= crate::platform::SCHEDULER_TIMER_RELOAD_MAX + 1 ==> interval
                == distance
        }),
{
}

/// The fair scheduling timer is never programmed for longer than its execution
/// window or than up to its deadline, unless one of them ends within a tick. The
/// interval ends with the earlier of them if the timer can hold it, and is the longest
/// one possible if it cannot.
pub proof fn lemma_interval_within_window(k: KernelView)
    requires
        k.first() == Some(CFS_KTIMER),
    ensures
        ({
            let timer = k.core.timers[CFS_KTIMER as int];
            let distance = timer.deadline_at - k.now;
            let window = timer.timing.relative_deadline_ticks as int;
            let interval = interval_ticks(None, k.next_reload());
            let longest = crate::platform::SCHEDULER_TIMER_RELOAD_MAX + 1;
            &&& interval >= 2
            &&& window >= 2 && distance >= 2 ==> interval <= window && interval <= distance
            &&& window >= 2 && distance >= 2 && (window <= longest || distance <= longest)
                ==> interval == window || interval == distance
            &&& window > longest && distance > longest ==> interval == longest
        }),
{
}

/// A real-time thread that finishes its job within its period is released again
/// exactly one period after the job started. Its timer waits until then, and the
/// next job starts with no time used.
pub proof fn lemma_next_release(k: KernelView, t: usize, elapsed: u32)
    requires
        t >= 2,
        t < k.core.timers.len(),
        k.core.timer_owner[t as int] is Some,
        k.core.timer_owner[t as int]->0 < k.core.runtime.len(),
        k.core.runtime[k.core.timer_owner[t as int]->0 as int] + elapsed
            <= k.core.timers[t as int].timing.period_ticks,
        k.core.runtime[k.core.timer_owner[t as int]->0 as int] <= k.now,
        k.now + k.core.timers[t as int].timing.period_ticks <= u64::MAX,
    ensures
        ({
            let i = k.core.timer_owner[t as int]->0;
            let started = k.now - k.core.runtime[i as int];
            let r = k.turn_yielded(t, elapsed, true).0;
            &&& r.core.timers[t as int].deadline_at == started
                + k.core.timers[t as int].timing.period_ticks
            &&& !r.core.timers[t as int].active
            &&& r.core.runtime[i as int] == 0
        }),
{
}

/// A real-time timer that waited for its release becomes active again when the
/// release is due, with a fresh relative deadline.
pub proof fn lemma_release_starts_job(k: KernelView, elapsed: u32)
    requires
        k.ok(),
        k.due(),
        k.first()->0 >= 2,
        k.first()->0 < k.core.timers.len(),
        k.core.timer_owner[k.first()->0 as int] is Some,
        !k.core.timers[k.first()->0 as int].active,
    ensures
        ({
            let t = k.first()->0;
            let i = k.core.timer_owner[t as int]->0;
            let r = k.dispatched_first(elapsed);
            &&& r.queued == k.queued.insert(t)
            &&& r.core.timers[t as int].active
            &&& r.core.timers[t as int].deadline_at == k.now.saturating_add(
                k.core.timers[t as int].timing.relative_deadline_ticks as u64,
            )
            &&& r.core.runtime[i as int] == 0
            &&& r.core.fault is None
        }),
{
    let t = k.first()->0;
    assert(k.core.timer_owner[t as int] is Some);
    assert(k.queued.remove(t).insert(t) =~= k.queued.insert(t));
}

impl KernelView {
    /// The wait timer expires when the first waiting thread must wake.
    pub open spec fn wait_timer_set(self) -> bool {
        &&& self.queued.contains(WAIT_KTIMER)
        &&& self.core.timers[WAIT_KTIMER as int].deadline_at == match self.core.first_wait() {
            None => KTIMER_DEADLINE_NEVER,
            Some(i) => self.core.wait[i as int].wake_at,
        }
    }
}

/// Every change of the wait queue sets the wait timer.
pub proof fn lemma_wait_programmed_sets_timer(k: KernelView)
    requires
        k.ok(),
        k.owned(),
    ensures
        k.wait_programmed().wait_timer_set(),
{
    let d = k.dequeued(WAIT_KTIMER);
    let armed = d.wait_armed();
    assert(armed =~= d.with_core(
        d.core.with_timer(WAIT_KTIMER, armed.core.timers[WAIT_KTIMER as int]),
    ));
    let queued = armed.enqueued(WAIT_KTIMER);
    assert(queued.owned()) by {
        assert forall|s: usize| #[trigger] queued.queued.contains(s) && s >= 2 implies
            queued.core.timer_owner[s as int] is Some by {
            assert(k.queued.contains(s));
        }
    }
    assert(queued.wait_timer_set());
    lemma_refreshed_keeps_wait_timer(queued);
    lemma_refreshed(queued);
}

/// The choice of the next timer leaves the wait timer alone: it is not active.
proof fn lemma_refreshed_keeps_wait_timer(k: KernelView)
    requires
        k.ok(),
    ensures
        k.refreshed().core.timers[WAIT_KTIMER as int] == k.core.timers[WAIT_KTIMER as int],
{
    if let Some(t) = k.first_active() {
        let ids = crate::ktimer::active_ids(k.core.timers, k.queued);
        let f = choose|f: usize| crate::rbtree::is_first::<KTimerEntity>(k.core.timers, ids, f);
        assert(crate::rbtree::is_first::<KTimerEntity>(k.core.timers, ids, f));
        assert(ids.contains(t));
        assert(t != WAIT_KTIMER);
    }
}

} // verus!
