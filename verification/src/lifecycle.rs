//! The life of threads: states, queues and the selected thread go together.

use crate::kernel::{CoreView, KernelView};
use crate::ktimer::{CFS_KTIMER, WAIT_KTIMER};
use crate::runq::SchedEntity;
use crate::spawn::ThreadStart;
use crate::sync::{MutexView, SemaphoreView, SyncType};
use crate::thread::{CfsThread, RtThread, ThreadState};
use vstd::prelude::*;

verus! {

impl CoreView {
    /// Every thread is where its state says: runnable threads are ready, exactly
    /// the waiting threads are in the wait queue, and only the selected thread is
    /// running.
    pub open spec fn placed(self) -> bool {
        &&& forall|i: usize| #[trigger]
            self.run.contains(i) ==> i < self.ctx.len() && self.ctx[i as int].state is Ready
        &&& forall|i: usize| #[trigger]
            self.waiting.contains(i) ==> i < self.ctx.len() && self.ctx[i as int].state is Waiting
        &&& forall|i: usize|
            i < self.ctx.len() && (#[trigger] self.ctx[i as int]).state is Waiting
                ==> self.waiting.contains(i)
        &&& forall|i: usize|
            i < self.ctx.len() && (#[trigger] self.ctx[i as int]).state is Running ==> self.current
                == Some(i)
    }

    /// The same threads in the same queues, with the same selection.
    pub open spec fn same_threads(self, other: CoreView) -> bool {
        &&& self.ctx == other.ctx
        &&& self.wait == other.wait
        &&& self.sync == other.sync
        &&& self.sched == other.sched
        &&& self.ktimer_of == other.ktimer_of
        &&& self.timer_owner == other.timer_owner
        &&& self.run == other.run
        &&& self.priority_sum == other.priority_sum
        &&& self.waiting == other.waiting
        &&& self.current == other.current
        &&& self.current_is_cfs == other.current_is_cfs
        &&& self.idle == other.idle
    }

    /// Threads may wake; nothing else about them changes.
    pub open spec fn only_wakes(self, next: CoreView) -> bool {
        &&& next.ctx.len() == self.ctx.len()
        &&& forall|i: usize|
            i < self.ctx.len() && (#[trigger] next.ctx[i as int]) != self.ctx[i as int] ==> {
                &&& self.ctx[i as int].state is Waiting
                &&& next.ctx[i as int] == crate::thread::ThreadCtx {
                    state: ThreadState::Ready,
                    ..self.ctx[i as int]
                }
            }
    }

    /// Every thread either keeps its state or changes it in an allowed way;
    /// nothing else about it changes.
    pub open spec fn lives_on(self, next: CoreView) -> bool {
        &&& next.ctx.len() == self.ctx.len()
        &&& forall|i: usize|
            i < self.ctx.len() ==> {
                let state = (#[trigger] next.ctx[i as int]).state;
                &&& self.ctx[i as int].state.allows(state)
                &&& next.ctx[i as int] == crate::thread::ThreadCtx { state, ..self.ctx[i as int] }
            }
    }
}

impl KernelView {
    /// Every thread can be scheduled: threads are where their states say, and a
    /// real-time thread has its timer for itself, which is queued unless the thread
    /// waits.
    pub open spec fn settled(self) -> bool {
        &&& self.core.placed()
        &&& self.queued.contains(CFS_KTIMER)
        &&& forall|i: usize|
            i < self.core.ctx.len() && (#[trigger] self.core.ktimer_of[i as int]) is Some ==> {
                let t = self.core.ktimer_of[i as int]->0;
                &&& t >= 2
                &&& self.core.timer_owner[t as int] == Some(i)
                &&& self.queued.contains(t) == !self.core.waiting.contains(i)
            }
    }

    /// No timer leaves the queue, and no real-time timer joins it.
    pub open spec fn keeps_timers(self, next: KernelView) -> bool {
        &&& self.queued.subset_of(next.queued)
        &&& forall|t: usize| t >= 2 && #[trigger] next.queued.contains(t) ==> self.queued.contains(t)
    }
}

/// Where threads are placed is a matter of threads and queues alone.
pub proof fn lemma_same_threads_placed(a: CoreView, b: CoreView)
    requires
        a.same_threads(b),
        a.placed(),
    ensures
        b.placed(),
{
    assert forall|j: usize|
        j < b.ctx.len() && (#[trigger] b.ctx[j as int]).state is Waiting implies b.waiting.contains(
        j,
    ) by {
        assert(a.ctx[j as int].state is Waiting);
    }
    assert forall|j: usize|
        j < b.ctx.len() && (#[trigger] b.ctx[j as int]).state is Running implies b.current == Some(
        j,
    ) by {
        assert(a.ctx[j as int].state is Running);
    }
}

/// Choosing the next timer moves no thread and no real-time timer, unless a deadline
/// was missed.
pub proof fn lemma_refreshed_threads(k: KernelView)
    ensures
        k.core.same_threads(k.refreshed().core),
        k.refreshed().core.fault is None ==> k.keeps_timers(k.refreshed()),
{
    if let Some(t) = k.first_active() {
        let ids = crate::ktimer::active_ids(k.core.timers, k.queued);
        let f = choose|f: usize|
            crate::rbtree::is_first::<crate::ktimer::KTimerEntity>(k.core.timers, ids, f);
        assert(crate::rbtree::is_first::<crate::ktimer::KTimerEntity>(k.core.timers, ids, f));
        assert(ids.contains(t));
    }
}

/// Setting the wait timer moves no thread and no real-time timer, unless a deadline
/// was missed.
pub proof fn lemma_wait_programmed_threads(k: KernelView)
    ensures
        k.core.same_threads(k.wait_programmed().core),
        k.wait_programmed().core.fault is None ==> k.keeps_timers(k.wait_programmed()),
{
    let armed = k.dequeued(WAIT_KTIMER).wait_armed().enqueued(WAIT_KTIMER);
    lemma_refreshed_threads(armed);
    assert(k.keeps_timers(armed));
}

/// Ending a turn moves no thread and no timer.
pub proof fn lemma_turn_yielded_threads(k: KernelView, t: usize, elapsed: u32, reset_runtime: bool)
    ensures
        k.core.same_threads(k.turn_yielded(t, elapsed, reset_runtime).0.core),
        k.turn_yielded(t, elapsed, reset_runtime).0.queued == k.queued,
        k.turn_yielded(t, elapsed, reset_runtime).0.core.fault == k.core.fault,
{
}

/// Changing a deadline moves no thread and no real-time timer, unless a deadline was
/// missed.
pub proof fn lemma_deadline_set_threads(k: KernelView, i: usize, deadline_at: u64)
    ensures
        k.core.same_threads(k.deadline_set(i, deadline_at).core),
        k.deadline_set(i, deadline_at).core.fault is None ==> k.keeps_timers(
            k.deadline_set(i, deadline_at),
        ),
{
    if let Some(t) = k.core.scheduler_timer(i) {
        lemma_refreshed_threads(
            k.with_core(
                k.core.with_timer(
                    t,
                    crate::ktimer::KTimerEntity { deadline_at, ..k.core.timers[t as int] },
                ),
            ),
        );
    }
}

/// Threads stay placed when one that is in no queue but the run queue starts to
/// wait.
proof fn lemma_parked_placed(core: CoreView, i: usize)
    requires
        core.placed(),
        i < core.ctx.len(),
    ensures
        ({
            let left = CoreView {
                run: if core.ctx[i as int].state is Ready {
                    core.run.remove(i)
                } else {
                    core.run
                },
                ..core
            };
            let r = left.with_state(i, ThreadState::Waiting).waiting_with(i);
            r.placed() && core.lives_on(r)
        }),
{
    let left = CoreView {
        run: if core.ctx[i as int].state is Ready {
            core.run.remove(i)
        } else {
            core.run
        },
        ..core
    };
    let r = left.with_state(i, ThreadState::Waiting).waiting_with(i);
    assert forall|j: usize| #[trigger] r.run.contains(j) implies j < r.ctx.len()
        && r.ctx[j as int].state is Ready by {
        assert(core.run.contains(j));
    }
    assert forall|j: usize| #[trigger] r.waiting.contains(j) implies j < r.ctx.len()
        && r.ctx[j as int].state is Waiting by {
        if j != i {
            assert(core.waiting.contains(j));
        }
    }
    assert forall|j: usize|
        j < r.ctx.len() && (#[trigger] r.ctx[j as int]).state is Waiting implies r.waiting.contains(
        j,
    ) by {
        if j != i {
            assert(core.ctx[j as int].state is Waiting);
        }
    }
    assert forall|j: usize|
        j < r.ctx.len() && (#[trigger] r.ctx[j as int]).state is Running implies r.current == Some(
        j,
    ) by {
        assert(core.ctx[j as int].state is Running);
    }
}

/// A fair thread that starts to wait leaves the scheduler settled.
pub proof fn lemma_cfs_parked_settled(k: KernelView, i: usize)
    requires
        k.ok(),
        k.settled(),
        i < k.core.ctx.len(),
        k.core.ctx[i as int].is_cfs,
        k.cfs_parked(i).1 is Ok,
    ensures
        k.cfs_parked(i).0.settled(),
        k.core.lives_on(k.cfs_parked(i).0.core),
        k.cfs_parked(i).0.core.waiting == k.core.waiting.insert(i),
        k.cfs_parked(i).0.core.current == k.core.current,
{
    let core = k.core;
    let left = CoreView {
        run: if core.ctx[i as int].state is Ready {
            core.run.remove(i)
        } else {
            core.run
        },
        priority_sum: core.priority_sum.saturating_sub(core.sched[i as int].priority),
        ..core
    };
    let mid = k.with_core(left.with_state(i, ThreadState::Waiting).waiting_with(i));
    lemma_parked_placed(CoreView { priority_sum: left.priority_sum, ..core }, i);
    lemma_wait_programmed_threads(mid);
    let r = k.cfs_parked(i).0;
    assert forall|j: usize|
        j < r.core.ctx.len() && (#[trigger] r.core.ktimer_of[j as int]) is Some implies {
        let s = r.core.ktimer_of[j as int]->0;
        &&& s >= 2
        &&& r.core.timer_owner[s as int] == Some(j)
        &&& r.queued.contains(s) == !r.core.waiting.contains(j)
    } by {
        assert(k.core.ktimer_of[j as int] is Some);
        let s = k.core.ktimer_of[j as int]->0;
        assert(k.core.timer_owner[s as int] is Some);
        assert(j != i);
        assert(mid.queued.contains(s) == k.queued.contains(s));
    }
}

/// A real-time thread that starts to wait leaves the scheduler settled.
pub proof fn lemma_rt_parked_settled(k: KernelView, i: usize)
    requires
        k.ok(),
        k.settled(),
        i < k.core.ctx.len(),
        k.rt_parked(i).1 is Ok,
    ensures
        k.rt_parked(i).0.settled(),
        k.core.lives_on(k.rt_parked(i).0.core),
        k.rt_parked(i).0.core.waiting == k.core.waiting.insert(i),
        k.rt_parked(i).0.core.current == k.core.current,
{
    let t = k.core.ktimer_of[i as int]->0;
    assert(k.core.ktimer_of[i as int] is Some);
    let d = k.dequeued(t);
    let inactive = d.with_core(d.core.with_timer(t, d.core.timers[t as int].with_active(false)));
    lemma_refreshed_threads(inactive);
    let removed = k.timer_removed(t);
    assert(removed.core.same_threads(k.core));
    assert(inactive.keeps_timers(removed));
    let mid = removed.with_core(removed.core.with_state(i, ThreadState::Waiting).waiting_with(i));
    assert(!k.core.run.contains(i));
    lemma_same_threads_placed(k.core, removed.core);
    lemma_parked_placed(removed.core, i);
    assert(removed.core.run.remove(i) =~= removed.core.run);
    lemma_wait_programmed_threads(mid);
    let r = k.rt_parked(i).0;
    assert forall|j: usize|
        j < r.core.ctx.len() && (#[trigger] r.core.ktimer_of[j as int]) is Some implies {
        let s = r.core.ktimer_of[j as int]->0;
        &&& s >= 2
        &&& r.core.timer_owner[s as int] == Some(j)
        &&& r.queued.contains(s) == !r.core.waiting.contains(j)
    } by {
        assert(k.core.ktimer_of[j as int] is Some);
        let s = k.core.ktimer_of[j as int]->0;
        assert(k.core.timer_owner[s as int] == Some(j));
        if j != i {
            assert(k.core.timer_owner[t as int] == Some(i));
            assert(s != t);
            assert(inactive.queued.contains(s) == k.queued.contains(s));
            assert(removed.queued.contains(s) == k.queued.contains(s));
        } else {
            assert(!inactive.queued.contains(s));
            assert(!removed.queued.contains(s));
        }
        assert(mid.queued.contains(s) == removed.queued.contains(s));
    }
    assert(k.core.lives_on(r.core)) by {
        assert forall|j: usize| j < k.core.ctx.len() implies {
            let state = (#[trigger] r.core.ctx[j as int]).state;
            &&& k.core.ctx[j as int].state.allows(state)
            &&& r.core.ctx[j as int] == crate::thread::ThreadCtx { state, ..k.core.ctx[j as int] }
        } by {
            assert(mid.core.ctx[j as int] == r.core.ctx[j as int]);
        }
    }
    assert(r.queued.contains(CFS_KTIMER)) by {
        assert(inactive.queued.contains(CFS_KTIMER));
        assert(mid.queued.contains(CFS_KTIMER));
    }
}

/// The scheduler stays settled as long as no thread and no real-time timer moves.
proof fn lemma_same_threads_settled(k: KernelView, r: KernelView)
    requires
        k.settled(),
        k.core.same_threads(r.core),
        k.keeps_timers(r),
    ensures
        r.settled(),
        k.core.lives_on(r.core),
{
    lemma_same_threads_placed(k.core, r.core);
    assert forall|j: usize|
        j < r.core.ctx.len() && (#[trigger] r.core.ktimer_of[j as int]) is Some implies {
        let s = r.core.ktimer_of[j as int]->0;
        &&& s >= 2
        &&& r.core.timer_owner[s as int] == Some(j)
        &&& r.queued.contains(s) == !r.core.waiting.contains(j)
    } by {
        assert(k.core.ktimer_of[j as int] is Some);
    }
}

/// The running thread, once the scheduler is settled, can block: whatever it calls
/// for that is allowed.
pub proof fn lemma_running_thread_can_block(k: KernelView)
    requires
        k.steady(),
        k.settled(),
        k.core.current is Some,
        k.core.ctx[k.core.current->0 as int].state is Running,
    ensures
        k.can_block(),
{
    let i = k.core.current->0;
    if k.core.waiting.contains(i) {
        assert(k.core.ctx[i as int].state is Waiting);
    }
    if k.core.run.contains(i) {
        assert(k.core.ctx[i as int].state is Ready);
    }
    if !k.core.ctx[i as int].is_cfs && k.core.ktimer_of[i as int] is Some {
        assert(k.queued.contains(k.core.ktimer_of[i as int]->0));
    }
}

/// A waiter that still waits can be woken.
pub proof fn lemma_waiting_thread_can_be_woken(k: KernelView, waiters: Set<usize>)
    requires
        k.steady(),
        k.settled(),
        forall|i: usize| #[trigger] waiters.contains(i) ==> i < k.core.ctx.len(),
    ensures
        k.can_wake(waiters),
{
    let ids = k.core.still_waiting(waiters);
    if let Some(i) = k.core.first_waiter(waiters) {
        let f = choose|f: usize|
            crate::rbtree::is_first::<crate::sync::SyncEntity>(k.core.sync, ids, f);
        assert(crate::rbtree::is_first::<crate::sync::SyncEntity>(k.core.sync, ids, f));
        assert(ids.contains(i));
        assert(waiters.contains(i));
        assert(k.core.ctx[i as int].state is Waiting);
    }
}

/// A thread that blocks on a synchronization object leaves the scheduler settled.
pub proof fn lemma_blocked_settled(k: KernelView, kind: SyncType, elapsed: u32)
    requires
        k.can_block(),
        k.settled(),
        k.blocked_on(kind, elapsed).1 is Ok,
    ensures
        k.blocked_on(kind, elapsed).0.settled(),
        k.core.lives_on(k.blocked_on(kind, elapsed).0.core),
        k.blocked_on(kind, elapsed).0.core.waiting == k.core.waiting.insert(k.core.current->0),
{
    let i = k.core.current->0;
    let ended = match k.core.scheduler_timer(i) {
        None => k,
        Some(t) => {
            lemma_turn_yielded_threads(k, t, elapsed, false);
            k.turn_yielded(t, elapsed, false).0
        },
    };
    lemma_turn_ended_ok(k, elapsed, false);
    lemma_same_threads_settled(k, ended);
    let entity = crate::waitq::WaitEntity {
        wake_at: crate::sync::WAIT_FOREVER_TICKS,
        waitevt: kind.tag(),
        ..ended.core.wait[i as int]
    };
    let waiting = ended.with_core(ended.core.with_wait(i, entity));
    lemma_wait_set_settled(ended, i, entity);
    if k.core.current_is_cfs {
        lemma_cfs_parked_settled(waiting, i);
    } else {
        lemma_rt_parked_settled(waiting, i);
    }
    let parked = k.blocked(kind, elapsed).0;
    let r = k.blocked_on(kind, elapsed).0;
    assert(parked.settled());
    assert(r.core.placed()) by {
        lemma_same_threads_placed(parked.core, CoreView { sync: parked.core.sync, ..r.core });
    }
}

/// The end of a turn keeps the state consistent.
pub proof fn lemma_turn_ended_ok(k: KernelView, elapsed: u32, reset_runtime: bool)
    requires
        k.ok(),
        k.core.current is Some,
    ensures
        match k.core.scheduler_timer(k.core.current->0) {
            None => true,
            Some(t) => k.turn_yielded(t, elapsed, reset_runtime).0.ok(),
        },
{
    let i = k.core.current->0;
    if let Some(t) = k.core.scheduler_timer(i) {
        if t != CFS_KTIMER {
            assert(k.core.ktimer_of[i as int] == Some(t));
            assert(k.core.timer_owner[t as int] is Some);
        }
    }
}

proof fn lemma_wait_set_settled(k: KernelView, i: usize, entity: crate::waitq::WaitEntity)
    requires
        k.settled(),
    ensures
        k.with_core(k.core.with_wait(i, entity)).settled(),
        k.core.lives_on(k.core.with_wait(i, entity)),
{
    let r = k.with_core(k.core.with_wait(i, entity));
    lemma_same_threads_settled(k, k.with_core(CoreView { wait: k.core.wait, ..r.core }));
}

/// A sleeping thread leaves the scheduler settled.
pub proof fn lemma_slept_settled(k: KernelView, msec: u32, elapsed: u32)
    requires
        k.can_block(),
        k.settled(),
        k.slept(msec, elapsed).core.fault is None,
        k.core.current_is_cfs || k.core.ktimer_of[k.core.current->0 as int] is Some,
    ensures
        k.slept(msec, elapsed).settled(),
        k.core.lives_on(k.slept(msec, elapsed).core),
        k.slept(msec, elapsed).core.waiting == k.core.waiting.insert(k.core.current->0),
{
    let i = k.core.current->0;
    let ended = match k.core.scheduler_timer(i) {
        None => k,
        Some(t) => {
            lemma_turn_yielded_threads(k, t, elapsed, false);
            k.turn_yielded(t, elapsed, false).0
        },
    };
    lemma_turn_ended_ok(k, elapsed, false);
    lemma_same_threads_settled(k, ended);
    let ticks = crate::current::saturating_product(msec, k.core.clock.ticks());
    let entity = crate::waitq::WaitEntity {
        wake_at: ended.now.saturating_add(ticks as u64),
        waitevt: 0,
        ..ended.core.wait[i as int]
    };
    let waiting = ended.with_core(ended.core.with_wait(i, entity));
    lemma_wait_set_settled(ended, i, entity);
    if k.core.current_is_cfs {
        lemma_cfs_parked_settled(waiting, i);
        lemma_same_threads_settled(waiting.cfs_parked(i).0, k.slept(msec, elapsed));
    } else {
        lemma_rt_parked_settled(waiting, i);
        lemma_same_threads_settled(waiting.rt_parked(i).0, k.slept(msec, elapsed));
    }
}

/// A thread that yields leaves the scheduler settled.
pub proof fn lemma_yielded_settled(k: KernelView, elapsed: u32)
    requires
        k.settled(),
        k.core.current is Some,
    ensures
        k.yielded(elapsed).settled(),
        k.core.lives_on(k.yielded(elapsed).core),
{
    if let Some(t) = k.core.scheduler_timer(k.core.current->0) {
        lemma_turn_yielded_threads(k, t, elapsed, true);
    }
    lemma_same_threads_settled(k, k.yielded(elapsed));
}

/// Threads stay placed when a waiting one becomes ready.
proof fn lemma_ready_placed(core: CoreView, i: usize, runnable: bool)
    requires
        core.placed(),
        core.waiting.contains(i),
    ensures
        ({
            let ready = core.waiting_without(i).with_state(i, ThreadState::Ready);
            let r = CoreView {
                run: if runnable {
                    core.run.insert(i)
                } else {
                    core.run
                },
                ..ready
            };
            r.placed() && core.only_wakes(r)
        }),
{
    let ready = core.waiting_without(i).with_state(i, ThreadState::Ready);
    let r = CoreView {
        run: if runnable {
            core.run.insert(i)
        } else {
            core.run
        },
        ..ready
    };
    assert forall|j: usize| #[trigger] r.run.contains(j) implies j < r.ctx.len()
        && r.ctx[j as int].state is Ready by {
        if j != i {
            assert(core.run.contains(j));
        }
    }
    assert forall|j: usize| #[trigger] r.waiting.contains(j) implies j < r.ctx.len()
        && r.ctx[j as int].state is Waiting by {
        assert(core.waiting.contains(j));
    }
    assert forall|j: usize|
        j < r.ctx.len() && (#[trigger] r.ctx[j as int]).state is Waiting implies r.waiting.contains(
        j,
    ) by {
        assert(core.ctx[j as int].state is Waiting);
    }
    assert forall|j: usize|
        j < r.ctx.len() && (#[trigger] r.ctx[j as int]).state is Running implies r.current == Some(
        j,
    ) by {
        assert(core.ctx[j as int].state is Running);
    }
}

/// A fair thread that becomes ready rejoins the others where it belongs.
proof fn lemma_rejoined_placed(core: CoreView, r: CoreView, i: usize)
    requires
        core.placed(),
        core.waiting.contains(i),
        r.ctx == core.ctx.update(
            i as int,
            crate::thread::ThreadCtx { state: ThreadState::Ready, ..core.ctx[i as int] },
        ),
        r.waiting == core.waiting.remove(i),
        r.run == core.run.insert(i) || r.run == core.run,
        r.current == core.current,
    ensures
        r.placed(),
        core.only_wakes(r),
{
    let runnable = r.run == core.run.insert(i);
    lemma_ready_placed(core, i, runnable);
    let ready = core.waiting_without(i).with_state(i, ThreadState::Ready);
    let q = CoreView {
        run: if runnable {
            core.run.insert(i)
        } else {
            core.run
        },
        ..ready
    };
    assert(q.placed());
    assert forall|j: usize|
        j < r.ctx.len() && (#[trigger] r.ctx[j as int]).state is Waiting implies r.waiting.contains(
        j,
    ) by {
        assert(q.ctx[j as int].state is Waiting);
    }
    assert forall|j: usize|
        j < r.ctx.len() && (#[trigger] r.ctx[j as int]).state is Running implies r.current == Some(
        j,
    ) by {
        assert(q.ctx[j as int].state is Running);
    }
}

/// A thread that is woken by a tick leaves the scheduler settled.
pub proof fn lemma_woken_settled(k: KernelView, i: usize, elapsed: u32)
    requires
        k.ok(),
        k.settled(),
        k.core.waiting.contains(i),
    ensures
        k.woken(i, elapsed).settled(),
        k.core.only_wakes(k.woken(i, elapsed).core),
{
    crate::dispatch::lemma_woken(k, i, elapsed);
    let r = k.woken(i, elapsed);
    assert(r.core.ctx =~= k.core.ctx.update(
        i as int,
        crate::thread::ThreadCtx { state: ThreadState::Ready, ..k.core.ctx[i as int] },
    ));
    lemma_rejoined_placed(k.core, r.core, i);
    assert forall|j: usize|
        j < r.core.ctx.len() && (#[trigger] r.core.ktimer_of[j as int]) is Some implies {
        let s = r.core.ktimer_of[j as int]->0;
        &&& s >= 2
        &&& r.core.timer_owner[s as int] == Some(j)
        &&& r.queued.contains(s) == !r.core.waiting.contains(j)
    } by {
        assert(k.core.ktimer_of[j as int] is Some);
        if j == i {
            let t = k.core.ktimer_of[j as int]->0;
            assert(k.core.timer_owner[t as int] == Some(i));
            assert(k.core.timer_owner[t as int] is Some);
        }
    }
}

proof fn lemma_only_wakes_twice(a: CoreView, b: CoreView, c: CoreView)
    requires
        a.only_wakes(b),
        b.only_wakes(c),
    ensures
        a.only_wakes(c),
{
    assert forall|i: usize|
        i < a.ctx.len() && (#[trigger] c.ctx[i as int]) != a.ctx[i as int] implies {
        &&& a.ctx[i as int].state is Waiting
        &&& c.ctx[i as int] == crate::thread::ThreadCtx {
            state: ThreadState::Ready,
            ..a.ctx[i as int]
        }
    } by {
        let middle = b.ctx[i as int];
    }
}

/// Waking all due threads leaves the scheduler settled.
proof fn lemma_woken_all_settled(k: KernelView, elapsed: u32)
    requires
        k.ok(),
        k.settled(),
        k.core.waiting.finite(),
    ensures
        k.woken_all(elapsed).settled(),
        k.core.only_wakes(k.woken_all(elapsed).core),
    decreases k.core.waiting.len(),
{
    if k.has_due_waiter() {
        let i = k.core.first_wait()->0;
        crate::dispatch::lemma_woken_shrinks(k, i, elapsed);
        lemma_woken_settled(k, i, elapsed);
        crate::dispatch::lemma_woken(k, i, elapsed);
        let w = k.woken(i, elapsed);
        lemma_woken_all_settled(w, elapsed);
        lemma_only_wakes_twice(k.core, w.core, w.woken_all(elapsed).core);
    }
}

/// The dispatch of one timer keeps the state consistent and the scheduler settled.
pub proof fn lemma_dispatched_first_settled(k: KernelView, elapsed: u32)
    requires
        k.due(),
        k.dispatchable(),
        k.settled(),
    ensures
        k.dispatched_first(elapsed).core.fault is None ==> {
            &&& k.dispatched_first(elapsed).ok()
            &&& k.dispatched_first(elapsed).settled()
            &&& k.core.only_wakes(k.dispatched_first(elapsed).core)
        },
{
    let t = k.first()->0;
    let r = k.dispatched_first(elapsed);
    let f = choose|f: usize|
        crate::rbtree::is_first::<crate::ktimer::KTimerEntity>(k.core.timers, k.queued, f);
    assert(crate::rbtree::is_first::<crate::ktimer::KTimerEntity>(k.core.timers, k.queued, f));
    assert(k.queued.contains(t));
    let d = k.dequeued(t);
    if t == WAIT_KTIMER {
        assert(d.settled()) by {
            assert forall|j: usize|
                j < d.core.ctx.len() && (#[trigger] d.core.ktimer_of[j as int]) is Some implies {
                let s = d.core.ktimer_of[j as int]->0;
                &&& s >= 2
                &&& d.core.timer_owner[s as int] == Some(j)
                &&& d.queued.contains(s) == !d.core.waiting.contains(j)
            } by {
                assert(k.core.ktimer_of[j as int] is Some);
            }
        }
        lemma_woken_all_settled(d, elapsed);
        crate::dispatch::lemma_woken_all(d, elapsed);
        let w = d.woken_all(elapsed);
        let armed = w.wait_armed();
        assert(armed =~= w.with_core(
            w.core.with_timer(WAIT_KTIMER, armed.core.timers[WAIT_KTIMER as int]),
        ));
        lemma_same_threads_settled(w, r);
        lemma_only_wakes_twice(k.core, w.core, r.core);
    } else if t == CFS_KTIMER {
        let timer = r.core.timers[CFS_KTIMER as int];
        let mid = d.with_core(d.core.with_timer(CFS_KTIMER, timer));
        assert(r =~= mid.enqueued(CFS_KTIMER));
        lemma_same_threads_settled(k, r);
    } else {
        let i = d.core.timer_owner[t as int]->0;
        if !(d.core.timers[t as int].active && d.core.over_deadline(t, i)) {
            assert(r == d.released(t, i));
            let core = d.core.with_runtime(i, 0).with_timer(t, r.core.timers[t as int]);
            let mid = KernelView { core, queued: d.queued, now: d.now };
            assert(r =~= mid.enqueued(t));
            lemma_same_threads_settled(k, r);
        }
    }
}

/// The dispatch of all expired timers leaves the scheduler settled, unless a
/// deadline was missed. Threads may wake; nothing else happens to them.
pub proof fn lemma_dispatched_settled(k: KernelView, elapsed: u32)
    requires
        k.dispatchable(),
        k.settled(),
        k.core.fault is None,
    ensures
        k.dispatched(elapsed).core.fault is None ==> {
            &&& k.dispatched(elapsed).ok()
            &&& k.dispatched(elapsed).dispatchable()
            &&& k.dispatched(elapsed).settled()
            &&& k.core.only_wakes(k.dispatched(elapsed).core)
            &&& !k.dispatched(elapsed).due()
        },
    decreases k.core.waiting.len(), k.closing(), k.expired_ids().len(),
{
    if k.due() {
        crate::dispatch::lemma_dispatch_progress(k, elapsed);
        lemma_dispatched_first_settled(k, elapsed);
        let r = k.dispatched_first(elapsed);
        if r.core.fault is None {
            crate::dispatch::lemma_dispatchable_kept(k, elapsed);
            lemma_dispatched_settled(r, elapsed);
            if r.dispatched(elapsed).core.fault is None {
                lemma_only_wakes_twice(k.core, r.core, r.dispatched(elapsed).core);
            }
        }
    }
}

/// A tick leaves the scheduler settled, unless a deadline was missed.
pub proof fn lemma_ticked_settled(k: KernelView, elapsed: u32)
    requires
        (KernelView { now: k.now.saturating_add(elapsed as u64), ..k }).dispatchable(),
        k.settled(),
        k.core.fault is None,
    ensures
        k.ticked(elapsed).core.fault is None ==> {
            &&& k.ticked(elapsed).settled()
            &&& k.core.only_wakes(k.ticked(elapsed).core)
            &&& k.core.lives_on(k.ticked(elapsed).core)
        },
{
    let later = KernelView { now: k.now.saturating_add(elapsed as u64), ..k };
    lemma_same_threads_settled(k, later);
    lemma_dispatched_settled(later, elapsed);
    let d = later.dispatched(elapsed);
    if d.core.fault is None {
        lemma_same_threads_settled(d, k.ticked(elapsed));
        let r = k.ticked(elapsed);
        assert forall|i: usize| i < k.core.ctx.len() implies {
            let state = (#[trigger] r.core.ctx[i as int]).state;
            &&& k.core.ctx[i as int].state.allows(state)
            &&& r.core.ctx[i as int] == crate::thread::ThreadCtx { state, ..k.core.ctx[i as int] }
        } by {
            assert(d.core.ctx[i as int] == r.core.ctx[i as int]);
        }
    }
}

/// A waiter that is woken leaves the scheduler settled.
pub proof fn lemma_waiter_woken_settled(k: KernelView, i: usize)
    requires
        k.steady(),
        k.settled(),
        k.core.waiting.contains(i),
        k.waiter_woken(i).1 is Ok,
    ensures
        k.waiter_woken(i).0.settled(),
        k.core.only_wakes(k.waiter_woken(i).0.core),
        k.waiter_woken(i).0.core.waiting == k.core.waiting.remove(i),
{
    let ctx = k.core.ctx.update(
        i as int,
        crate::thread::ThreadCtx { state: ThreadState::Ready, ..k.core.ctx[i as int] },
    );
    let r = k.waiter_woken(i).0;
    if k.core.ctx[i as int].is_cfs {
        let left = k.core.waiting_without(i);
        let ready = k.with_core(
            (CoreView { trace: left.trace.wakeup(left.ctx[i as int]), ..left }).rejoined(i),
        );
        assert(ready.core.ctx =~= ctx);
        assert(ready.core.run =~= k.core.run.insert(i));
        lemma_rejoined_placed(k.core, ready.core, i);
        assert forall|j: usize|
            j < ready.core.ctx.len() && (#[trigger] ready.core.ktimer_of[j as int]) is Some implies {
            let s = ready.core.ktimer_of[j as int]->0;
            &&& s >= 2
            &&& ready.core.timer_owner[s as int] == Some(j)
            &&& ready.queued.contains(s) == !ready.core.waiting.contains(j)
        } by {
            assert(k.core.ktimer_of[j as int] is Some);
            if j == i {
                let t = k.core.ktimer_of[j as int]->0;
                assert(k.core.timer_owner[t as int] == Some(i));
                assert(k.core.timer_owner[t as int] is Some);
            }
        }
        lemma_wait_programmed_threads(ready);
        lemma_same_threads_settled(ready, r);
        lemma_only_wakes_twice(k.core, ready.core, r.core);
    } else {
        let t = k.core.ktimer_of[i as int]->0;
        let ready = k.core.waiting_without(i).with_state(i, ThreadState::Ready);
        let traced = k.with_core(
            CoreView { trace: ready.trace.wakeup(ready.ctx[i as int]), ..ready },
        );
        let queued = traced.with_core(
            traced.core.with_timer(t, traced.core.timers[t as int].with_active(true)),
        ).enqueued(t);
        lemma_rejoined_placed(k.core, queued.core, i);
        assert forall|j: usize|
            j < queued.core.ctx.len() && (#[trigger] queued.core.ktimer_of[j as int]) is Some implies {
            let s = queued.core.ktimer_of[j as int]->0;
            &&& s >= 2
            &&& queued.core.timer_owner[s as int] == Some(j)
            &&& queued.queued.contains(s) == !queued.core.waiting.contains(j)
        } by {
            assert(k.core.ktimer_of[j as int] is Some);
        }
        lemma_refreshed_threads(queued);
        let refreshed = queued.refreshed();
        lemma_same_threads_settled(queued, refreshed);
        lemma_wait_programmed_threads(refreshed);
        lemma_same_threads_settled(refreshed, r);
        lemma_only_wakes_twice(k.core, queued.core, r.core);
    }
}

/// Changing a deadline leaves the scheduler settled, unless a deadline was missed.
pub proof fn lemma_deadline_set_settled(k: KernelView, i: usize, deadline_at: u64)
    requires
        k.settled(),
        k.deadline_set(i, deadline_at).core.fault is None,
    ensures
        k.deadline_set(i, deadline_at).settled(),
        k.core.lives_on(k.deadline_set(i, deadline_at).core),
{
    lemma_deadline_set_threads(k, i, deadline_at);
    lemma_same_threads_settled(k, k.deadline_set(i, deadline_at));
}

/// Threads stay placed when the selected one makes room for another one.
///
/// The one that makes room becomes ready unless it waits; a fair thread may rejoin
/// the run queue. The other one leaves the run queue.
proof fn lemma_handed_over_placed(core: CoreView, r: CoreView, next: usize)
    requires
        core.placed(),
        next < core.ctx.len(),
        !(core.ctx[next as int].state is Waiting),
        core.current is Some ==> core.current->0 < core.ctx.len(),
        r.current == Some(next),
        r.waiting == core.waiting,
        r.ctx.len() == core.ctx.len(),
        r.ctx[next as int] == (crate::thread::ThreadCtx {
            state: ThreadState::Running,
            ..core.ctx[next as int]
        }),
        core.current is Some && core.current->0 != next ==> r.ctx[core.current->0 as int] == (
        crate::thread::ThreadCtx {
            state: if core.ctx[core.current->0 as int].state is Waiting {
                ThreadState::Waiting
            } else {
                ThreadState::Ready
            },
            ..core.ctx[core.current->0 as int]
        }),
        forall|j: usize|
            j < core.ctx.len() && j != next && core.current != Some(j) ==> #[trigger] r.ctx[j as int]
                == core.ctx[j as int],
        forall|j: usize| #[trigger]
            r.run.contains(j) ==> j != next && (core.run.contains(j) || (core.current == Some(j)
                && !(core.ctx[j as int].state is Waiting))),
    ensures
        r.placed(),
        core.lives_on(r),
{
    assert forall|j: usize| #[trigger] r.run.contains(j) implies j < r.ctx.len()
        && r.ctx[j as int].state is Ready by {
        if core.run.contains(j) {
            assert(core.ctx[j as int].state is Ready);
        }
    }
    assert forall|j: usize| #[trigger] r.waiting.contains(j) implies j < r.ctx.len()
        && r.ctx[j as int].state is Waiting by {
        assert(core.waiting.contains(j));
    }
    assert forall|j: usize|
        j < r.ctx.len() && (#[trigger] r.ctx[j as int]).state is Waiting implies r.waiting.contains(
        j,
    ) by {
        assert(core.ctx[j as int].state is Waiting);
    }
    assert forall|j: usize|
        j < r.ctx.len() && (#[trigger] r.ctx[j as int]).state is Running implies r.current == Some(
        j,
    ) by {
        if j != next && core.current != Some(j) {
            assert(core.ctx[j as int].state is Running);
        }
    }
}

/// The turn of the fair class leaves threads placed.
proof fn lemma_cfs_selected_placed(core: CoreView)
    requires
        core.ok(),
        core.placed(),
        core.current_is_cfs ==> core.current is Some,
        core.current is Some ==> !core.run.contains(core.current->0),
        core.idle is Some && (core.run == Set::<usize>::empty() || core.window_closed()) ==> !(
        core.ctx[core.idle->0 as int].state is Waiting),
    ensures
        core.cfs_selected().placed(),
        core.lives_on(core.cfs_selected()),
{
    let r = core.cfs_selected();
    if core.window_closed() {
        lemma_handed_over_placed(core, r, core.idle->0);
    } else if let Some(next) = core.first_run() {
        let f = choose|f: usize| crate::rbtree::is_first::<SchedEntity>(core.sched, core.run, f);
        assert(crate::rbtree::is_first::<SchedEntity>(core.sched, core.run, f));
        assert(core.run.contains(next));
        if r.current == Some(next) {
            lemma_handed_over_placed(core, r, next);
        }
    } else {
        if core.run != Set::<usize>::empty() {
            crate::rbtree::lemma_first_exists::<SchedEntity>(core.sched, core.run);
        }
        if core.current is None || !core.current_is_cfs
            || core.ctx[core.current->0 as int].state is Waiting {
            if let Some(idle) = core.idle {
                lemma_handed_over_placed(core, r, idle);
            }
        }
    }
}

/// In a settled scheduler a context switch is always possible: whatever a queued
/// timer selects can run, as long as the idle thread does not wait and the thread
/// that ran has either kept running or started to wait.
pub proof fn lemma_queued_timer_selectable(k: KernelView, t: usize, elapsed: u32)
    requires
        k.ok(),
        k.settled(),
        k.queued.contains(t),
        k.core.timer_owner[t as int] is Some
            ==> k.core.ktimer_of[k.core.timer_owner[t as int]->0 as int] == Some(t),
        k.core.current is Some,
        !(k.core.ctx[k.core.current->0 as int].state is Ready),
        k.core.idle is Some ==> !(k.core.ctx[k.core.idle->0 as int].state is Waiting),
        k.core.charge_fits(elapsed),
    ensures
        k.core.selectable(Some(t), elapsed),
{
    let c = k.core.current->0;
    if k.core.run.contains(c) {
        assert(k.core.ctx[c as int].state is Ready);
    }
    if let Some(i) = k.core.timer_owner[t as int] {
        assert(i < k.core.ctx.len());
        if k.core.ctx[i as int].state is Waiting {
            assert(k.core.waiting.contains(i));
        }
    }
}

/// A context switch leaves the scheduler settled. In particular, at most one thread
/// runs: the selected one. A waiting thread is never made to run.
pub proof fn lemma_scheduled_settled(k: KernelView, elapsed: u32)
    requires
        k.ok(),
        k.settled(),
        k.core.selectable(k.core.next_ktimer, elapsed),
    ensures
        k.scheduled(elapsed).settled(),
        k.core.lives_on(k.scheduled(elapsed).core),
{
    let core = k.core;
    let charged = core.current_charged(elapsed);
    let s = core.selected(core.next_ktimer, elapsed);
    let r = k.scheduled(elapsed);
    if let Some(t) = core.next_ktimer {
        lemma_charged_placed(core, elapsed);
        if t == CFS_KTIMER {
            lemma_cfs_selected_placed(charged);
        } else if let Some(next) = core.timer_owner[t as int] {
            assert(core.timer_owner[t as int] is Some);
            assert(!core.run.contains(next));
            lemma_handed_over_placed(charged, s, next);
        }
    }
    assert(s.placed());
    lemma_same_threads_placed(s, r.core);
    assert(r.core.ktimer_of == core.ktimer_of);
    assert forall|j: usize|
        j < r.core.ctx.len() && (#[trigger] r.core.ktimer_of[j as int]) is Some implies {
        let s = r.core.ktimer_of[j as int]->0;
        &&& s >= 2
        &&& r.core.timer_owner[s as int] == Some(j)
        &&& r.queued.contains(s) == !r.core.waiting.contains(j)
    } by {
        assert(core.ktimer_of[j as int] is Some);
    }
    assert forall|j: usize| j < core.ctx.len() implies {
        let state = (#[trigger] r.core.ctx[j as int]).state;
        &&& core.ctx[j as int].state.allows(state)
        &&& r.core.ctx[j as int] == crate::thread::ThreadCtx { state, ..core.ctx[j as int] }
    } by {
        assert(s.ctx[j as int] == r.core.ctx[j as int]);
        assert(charged.ctx[j as int] == core.ctx[j as int]);
    }
}

/// Charging the running thread for its time moves no thread.
proof fn lemma_charged_placed(core: CoreView, elapsed: u32)
    requires
        core.ok(),
        core.current_is_cfs ==> core.current is Some,
        core.placed(),
    ensures
        core.current_charged(elapsed).ok(),
        core.current_charged(elapsed).placed(),
{
    let r = core.current_charged(elapsed);
    lemma_same_threads_placed(core, CoreView { sched: core.sched, ..r });
    assert forall|j: usize| j < r.ctx.len() && (#[trigger] r.ctx[j as int]).is_cfs implies
        r.sched[j as int].priority != 0 by {
        assert(core.ctx[j as int].is_cfs);
    }
}

/// The first thread that runs leaves the scheduler settled.
pub proof fn lemma_main_started_settled(k: KernelView, i: usize)
    requires
        k.ok(),
        k.settled(),
        k.core.current is None,
        i < k.core.ctx.len(),
        k.core.ctx[i as int].state is Ready,
        k.core.idle == Some(i) ==> !k.core.run.contains(i),
    ensures
        k.with_core(k.core.main_started(i)).settled(),
        k.core.lives_on(k.core.main_started(i)),
{
    let r = k.with_core(k.core.main_started(i));
    lemma_handed_over_placed(k.core, r.core, i);
    assert forall|j: usize|
        j < r.core.ctx.len() && (#[trigger] r.core.ktimer_of[j as int]) is Some implies {
        let s = r.core.ktimer_of[j as int]->0;
        &&& s >= 2
        &&& r.core.timer_owner[s as int] == Some(j)
        &&& r.queued.contains(s) == !r.core.waiting.contains(j)
    } by {
        assert(k.core.ktimer_of[j as int] is Some);
    }
}

/// Threads stay placed when a new one joins that is ready.
proof fn lemma_joined_placed(core: CoreView, r: CoreView, ctx: crate::thread::ThreadCtx)
    requires
        core.placed(),
        ctx.state is Ready,
        r.ctx == core.ctx.push(ctx),
        r.waiting == core.waiting,
        r.current == core.current,
        r.run == core.run || r.run == core.run.insert(core.ctx.len() as usize),
        core.ctx.len() <= usize::MAX,
    ensures
        r.placed(),
{
    assert forall|j: usize| #[trigger] r.run.contains(j) implies j < r.ctx.len()
        && r.ctx[j as int].state is Ready by {
        if j != core.ctx.len() {
            assert(core.run.contains(j));
        }
    }
    assert forall|j: usize| #[trigger] r.waiting.contains(j) implies j < r.ctx.len()
        && r.ctx[j as int].state is Waiting by {
        assert(core.waiting.contains(j));
    }
    assert forall|j: usize|
        j < r.ctx.len() && (#[trigger] r.ctx[j as int]).state is Waiting implies r.waiting.contains(
        j,
    ) by {
        assert(core.ctx[j as int].state is Waiting);
    }
    assert forall|j: usize|
        j < r.ctx.len() && (#[trigger] r.ctx[j as int]).state is Running implies r.current == Some(
        j,
    ) by {
        assert(core.ctx[j as int].state is Running);
    }
}

/// A new fair thread leaves the scheduler settled.
pub proof fn lemma_cfs_forked_settled(
    k: KernelView,
    start: ThreadStart,
    words: int,
    base: usize,
    priority: u32,
)
    requires
        k.ok(),
        k.settled(),
        k.core.ctx.len() <= usize::MAX,
    ensures
        k.forked::<CfsThread>(start, words, base, priority).settled(),
{
    let r = k.forked::<CfsThread>(start, words, base, priority);
    let ctx = k.new_context(start, words, base, true);
    let id_taken = k.id_taken();
    assert(r.core.ctx =~= k.core.ctx.push(ctx));
    lemma_joined_placed(k.core, r.core, ctx);
    assert forall|j: usize|
        j < r.core.ctx.len() && (#[trigger] r.core.ktimer_of[j as int]) is Some implies {
        let s = r.core.ktimer_of[j as int]->0;
        &&& s >= 2
        &&& r.core.timer_owner[s as int] == Some(j)
        &&& r.queued.contains(s) == !r.core.waiting.contains(j)
    } by {
        if j < k.core.ctx.len() {
            assert(k.core.ktimer_of[j as int] is Some);
        }
    }
}

/// A new real-time thread leaves the scheduler settled, unless a deadline was
/// missed.
pub proof fn lemma_rt_forked_settled(
    k: KernelView,
    start: ThreadStart,
    words: int,
    base: usize,
    timer: crate::ktimer::RtKTimer,
)
    requires
        k.ok(),
        k.settled(),
        k.core.ctx.len() <= usize::MAX,
        k.core.timers.len() <= usize::MAX,
        k.forked::<RtThread>(start, words, base, timer).core.fault is None,
    ensures
        k.forked::<RtThread>(start, words, base, timer).settled(),
{
    let ctx = k.new_context(start, words, base, false);
    let slot = k.core.ctx.len() as usize;
    let t = k.core.timers.len() as usize;
    let id_taken = k.id_taken();
    let joined = id_taken.with_core(
        id_taken.core.thread_added(ctx, SchedEntity::fresh(0)).timer_created(timer).timer_bound(
            t,
            slot,
        ),
    ).enqueued(t);
    lemma_joined_placed(k.core, joined.core, ctx);
    assert forall|j: usize|
        j < joined.core.ctx.len() && (#[trigger] joined.core.ktimer_of[j as int]) is Some implies {
        let s = joined.core.ktimer_of[j as int]->0;
        &&& s >= 2
        &&& joined.core.timer_owner[s as int] == Some(j)
        &&& joined.queued.contains(s) == !joined.core.waiting.contains(j)
    } by {
        if j < k.core.ctx.len() {
            assert(k.core.ktimer_of[j as int] is Some);
        }
    }
    lemma_refreshed_threads(joined);
    lemma_same_threads_settled(joined, joined.refreshed());
}

/// A take leaves the scheduler settled, unless a deadline was missed.
pub proof fn lemma_taken_settled(
    semaphore: SemaphoreView,
    k: KernelView,
    kind: SyncType,
    elapsed: u32,
)
    requires
        k.settled(),
        semaphore.tokens == 0 ==> k.can_block_on(semaphore.waiters),
        semaphore.taken(k, kind, elapsed).2 is Ok,
    ensures
        semaphore.taken(k, kind, elapsed).1.settled(),
        k.core.lives_on(semaphore.taken(k, kind, elapsed).1.core),
{
    if semaphore.tokens == 0 {
        lemma_blocked_settled(k, kind, elapsed);
    }
}

/// A give leaves the scheduler settled, unless a deadline was missed.
pub proof fn lemma_given_settled(semaphore: SemaphoreView, k: KernelView)
    requires
        k.settled(),
        k.can_wake(semaphore.waiters),
        semaphore.given(k).2 is Ok,
    ensures
        semaphore.given(k).1.settled(),
        k.core.only_wakes(semaphore.given(k).1.core),
{
    if let Some(i) = k.core.first_waiter(semaphore.waiters) {
        lemma_waiter_woken_settled(k, i);
        let woken = k.waiter_woken(i).0;
        lemma_same_threads_settled(woken, woken.switch_requested());
    }
}

/// A lock leaves the scheduler settled, unless a deadline was missed.
pub proof fn lemma_locked_settled(mutex: MutexView, k: KernelView, elapsed: u32)
    requires
        k.settled(),
        mutex.owner is Some && mutex.owner != k.core.current ==> k.can_block_on(mutex.waiters),
        mutex.locked(k, elapsed).2 is Ok,
    ensures
        mutex.locked(k, elapsed).1.settled(),
        k.core.lives_on(mutex.locked(k, elapsed).1.core),
{
    if mutex.owner is Some && mutex.owner != k.core.current && k.core.current is Some {
        lemma_blocked_settled(k, SyncType::Mutex, elapsed);
        let (b, result) = k.blocked_on(SyncType::Mutex, elapsed);
        let r = mutex.locked(k, elapsed).1;
        let deadline_at = result->Ok_0;
        let earliest = b.earliest_deadline();
        let boost = if deadline_at <= earliest {
            deadline_at
        } else {
            earliest
        };
        lemma_deadline_set_threads(b, mutex.owner->0, boost);
        lemma_same_threads_settled(b, r);
    }
}

/// An unlock leaves the scheduler settled, unless a deadline was missed.
pub proof fn lemma_released_settled(mutex: MutexView, k: KernelView)
    requires
        k.steady(),
        k.settled(),
        mutex.owner == k.core.current ==> k.can_wake(mutex.waiters),
        mutex.owner is Some ==> mutex.owner->0 < k.core.ctx.len(),
        mutex.released(k).2 is Ok,
    ensures
        mutex.released(k).1.settled(),
        k.core.only_wakes(mutex.released(k).1.core),
{
    if mutex.owner == k.core.current {
        let (m, restored) = mutex.restored(k);
        if mutex.boosted && mutex.owner is Some {
            let owner = mutex.owner->0;
            lemma_deadline_set_threads(k, owner, mutex.original_deadline_at);
            lemma_deadline_set_steady(k, owner, mutex.original_deadline_at);
        }
        lemma_same_threads_settled(k, restored);
        if let Some(i) = restored.core.first_waiter(m.waiters) {
            assert(k.core.first_waiter(mutex.waiters) == Some(i));
            lemma_waiter_woken_settled(restored, i);
            let woken = restored.waiter_woken(i).0;
            lemma_same_threads_settled(woken, woken.switch_requested());
            lemma_only_wakes_twice(k.core, restored.core, woken.core);
        }
    }
}

/// Changing a deadline keeps the scheduler running, unless a deadline was missed.
pub proof fn lemma_deadline_set_steady(k: KernelView, i: usize, deadline_at: u64)
    requires
        k.steady(),
        i < k.core.ctx.len(),
    ensures
        k.deadline_set(i, deadline_at).core.fault is None ==> k.deadline_set(
            i,
            deadline_at,
        ).steady(),
{
    if let Some(t) = k.core.scheduler_timer(i) {
        if t != CFS_KTIMER {
            assert(k.core.ktimer_of[i as int] == Some(t));
        }
        let timer = crate::ktimer::KTimerEntity { deadline_at, ..k.core.timers[t as int] };
        let set = k.with_core(k.core.with_timer(t, timer));
        assert(set.owned()) by {
            assert forall|s: usize| #[trigger] set.queued.contains(s) && s >= 2 implies
                set.core.timer_owner[s as int] is Some by {
                assert(k.queued.contains(s));
            }
        }
        crate::timers::lemma_refreshed(set);
    }
}

impl KernelView {
    /// The threads that go on waiting: their time has not come yet.
    pub open spec fn not_due(self) -> Set<usize> {
        self.core.waiting.filter(|i: usize| !self.core.wait[i as int].expired(self.now))
    }
}

/// Unless the first waiting thread must wake, none must.
proof fn lemma_none_due(k: KernelView)
    requires
        !k.has_due_waiter(),
    ensures
        k.not_due() == k.core.waiting,
{
    if k.core.waiting != Set::<usize>::empty() {
        crate::rbtree::lemma_first_exists::<crate::waitq::WaitEntity>(k.core.wait, k.core.waiting);
        let first = k.core.first_wait()->0;
        assert forall|i: usize| k.core.waiting.contains(i) implies !k.core.wait[i as int].expired(
            k.now,
        ) by {
            if i != first {
                assert(crate::rbtree::before::<crate::waitq::WaitEntity>(k.core.wait, first, i));
            }
        }
    }
    assert(k.not_due() =~= k.core.waiting);
}

/// Exactly the due threads are woken.
proof fn lemma_woken_all_exact(k: KernelView, elapsed: u32)
    requires
        k.ok(),
        k.core.waiting.finite(),
    ensures
        k.woken_all(elapsed).core.waiting == k.not_due(),
    decreases k.core.waiting.len(),
{
    if k.has_due_waiter() {
        let i = k.core.first_wait()->0;
        crate::dispatch::lemma_woken_shrinks(k, i, elapsed);
        crate::dispatch::lemma_woken(k, i, elapsed);
        let w = k.woken(i, elapsed);
        lemma_woken_all_exact(w, elapsed);
        assert(w.not_due() =~= k.not_due());
    } else {
        lemma_none_due(k);
    }
}

/// The dispatch of all expired timers wakes exactly the threads whose time has come,
/// unless a deadline was missed, and sets the wait timer for the others.
pub proof fn lemma_dispatched_wakes_due(k: KernelView, elapsed: u32)
    requires
        k.dispatchable(),
        k.settled(),
        k.wait_timer_set(),
        k.core.fault is None,
    ensures
        k.dispatched(elapsed).core.fault is None ==> {
            &&& k.dispatched(elapsed).core.waiting == k.not_due()
            &&& k.dispatched(elapsed).core.wait == k.core.wait
            &&& k.dispatched(elapsed).wait_timer_set()
        },
    decreases k.core.waiting.len(), k.closing(), k.expired_ids().len(),
{
    if k.due() {
        let t = k.first()->0;
        let f = choose|f: usize|
            crate::rbtree::is_first::<crate::ktimer::KTimerEntity>(k.core.timers, k.queued, f);
        assert(crate::rbtree::is_first::<crate::ktimer::KTimerEntity>(k.core.timers, k.queued, f));
        assert(k.queued.contains(t));
        crate::dispatch::lemma_dispatch_progress(k, elapsed);
        lemma_dispatched_first_settled(k, elapsed);
        let r = k.dispatched_first(elapsed);
        if r.core.fault is None {
            crate::dispatch::lemma_dispatchable_kept(k, elapsed);
            if t == WAIT_KTIMER {
                let d = k.dequeued(t);
                crate::dispatch::lemma_woken_all(d, elapsed);
                lemma_woken_all_exact(d, elapsed);
                assert(d.not_due() =~= k.not_due());
                assert(r.not_due() =~= k.not_due());
            } else {
                assert(r.core.waiting == k.core.waiting);
                assert(r.core.wait == k.core.wait);
                assert(r.not_due() =~= k.not_due());
                assert(r.queued.contains(WAIT_KTIMER));
            }
            assert(r.wait_timer_set());
            lemma_dispatched_wakes_due(r, elapsed);
        }
    } else {
        crate::rbtree::lemma_first_exists::<crate::ktimer::KTimerEntity>(k.core.timers, k.queued);
        let first = k.first()->0;
        if first != WAIT_KTIMER {
            assert(crate::rbtree::before::<crate::ktimer::KTimerEntity>(
                k.core.timers,
                first,
                WAIT_KTIMER,
            ));
        }
        assert(!k.has_due_waiter());
        lemma_none_due(k);
    }
}

/// A tick wakes exactly the threads whose time has come, unless a deadline was
/// missed.
pub proof fn lemma_tick_wakes_due(k: KernelView, elapsed: u32)
    requires
        (KernelView { now: k.now.saturating_add(elapsed as u64), ..k }).dispatchable(),
        k.settled(),
        k.wait_timer_set(),
        k.core.fault is None,
        k.ticked(elapsed).core.fault is None,
    ensures
        ({
            let later = KernelView { now: k.now.saturating_add(elapsed as u64), ..k };
            &&& k.ticked(elapsed).core.waiting == later.not_due()
            &&& k.ticked(elapsed).wait_timer_set()
        }),
{
    let later = KernelView { now: k.now.saturating_add(elapsed as u64), ..k };
    lemma_same_threads_settled(k, later);
    lemma_dispatched_wakes_due(later, elapsed);
    lemma_dispatched_settled(later, elapsed);
}

/// A thread that sleeps is woken by the first tick that is at least as late as the
/// requested time, and by none before.
pub proof fn lemma_sleep_lasts(
    k: KernelView,
    msec: u32,
    elapsed: u32,
    later: KernelView,
    tick: u32,
)
    requires
        k.can_block(),
        k.settled(),
        k.core.current_is_cfs || k.core.ktimer_of[k.core.current->0 as int] is Some,
        k.slept(msec, elapsed).core.fault is None,
        later.core.waiting.contains(k.core.current->0),
        later.core.wait[k.core.current->0 as int] == k.slept(
            msec,
            elapsed,
        ).core.wait[k.core.current->0 as int],
        (KernelView { now: later.now.saturating_add(tick as u64), ..later }).dispatchable(),
        later.settled(),
        later.wait_timer_set(),
        later.core.fault is None,
        later.ticked(tick).core.fault is None,
    ensures
        ({
            let ticks = crate::current::saturating_product(msec, k.core.clock.ticks());
            let wake_at = k.now.saturating_add(elapsed as u64).saturating_add(ticks as u64);
            later.ticked(tick).core.waiting.contains(k.core.current->0) == (
            later.now.saturating_add(tick as u64) < wake_at)
        }),
{
    let i = k.core.current->0;
    lemma_slept_settled(k, msec, elapsed);
    lemma_tick_wakes_due(later, tick);
    let ended = match k.core.scheduler_timer(i) {
        None => k,
        Some(t) => {
            lemma_turn_yielded_threads(k, t, elapsed, false);
            k.turn_yielded(t, elapsed, false).0
        },
    };
    assert(ended.now == k.now.saturating_add(elapsed as u64));
    let ticks = crate::current::saturating_product(msec, k.core.clock.ticks());
    let entity = crate::waitq::WaitEntity {
        wake_at: ended.now.saturating_add(ticks as u64),
        waitevt: 0,
        ..ended.core.wait[i as int]
    };
    let waiting = ended.with_core(ended.core.with_wait(i, entity));
    lemma_parked_wait(waiting, i);
    assert(k.slept(msec, elapsed).core.wait[i as int].wake_at == entity.wake_at);
}

/// A thread that starts to wait keeps its wake-up time.
proof fn lemma_parked_wait(k: KernelView, i: usize)
    ensures
        k.cfs_parked(i).0.core.wait == k.core.wait,
        k.rt_parked(i).0.core.wait == k.core.wait,
{
    let left = CoreView {
        run: if k.core.ctx[i as int].state is Ready {
            k.core.run.remove(i)
        } else {
            k.core.run
        },
        priority_sum: k.core.priority_sum.saturating_sub(k.core.sched[i as int].priority),
        ..k.core
    };
    lemma_wait_programmed_threads(
        k.with_core(left.with_state(i, ThreadState::Waiting).waiting_with(i)),
    );
    let t = k.core.ktimer_of[i as int]->0;
    let d = k.dequeued(t);
    lemma_refreshed_threads(
        d.with_core(d.core.with_timer(t, d.core.timers[t as int].with_active(false))),
    );
    let removed = k.timer_removed(t);
    lemma_wait_programmed_threads(
        removed.with_core(removed.core.with_state(i, ThreadState::Waiting).waiting_with(i)),
    );
}

} // verus!
