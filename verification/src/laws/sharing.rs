//! Laws of semaphores and mutexes.

use crate::kernel::{CoreView, KernelView};
use crate::ktimer::{KTimerEntity, CFS_KTIMER, WAIT_KTIMER};
use crate::laws::fair::has_joined;
use crate::laws::timing::{decides, has_timers, lemma_next_timer_decides};
use crate::laws::waiting::{
    current_has_timer, lemma_block, lemma_same_timers, lemma_wait_timer_follows, starts_waiting, wait_timer_is_set,
};
use crate::sync::{MutexError, MutexView, SemaphoreError, SemaphoreView, SyncType};
use crate::thread::{ThreadCtx, ThreadState};
use vstd::prelude::*;

verus! {

/// Thread `i`, which waited, competes again. A fair thread is runnable, level with the
/// others. The timer of a real-time thread is queued and active, with the deadline that
/// it had, or with a new one if that had passed. The timer that decides the dispatch has
/// no later deadline than any that competes.
pub open spec fn competes_again(k: KernelView, r: KernelView, i: usize) -> bool {
    &&& r.core.ctx == k.core.ctx.update(
        i as int,
        ThreadCtx { state: ThreadState::Ready, ..k.core.ctx[i as int] },
    )
    &&& r.core.waiting == k.core.waiting.remove(i)
    &&& r.now == k.now
    &&& r.core.current == k.core.current
    &&& r.core.ktimer_of == k.core.ktimer_of
    &&& r.core.next_ktimer is Some
    &&& decides(r, r.core.next_ktimer->0)
    &&& wait_timer_is_set(r)
    &&& if k.core.ctx[i as int].is_cfs {
        has_joined(k.core, r.core, i)
    } else {
        let t = k.core.ktimer_of[i as int]->0;
        let was = k.core.timers[t as int];
        let after = r.core.timers[t as int];
        &&& k.core.ktimer_of[i as int] is Some
        &&& r.queued.contains(t)
        &&& after.active
        &&& was.deadline_at > k.now ==> after == (KTimerEntity { active: true, ..was })
        &&& r.core.timers[r.core.next_ktimer->0 as int].deadline_at <= after.deadline_at
        &&& r.core.run == k.core.run
        &&& r.core.sched == k.core.sched
    }
}

/// Timers of other threads whose deadline is ahead are the same in both states.
pub open spec fn keeps_other_timers(k: KernelView, r: KernelView, i: usize) -> bool {
    &&& forall|s: usize|
        2 <= s < k.core.timers.len() && (k.core.ctx[i as int].is_cfs || k.core.ktimer_of[i as int]
            != Some(s)) && k.core.timers[s as int].deadline_at > k.now
            ==> #[trigger] r.core.timers[s as int] == k.core.timers[s as int]
    &&& k.core.timers[CFS_KTIMER as int].deadline_at > k.now
        ==> r.core.timers[CFS_KTIMER as int].deadline_at
        == k.core.timers[CFS_KTIMER as int].deadline_at
}

/// A thread that is woken from an event competes again.
pub proof fn lemma_woken_waiter_competes(k: KernelView, i: usize)
    requires
        k.steady(),
        k.core.waiting.contains(i),
        k.waiter_woken(i).1 is Ok,
    ensures
        competes_again(k, k.waiter_woken(i).0, i),
        keeps_other_timers(k, k.waiter_woken(i).0, i),
{
    let r = k.waiter_woken(i).0;
    if k.core.ctx[i as int].is_cfs {
        let left = k.core.waiting_without(i);
        let core = CoreView { trace: left.trace.wakeup(left.ctx[i as int]), ..left };
        let ready = k.with_core(core.rejoined(i));
        assert(ready.core.timers == k.core.timers);
        lemma_wait_timer_follows(ready);
        crate::laws::fair::lemma_waiter_rejoins_level(k, i);
    } else {
        let t = k.core.ktimer_of[i as int]->0;
        assert(k.core.ktimer_of[i as int] is Some);
        let ready = k.core.waiting_without(i).with_state(i, ThreadState::Ready);
        let traced = k.with_core(
            CoreView { trace: ready.trace.wakeup(ready.ctx[i as int]), ..ready },
        );
        let queued = traced.with_core(
            traced.core.with_timer(t, traced.core.timers[t as int].with_active(true)),
        ).enqueued(t);
        assert(has_timers(queued));
        lemma_next_timer_decides(queued);
        crate::lifecycle::lemma_refreshed_threads(queued);
        let refreshed = queued.refreshed();
        lemma_wait_timer_follows(refreshed);
        assert(r == refreshed.wait_programmed());
        assert(queued.queued.contains(t));
        assert(refreshed.queued.contains(t));
        assert(r.queued.contains(t));
        assert(refreshed.core.timers[t as int].active);
        assert(r.core.timers[t as int].active);
        if k.core.timers[t as int].deadline_at > k.now {
            assert(refreshed.core.timers[t as int] == queued.core.timers[t as int]);
            assert(r.core.timers[t as int] == refreshed.core.timers[t as int]);
        }
        assert forall|s: usize|
            2 <= s < k.core.timers.len() && s != t && k.core.timers[s as int].deadline_at
                > k.now implies #[trigger] r.core.timers[s as int] == k.core.timers[s as int] by {
            assert(queued.core.timers[s as int] == k.core.timers[s as int]);
            assert(refreshed.core.timers[s as int] == k.core.timers[s as int]);
        }
    }
}

/// Of the given threads that still wait, the one in the slot has the earliest deadline.
pub open spec fn is_most_urgent(core: CoreView, waiters: Set<usize>, i: usize) -> bool {
    &&& waiters.contains(i)
    &&& core.ctx[i as int].state is Waiting
    &&& forall|j: usize| #[trigger]
        waiters.contains(j) && core.ctx[j as int].state is Waiting
            ==> core.sync[i as int].deadline_at <= core.sync[j as int].deadline_at
}

/// Thread `i` has left the queue of an object; the others that still wait have not.
pub open spec fn leaves_queue(
    core: CoreView,
    waiters: Set<usize>,
    left: Set<usize>,
    i: usize,
) -> bool {
    &&& !left.contains(i)
    &&& forall|j: usize| #[trigger]
        waiters.contains(j) && j != i && core.ctx[j as int].state is Waiting ==> left.contains(j)
    &&& left.subset_of(waiters)
}

/// A give wakes the waiter with the earliest deadline, which gets the token and competes
/// again; a context switch is requested.
pub proof fn lemma_give_wakes_most_urgent(semaphore: SemaphoreView, k: KernelView)
    requires
        k.steady(),
        k.can_wake(semaphore.waiters),
        exists|j: usize| #[trigger]
            semaphore.waiters.contains(j) && k.core.ctx[j as int].state is Waiting,
        semaphore.given(k).2 is Ok,
    ensures
        ({
            let (given, r, _) = semaphore.given(k);
            exists|i: usize| #[trigger]
                is_most_urgent(k.core, semaphore.waiters, i) && competes_again(k, r, i)
                    && keeps_other_timers(k, r, i) && leaves_queue(
                    k.core,
                    semaphore.waiters,
                    given.waiters,
                    i,
                ) && given.tokens == semaphore.tokens && given.max == semaphore.max
                    && r.core.switch_pending
        }),
{
    crate::sync::lemma_earliest_waiter_first(k.core, semaphore.waiters);
    let i = k.core.first_waiter(semaphore.waiters)->0;
    lemma_woken_waiter_competes(k, i);
    let w = k.waiter_woken(i).0;
    let r = semaphore.given(k).1;
    assert(r == w.switch_requested());
    lemma_same_timers(w, r);
    assert(is_most_urgent(k.core, semaphore.waiters, i));
    assert(competes_again(k, r, i));
    assert(keeps_other_timers(k, r, i));
}

/// Without a thread that waits for it, a token is stored, as long as there is room. The
/// scheduler is left alone.
pub proof fn lemma_give_stores_token(semaphore: SemaphoreView, k: KernelView)
    requires
        forall|j: usize| #[trigger]
            semaphore.waiters.contains(j) ==> !(k.core.ctx[j as int].state is Waiting),
    ensures
        semaphore.given(k).1 == k,
        semaphore.tokens < semaphore.max ==> semaphore.given(k).2 is Ok
            && semaphore.given(k).0.tokens == semaphore.tokens + 1,
        semaphore.tokens >= semaphore.max ==> semaphore.given(k).2 == Err::<(), SemaphoreError>(
            SemaphoreError::Full,
        ) && semaphore.given(k).0.tokens == semaphore.tokens,
        semaphore.given(k).0.max == semaphore.max,
{
    crate::sync::lemma_earliest_waiter_first(k.core, semaphore.waiters);
}

/// A take consumes a token if there is one and leaves the scheduler alone. Otherwise the
/// current thread blocks: it waits for the event and queues for the semaphore with the
/// deadline by which it competed.
pub proof fn lemma_take(semaphore: SemaphoreView, k: KernelView, kind: SyncType, elapsed: u32)
    requires
        semaphore.tokens == 0 && k.core.current is Some ==> k.can_block() && current_has_timer(k),
        k.now + elapsed + u32::MAX <= u64::MAX,
    ensures
        ({
            let (taken, r, result) = semaphore.taken(k, kind, elapsed);
            let i = k.core.current->0;
            &&& semaphore.tokens > 0 ==> result is Ok && taken.tokens == semaphore.tokens - 1
                && taken.waiters == semaphore.waiters && r == k
            &&& semaphore.tokens == 0 && k.core.current is None ==> result == Err::<
                (),
                SemaphoreError,
            >(SemaphoreError::NoCurrentThread) && taken == semaphore && r == k
            &&& semaphore.tokens == 0 && k.core.current is Some && result is Ok ==> {
                &&& taken.tokens == 0
                &&& taken.waiters == semaphore.waiters.insert(i)
                &&& starts_waiting(k, r, i)
                &&& r.core.wait[i as int].wake_at == u64::MAX
                &&& r.core.wait[i as int].waitevt == kind.tag()
                &&& r.core.sync[i as int].deadline_at == k.core.timers[(
                if k.core.ctx[i as int].is_cfs {
                    CFS_KTIMER
                } else {
                    k.core.ktimer_of[i as int]->0
                }) as int].deadline_at
                &&& r.core.switch_pending
            }
            &&& taken.max == semaphore.max
        }),
{
    if semaphore.tokens == 0 && k.core.current is Some && semaphore.taken(k, kind, elapsed).2 is Ok {
        lemma_block(k, kind, elapsed);
    }
}

/// A real-time thread without a timer cannot block: it goes on, queues for nothing, and is
/// told so.
pub proof fn lemma_no_timer_no_block(
    semaphore: SemaphoreView,
    k: KernelView,
    kind: SyncType,
    elapsed: u32,
)
    requires
        semaphore.tokens == 0,
        k.core.current is Some,
        !k.core.current_is_cfs,
        !k.core.ctx[k.core.current->0 as int].is_cfs,
        k.core.ktimer_of[k.core.current->0 as int] is None,
    ensures
        ({
            let (taken, r, result) = semaphore.taken(k, kind, elapsed);
            &&& result == Err::<(), SemaphoreError>(
                SemaphoreError::WaitQueue(crate::waitq::WaitQueueError::NotFound),
            )
            &&& taken == semaphore
            &&& r.core.ctx == k.core.ctx
            &&& r.core.waiting == k.core.waiting
            &&& r.core.run == k.core.run
            &&& r.core.timers == k.core.timers
            &&& r.core.switch_pending == k.core.switch_pending
            &&& r.queued == k.queued
            &&& r.now == k.now
        }),
{
}

/// The timer by which a thread competes.
pub open spec fn timer_of(core: CoreView, i: usize) -> usize {
    if core.ctx[i as int].is_cfs {
        CFS_KTIMER
    } else {
        core.ktimer_of[i as int]->0
    }
}

/// The thread competes by a timer: the fair ones share one, a real-time thread has its
/// own.
pub open spec fn has_timer(core: CoreView, i: usize) -> bool {
    i < core.ctx.len() && (core.ctx[i as int].is_cfs || core.ktimer_of[i as int] is Some)
}

/// Deadline by which a thread competes.
pub open spec fn deadline_of(core: CoreView, i: usize) -> u64 {
    core.timers[timer_of(core, i) as int].deadline_at
}

/// A thread competes by the deadline that it is given. One that has passed may be replaced
/// at once by that of the next job or period. Other timers whose deadline is ahead stay as
/// they are.
pub proof fn lemma_deadline_moves(k: KernelView, i: usize, deadline_at: u64)
    requires
        has_timers(k),
        k.core.fault is None,
        has_timer(k.core, i),
        timer_of(k.core, i) < k.core.timers.len(),
        timer_of(k.core, i) != WAIT_KTIMER,
        k.deadline_set(i, deadline_at).core.fault is None,
    ensures
        ({
            let r = k.deadline_set(i, deadline_at);
            let t = timer_of(k.core, i);
            let timing = k.core.timers[t as int].timing;
            let rest = if t == CFS_KTIMER {
                timing.period_ticks
            } else {
                timing.relative_deadline_ticks
            };
            &&& deadline_at > k.now ==> deadline_of(r.core, i) == deadline_at
            &&& k.now + rest <= u64::MAX ==> deadline_of(r.core, i) == deadline_at || deadline_of(
                r.core,
                i,
            ) == k.now + rest
            &&& !k.queued.contains(t) && k.core.next_ktimer != Some(t) ==> deadline_of(r.core, i)
                == deadline_at
            &&& t >= 2 && deadline_at > k.now ==> r.core.timers[t as int] == (KTimerEntity {
                deadline_at,
                ..k.core.timers[t as int]
            })
            &&& r.core.timers.len() == k.core.timers.len()
            &&& r.now == k.now
            &&& r.core.switch_pending == k.core.switch_pending
            &&& k.core.same_threads(r.core)
            &&& has_timers(r)
            &&& k.queued.subset_of(r.queued)
            &&& forall|s: usize| s >= 1 && #[trigger] r.queued.contains(s) ==> k.queued.contains(s)
            &&& forall|s: usize|
                2 <= s < k.core.timers.len() && s != t && k.core.timers[s as int].deadline_at
                    > k.now ==> #[trigger] r.core.timers[s as int] == k.core.timers[s as int]
            &&& t != CFS_KTIMER && k.core.timers[CFS_KTIMER as int].deadline_at > k.now
                ==> r.core.timers[CFS_KTIMER as int].deadline_at
                == k.core.timers[CFS_KTIMER as int].deadline_at
            &&& k.core.next_ktimer is Some && decides(k, k.core.next_ktimer->0)
                ==> r.core.next_ktimer is Some && decides(r, r.core.next_ktimer->0)
        }),
{
    let t = timer_of(k.core, i);
    let r = k.deadline_set(i, deadline_at);
    if t != CFS_KTIMER {
        assert(k.core.ktimer_of[i as int] == Some(t));
    }
    let set = k.with_core(
        k.core.with_timer(t, KTimerEntity { deadline_at, ..k.core.timers[t as int] }),
    );
    crate::lifecycle::lemma_deadline_set_threads(k, i, deadline_at);
    assert(has_timers(set));
    if k.queued.contains(t) || k.core.next_ktimer == Some(t) {
        lemma_next_timer_decides(set);
        assert(r == set.refreshed());
        assert forall|s: usize|
            2 <= s < k.core.timers.len() && s != t && k.core.timers[s as int].deadline_at
                > k.now implies #[trigger] r.core.timers[s as int] == k.core.timers[s as int] by {
            assert(set.core.timers[s as int] == k.core.timers[s as int]);
        }
        assert(set.core.timers[t as int].deadline_at == deadline_at);
    } else if k.core.next_ktimer is Some && decides(k, k.core.next_ktimer->0) {
        let n = k.core.next_ktimer->0;
        assert(n != t);
        assert(r == set);
        assert forall|s: usize| #[trigger]
            r.queued.contains(s) && r.core.timers[s as int].active implies r.core.timers[n as int].deadline_at
            <= r.core.timers[s as int].deadline_at by {
            assert(k.queued.contains(s));
        }
        if !crate::laws::timing::competes(k, n) {
            assert forall|s: usize| #[trigger] r.queued.contains(s) implies !r.core.timers[s as int].active by {
                assert(k.queued.contains(s));
            }
        }
    }
}

/// Whatever is queued, other than the wait timer, expires after the given time.
pub open spec fn all_ahead(k: KernelView, time: int) -> bool {
    forall|s: usize| #[trigger]
        k.queued.contains(s) && s != WAIT_KTIMER ==> k.core.timers[s as int].deadline_at > time
}

/// The earliest deadline of all queued timers but the wait timer.
pub proof fn lemma_earliest_deadline(k: KernelView)
    ensures
        forall|s: usize| #[trigger]
            k.queued.contains(s) && s != WAIT_KTIMER ==> k.earliest_deadline()
                <= k.core.timers[s as int].deadline_at,
        k.earliest_deadline() == u64::MAX || exists|s: usize| #[trigger]
            k.queued.contains(s) && s != WAIT_KTIMER && k.earliest_deadline()
                == k.core.timers[s as int].deadline_at,
{
    let ids = k.queued.remove(WAIT_KTIMER);
    if ids == Set::<usize>::empty() {
        crate::rbtree::lemma_first_of_empty::<KTimerEntity>(k.core.timers, ids);
        assert forall|s: usize| #[trigger] k.queued.contains(s) && s != WAIT_KTIMER implies false by {
            assert(ids.contains(s));
        }
    } else {
        crate::rbtree::lemma_first_exists::<KTimerEntity>(k.core.timers, ids);
        let f = crate::rbtree::first_of::<KTimerEntity>(k.core.timers, ids)->0;
        assert(k.queued.contains(f));
        assert forall|s: usize| #[trigger] k.queued.contains(s) && s != WAIT_KTIMER implies k.earliest_deadline()
            <= k.core.timers[s as int].deadline_at by {
            assert(ids.contains(s));
            if s != f {
                assert(crate::rbtree::before::<KTimerEntity>(k.core.timers, f, s));
            }
        }
    }
}

/// A boost: the owner competes by the earliest of its own deadline, that of the waiter
/// and those in the queue. The deadline before the first boost is kept.
proof fn lemma_boost(mutex: MutexView, k: KernelView, owner: usize, waiter: usize, deadline_at: u64)
    requires
        has_timers(k),
        k.core.fault is None,
        has_timer(k.core, owner),
        timer_of(k.core, owner) < k.core.timers.len(),
        timer_of(k.core, owner) != WAIT_KTIMER,
        !(k.core.ctx[owner as int].is_cfs && k.core.ctx[waiter as int].is_cfs),
        deadline_at > k.now,
        all_ahead(k, k.now as int),
        mutex.boosted_by(k, owner, waiter, deadline_at).1.core.fault is None,
        k.core.next_ktimer is Some,
        decides(k, k.core.next_ktimer->0),
    ensures
        ({
            let (m, r) = mutex.boosted_by(k, owner, waiter, deadline_at);
            let before = deadline_of(k.core, owner);
            let after = deadline_of(r.core, owner);
            &&& after <= deadline_at
            &&& after <= before
            &&& forall|s: usize| #[trigger]
                k.queued.contains(s) && s != WAIT_KTIMER ==> after <= k.core.timers[s as int].deadline_at
            &&& after == before || after == deadline_at || exists|s: usize| #[trigger]
                k.queued.contains(s) && s != WAIT_KTIMER && after
                    == k.core.timers[s as int].deadline_at
            &&& m.owner == mutex.owner
            &&& m.waiters == mutex.waiters
            &&& m.boosted == (mutex.boosted || after < before)
            &&& mutex.boosted ==> m.original_deadline_at == mutex.original_deadline_at
            &&& !mutex.boosted && m.boosted ==> m.original_deadline_at == before
            &&& k.core.same_threads(r.core)
            &&& r.core.switch_pending == k.core.switch_pending
            &&& r.now == k.now
            &&& r.core.next_ktimer is Some
            &&& decides(r, r.core.next_ktimer->0)
            &&& k.queued.subset_of(r.queued)
            &&& forall|s: usize|
                2 <= s < k.core.timers.len() && s != timer_of(k.core, owner)
                    && k.core.timers[s as int].deadline_at > k.now
                    ==> #[trigger] r.core.timers[s as int] == k.core.timers[s as int]
        }),
{
    lemma_earliest_deadline(k);
    let earliest = k.earliest_deadline();
    let boost = if deadline_at <= earliest {
        deadline_at
    } else {
        earliest
    };
    if boost < deadline_of(k.core, owner) {
        lemma_deadline_moves(k, owner, boost);
    }
}

/// A lock that has to wait. The current thread waits for the mutex, and the owner stays
/// the owner.
///
/// The owner inherits urgency: it competes by a deadline that is not later than the one
/// by which the waiter competed, nor than any in the queue, however often it has been
/// boosted before. Its deadline before the first boost is kept. Fair threads, which share
/// one deadline, do not inherit it from each other. The timer that decides the dispatch
/// has no later deadline than any that competes, that of the owner included.
pub proof fn lemma_lock_inherits(mutex: MutexView, k: KernelView, elapsed: u32)
    requires
        k.can_block(),
        current_has_timer(k),
        mutex.owner is Some,
        mutex.owner != k.core.current,
        has_timer(k.core, mutex.owner->0),
        k.core.ctx[mutex.owner->0 as int].is_cfs && k.core.current_is_cfs || timer_of(
            k.core,
            mutex.owner->0,
        ) != timer_of(k.core, k.core.current->0),
        k.now + elapsed + u32::MAX <= u64::MAX,
        k.queued.contains(CFS_KTIMER),
        all_ahead(k, k.now + elapsed),
        deadline_of(k.core, mutex.owner->0) > k.now + elapsed,
        k.core.current_is_cfs ==> elapsed < k.core.timers[CFS_KTIMER as int].timing.period_ticks,
        mutex.locked(k, elapsed).2 is Ok,
    ensures
        ({
            let (m, r, _) = mutex.locked(k, elapsed);
            let i = k.core.current->0;
            let o = mutex.owner->0;
            let before = deadline_of(k.core, o);
            let after = deadline_of(r.core, o);
            &&& m.owner == mutex.owner
            &&& m.waiters == mutex.waiters.insert(i)
            &&& r.core.ctx == k.core.ctx.update(
                i as int,
                ThreadCtx { state: ThreadState::Waiting, ..k.core.ctx[i as int] },
            )
            &&& r.core.waiting == k.core.waiting.insert(i)
            &&& r.core.wait[i as int].wake_at == u64::MAX
            &&& r.core.wait[i as int].waitevt == SyncType::Mutex.tag()
            &&& r.core.sync[i as int].deadline_at == deadline_of(k.core, i)
            &&& r.now == k.now + elapsed
            &&& r.core.switch_pending
            &&& r.core.next_ktimer is Some
            &&& decides(r, r.core.next_ktimer->0)
            &&& k.core.ctx[i as int].is_cfs && k.core.ctx[o as int].is_cfs ==> m.boosted
                == mutex.boosted && m.original_deadline_at == mutex.original_deadline_at
            &&& !(k.core.ctx[i as int].is_cfs && k.core.ctx[o as int].is_cfs) ==> {
                &&& after <= deadline_of(k.core, i)
                &&& after <= before
                &&& forall|s: usize| #[trigger]
                    k.queued.contains(s) && s >= 2 && s != timer_of(k.core, i) ==> after
                        <= k.core.timers[s as int].deadline_at
                &&& m.boosted == (mutex.boosted || after < before)
                &&& mutex.boosted ==> m.original_deadline_at == mutex.original_deadline_at
                &&& !mutex.boosted && m.boosted ==> m.original_deadline_at == before
                &&& after == before || after == deadline_of(k.core, i) || after
                    == k.now + k.core.timers[CFS_KTIMER as int].timing.period_ticks
                    || exists|s: usize| #[trigger]
                    k.queued.contains(s) && s != WAIT_KTIMER && after
                        == k.core.timers[s as int].deadline_at
            }
        }),
{
    let i = k.core.current->0;
    let o = mutex.owner->0;
    let b = k.blocked_on(SyncType::Mutex, elapsed).0;
    let ti = timer_of(k.core, i);
    let to = timer_of(k.core, o);
    if ti >= 2 {
        assert(k.core.ktimer_of[i as int] == Some(ti));
        assert(k.queued.contains(ti));
    }
    if to >= 2 {
        assert(k.core.ktimer_of[o as int] == Some(to));
    }
    lemma_block(k, SyncType::Mutex, elapsed);
    assert(b.core.fault is None);
    let d = deadline_of(k.core, i);
    assert(d > b.now);
    assert(b.core.ctx[o as int] == k.core.ctx[o as int]);
    assert(timer_of(b.core, o) == to);
    assert(all_ahead(b, b.now as int)) by {
        assert forall|s: usize| #[trigger] b.queued.contains(s) && s != WAIT_KTIMER implies b.core.timers[s as int].deadline_at
            > b.now by {
            if s >= 2 {
                assert(k.queued.contains(s));
                if !k.core.ctx[i as int].is_cfs {
                    assert(s != ti);
                }
                assert(b.core.timers[s as int] == k.core.timers[s as int]);
            }
        }
    }
    let queued = MutexView { waiters: mutex.waiters.insert(i), ..mutex };
    let (m, r) = queued.boosted_by(b, o, i, d);
    if !(k.core.ctx[i as int].is_cfs && k.core.ctx[o as int].is_cfs) {
        lemma_boost(queued, b, o, i, d);
        assert(deadline_of(b.core, o) == deadline_of(k.core, o)) by {
            if to >= 2 {
                assert(b.core.timers[to as int] == k.core.timers[to as int]);
            }
        }
        assert forall|s: usize| #[trigger] k.queued.contains(s) && s >= 2 && s != ti implies deadline_of(
            r.core,
            o,
        ) <= k.core.timers[s as int].deadline_at by {
            assert(b.queued.contains(s));
            assert(b.core.timers[s as int] == k.core.timers[s as int]);
        }
        let after = deadline_of(r.core, o);
        if after != deadline_of(k.core, o) && after != d {
            let s = choose|s: usize| #[trigger]
                b.queued.contains(s) && s != WAIT_KTIMER && after
                    == b.core.timers[s as int].deadline_at;
            assert(k.queued.contains(s));
            if s >= 2 {
                assert(b.core.timers[s as int] == k.core.timers[s as int]);
            }
        }
    }
}

/// A lock that need not or may not wait leaves the scheduler alone. A free mutex gets the
/// current thread for its owner; whoever owns it already is told so; and there must be a
/// current thread.
pub proof fn lemma_lock_at_once(mutex: MutexView, k: KernelView, elapsed: u32)
    ensures
        k.core.current is None ==> mutex.locked(k, elapsed) == (
            mutex,
            k,
            Err::<(), MutexError>(MutexError::NoCurrentThread),
        ),
        k.core.current is Some && mutex.owner is None ==> mutex.locked(k, elapsed) == (
            MutexView { owner: k.core.current, ..mutex },
            k,
            Ok::<(), MutexError>(()),
        ),
        k.core.current is Some && mutex.owner == k.core.current ==> mutex.locked(k, elapsed) == (
            mutex,
            k,
            Err::<(), MutexError>(MutexError::WouldDeadlock),
        ),
        mutex.owner is Some && k.core.current is Some && mutex.owner != k.core.current
            ==> mutex.lock_tried(k.core.current) == (
            mutex,
            Err::<(), MutexError>(MutexError::WouldBlock),
        ),
        !(mutex.owner is Some && k.core.current is Some && mutex.owner != k.core.current)
            ==> mutex.lock_tried(k.core.current).0 == mutex.locked(k, elapsed).0
            && mutex.lock_tried(k.core.current).1 == mutex.locked(k, elapsed).2,
{
}

/// A take that does not block takes one token if there is one. Otherwise it changes nothing
/// and says that it would block. Waiters keep their places.
pub proof fn lemma_try_take(semaphore: SemaphoreView)
    ensures
        semaphore.take_tried().0.waiters == semaphore.waiters,
        semaphore.take_tried().0.max == semaphore.max,
        semaphore.tokens > 0 ==> semaphore.take_tried().1 is Ok
            && semaphore.take_tried().0.tokens + 1 == semaphore.tokens,
        semaphore.tokens == 0 ==> semaphore.take_tried() == (
            semaphore,
            Err::<(), SemaphoreError>(SemaphoreError::WouldBlock),
        ),
{
}

/// An unlock by another thread than the owner changes nothing.
pub proof fn lemma_only_owner_unlocks(mutex: MutexView, k: KernelView)
    requires
        mutex.owner != k.core.current,
    ensures
        mutex.released(k) == (mutex, k, Ok::<(), MutexError>(())),
{
}

/// An unlock by the owner with threads that wait for the mutex. The one with the earliest
/// deadline becomes the owner and competes again, the others still queue, and a context
/// switch is requested. The boost is over: the former owner competes by the deadline it
/// had before, if that is still ahead.
pub proof fn lemma_unlock_wakes_most_urgent(mutex: MutexView, k: KernelView)
    requires
        k.steady(),
        k.can_wake(mutex.waiters),
        mutex.owner is Some,
        mutex.owner == k.core.current,
        has_timer(k.core, mutex.owner->0),
        mutex.boosted ==> mutex.original_deadline_at > k.now,
        exists|j: usize| #[trigger]
            mutex.waiters.contains(j) && k.core.ctx[j as int].state is Waiting,
        forall|j: usize| #[trigger]
            mutex.waiters.contains(j) ==> has_timer(k.core, j) && (k.core.ctx[j as int].is_cfs
                || timer_of(k.core, j) != timer_of(k.core, mutex.owner->0)),
        mutex.released(k).2 is Ok,
    ensures
        ({
            let (m, r, _) = mutex.released(k);
            let o = mutex.owner->0;
            &&& exists|i: usize| #[trigger]
                is_most_urgent(k.core, mutex.waiters, i) && m.owner == Some(i) && competes_again(
                    k,
                    r,
                    i,
                ) && leaves_queue(k.core, mutex.waiters, m.waiters, i)
            &&& !m.boosted
            &&& mutex.boosted ==> deadline_of(r.core, o) == mutex.original_deadline_at
            &&& !mutex.boosted && deadline_of(k.core, o) > k.now ==> deadline_of(r.core, o)
                == deadline_of(k.core, o)
            &&& r.core.switch_pending
        }),
{
    let o = mutex.owner->0;
    let to = timer_of(k.core, o);
    if to >= 2 {
        assert(k.core.ktimer_of[o as int] == Some(to));
    }
    let (m1, b) = mutex.restored(k);
    if mutex.boosted {
        lemma_deadline_moves(k, o, mutex.original_deadline_at);
        crate::lifecycle::lemma_deadline_set_steady(k, o, mutex.original_deadline_at);
    }
    assert(b.steady());
    assert(k.core.same_threads(b.core));
    crate::sync::lemma_earliest_waiter_first(k.core, mutex.waiters);
    let i = k.core.first_waiter(mutex.waiters)->0;
    assert(b.core.first_waiter(m1.waiters) == Some(i));
    lemma_woken_waiter_competes(b, i);
    let w = b.waiter_woken(i).0;
    let (m, r, _) = mutex.released(k);
    assert(r == w.switch_requested());
    lemma_same_timers(w, r);
    assert(is_most_urgent(k.core, mutex.waiters, i));
    let ti = timer_of(k.core, i);
    if ti >= 2 {
        assert(k.core.ktimer_of[i as int] == Some(ti));
        if k.core.timers[ti as int].deadline_at > k.now {
            assert(b.core.timers[ti as int] == k.core.timers[ti as int]);
        }
    }
    assert(competes_again(k, r, i));
    assert(timer_of(r.core, o) == to) by {
        assert(r.core.ctx[o as int].is_cfs == k.core.ctx[o as int].is_cfs);
    }
    if deadline_of(b.core, o) > b.now {
        if to >= 2 {
            assert(w.core.timers[to as int] == b.core.timers[to as int]);
        }
    }
}

/// An unlock by the owner without a thread that waits for the mutex: nobody owns it any
/// more. The boost is over: the former owner competes by the deadline it had before, or by
/// that of its next job or period if the other one has passed.
pub proof fn lemma_unlock_frees(mutex: MutexView, k: KernelView)
    requires
        k.steady(),
        mutex.owner is Some,
        mutex.owner == k.core.current,
        has_timer(k.core, mutex.owner->0),
        forall|j: usize| #[trigger]
            mutex.waiters.contains(j) ==> !(k.core.ctx[j as int].state is Waiting),
        mutex.released(k).2 is Ok,
    ensures
        ({
            let (m, r, _) = mutex.released(k);
            let o = mutex.owner->0;
            let t = timer_of(k.core, o);
            let rest = if t == CFS_KTIMER {
                k.core.timers[t as int].timing.period_ticks
            } else {
                k.core.timers[t as int].timing.relative_deadline_ticks
            };
            &&& m.owner is None
            &&& !m.boosted
            &&& !mutex.boosted ==> r == k
            &&& mutex.boosted && mutex.original_deadline_at > k.now ==> deadline_of(r.core, o)
                == mutex.original_deadline_at
            &&& mutex.boosted && k.now + rest <= u64::MAX ==> deadline_of(r.core, o)
                == mutex.original_deadline_at || deadline_of(r.core, o) == k.now + rest
            &&& k.core.same_threads(r.core)
            &&& r.core.switch_pending == k.core.switch_pending
        }),
{
    let o = mutex.owner->0;
    let to = timer_of(k.core, o);
    if to >= 2 {
        assert(k.core.ktimer_of[o as int] == Some(to));
    }
    let (m1, b) = mutex.restored(k);
    if mutex.boosted {
        lemma_deadline_moves(k, o, mutex.original_deadline_at);
    }
    assert(k.core.same_threads(b.core));
    crate::sync::lemma_earliest_waiter_first(k.core, mutex.waiters);
    assert(b.core.first_waiter(m1.waiters) == k.core.first_waiter(mutex.waiters));
}

} // verus!
