//! Laws of success: an operation fails only for a reason.

use crate::kernel::{CoreView, KernelView};
use crate::ktimer::{KTimerEntity, CFS_KTIMER, WAIT_KTIMER};
use crate::laws::sharing::{
    all_ahead, deadline_of, has_timer, lemma_deadline_moves, lemma_earliest_deadline, timer_of,
};
use crate::laws::timing::{has_timers, lemma_first_active};
use crate::laws::waiting::{current_has_timer, lemma_block, lemma_turn_ends};
use crate::sync::{MutexView, SemaphoreView, SyncType};
use crate::thread::ThreadState;
use crate::waitq::WaitEntity;
use vstd::prelude::*;

verus! {

/// The scheduler runs, and no timer that competes has expired.
pub open spec fn is_calm(k: KernelView) -> bool {
    &&& has_timers(k)
    &&& k.core.fault is None
    &&& !k.core.timers[WAIT_KTIMER as int].active
    &&& k.core.timers[CFS_KTIMER as int].deadline_at > k.now
    &&& forall|t: usize| #[trigger]
        k.queued.contains(t) && k.core.timers[t as int].active
            ==> k.core.timers[t as int].deadline_at > k.now
}

/// Choosing the next timer stops the scheduler only for a missed deadline: a timer that
/// competes has expired, and its owner ran past the relative deadline.
pub proof fn lemma_choice_stops_for_a_miss(k: KernelView)
    requires
        k.core.fault is None,
        k.refreshed().core.fault is Some,
    ensures
        exists|t: usize| #[trigger]
            k.queued.contains(t) && t != CFS_KTIMER && k.core.timers[t as int].active
                && k.core.timers[t as int].deadline_at <= k.now
                && k.core.runtime[k.core.timer_owner[t as int]->0 as int]
                > k.core.timers[t as int].timing.relative_deadline_ticks,
{
    lemma_first_active(k);
    if let Some(t) = k.first_active() {
        assert(k.queued.contains(t));
    }
}

proof fn lemma_calm_choice(k: KernelView)
    requires
        is_calm(k),
    ensures
        is_calm(k.refreshed()),
        k.refreshed().queued == k.queued,
        k.refreshed().now == k.now,
{
    lemma_first_active(k);
    let r = k.refreshed();
    assert forall|t: usize| #[trigger]
        r.queued.contains(t) && r.core.timers[t as int].active implies r.core.timers[t as int].deadline_at
        > r.now by {
        assert(k.queued.contains(t));
    }
}

proof fn lemma_calm_wait(k: KernelView)
    requires
        is_calm(k),
    ensures
        is_calm(k.wait_programmed()),
        k.wait_programmed().now == k.now,
{
    let armed = k.dequeued(WAIT_KTIMER).wait_armed().enqueued(WAIT_KTIMER);
    assert(is_calm(armed)) by {
        assert forall|t: usize| #[trigger]
            armed.queued.contains(t) && armed.core.timers[t as int].active implies armed.core.timers[t as int].deadline_at
            > armed.now by {
            assert(t != WAIT_KTIMER);
            assert(k.queued.contains(t));
        }
    }
    lemma_calm_choice(armed);
}

/// Moving a fair thread to the wait queue succeeds.
proof fn lemma_fair_park_succeeds(k: KernelView, i: usize)
    requires
        is_calm(k),
    ensures
        k.cfs_parked(i).1 is Ok,
        is_calm(k.cfs_parked(i).0),
{
    let core = k.core;
    let left = CoreView {
        run: if core.ctx[i as int].state is Ready {
            core.run.remove(i)
        } else {
            core.run
        },
        priority_sum: core.priority_sum.saturating_sub(core.sched[i as int].priority),
        ..core
    };
    let mid = k.with_core(left.with_state(i, ThreadState::Waiting).waiting_with(i));
    lemma_calm_same_timers(k, mid);
    lemma_calm_wait(mid);
}

/// Whether the scheduler is calm is a matter of its timers.
proof fn lemma_calm_same_timers(a: KernelView, b: KernelView)
    requires
        is_calm(a),
        a.queued == b.queued,
        a.core.timers == b.core.timers,
        a.now == b.now,
        b.core.fault is None,
    ensures
        is_calm(b),
{
    assert forall|t: usize| #[trigger]
        b.queued.contains(t) && b.core.timers[t as int].active implies b.core.timers[t as int].deadline_at
        > b.now by {
        assert(a.queued.contains(t));
    }
}

/// Moving a real-time thread to the wait queue succeeds.
proof fn lemma_rt_park_succeeds(k: KernelView, i: usize)
    requires
        is_calm(k),
        !k.core.ctx[i as int].is_cfs,
        k.core.ktimer_of[i as int] is Some,
        2 <= k.core.ktimer_of[i as int]->0 < k.core.timers.len(),
    ensures
        k.rt_parked(i).1 is Ok,
        is_calm(k.rt_parked(i).0),
{
    let t = k.core.ktimer_of[i as int]->0;
    let d = k.dequeued(t);
    let inactive = d.with_core(d.core.with_timer(t, d.core.timers[t as int].with_active(false)));
    assert(is_calm(inactive)) by {
        assert forall|s: usize| #[trigger]
            inactive.queued.contains(s) && inactive.core.timers[s as int].active implies inactive.core.timers[s as int].deadline_at
            > inactive.now by {
            assert(k.queued.contains(s));
        }
    }
    lemma_calm_choice(inactive);
    let removed = k.timer_removed(t);
    assert(is_calm(removed));
    let mid = removed.with_core(removed.core.with_state(i, ThreadState::Waiting).waiting_with(i));
    lemma_calm_same_timers(removed, mid);
    lemma_calm_wait(mid);
}

/// Waking a thread that waits for an event succeeds, if its own deadline is ahead.
proof fn lemma_wake_succeeds(k: KernelView, i: usize)
    requires
        is_calm(k),
        k.core.ok(),
        k.core.waiting.contains(i),
        has_timer(k.core, i),
        !k.core.ctx[i as int].is_cfs ==> deadline_of(k.core, i) > k.now,
    ensures
        k.waiter_woken(i).1 is Ok,
        is_calm(k.waiter_woken(i).0),
{
    if k.core.ctx[i as int].is_cfs {
        let left = k.core.waiting_without(i);
        let core = CoreView { trace: left.trace.wakeup(left.ctx[i as int]), ..left };
        let ready = k.with_core(core.rejoined(i));
        lemma_calm_same_timers(k, ready);
        lemma_calm_wait(ready);
    } else {
        let t = k.core.ktimer_of[i as int]->0;
        assert(k.core.ktimer_of[i as int] is Some);
        let ready = k.core.waiting_without(i).with_state(i, ThreadState::Ready);
        let traced = k.with_core(
            CoreView { trace: ready.trace.wakeup(ready.ctx[i as int]), ..ready },
        );
        let queued = traced.with_core(
            traced.core.with_timer(t, traced.core.timers[t as int].with_active(true)),
        ).enqueued(t);
        assert(is_calm(queued)) by {
            assert forall|s: usize| #[trigger]
                queued.queued.contains(s) && queued.core.timers[s as int].active implies queued.core.timers[s as int].deadline_at
                > queued.now by {
                if s != t {
                    assert(k.queued.contains(s));
                }
            }
        }
        lemma_calm_choice(queued);
        lemma_calm_wait(queued.refreshed());
    }
}

proof fn lemma_turn_stays_calm(k: KernelView, t: usize, elapsed: u32)
    requires
        k.ok(),
        k.core.fault is None,
        k.core.current is Some,
        has_timer(k.core, k.core.current->0),
        t == timer_of(k.core, k.core.current->0),
        t >= 2 ==> k.core.timer_owner[t as int] == k.core.current,
        k.now + elapsed + u32::MAX <= u64::MAX,
        k.queued.contains(CFS_KTIMER),
        all_ahead(k, k.now + elapsed),
        t == CFS_KTIMER ==> elapsed < k.core.timers[CFS_KTIMER as int].timing.period_ticks,
    ensures
        is_calm(k.turn_yielded(t, elapsed, false).0),
{
    let i = k.core.current->0;
    let r = k.turn_yielded(t, elapsed, false).0;
    lemma_turn_ends(k, i, t, elapsed);
    crate::lifecycle::lemma_turn_yielded_threads(k, t, elapsed, false);
    crate::lifecycle::lemma_turn_ended_ok(k, elapsed, false);
    assert forall|s: usize| #[trigger]
        r.queued.contains(s) && r.core.timers[s as int].active implies r.core.timers[s as int].deadline_at
        > r.now by {
        assert(k.queued.contains(s));
        if s >= 2 && s != t {
            assert(r.core.timers[s as int] == k.core.timers[s as int]);
        }
    }
}

/// As long as all deadlines are ahead, a thread that may block does block.
pub proof fn lemma_block_succeeds(k: KernelView, kind: SyncType, elapsed: u32)
    requires
        k.can_block(),
        current_has_timer(k),
        k.now + elapsed + u32::MAX <= u64::MAX,
        k.queued.contains(CFS_KTIMER),
        all_ahead(k, k.now + elapsed),
        k.core.current_is_cfs ==> elapsed < k.core.timers[CFS_KTIMER as int].timing.period_ticks,
    ensures
        k.blocked_on(kind, elapsed).1 is Ok,
        is_calm(k.blocked_on(kind, elapsed).0),
{
    let i = k.core.current->0;
    let t = timer_of(k.core, i);
    lemma_turn_stays_calm(k, t, elapsed);
    crate::lifecycle::lemma_turn_yielded_threads(k, t, elapsed, false);
    let y = k.turn_yielded(t, elapsed, false).0;
    let entity = WaitEntity {
        wake_at: crate::sync::WAIT_FOREVER_TICKS,
        waitevt: kind.tag(),
        ..y.core.wait[i as int]
    };
    let w = y.with_core(y.core.with_wait(i, entity));
    lemma_calm_same_timers(y, w);
    if k.core.current_is_cfs {
        lemma_fair_park_succeeds(w, i);
    } else {
        assert(k.core.ktimer_of[i as int] == Some(t));
        assert(y.core.timers.len() == k.core.timers.len()) by {
            lemma_turn_ends(k, i, t, elapsed);
        }
        lemma_rt_park_succeeds(w, i);
    }
    lemma_calm_same_timers(k.blocked(kind, elapsed).0, k.blocked_on(kind, elapsed).0);
}

/// As long as all deadlines are ahead, a thread that goes to sleep misses none.
pub proof fn lemma_sleep_succeeds(k: KernelView, msec: u32, elapsed: u32)
    requires
        k.can_block(),
        current_has_timer(k),
        k.now + elapsed + u32::MAX <= u64::MAX,
        k.queued.contains(CFS_KTIMER),
        all_ahead(k, k.now + elapsed),
        k.core.current_is_cfs ==> elapsed < k.core.timers[CFS_KTIMER as int].timing.period_ticks,
    ensures
        k.slept(msec, elapsed).core.fault is None,
{
    let i = k.core.current->0;
    let t = timer_of(k.core, i);
    lemma_turn_stays_calm(k, t, elapsed);
    crate::lifecycle::lemma_turn_yielded_threads(k, t, elapsed, false);
    let y = k.turn_yielded(t, elapsed, false).0;
    let ticks = crate::current::saturating_product(msec, k.core.clock.ticks());
    let entity = WaitEntity {
        wake_at: y.now.saturating_add(ticks as u64),
        waitevt: 0,
        ..y.core.wait[i as int]
    };
    let w = y.with_core(y.core.with_wait(i, entity));
    lemma_calm_same_timers(y, w);
    if k.core.current_is_cfs {
        lemma_fair_park_succeeds(w, i);
    } else {
        assert(k.core.ktimer_of[i as int] == Some(t));
        assert(y.core.timers.len() == k.core.timers.len()) by {
            lemma_turn_ends(k, i, t, elapsed);
        }
        lemma_rt_park_succeeds(w, i);
    }
}

proof fn lemma_deadline_set_succeeds(k: KernelView, i: usize, deadline_at: u64)
    requires
        is_calm(k),
        has_timer(k.core, i),
        timer_of(k.core, i) < k.core.timers.len(),
        timer_of(k.core, i) != WAIT_KTIMER,
        deadline_at > k.now,
    ensures
        k.deadline_set(i, deadline_at).core.fault is None,
        is_calm(k.deadline_set(i, deadline_at)),
{
    let t = timer_of(k.core, i);
    let set = k.with_core(
        k.core.with_timer(t, KTimerEntity { deadline_at, ..k.core.timers[t as int] }),
    );
    assert(is_calm(set)) by {
        assert forall|s: usize| #[trigger]
            set.queued.contains(s) && set.core.timers[s as int].active implies set.core.timers[s as int].deadline_at
            > set.now by {
            assert(k.queued.contains(s));
        }
    }
    lemma_calm_choice(set);
}

/// As long as all deadlines are ahead, a take succeeds: at once, or by waiting.
pub proof fn lemma_take_succeeds(
    semaphore: SemaphoreView,
    k: KernelView,
    kind: SyncType,
    elapsed: u32,
)
    requires
        k.can_block(),
        current_has_timer(k),
        k.now + elapsed + u32::MAX <= u64::MAX,
        k.queued.contains(CFS_KTIMER),
        all_ahead(k, k.now + elapsed),
        k.core.current_is_cfs ==> elapsed < k.core.timers[CFS_KTIMER as int].timing.period_ticks,
    ensures
        semaphore.taken(k, kind, elapsed).2 is Ok,
{
    lemma_block_succeeds(k, kind, elapsed);
}

/// As long as all deadlines are ahead, a lock by another thread than the owner succeeds,
/// by waiting, whether or not the owner has been boosted before.
pub proof fn lemma_lock_succeeds(mutex: MutexView, k: KernelView, elapsed: u32)
    requires
        k.can_block(),
        current_has_timer(k),
        mutex.owner is Some,
        mutex.owner != k.core.current,
        has_timer(k.core, mutex.owner->0),
        k.core.ctx[mutex.owner->0 as int].is_cfs && k.core.current_is_cfs || timer_of(
            k.core,
            mutex.owner->0,
        ) != timer_of(k.core, k.core.current->0),
        k.now + elapsed + u32::MAX <= u64::MAX,
        k.queued.contains(CFS_KTIMER),
        all_ahead(k, k.now + elapsed),
        k.core.current_is_cfs ==> elapsed < k.core.timers[CFS_KTIMER as int].timing.period_ticks,
    ensures
        mutex.locked(k, elapsed).2 is Ok,
{
    let i = k.core.current->0;
    let o = mutex.owner->0;
    let ti = timer_of(k.core, i);
    let to = timer_of(k.core, o);
    if ti >= 2 {
        assert(k.core.ktimer_of[i as int] == Some(ti));
        assert(k.queued.contains(ti));
    }
    if to >= 2 {
        assert(k.core.ktimer_of[o as int] == Some(to));
    }
    lemma_block_succeeds(k, SyncType::Mutex, elapsed);
    lemma_block(k, SyncType::Mutex, elapsed);
    let b = k.blocked_on(SyncType::Mutex, elapsed).0;
    assert(b.core.ctx[o as int] == k.core.ctx[o as int]);
    assert(timer_of(b.core, o) == to);
    lemma_earliest_deadline(b);
    let d = deadline_of(k.core, i);
    let earliest = b.earliest_deadline();
    let boost = if d <= earliest {
        d
    } else {
        earliest
    };
    assert(earliest > b.now) by {
        if earliest != u64::MAX {
            let s = choose|s: usize| #[trigger]
                b.queued.contains(s) && s != WAIT_KTIMER && earliest
                    == b.core.timers[s as int].deadline_at;
            if s >= 2 {
                assert(k.queued.contains(s));
                if !k.core.ctx[i as int].is_cfs {
                    assert(s != ti);
                }
                assert(b.core.timers[s as int] == k.core.timers[s as int]);
            }
        }
    }
    if boost < deadline_of(b.core, o) {
        lemma_deadline_set_succeeds(b, o, boost);
    }
}

/// As long as all deadlines are ahead, a give fails only when the semaphore is full.
pub proof fn lemma_give_succeeds(semaphore: SemaphoreView, k: KernelView)
    requires
        k.steady(),
        k.can_wake(semaphore.waiters),
        k.queued.contains(CFS_KTIMER),
        all_ahead(k, k.now as int),
        forall|j: usize| #[trigger]
            semaphore.waiters.contains(j) ==> has_timer(k.core, j) && (k.core.ctx[j as int].is_cfs
                || deadline_of(k.core, j) > k.now),
        semaphore.tokens < semaphore.max || exists|j: usize| #[trigger]
            semaphore.waiters.contains(j) && k.core.ctx[j as int].state is Waiting,
    ensures
        semaphore.given(k).2 is Ok,
{
    assert(is_calm(k));
    crate::sync::lemma_earliest_waiter_first(k.core, semaphore.waiters);
    if let Some(i) = k.core.first_waiter(semaphore.waiters) {
        lemma_wake_succeeds(k, i);
    }
}

/// As long as all deadlines are ahead, the one to go back to included, an unlock succeeds.
pub proof fn lemma_unlock_succeeds(mutex: MutexView, k: KernelView)
    requires
        k.steady(),
        k.can_wake(mutex.waiters),
        k.queued.contains(CFS_KTIMER),
        all_ahead(k, k.now as int),
        mutex.owner is Some,
        has_timer(k.core, mutex.owner->0),
        mutex.boosted ==> mutex.original_deadline_at > k.now,
        forall|j: usize| #[trigger]
            mutex.waiters.contains(j) ==> has_timer(k.core, j) && (k.core.ctx[j as int].is_cfs || (
            deadline_of(k.core, j) > k.now && timer_of(k.core, j) != timer_of(
                k.core,
                mutex.owner->0,
            ))),
    ensures
        mutex.released(k).2 is Ok,
{
    let o = mutex.owner->0;
    let to = timer_of(k.core, o);
    if to >= 2 {
        assert(k.core.ktimer_of[o as int] == Some(to));
    }
    assert(is_calm(k));
    let (m1, b) = mutex.restored(k);
    if mutex.boosted {
        lemma_deadline_set_succeeds(k, o, mutex.original_deadline_at);
        lemma_deadline_moves(k, o, mutex.original_deadline_at);
        crate::lifecycle::lemma_deadline_set_steady(k, o, mutex.original_deadline_at);
    }
    assert(k.core.same_threads(b.core));
    crate::sync::lemma_earliest_waiter_first(k.core, mutex.waiters);
    assert(b.core.first_waiter(m1.waiters) == k.core.first_waiter(mutex.waiters));
    if let Some(i) = k.core.first_waiter(mutex.waiters) {
        assert(mutex.waiters.contains(i));
        let ti = timer_of(k.core, i);
        if ti >= 2 {
            assert(k.core.ktimer_of[i as int] == Some(ti));
            assert(b.core.timers[ti as int] == k.core.timers[ti as int]);
        }
        lemma_wake_succeeds(b, i);
    }
}

} // verus!
