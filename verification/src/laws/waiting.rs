//! Laws of sleeping, blocking and waking.

use crate::kernel::{CoreView, KernelView};
use crate::ktimer::{CFS_KTIMER, WAIT_KTIMER};
use crate::laws::timing::{
    competes, decides, has_timers, lemma_chosen_decides, lemma_first_active,
    lemma_next_timer_decides, has_owners, owns_queued_timer,
};
use crate::thread::{ThreadCtx, ThreadState};
use crate::waitq::WaitEntity;
use vstd::prelude::*;

verus! {

/// The wait timer expires with the first wake-up, and never without one. It does not
/// compete with the other timers.
pub open spec fn wait_timer_is_set(k: KernelView) -> bool {
    let timer = k.core.timers[WAIT_KTIMER as int];
    &&& k.queued.contains(WAIT_KTIMER)
    &&& !timer.active
    &&& forall|i: usize| #[trigger]
        k.core.waiting.contains(i) ==> timer.deadline_at <= k.core.wait[i as int].wake_at
    &&& timer.deadline_at == u64::MAX || exists|i: usize| #[trigger]
        k.core.waiting.contains(i) && timer.deadline_at == k.core.wait[i as int].wake_at
}

/// Timers whose deadline is ahead stay as they are, those of real-time threads stay as
/// active as they were, and the next timer decides.
pub open spec fn keeps_timers_ahead(k: KernelView, r: KernelView) -> bool {
    &&& r.now == k.now
    &&& r.core.timers.len() == k.core.timers.len()
    &&& k.queued.subset_of(r.queued)
    &&& forall|t: usize| t >= 2 && #[trigger] r.queued.contains(t) ==> k.queued.contains(t)
    &&& forall|t: usize|
        2 <= t < k.core.timers.len() && k.core.timers[t as int].deadline_at > k.now
            ==> #[trigger] r.core.timers[t as int] == k.core.timers[t as int]
    &&& forall|t: usize|
        2 <= t < k.core.timers.len() ==> (#[trigger] r.core.timers[t as int]).active
            == k.core.timers[t as int].active
    &&& forall|t: usize|
        2 <= t < k.core.timers.len() ==> (#[trigger] r.core.timers[t as int]).miss_cnt
            == k.core.timers[t as int].miss_cnt
    &&& k.core.timers[CFS_KTIMER as int].deadline_at > k.now
        ==> r.core.timers[CFS_KTIMER as int].deadline_at
        == k.core.timers[CFS_KTIMER as int].deadline_at
    &&& r.core.next_ktimer is Some
    &&& decides(r, r.core.next_ktimer->0)
}

/// Every change of the wait queue sets the wait timer and chooses the next timer.
pub proof fn lemma_wait_timer_follows(k: KernelView)
    requires
        has_timers(k),
        k.wait_programmed().core.fault is None,
    ensures
        has_timers(k.wait_programmed()),
        wait_timer_is_set(k.wait_programmed()),
        keeps_timers_ahead(k, k.wait_programmed()),
        k.core.same_threads(k.wait_programmed().core),
        k.wait_programmed().core.switch_pending == k.core.switch_pending,
        k.wait_programmed().core.trace == k.core.trace,
        has_owners(k) && k.core.timer_owner[1] is None ==> {
            &&& k.wait_programmed().core.runtime.len() == k.core.runtime.len()
            &&& forall|i: usize|
                i < k.core.runtime.len() && !owns_queued_timer(k, i)
                    ==> #[trigger] k.wait_programmed().core.runtime[i as int]
                    == k.core.runtime[i as int]
        },
{
    let armed = k.dequeued(WAIT_KTIMER).wait_armed().enqueued(WAIT_KTIMER);
    lemma_next_timer_decides(armed);
    crate::lifecycle::lemma_wait_programmed_threads(k);
    let r = k.wait_programmed();
    assert(r == armed.refreshed());
    let first = k.core.first_wait();
    if k.core.waiting == Set::<usize>::empty() {
        crate::rbtree::lemma_first_of_empty::<WaitEntity>(k.core.wait, k.core.waiting);
    } else {
        crate::rbtree::lemma_first_exists::<WaitEntity>(k.core.wait, k.core.waiting);
        assert(k.core.waiting.contains(first->0));
        assert forall|i: usize| #[trigger] k.core.waiting.contains(i) implies k.core.wait[first->0 as int].wake_at
            <= k.core.wait[i as int].wake_at by {
            if i != first->0 {
                assert(crate::rbtree::before::<WaitEntity>(k.core.wait, first->0, i));
            }
        }
    }
    lemma_first_active(armed);
    assert(!armed.core.timers[WAIT_KTIMER as int].active);
    assert(armed.first_active() != Some(WAIT_KTIMER));
    assert(r.core.timers[WAIT_KTIMER as int] == armed.core.timers[WAIT_KTIMER as int]);
    assert(armed.queued.contains(WAIT_KTIMER));
    assert(has_owners(k) ==> has_owners(armed)) by {
        assert forall|t: usize| has_owners(k) && t >= 2 && #[trigger] armed.queued.contains(
            t,
        ) implies armed.core.timer_owner[t as int] is Some
            && armed.core.timer_owner[t as int]->0 < armed.core.runtime.len() by {
            assert(k.queued.contains(t));
        }
    }
    assert forall|i: usize|
        i < k.core.runtime.len() && !owns_queued_timer(k, i) && has_owners(k)
            && k.core.timer_owner[1] is None implies #[trigger] r.core.runtime[i as int] == k.core.runtime[i as int] by {
        if owns_queued_timer(armed, i) {
            let t = choose|t: usize| #[trigger]
                armed.queued.contains(t) && armed.core.timer_owner[t as int] == Some(i);
            assert(t != WAIT_KTIMER);
            assert(k.queued.contains(t));
        }
    }
    assert forall|t: usize| #[trigger] k.queued.contains(t) implies r.queued.contains(t) by {
        assert(armed.queued.contains(t));
    }
    assert forall|t: usize| t >= 2 && #[trigger] r.queued.contains(t) implies k.queued.contains(t) by {
        assert(armed.queued.contains(t));
    }
    assert forall|t: usize|
        2 <= t < k.core.timers.len() && k.core.timers[t as int].deadline_at
            > k.now implies #[trigger] r.core.timers[t as int] == k.core.timers[t as int] by {
        assert(armed.core.timers[t as int] == k.core.timers[t as int]);
    }
    assert forall|t: usize| 2 <= t < k.core.timers.len() implies (
    #[trigger] r.core.timers[t as int]).active == k.core.timers[t as int].active
        && r.core.timers[t as int].miss_cnt == k.core.timers[t as int].miss_cnt by {
        assert(armed.core.timers[t as int] == k.core.timers[t as int]);
    }
}

/// Thread `i` has started to wait: it is in the wait queue and nowhere else. A fair
/// thread is not runnable and its priority no longer counts; the timer of a real-time
/// thread is not queued and not active. No other thread changes.
pub open spec fn has_parked(k: KernelView, r: KernelView, i: usize) -> bool {
    &&& r.core.ctx == k.core.ctx.update(
        i as int,
        ThreadCtx { state: ThreadState::Waiting, ..k.core.ctx[i as int] },
    )
    &&& r.core.waiting == k.core.waiting.insert(i)
    &&& r.core.sched == k.core.sched
    &&& r.core.current == k.core.current
    &&& if k.core.ctx[i as int].is_cfs {
        &&& r.core.run == k.core.run.remove(i)
        &&& r.core.priority_sum == if k.core.sched[i as int].priority <= k.core.priority_sum {
            k.core.priority_sum - k.core.sched[i as int].priority
        } else {
            0
        }
    } else {
        let t = k.core.ktimer_of[i as int]->0;
        &&& r.core.run == k.core.run
        &&& r.core.priority_sum == k.core.priority_sum
        &&& !r.queued.contains(t)
        &&& !r.core.timers[t as int].active
        &&& r.core.timers[t as int].miss_cnt == k.core.timers[t as int].miss_cnt
        &&& k.core.timers[t as int].deadline_at > k.now ==> r.core.timers[t as int].deadline_at
            == k.core.timers[t as int].deadline_at
    }
    &&& r.now == k.now
    &&& wait_timer_is_set(r)
    &&& r.core.next_ktimer is Some
    &&& decides(r, r.core.next_ktimer->0)
    &&& r.core.wait == k.core.wait
    &&& r.core.sync == k.core.sync
    &&& r.core.ktimer_of == k.core.ktimer_of
    &&& r.core.idle == k.core.idle
    &&& r.core.runtime.len() == k.core.runtime.len()
    &&& (forall|s: usize| #[trigger]
        k.queued.contains(s) && k.core.timer_owner[s as int] == Some(i) ==> k.core.ktimer_of[i as int]
            == Some(s)) ==> r.core.runtime[i as int] == k.core.runtime[i as int]
}

proof fn lemma_owned_has_owners(k: KernelView)
    requires
        k.ok(),
        k.owned(),
    ensures
        has_owners(k),
        k.core.timer_owner[1] is None,
{
    assert forall|t: usize| t >= 2 && #[trigger] k.queued.contains(t) implies k.core.timer_owner[t as int]
        is Some && k.core.timer_owner[t as int]->0 < k.core.runtime.len() by {
        assert(k.core.timer_owner[t as int] is Some);
    }
    if k.core.timer_owner[WAIT_KTIMER as int] is Some {
    }
}

/// A fair thread moves to the wait queue.
pub proof fn lemma_fair_thread_parks(k: KernelView, i: usize)
    requires
        k.ok(),
        k.owned(),
        i < k.core.ctx.len(),
        k.core.ctx[i as int].is_cfs,
        (k.core.ctx[i as int].state is Ready) == k.core.run.contains(i),
        k.cfs_parked(i).1 is Ok,
    ensures
        has_parked(k, k.cfs_parked(i).0, i),
        has_timers(k.cfs_parked(i).0),
        keeps_timers_ahead(k, k.cfs_parked(i).0),
        keeps_others_ahead(k, k.cfs_parked(i).0, i),
{
    let core = k.core;
    let left = CoreView {
        run: if core.ctx[i as int].state is Ready {
            core.run.remove(i)
        } else {
            core.run
        },
        priority_sum: core.priority_sum.saturating_sub(core.sched[i as int].priority),
        ..core
    };
    assert(left.run =~= core.run.remove(i));
    let mid = k.with_core(left.with_state(i, ThreadState::Waiting).waiting_with(i));
    lemma_owned_has_owners(k);
    assert(has_owners(mid));
    lemma_wait_timer_follows(mid);
    assert(!owns_queued_timer(mid, i)) by {
        if owns_queued_timer(mid, i) {
            let s = choose|s: usize| #[trigger]
                mid.queued.contains(s) && mid.core.timer_owner[s as int] == Some(i);
            assert(k.core.timer_owner[s as int] is Some);
        }
    }
}

/// A real-time thread moves to the wait queue.
pub proof fn lemma_rt_thread_parks(k: KernelView, i: usize)
    requires
        k.ok(),
        k.owned(),
        k.core.fault is None,
        i < k.core.ctx.len(),
        !k.core.ctx[i as int].is_cfs,
        k.core.ktimer_of[i as int] is Some,
        k.rt_parked(i).1 is Ok,
    ensures
        has_parked(k, k.rt_parked(i).0, i),
        has_timers(k.rt_parked(i).0),
        keeps_others_ahead(k, k.rt_parked(i).0, i),
        k.rt_parked(i).0.core.timers.len() == k.core.timers.len(),
{
    let t = k.core.ktimer_of[i as int]->0;
    let d = k.dequeued(t);
    let inactive = d.with_core(d.core.with_timer(t, d.core.timers[t as int].with_active(false)));
    let removed = k.timer_removed(t);
    lemma_owned_has_owners(k);
    assert(has_owners(inactive)) by {
        assert forall|s: usize| s >= 2 && #[trigger] inactive.queued.contains(
            s,
        ) implies inactive.core.timer_owner[s as int] is Some
            && inactive.core.timer_owner[s as int]->0 < inactive.core.runtime.len() by {
            assert(k.queued.contains(s));
        }
    }
    crate::lifecycle::lemma_refreshed_threads(inactive);
    if k.core.next_ktimer == Some(t) {
        lemma_next_timer_decides(inactive);
    }
    assert(has_timers(removed));
    let mid = removed.with_core(removed.core.with_state(i, ThreadState::Waiting).waiting_with(i));
    assert(has_owners(mid)) by {
        assert forall|s: usize| s >= 2 && #[trigger] mid.queued.contains(
            s,
        ) implies mid.core.timer_owner[s as int] is Some && mid.core.timer_owner[s as int]->0
            < mid.core.runtime.len() by {
            assert(inactive.queued.contains(s));
        }
    }
    lemma_wait_timer_follows(mid);
    let r = k.rt_parked(i).0;
    assert(!inactive.queued.contains(t));
    assert(!removed.queued.contains(t));
    assert(!removed.core.timers[t as int].active);
    assert(removed.core.timers[t as int].miss_cnt == k.core.timers[t as int].miss_cnt);
    assert forall|s: usize|
        2 <= s < k.core.timers.len() && s != t && k.core.timers[s as int].deadline_at
            > k.now implies #[trigger] r.core.timers[s as int] == k.core.timers[s as int] by {
        assert(inactive.core.timers[s as int] == k.core.timers[s as int]);
        assert(removed.core.timers[s as int] == k.core.timers[s as int]);
    }
    assert forall|s: usize| #[trigger] k.queued.contains(s) && s != t implies r.queued.contains(s) by {
        assert(inactive.queued.contains(s));
        assert(removed.queued.contains(s));
        assert(mid.queued.contains(s));
    }
    assert forall|s: usize| s >= 2 && #[trigger] r.queued.contains(s) implies k.queued.contains(s) by {
        assert(mid.queued.contains(s));
        assert(inactive.queued.contains(s));
    }
    if forall|s: usize| #[trigger]
        k.queued.contains(s) && k.core.timer_owner[s as int] == Some(i) ==> k.core.ktimer_of[i as int]
            == Some(s) {
        assert(!owns_queued_timer(inactive, i)) by {
            if owns_queued_timer(inactive, i) {
                let s = choose|s: usize| #[trigger]
                    inactive.queued.contains(s) && inactive.core.timer_owner[s as int] == Some(i);
                assert(k.queued.contains(s));
            }
        }
        assert(!owns_queued_timer(mid, i)) by {
            if owns_queued_timer(mid, i) {
                let s = choose|s: usize| #[trigger]
                    mid.queued.contains(s) && mid.core.timer_owner[s as int] == Some(i);
                assert(k.core.timer_owner[s as int] is Some);
                assert(inactive.queued.contains(s));
            }
        }
        assert(mid.core.runtime[i as int] == k.core.runtime[i as int]);
    }
    if k.core.timers[t as int].deadline_at > k.now {
        assert(removed.core.timers[t as int] == inactive.core.timers[t as int]);
        assert(r.core.timers[t as int] == removed.core.timers[t as int]);
    }
}

/// The turn of thread `i` ends `elapsed` ticks later. A real-time thread is charged, and
/// its timer rests until the next release, one period after the start of the job. The
/// fair scheduling timer rests for what is left of its period.
pub open spec fn ends_turn(k: KernelView, r: KernelView, i: usize, elapsed: u32) -> bool {
    let used = k.core.runtime[i as int] + elapsed;
    &&& r.now == k.now + elapsed
    &&& if k.core.ctx[i as int].is_cfs {
        let timer = k.core.timers[CFS_KTIMER as int];
        &&& elapsed < timer.timing.period_ticks ==> r.core.timers[CFS_KTIMER as int].deadline_at
            == k.now + timer.timing.period_ticks
        &&& r.core.runtime[i as int] == k.core.runtime[i as int]
    } else {
        let t = k.core.ktimer_of[i as int]->0;
        let timer = k.core.timers[t as int];
        &&& !r.core.timers[t as int].active
        &&& r.core.timers[t as int].miss_cnt == if r.core.runtime[i as int]
            > timer.timing.budget_ticks && timer.miss_cnt < u32::MAX {
            timer.miss_cnt + 1
        } else {
            timer.miss_cnt as int
        }
        &&& used < timer.timing.period_ticks ==> r.core.timers[t as int].deadline_at == r.now
            + timer.timing.period_ticks - used
        &&& r.core.runtime[i as int] == if used > u32::MAX {
            u32::MAX as int
        } else {
            used
        }
    }
}

/// Timers with a deadline after the given time, other than that of thread `i`, are the
/// same in both states.
pub open spec fn keeps_others_ahead(k: KernelView, r: KernelView, i: usize) -> bool {
    &&& forall|s: usize|
        2 <= s < k.core.timers.len() && (k.core.ctx[i as int].is_cfs || k.core.ktimer_of[i as int]
            != Some(s)) && k.core.timers[s as int].deadline_at > r.now
            ==> #[trigger] r.core.timers[s as int] == k.core.timers[s as int]
    &&& !k.core.ctx[i as int].is_cfs && k.core.timers[CFS_KTIMER as int].deadline_at > r.now
        ==> r.core.timers[CFS_KTIMER as int].deadline_at
        == k.core.timers[CFS_KTIMER as int].deadline_at
    &&& forall|s: usize| #[trigger]
        k.queued.contains(s) && (k.core.ctx[i as int].is_cfs || k.core.ktimer_of[i as int] != Some(s))
            ==> r.queued.contains(s)
    &&& forall|s: usize| s >= 2 && #[trigger] r.queued.contains(s) ==> k.queued.contains(s)
}

pub proof fn lemma_turn_ends(k: KernelView, i: usize, t: usize, elapsed: u32)
    requires
        k.ok(),
        i < k.core.ctx.len(),
        k.core.scheduler_timer(i) == Some(t),
        t >= 2 ==> k.core.timer_owner[t as int] == Some(i),
        k.now + elapsed + u32::MAX <= u64::MAX,
    ensures
        ends_turn(k, k.turn_yielded(t, elapsed, false).0, i, elapsed),
        keeps_others_ahead(k, k.turn_yielded(t, elapsed, false).0, i),
        k.turn_yielded(t, elapsed, false).0.queued == k.queued,
        k.turn_yielded(t, elapsed, false).0.core.runtime.len() == k.core.runtime.len(),
        k.turn_yielded(t, elapsed, false).0.core.timers.len() == k.core.timers.len(),
        forall|s: usize|
            1 <= s < k.core.timers.len() && s != t ==> #[trigger] k.turn_yielded(
                t,
                elapsed,
                false,
            ).0.core.timers[s as int] == k.core.timers[s as int],
{
    if t != CFS_KTIMER {
        assert(k.core.ktimer_of[i as int] is Some);
    }
    let ended = k.turn_ended(t, elapsed, false);
    let parked = KernelView {
        core: ended.with_timer(t, ended.timers[t as int].with_active(false)),
        queued: k.queued,
        now: k.now.saturating_add(elapsed as u64),
    };
    lemma_chosen_decides(parked);
    let r = k.turn_yielded(t, elapsed, false).0;
    assert(r == parked.chosen().0);
    assert forall|s: usize|
        1 <= s < k.core.timers.len() && s != t implies #[trigger] r.core.timers[s as int]
        == k.core.timers[s as int] by {
        assert(parked.chosen().0.core.timers[s as int] == parked.core.timers[s as int]);
    }
    if t >= 2 {
        assert(parked.chosen().0.core.timers[t as int] == parked.core.timers[t as int]);
    }
}

/// Thread `i` has gone from running to waiting: it is in the wait queue and nowhere else,
/// and no other thread changes. A fair thread's priority no longer counts; the timer of a
/// real-time thread is not queued.
pub open spec fn starts_waiting(k: KernelView, r: KernelView, i: usize) -> bool {
    &&& r.core.ctx == k.core.ctx.update(
        i as int,
        ThreadCtx { state: ThreadState::Waiting, ..k.core.ctx[i as int] },
    )
    &&& r.core.waiting == k.core.waiting.insert(i)
    &&& r.core.run == k.core.run.remove(i)
    &&& r.core.sched == k.core.sched
    &&& r.core.current == k.core.current
    &&& r.core.idle == k.core.idle
    &&& r.core.ktimer_of == k.core.ktimer_of
    &&& if k.core.ctx[i as int].is_cfs {
        r.core.priority_sum == if k.core.sched[i as int].priority <= k.core.priority_sum {
            k.core.priority_sum - k.core.sched[i as int].priority
        } else {
            0
        }
    } else {
        &&& r.core.priority_sum == k.core.priority_sum
        &&& !r.queued.contains(k.core.ktimer_of[i as int]->0)
    }
    &&& forall|j: int|
        0 <= j < k.core.wait.len() && j != i ==> #[trigger] r.core.wait[j] == k.core.wait[j]
    &&& wait_timer_is_set(r)
    &&& r.core.next_ktimer is Some
    &&& decides(r, r.core.next_ktimer->0)
}

/// A change that touches neither timers nor the wait queue.
pub proof fn lemma_same_timers(a: KernelView, b: KernelView)
    requires
        a.queued == b.queued,
        a.core.timers == b.core.timers,
        a.core.wait == b.core.wait,
        a.core.waiting == b.core.waiting,
    ensures
        wait_timer_is_set(a) ==> wait_timer_is_set(b),
        forall|t: usize| #[trigger] decides(a, t) ==> decides(b, t),
{
    if wait_timer_is_set(a) && a.core.timers[WAIT_KTIMER as int].deadline_at != u64::MAX {
        let i = choose|i: usize| #[trigger]
            a.core.waiting.contains(i) && a.core.timers[WAIT_KTIMER as int].deadline_at
                == a.core.wait[i as int].wake_at;
        assert(b.core.waiting.contains(i));
    }
    assert forall|t: usize| #[trigger] decides(a, t) implies decides(b, t) by {
        assert forall|s: usize| #[trigger]
            b.queued.contains(s) && b.core.timers[s as int].active implies b.core.timers[t as int].deadline_at
            <= b.core.timers[s as int].deadline_at by {
            assert(a.queued.contains(s));
        }
        if !competes(a, t) {
            assert forall|s: usize| #[trigger] b.queued.contains(s) implies !b.core.timers[s as int].active by {
                assert(a.queued.contains(s));
            }
        }
    }
}

/// The current thread has a timer of its own, or is a fair one.
pub open spec fn current_has_timer(k: KernelView) -> bool {
    let i = k.core.current->0;
    &&& !k.core.ctx[i as int].is_cfs ==> k.core.ktimer_of[i as int] is Some
        && k.core.timer_owner[k.core.ktimer_of[i as int]->0 as int] == Some(i)
    &&& forall|s: usize| #[trigger]
        k.queued.contains(s) && k.core.timer_owner[s as int] == Some(i) ==> k.core.ktimer_of[i as int]
            == Some(s)
}

/// A turn that ended, followed by the move to the wait queue.
proof fn lemma_turn_then_park(k: KernelView, w: KernelView, r: KernelView, elapsed: u32)
    requires
        k.ok(),
        k.core.current is Some,
        current_has_timer(k),
        k.core.same_threads(CoreView { wait: k.core.wait, ..w.core }),
        w.core.wait == k.core.wait.update(
            k.core.current->0 as int,
            w.core.wait[k.core.current->0 as int],
        ),
        w.queued == k.queued,
        w.core.timers.len() == k.core.timers.len(),
        ends_turn(k, w, k.core.current->0, elapsed),
        keeps_others_ahead(k, w, k.core.current->0),
        has_parked(w, r, k.core.current->0),
        keeps_others_ahead(w, r, k.core.current->0),
        k.core.current_is_cfs && w.core.timers[CFS_KTIMER as int].deadline_at > w.now
            ==> r.core.timers[CFS_KTIMER as int].deadline_at
            == w.core.timers[CFS_KTIMER as int].deadline_at,
        r.core.timers.len() == w.core.timers.len(),
    ensures
        starts_waiting(k, r, k.core.current->0),
        ends_turn(k, r, k.core.current->0, elapsed),
        keeps_others_ahead(k, r, k.core.current->0),
        r.core.wait == w.core.wait,
        r.core.sync == k.core.sync,
{
    let i = k.core.current->0;
    assert forall|s: usize| #[trigger] w.queued.contains(s) && w.core.timer_owner[s as int] == Some(
        i,
    ) implies w.core.ktimer_of[i as int] == Some(s) by {
        assert(k.queued.contains(s));
    }
    assert(r.core.runtime[i as int] == w.core.runtime[i as int]);
    if !k.core.ctx[i as int].is_cfs {
        assert(!k.core.run.contains(i));
        assert(k.core.run.remove(i) =~= k.core.run);
    }
    assert forall|s: usize|
        2 <= s < k.core.timers.len() && (k.core.ctx[i as int].is_cfs || k.core.ktimer_of[i as int]
            != Some(s)) && k.core.timers[s as int].deadline_at > r.now implies #[trigger] r.core.timers[s as int]
        == k.core.timers[s as int] by {
        assert(w.core.timers[s as int] == k.core.timers[s as int]);
    }
    assert forall|s: usize| #[trigger]
        k.queued.contains(s) && (k.core.ctx[i as int].is_cfs || k.core.ktimer_of[i as int] != Some(
            s,
        )) implies r.queued.contains(s) by {
        assert(w.queued.contains(s));
    }
    assert forall|s: usize| s >= 2 && #[trigger] r.queued.contains(s) implies k.queued.contains(s) by {
        assert(w.queued.contains(s));
    }
    assert(k.core.wait.update(i as int, w.core.wait[i as int]) == r.core.wait);
}

proof fn lemma_waits_after_turn(k: KernelView, entity: WaitEntity, elapsed: u32) -> (r: KernelView)
    requires
        k.can_block(),
        current_has_timer(k),
        k.now + elapsed + u32::MAX <= u64::MAX,
        ({
            let i = k.core.current->0;
            let y = k.turn_yielded(k.core.scheduler_timer(i)->0, elapsed, false).0;
            let w = y.with_core(y.core.with_wait(i, entity));
            if k.core.current_is_cfs {
                w.cfs_parked(i).1 is Ok
            } else {
                w.rt_parked(i).1 is Ok
            }
        }),
    ensures
        ({
            let i = k.core.current->0;
            let y = k.turn_yielded(k.core.scheduler_timer(i)->0, elapsed, false).0;
            let w = y.with_core(y.core.with_wait(i, entity));
            r == if k.core.current_is_cfs {
                w.cfs_parked(i).0
            } else {
                w.rt_parked(i).0
            }
        }),
        starts_waiting(k, r, k.core.current->0),
        ends_turn(k, r, k.core.current->0, elapsed),
        keeps_others_ahead(k, r, k.core.current->0),
        r.core.wait[k.core.current->0 as int] == entity,
        r.core.sync == k.core.sync,
        has_timers(r),
        r.core.timers.len() == k.core.timers.len(),
{
    let i = k.core.current->0;
    let t = k.core.scheduler_timer(i)->0;
    let y = k.turn_yielded(t, elapsed, false).0;
    let w = y.with_core(y.core.with_wait(i, entity));
    if t >= 2 {
        assert(k.core.ktimer_of[i as int] == Some(t));
    }
    lemma_turn_ends(k, i, t, elapsed);
    crate::lifecycle::lemma_turn_ended_ok(k, elapsed, false);
    crate::lifecycle::lemma_turn_yielded_threads(k, t, elapsed, false);
    lemma_turn_keeps_fault(k, t, elapsed);
    lemma_ready_to_park(k, y, entity);
    let r = if k.core.current_is_cfs {
        lemma_fair_thread_parks(w, i);
        w.cfs_parked(i).0
    } else {
        lemma_rt_thread_parks(w, i);
        w.rt_parked(i).0
    };
    lemma_turn_then_park(k, w, r, elapsed);
    r
}

proof fn lemma_turn_keeps_fault(k: KernelView, t: usize, elapsed: u32)
    ensures
        k.turn_yielded(t, elapsed, false).0.core.fault == k.core.fault,
{
}

/// The state stays consistent when the wait entity of a thread changes.
proof fn lemma_ready_to_park(k: KernelView, y: KernelView, entity: WaitEntity)
    requires
        k.steady(),
        k.core.current is Some,
        y.ok(),
        k.core.same_threads(y.core),
        y.queued == k.queued,
    ensures
        y.with_core(y.core.with_wait(k.core.current->0, entity)).ok(),
        y.with_core(y.core.with_wait(k.core.current->0, entity)).owned(),
{
    let w = y.with_core(y.core.with_wait(k.core.current->0, entity));
    assert forall|s: usize| #[trigger] w.queued.contains(s) && s >= 2 implies w.core.timer_owner[s as int]
        is Some by {
        assert(k.queued.contains(s));
    }
}

/// All threads whose time has come wake, and no other.
pub proof fn lemma_all_due_threads_wake(k: KernelView, elapsed: u32)
    requires
        k.ok(),
        k.core.waiting.finite(),
    ensures
        ({
            let r = k.woken_all(elapsed);
            &&& forall|i: usize| #[trigger]
                r.core.waiting.contains(i) <==> k.core.waiting.contains(i)
                    && k.core.wait[i as int].wake_at > k.now
            &&& r.core.wait == k.core.wait
            &&& r.core.ctx.len() == k.core.ctx.len()
            &&& forall|i: usize|
                i < k.core.ctx.len() ==> #[trigger] r.core.ctx[i as int]
                    == if k.core.waiting.contains(i) && k.core.wait[i as int].wake_at <= k.now {
                    ThreadCtx { state: ThreadState::Ready, ..k.core.ctx[i as int] }
                } else {
                    k.core.ctx[i as int]
                }
        }),
    decreases k.core.waiting.len(),
{
    if k.has_due_waiter() {
        let f = k.core.first_wait()->0;
        crate::dispatch::lemma_woken_shrinks(k, f, elapsed);
        crate::dispatch::lemma_woken(k, f, elapsed);
        let w = k.woken(f, elapsed);
        if k.core.ctx[f as int].is_cfs {
            crate::laws::fair::lemma_sleeper_rejoins_level(k, f, elapsed);
        } else if k.core.ktimer_of[f as int] is Some {
            crate::laws::timing::lemma_sleeper_resumes_job(k, f, elapsed);
        } else {
            lemma_sleeper_without_timer(k, f, elapsed);
        }
        lemma_all_due_threads_wake(w, elapsed);
        let r = k.woken_all(elapsed);
        assert(r == w.woken_all(elapsed));
        assert forall|i: usize| i < k.core.ctx.len() implies #[trigger] r.core.ctx[i as int]
            == if k.core.waiting.contains(i) && k.core.wait[i as int].wake_at <= k.now {
            ThreadCtx { state: ThreadState::Ready, ..k.core.ctx[i as int] }
        } else {
            k.core.ctx[i as int]
        } by {
            assert(i != f ==> w.core.waiting.contains(i) == k.core.waiting.contains(i));
            assert(w.core.ctx[i as int] == if i == f {
                ThreadCtx { state: ThreadState::Ready, ..k.core.ctx[i as int] }
            } else {
                k.core.ctx[i as int]
            });
        }
        assert forall|i: usize| #[trigger] r.core.waiting.contains(i) <==> k.core.waiting.contains(i)
            && k.core.wait[i as int].wake_at > k.now by {
            assert(w.core.waiting.contains(i) <==> k.core.waiting.contains(i) && i != f);
        }
    } else if k.core.waiting != Set::<usize>::empty() {
        crate::rbtree::lemma_first_exists::<WaitEntity>(k.core.wait, k.core.waiting);
        let first = k.core.first_wait()->0;
        assert forall|i: usize| #[trigger] k.core.waiting.contains(i) implies k.core.wait[i as int].wake_at
            > k.now by {
            if i != first {
                assert(crate::rbtree::before::<WaitEntity>(k.core.wait, first, i));
            }
        }
    }
}

/// A tick wakes exactly the threads whose time has come: they are ready and no longer
/// wait. All others keep their state, and nothing but the state of a thread changes.
pub proof fn lemma_tick_wakes_on_time(k: KernelView, elapsed: u32)
    requires
        (KernelView { now: k.now.saturating_add(elapsed as u64), ..k }).dispatchable(),
        k.settled(),
        k.wait_timer_set(),
        k.core.fault is None,
        k.ticked(elapsed).core.fault is None,
        k.now + elapsed <= u64::MAX,
    ensures
        ({
            let r = k.ticked(elapsed);
            &&& forall|i: usize| #[trigger]
                r.core.waiting.contains(i) <==> k.core.waiting.contains(i)
                    && k.core.wait[i as int].wake_at > k.now + elapsed
            &&& r.core.ctx.len() == k.core.ctx.len()
            &&& forall|i: usize|
                i < k.core.ctx.len() ==> #[trigger] r.core.ctx[i as int]
                    == if k.core.waiting.contains(i) && k.core.wait[i as int].wake_at <= k.now
                    + elapsed {
                    ThreadCtx { state: ThreadState::Ready, ..k.core.ctx[i as int] }
                } else {
                    k.core.ctx[i as int]
                }
        }),
{
    let later = KernelView { now: k.now.saturating_add(elapsed as u64), ..k };
    let r = k.ticked(elapsed);
    crate::lifecycle::lemma_tick_wakes_due(k, elapsed);
    crate::lifecycle::lemma_ticked_settled(k, elapsed);
    assert forall|i: usize| #[trigger] r.core.waiting.contains(i) <==> k.core.waiting.contains(i)
        && k.core.wait[i as int].wake_at > k.now + elapsed by {
        assert(r.core.waiting.contains(i) == later.not_due().contains(i));
    }
    assert forall|i: usize| i < k.core.ctx.len() implies #[trigger] r.core.ctx[i as int]
        == if k.core.waiting.contains(i) && k.core.wait[i as int].wake_at <= k.now + elapsed {
        ThreadCtx { state: ThreadState::Ready, ..k.core.ctx[i as int] }
    } else {
        k.core.ctx[i as int]
    } by {
        if k.core.ctx[i as int].state is Waiting {
            assert(k.core.waiting.contains(i));
        }
        if r.core.ctx[i as int].state is Waiting {
            assert(r.core.waiting.contains(i));
        }
        if r.core.waiting.contains(i) {
            assert(r.core.ctx[i as int].state is Waiting);
        }
    }
}

/// A real-time thread without a timer is simply ready when it wakes.
pub proof fn lemma_sleeper_without_timer(k: KernelView, i: usize, elapsed: u32)
    requires
        i < k.core.ctx.len(),
        !k.core.ctx[i as int].is_cfs,
        k.core.ktimer_of[i as int] is None,
    ensures
        k.woken(i, elapsed).core.ctx == k.core.ctx.update(
            i as int,
            ThreadCtx { state: ThreadState::Ready, ..k.core.ctx[i as int] },
        ),
        k.woken(i, elapsed).core.waiting == k.core.waiting.remove(i),
        k.woken(i, elapsed).queued == k.queued,
        k.woken(i, elapsed).core.timers == k.core.timers,
        k.woken(i, elapsed).core.runtime == k.core.runtime,
        k.woken(i, elapsed).core.run == k.core.run,
{
}

/// Neither a fair thread nor one without a timer can move between the timer queue and
/// the wait queue; nothing changes.
pub proof fn lemma_no_timer_no_move(k: KernelView, i: usize)
    requires
        k.core.ctx[i as int].is_cfs || k.core.ktimer_of[i as int] is None,
    ensures
        k.rt_parked(i) == (
            k,
            Err::<(), crate::waitq::WaitQueueError>(crate::waitq::WaitQueueError::NotFound),
        ),
        k.rt_unparked(i) == (
            k,
            Err::<(), crate::waitq::WaitQueueError>(crate::waitq::WaitQueueError::NotFound),
        ),
{
}

/// A thread that goes to sleep waits for the given number of milliseconds from now on,
/// as far as that can be counted, and for no event. Its turn has ended.
pub proof fn lemma_sleep(k: KernelView, msec: u32, elapsed: u32)
    requires
        k.can_block(),
        current_has_timer(k),
        k.now + elapsed + u32::MAX <= u64::MAX,
        k.slept(msec, elapsed).core.fault is None,
    ensures
        ({
            let r = k.slept(msec, elapsed);
            let i = k.core.current->0;
            let wanted = msec * (k.core.clock.freq / 1000);
            &&& starts_waiting(k, r, i)
            &&& r.core.switch_pending
            &&& ends_turn(k, r, i, elapsed)
            &&& keeps_others_ahead(k, r, i)
            &&& r.core.wait[i as int].waitevt == 0
            &&& r.core.wait[i as int].wake_at == r.now + if wanted <= u32::MAX {
                wanted
            } else {
                u32::MAX as int
            }
        }),
{
    let i = k.core.current->0;
    let y = k.turn_yielded(k.core.scheduler_timer(i)->0, elapsed, false).0;
    let ticks = crate::current::saturating_product(msec, k.core.clock.ticks());
    let entity = WaitEntity {
        wake_at: y.now.saturating_add(ticks as u64),
        waitevt: 0,
        ..y.core.wait[i as int]
    };
    crate::lifecycle::lemma_turn_yielded_threads(
        k,
        k.core.scheduler_timer(i)->0,
        elapsed,
        false,
    );
    let r = lemma_waits_after_turn(k, entity, elapsed);
    lemma_same_timers(r, k.slept(msec, elapsed));
}

/// A thread that blocks waits for the event alone, without an end. It queues with the
/// deadline by which it competed. Its turn has ended.
pub proof fn lemma_block(k: KernelView, kind: crate::sync::SyncType, elapsed: u32)
    requires
        k.can_block(),
        current_has_timer(k),
        k.now + elapsed + u32::MAX <= u64::MAX,
        k.blocked_on(kind, elapsed).1 is Ok,
    ensures
        ({
            let (r, result) = k.blocked_on(kind, elapsed);
            let i = k.core.current->0;
            let competed = k.core.timers[(if k.core.ctx[i as int].is_cfs {
                CFS_KTIMER
            } else {
                k.core.ktimer_of[i as int]->0
            }) as int].deadline_at;
            &&& result->Ok_0 == competed
            &&& starts_waiting(k, r, i)
            &&& r.core.switch_pending
            &&& ends_turn(k, r, i, elapsed)
            &&& keeps_others_ahead(k, r, i)
            &&& r.core.wait[i as int].wake_at == u64::MAX
            &&& r.core.wait[i as int].waitevt == kind.tag()
            &&& r.core.sync[i as int].deadline_at == competed
            &&& forall|j: int|
                0 <= j < k.core.sync.len() && j != i ==> #[trigger] r.core.sync[j]
                    == k.core.sync[j]
            &&& has_timers(r)
            &&& r.core.timers.len() == k.core.timers.len()
        }),
{
    let i = k.core.current->0;
    let y = k.turn_yielded(k.core.scheduler_timer(i)->0, elapsed, false).0;
    let entity = WaitEntity {
        wake_at: crate::sync::WAIT_FOREVER_TICKS,
        waitevt: kind.tag(),
        ..y.core.wait[i as int]
    };
    let r = lemma_waits_after_turn(k, entity, elapsed);
    let b = k.blocked_on(kind, elapsed).0;
    assert(r == k.blocked(kind, elapsed).0);
    lemma_same_timers(r, b);
    assert(starts_waiting(k, b, i));
    assert(ends_turn(k, b, i, elapsed));
    assert(keeps_others_ahead(k, b, i));
}

} // verus!
