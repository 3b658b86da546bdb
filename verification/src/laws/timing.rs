//! Laws of timers and of real-time jobs.

use crate::kernel::KernelView;
use crate::ktimer::{KTimerEntity, CFS_KTIMER, WAIT_KTIMER};
use crate::thread::{ThreadCtx, ThreadState};
use vstd::prelude::*;

verus! {

/// The timer in the slot is queued and active, so that it can decide a dispatch.
pub open spec fn competes(k: KernelView, t: usize) -> bool {
    k.queued.contains(t) && k.core.timers[t as int].active
}

/// The timer has the earliest deadline of all that compete. It competes itself, or
/// nobody does and it is the fair scheduling timer.
pub open spec fn decides(k: KernelView, t: usize) -> bool {
    &&& competes(k, t) || t == CFS_KTIMER && forall|s: usize| #[trigger]
        k.queued.contains(s) ==> !k.core.timers[s as int].active
    &&& forall|s: usize| #[trigger]
        k.queued.contains(s) && k.core.timers[s as int].active
            ==> k.core.timers[t as int].deadline_at <= k.core.timers[s as int].deadline_at
}

/// The first active timer competes and has the earliest deadline.
pub proof fn lemma_first_active(k: KernelView)
    ensures
        match k.first_active() {
            Some(t) => competes(k, t) && decides(k, t),
            None => forall|s: usize| #[trigger]
                k.queued.contains(s) ==> !k.core.timers[s as int].active,
        },
{
    let ids = crate::ktimer::active_ids(k.core.timers, k.queued);
    if ids == Set::<usize>::empty() {
        crate::rbtree::lemma_first_of_empty::<KTimerEntity>(k.core.timers, ids);
        assert forall|s: usize| #[trigger] k.queued.contains(s) implies !k.core.timers[s as int].active by {
            assert(!ids.contains(s));
        }
    } else {
        crate::rbtree::lemma_first_exists::<KTimerEntity>(k.core.timers, ids);
        let t = k.first_active()->0;
        assert(ids.contains(t));
        assert forall|s: usize| #[trigger]
            k.queued.contains(s) && k.core.timers[s as int].active implies k.core.timers[t as int].deadline_at
            <= k.core.timers[s as int].deadline_at by {
            assert(ids.contains(s));
            if s != t {
                assert(crate::rbtree::before::<KTimerEntity>(k.core.timers, t, s));
            }
        }
    }
}

/// The queue holds timers that exist, and the two timers of the scheduler do.
pub open spec fn has_timers(k: KernelView) -> bool {
    &&& k.core.timers.len() >= 2
    &&& forall|t: usize| #[trigger] k.queued.contains(t) ==> t < k.core.timers.len()
}

/// The timer that is chosen decides, and choosing it changes nothing but that the fair
/// scheduling timer becomes active when no timer is.
pub proof fn lemma_chosen_decides(k: KernelView)
    requires
        has_timers(k),
    ensures
        k.chosen().1 is Some,
        decides(k.chosen().0, k.chosen().1->0),
        k.chosen().0.queued == k.queued,
        k.chosen().0.now == k.now,
        forall|t: usize|
            1 <= t < k.core.timers.len() ==> #[trigger] k.chosen().0.core.timers[t as int]
                == k.core.timers[t as int],
        k.chosen().0.core.timers[CFS_KTIMER as int].deadline_at
            == k.core.timers[CFS_KTIMER as int].deadline_at,
        k.chosen().0.core.timers[CFS_KTIMER as int].active ==> k.core.timers[CFS_KTIMER as int].active
            || forall|s: usize| #[trigger]
            k.queued.contains(s) ==> !k.core.timers[s as int].active,
{
    lemma_first_active(k);
}

/// Every queued timer of the real-time class has an owner.
pub open spec fn has_owners(k: KernelView) -> bool {
    forall|t: usize| t >= 2 && #[trigger] k.queued.contains(t) ==> k.core.timer_owner[t as int]
        is Some && k.core.timer_owner[t as int]->0 < k.core.runtime.len()
}

/// Some queued timer has thread `i` for its owner.
pub open spec fn owns_queued_timer(k: KernelView, i: usize) -> bool {
    exists|t: usize| #[trigger] k.queued.contains(t) && k.core.timer_owner[t as int] == Some(i)
}

/// Whenever the next timer is chosen anew without a missed deadline, the result decides:
/// it has the earliest deadline of all that compete. A timer whose deadline is still
/// ahead stays as it is, and no real-time timer becomes active or inactive.
pub proof fn lemma_next_timer_decides(k: KernelView)
    requires
        has_timers(k),
        k.refreshed().core.fault is None,
    ensures
        has_timers(k.refreshed()),
        k.refreshed().core.timers.len() == k.core.timers.len(),
        k.refreshed().now == k.now,
        k.refreshed().core.switch_pending == k.core.switch_pending,
        k.refreshed().core.trace == k.core.trace,
        k.refreshed().core.timer_names == k.core.timer_names,
        k.refreshed().core.next_thread_id == k.core.next_thread_id,
        k.refreshed().core.next_ktimer is Some,
        decides(k.refreshed(), k.refreshed().core.next_ktimer->0),
        k.queued.subset_of(k.refreshed().queued),
        forall|t: usize| t >= 1 && #[trigger]
            k.refreshed().queued.contains(t) ==> k.queued.contains(t),
        forall|t: usize|
            1 <= t < k.core.timers.len() && k.core.timers[t as int].deadline_at > k.now
                ==> #[trigger] k.refreshed().core.timers[t as int] == k.core.timers[t as int],
        k.core.timers[CFS_KTIMER as int].deadline_at > k.now
            ==> k.refreshed().core.timers[CFS_KTIMER as int] == (KTimerEntity {
            active: k.refreshed().core.timers[CFS_KTIMER as int].active,
            ..k.core.timers[CFS_KTIMER as int]
        }),
        forall|t: usize|
            1 <= t < k.core.timers.len() ==> (#[trigger] k.refreshed().core.timers[t as int]).active
                == k.core.timers[t as int].active,
        has_owners(k) && !k.core.timers[WAIT_KTIMER as int].active ==> {
            &&& k.refreshed().core.runtime.len() == k.core.runtime.len()
            &&& forall|i: usize|
                i < k.core.runtime.len() && !#[trigger] owns_queued_timer(k, i)
                    ==> k.refreshed().core.runtime[i as int] == k.core.runtime[i as int]
            &&& forall|i: int|
                0 <= i < k.core.runtime.len() ==> #[trigger] k.refreshed().core.runtime[i]
                    == k.core.runtime[i] || k.refreshed().core.runtime[i] == 0
        },
        forall|t: usize|
            1 <= t < k.core.timers.len() ==> {
                let was = k.core.timers[t as int];
                let after = #[trigger] k.refreshed().core.timers[t as int];
                &&& after.timing == was.timing
                &&& after.miss_cnt == was.miss_cnt
                &&& after.deadline_at == was.deadline_at || after.deadline_at == if k.now
                    + was.timing.relative_deadline_ticks <= u64::MAX {
                    k.now + was.timing.relative_deadline_ticks
                } else {
                    u64::MAX as int
                }
            },
        ({
            let was = k.core.timers[CFS_KTIMER as int];
            let after = k.refreshed().core.timers[CFS_KTIMER as int];
            &&& after.timing == was.timing
            &&& after.deadline_at == was.deadline_at || after.deadline_at == if k.now
                + was.timing.period_ticks <= u64::MAX {
                k.now + was.timing.period_ticks
            } else {
                u64::MAX as int
            }
        }),
{
    lemma_first_active(k);
    let (k1, t) = match k.first_active() {
        None => (k.cfs_activated(), CFS_KTIMER),
        Some(t) => (k, t),
    };
    if k1.core.timers[t as int].expired(k1.now) {
        let d = k1.dequeued(t);
        let timer = d.core.timers[t as int];
        if t == CFS_KTIMER {
            let re = timer.missed().after(d.now, timer.timing.period_ticks);
            lemma_chosen_decides(d.with_core(d.core.with_timer(t, re)).enqueued(t));
        } else {
            let i = d.core.timer_owner[t as int]->0;
            assert(k.queued.contains(t));
            if !d.core.over_deadline(t, i) {
                let re = timer.after(d.now, timer.timing.relative_deadline_ticks);
                lemma_chosen_decides(
                    d.with_core(d.core.with_runtime(i, 0).with_timer(t, re)).enqueued(t),
                );
            }
        }
    }
}

/// A timer that is queued competes from then on, if it is active.
pub proof fn lemma_timer_joins(k: KernelView, t: usize)
    requires
        has_timers(k),
        t < k.core.timers.len(),
        k.timer_added(t).core.fault is None,
    ensures
        ({
            let r = k.timer_added(t);
            &&& r.queued.contains(t)
            &&& k.queued.subset_of(r.queued)
            &&& t >= 1 && k.core.timers[t as int].deadline_at > k.now ==> r.core.timers[t as int]
                == k.core.timers[t as int]
            &&& t == CFS_KTIMER && k.core.timers[t as int].deadline_at > k.now ==> (KTimerEntity {
                active: r.core.timers[t as int].active,
                ..k.core.timers[t as int]
            }) == r.core.timers[t as int]
            &&& r.core.next_ktimer is Some
            &&& decides(r, r.core.next_ktimer->0)
        }),
{
    let queued = k.enqueued(t);
    assert(has_timers(queued));
    lemma_next_timer_decides(queued);
    assert(queued.queued.contains(t));
    assert forall|s: usize| k.queued.contains(s) implies k.timer_added(t).queued.contains(s) by {
        assert(queued.queued.contains(s));
    }
}

/// A timer that is taken out no longer competes. If it was to decide, another one does.
pub proof fn lemma_timer_leaves(k: KernelView, t: usize)
    requires
        has_timers(k),
        2 <= t < k.core.timers.len(),
        k.core.fault is None,
        k.timer_removed(t).core.fault is None,
    ensures
        ({
            let r = k.timer_removed(t);
            &&& !r.queued.contains(t)
            &&& !r.core.timers[t as int].active
            &&& k.core.timers[t as int].deadline_at > k.now ==> r.core.timers[t as int] == (
            KTimerEntity { active: false, ..k.core.timers[t as int] })
            &&& forall|s: usize| #[trigger]
                k.queued.contains(s) && s != t ==> r.queued.contains(s)
            &&& forall|s: usize|
                2 <= s < k.core.timers.len() && s != t && k.core.timers[s as int].deadline_at
                    > k.now ==> #[trigger] r.core.timers[s as int] == k.core.timers[s as int]
            &&& k.core.next_ktimer == Some(t) ==> r.core.next_ktimer is Some && decides(
                r,
                r.core.next_ktimer->0,
            )
            &&& k.core.next_ktimer != Some(t) ==> r.core.next_ktimer == k.core.next_ktimer
        }),
{
    let d = k.dequeued(t);
    let parked = d.with_core(d.core.with_timer(t, d.core.timers[t as int].with_active(false)));
    assert(has_timers(parked));
    let r = k.timer_removed(t);
    if k.core.next_ktimer == Some(t) {
        lemma_next_timer_decides(parked);
        assert(!parked.queued.contains(t));
    }
    assert forall|s: usize| #[trigger] k.queued.contains(s) && s != t implies r.queued.contains(s) by {
        assert(parked.queued.contains(s));
    }
    assert forall|s: usize|
        2 <= s < k.core.timers.len() && s != t && k.core.timers[s as int].deadline_at
            > k.now implies #[trigger] r.core.timers[s as int] == k.core.timers[s as int] by {
        assert(parked.core.timers[s as int] == k.core.timers[s as int]);
    }
}

/// A timer that is queued again competes, by the deadline it had if that is still ahead.
pub proof fn lemma_timer_returns(k: KernelView, t: usize)
    requires
        has_timers(k),
        2 <= t < k.core.timers.len(),
        k.timer_reinserted(t).core.fault is None,
    ensures
        ({
            let r = k.timer_reinserted(t);
            &&& competes(r, t)
            &&& k.core.timers[t as int].deadline_at > k.now ==> r.core.timers[t as int] == (
            KTimerEntity { active: true, ..k.core.timers[t as int] })
            &&& k.queued.subset_of(r.queued)
            &&& r.core.next_ktimer is Some
            &&& decides(r, r.core.next_ktimer->0)
            &&& r.core.timers[r.core.next_ktimer->0 as int].deadline_at
                <= r.core.timers[t as int].deadline_at
        }),
{
    let queued = k.with_core(
        k.core.with_timer(t, k.core.timers[t as int].with_active(true)),
    ).enqueued(t);
    assert(has_timers(queued));
    lemma_next_timer_decides(queued);
    assert(queued.queued.contains(t));
    assert(k.timer_reinserted(t).queued.contains(t));
    assert forall|s: usize| k.queued.contains(s) implies k.timer_reinserted(t).queued.contains(s) by {
        assert(queued.queued.contains(s));
    }
}

/// A timer that would decide but has expired gets a new deadline first: a real-time timer
/// starts the next job of its owner, and the fair scheduling timer its next period, with
/// a miss. If the owner has run past its relative deadline, the scheduler stops instead;
/// it stops for nothing else.
pub proof fn lemma_expired_choice(k: KernelView, t: usize)
    requires
        has_timers(k),
        k.core.fault is None,
        k.first_active() == Some(t),
        k.core.timers[t as int].deadline_at <= k.now,
        t >= 2 ==> k.core.timer_owner[t as int] is Some && k.core.timer_owner[t as int]->0
            < k.core.runtime.len(),
        t != WAIT_KTIMER,
    ensures
        ({
            let r = k.refreshed();
            let was = k.core.timers[t as int];
            let after = r.core.timers[t as int];
            let i = k.core.timer_owner[t as int]->0;
            let missed = t >= 2 && k.core.runtime[i as int] > was.timing.relative_deadline_ticks;
            &&& r.core.fault is Some == missed
            &&& missed ==> {
                &&& r.core.fault == Some(i)
                &&& after.deadline_at == was.deadline_at
                &&& after.miss_cnt == if was.miss_cnt < u32::MAX {
                    was.miss_cnt + 1
                } else {
                    u32::MAX as int
                }
                &&& r.core.runtime == k.core.runtime
                &&& !r.queued.contains(t)
            }
            &&& t >= 2 && !missed ==> {
                &&& k.now + was.timing.relative_deadline_ticks <= u64::MAX ==> after.deadline_at
                    == k.now + was.timing.relative_deadline_ticks
                &&& after.miss_cnt == was.miss_cnt
                &&& after.active
                &&& r.core.runtime == k.core.runtime.update(i as int, 0)
            }
            &&& t == CFS_KTIMER ==> {
                &&& k.now + was.timing.period_ticks <= u64::MAX ==> after.deadline_at == k.now
                    + was.timing.period_ticks
                &&& after.miss_cnt == if was.miss_cnt < u32::MAX {
                    was.miss_cnt + 1
                } else {
                    u32::MAX as int
                }
                &&& r.core.runtime == k.core.runtime
            }
        }),
{
    lemma_first_active(k);
    let d = k.dequeued(t);
    let timer = d.core.timers[t as int];
    assert(k.queued.contains(t));
    if t == CFS_KTIMER {
        let re = timer.missed().after(d.now, timer.timing.period_ticks);
        lemma_chosen_decides(d.with_core(d.core.with_timer(t, re)).enqueued(t));
    } else {
        let i = d.core.timer_owner[t as int]->0;
        if !d.core.over_deadline(t, i) {
            let re = timer.after(d.now, timer.timing.relative_deadline_ticks);
            let next = d.with_core(d.core.with_runtime(i, 0).with_timer(t, re)).enqueued(t);
            lemma_chosen_decides(next);
            assert(next.chosen().0.core.timers[t as int] == next.core.timers[t as int]);
        }
    }
}

/// As long as no timer that competes has expired, choosing the next timer changes nothing
/// but the choice, and the fair scheduling timer becomes active if no timer is.
pub proof fn lemma_calm_choice(k: KernelView)
    requires
        has_timers(k),
        k.core.fault is None,
        forall|t: usize| #[trigger]
            k.queued.contains(t) && k.core.timers[t as int].active
                ==> k.core.timers[t as int].deadline_at > k.now,
        k.core.timers[CFS_KTIMER as int].deadline_at > k.now,
    ensures
        k.refreshed().core.fault is None,
        k.refreshed().queued == k.queued,
        k.refreshed().core.runtime == k.core.runtime,
        forall|t: usize|
            1 <= t < k.core.timers.len() ==> #[trigger] k.refreshed().core.timers[t as int]
                == k.core.timers[t as int],
{
    lemma_first_active(k);
}

/// Real-time thread `i` goes on with its job: what has elapsed is charged to it, and its
/// timer `t` competes and expires when what is left of the relative deadline is over. A
/// job that has used more than its budget is a miss.
pub open spec fn resumes(k: KernelView, r: KernelView, i: usize, t: usize, elapsed: u32) -> bool {
    let was = k.core.timers[t as int];
    let after = r.core.timers[t as int];
    let charged = k.core.runtime[i as int] + elapsed;
    let relative = was.timing.relative_deadline_ticks as int;
    &&& r.queued.contains(t)
    &&& after.active
    &&& after.timing == was.timing
    &&& r.core.runtime[i as int] == if charged > u32::MAX {
        u32::MAX as int
    } else {
        charged
    }
    &&& after.miss_cnt == if r.core.runtime[i as int] > was.timing.budget_ticks && was.miss_cnt
        < u32::MAX {
        was.miss_cnt + 1
    } else {
        was.miss_cnt as int
    }
    &&& charged <= relative && k.now + relative <= u64::MAX ==> after.deadline_at == k.now + relative
        - charged
    &&& charged > relative ==> after.deadline_at == k.now
}

/// Real-time thread `i` has slept up to the end of its relative deadline: its next job
/// starts at once, with no time used and the whole relative deadline ahead.
pub open spec fn restarts(k: KernelView, r: KernelView, i: usize, t: usize, elapsed: u32) -> bool {
    let was = k.core.timers[t as int];
    let after = r.core.timers[t as int];
    let charged = k.core.runtime[i as int] + elapsed;
    let relative = was.timing.relative_deadline_ticks as int;
    &&& relative <= charged
    &&& charged <= relative || relative == u32::MAX
    &&& r.queued.contains(t)
    &&& after.active
    &&& after.timing == was.timing
    &&& after.deadline_at == k.now + relative
    &&& r.core.runtime[i as int] == 0
    &&& after.miss_cnt == if relative > was.timing.budget_ticks && was.miss_cnt < u32::MAX {
        was.miss_cnt + 1
    } else {
        was.miss_cnt as int
    }
}

/// A real-time thread whose sleep is over goes on with its job. It is ready and no longer
/// waits; other threads, timers and jobs are left alone.
pub proof fn lemma_sleeper_resumes_job(k: KernelView, i: usize, elapsed: u32)
    requires
        k.ok(),
        k.core.waiting.contains(i),
        !k.core.ctx[i as int].is_cfs,
        k.core.ktimer_of[i as int] is Some,
    ensures
        resumes(k, k.woken(i, elapsed), i, k.core.ktimer_of[i as int]->0, elapsed),
        k.woken(i, elapsed).core.waiting == k.core.waiting.remove(i),
        k.woken(i, elapsed).core.ctx == k.core.ctx.update(
            i as int,
            ThreadCtx { state: ThreadState::Ready, ..k.core.ctx[i as int] },
        ),
        k.woken(i, elapsed).queued == k.queued.insert(k.core.ktimer_of[i as int]->0),
        k.woken(i, elapsed).core.run == k.core.run,
        k.woken(i, elapsed).core.sched == k.core.sched,
        k.woken(i, elapsed).core.timers == k.core.timers.update(
            k.core.ktimer_of[i as int]->0 as int,
            k.woken(i, elapsed).core.timers[k.core.ktimer_of[i as int]->0 as int],
        ),
        k.woken(i, elapsed).core.runtime == k.core.runtime.update(
            i as int,
            k.woken(i, elapsed).core.runtime[i as int],
        ),
{
    let t = k.core.ktimer_of[i as int]->0;
    let r = k.woken(i, elapsed);
    assert(r.core.timers =~= k.core.timers.update(t as int, r.core.timers[t as int]));
    assert(r.core.runtime =~= k.core.runtime.update(i as int, r.core.runtime[i as int]));
    assert(r.core.ctx =~= k.core.ctx.update(
        i as int,
        ThreadCtx { state: ThreadState::Ready, ..k.core.ctx[i as int] },
    ));
}

/// What the dispatch of expired timers may do to the timer `t` of real-time thread `i`,
/// step by step.
///
/// A thread that waits is left alone, until it wakes and goes on with its job. The timer
/// of any other thread is left alone before its deadline; after it, a new job starts,
/// which is only possible if the old one was over or in time.
pub open spec fn moves_job(a: KernelView, b: KernelView, i: usize, t: usize, elapsed: u32) -> bool {
    let was = a.core.timers[t as int];
    let after = b.core.timers[t as int];
    let same = after == was && b.core.runtime[i as int] == a.core.runtime[i as int];
    if a.core.waiting.contains(i) {
        if b.core.waiting.contains(i) {
            same
        } else {
            resumes(a, b, i, t, elapsed) || restarts(a, b, i, t, elapsed)
        }
    } else {
        &&& !b.core.waiting.contains(i)
        &&& b.queued.contains(t)
        &&& was.deadline_at > a.now ==> same
        &&& was.deadline_at <= a.now ==> same || {
            &&& after == (KTimerEntity {
                deadline_at: (if a.now + was.timing.relative_deadline_ticks > u64::MAX {
                    u64::MAX as int
                } else {
                    a.now + was.timing.relative_deadline_ticks
                }) as u64,
                active: true,
                ..was
            })
            &&& b.core.runtime[i as int] == 0
            &&& was.active ==> a.core.runtime[i as int] <= was.timing.relative_deadline_ticks
        }
    }
}

/// What the dispatch may do to all real-time jobs.
pub open spec fn moves_jobs(a: KernelView, b: KernelView, elapsed: u32) -> bool {
    &&& b.now == a.now
    &&& b.core.ktimer_of == a.core.ktimer_of
    &&& b.core.ctx.len() == a.core.ctx.len()
    &&& forall|i: usize|
        i < a.core.ctx.len() && (#[trigger] a.core.ktimer_of[i as int]) is Some ==> moves_job(
            a,
            b,
            i,
            a.core.ktimer_of[i as int]->0,
            elapsed,
        )
}

/// The clock is not at its end, relative deadlines are not zero, and a timer is that of
/// its owner.
pub open spec fn can_move_on(k: KernelView) -> bool {
    &&& k.now + u32::MAX < u64::MAX
    &&& forall|t: usize|
        t < k.core.timers.len() && (#[trigger] k.core.timer_owner[t as int]) is Some
            ==> k.core.ktimer_of[k.core.timer_owner[t as int]->0 as int] == Some(t)
    &&& forall|i: usize|
        i < k.core.ctx.len() && (#[trigger] k.core.ktimer_of[i as int]) is Some
            ==> k.core.timers[k.core.ktimer_of[i as int]->0 as int].timing.relative_deadline_ticks > 0
}

proof fn lemma_moves_jobs_twice(a: KernelView, b: KernelView, c: KernelView, elapsed: u32)
    requires
        can_move_on(a),
        moves_jobs(a, b, elapsed),
        moves_jobs(b, c, elapsed),
        c.core.waiting.subset_of(b.core.waiting),
        b.core.waiting.subset_of(a.core.waiting),
    ensures
        moves_jobs(a, c, elapsed),
{
    assert forall|i: usize|
        i < a.core.ctx.len() && (#[trigger] a.core.ktimer_of[i as int]) is Some implies moves_job(
        a,
        c,
        i,
        a.core.ktimer_of[i as int]->0,
        elapsed,
    ) by {
        let t = a.core.ktimer_of[i as int]->0;
        assert(b.core.ktimer_of[i as int] is Some);
        assert(moves_job(a, b, i, t, elapsed));
        assert(moves_job(b, c, i, t, elapsed));
    }
}

proof fn lemma_woken_moves_jobs(k: KernelView, i: usize, elapsed: u32)
    requires
        k.ok(),
        k.core.waiting.contains(i),
        can_move_on(k),
        forall|j: usize|
            j < k.core.ctx.len() && (#[trigger] k.core.ktimer_of[j as int]) is Some ==> {
                let t = k.core.ktimer_of[j as int]->0;
                &&& k.core.timer_owner[t as int] == Some(j)
                &&& k.queued.contains(t) == !k.core.waiting.contains(j)
            },
    ensures
        moves_jobs(k, k.woken(i, elapsed), elapsed),
        can_move_on(k.woken(i, elapsed)),
{
    let r = k.woken(i, elapsed);
    crate::dispatch::lemma_woken(k, i, elapsed);
    if k.core.ctx[i as int].is_cfs {
        crate::laws::fair::lemma_sleeper_rejoins_level(k, i, elapsed);
    } else if k.core.ktimer_of[i as int] is Some {
        lemma_sleeper_resumes_job(k, i, elapsed);
    }
    assert forall|j: usize|
        j < k.core.ctx.len() && (#[trigger] k.core.ktimer_of[j as int]) is Some implies moves_job(
        k,
        r,
        j,
        k.core.ktimer_of[j as int]->0,
        elapsed,
    ) by {
        let t = k.core.ktimer_of[j as int]->0;
        assert(k.core.timer_owner[t as int] is Some);
        if j != i {
            if !k.core.ctx[i as int].is_cfs && k.core.ktimer_of[i as int] is Some {
                assert(k.core.timer_owner[k.core.ktimer_of[i as int]->0 as int] == Some(i));
                assert(k.core.ktimer_of[i as int]->0 != t);
            }
            assert(r.core.timers[t as int] == k.core.timers[t as int]);
            assert(r.core.runtime[j as int] == k.core.runtime[j as int]);
        }
    }
}

proof fn lemma_woken_all_moves_jobs(k: KernelView, elapsed: u32)
    requires
        k.ok(),
        k.core.waiting.finite(),
        k.settled(),
        can_move_on(k),
    ensures
        moves_jobs(k, k.woken_all(elapsed), elapsed),
        can_move_on(k.woken_all(elapsed)),
    decreases k.core.waiting.len(),
{
    if k.has_due_waiter() {
        let i = k.core.first_wait()->0;
        crate::dispatch::lemma_woken_shrinks(k, i, elapsed);
        crate::dispatch::lemma_woken(k, i, elapsed);
        let w = k.woken(i, elapsed);
        lemma_woken_moves_jobs(k, i, elapsed);
        crate::lifecycle::lemma_woken_settled(k, i, elapsed);
        lemma_woken_all_moves_jobs(w, elapsed);
        crate::dispatch::lemma_woken_all(w, elapsed);
        lemma_moves_jobs_twice(k, w, w.woken_all(elapsed), elapsed);
    }
}

/// What the dispatch may do to the fair scheduling timer, step by step.
///
/// It is left alone before its deadline. After it, an open window is closed until the end
/// of the period, and a closed one opens for the next period; one that would end at once
/// opens again.
pub open spec fn moves_window(a: KernelView, b: KernelView, elapsed: u32) -> bool {
    let was = a.core.timers[CFS_KTIMER as int];
    let after = b.core.timers[CFS_KTIMER as int];
    let period = was.timing.period_ticks;
    &&& b.queued.contains(CFS_KTIMER)
    &&& was.deadline_at > a.now ==> after == was
    &&& was.deadline_at <= a.now ==> {
        ||| after == was
        ||| was.active && after == (KTimerEntity {
            deadline_at: (a.now + if elapsed < period {
                period - elapsed
            } else {
                0
            }) as u64,
            active: false,
            ..was
        })
        ||| (was.active ==> period <= elapsed) && after == (KTimerEntity {
            deadline_at: (a.now + period) as u64,
            active: true,
            ..was
        })
    }
}

proof fn lemma_dispatched_first_moves(k: KernelView, elapsed: u32)
    requires
        k.due(),
        k.dispatchable(),
        k.settled(),
        can_move_on(k),
        k.dispatched_first(elapsed).core.fault is None,
    ensures
        moves_jobs(k, k.dispatched_first(elapsed), elapsed),
        moves_window(k, k.dispatched_first(elapsed), elapsed),
        can_move_on(k.dispatched_first(elapsed)),
        k.dispatched_first(elapsed).core.waiting.subset_of(k.core.waiting),
{
    let t = k.first()->0;
    let r = k.dispatched_first(elapsed);
    let d = k.dequeued(t);
    let f = choose|f: usize|
        crate::rbtree::is_first::<KTimerEntity>(k.core.timers, k.queued, f);
    assert(crate::rbtree::is_first::<KTimerEntity>(k.core.timers, k.queued, f));
    assert(k.queued.contains(t));
    if t == WAIT_KTIMER {
        assert(d.settled()) by {
            assert forall|j: usize|
                j < d.core.ctx.len() && (#[trigger] d.core.ktimer_of[j as int]) is Some implies {
                let s = d.core.ktimer_of[j as int]->0;
                &&& s >= 2
                &&& d.core.timer_owner[s as int] == Some(j)
                &&& d.queued.contains(s) == !d.core.waiting.contains(j)
            } by {
                assert(k.core.ktimer_of[j as int] is Some);
            }
        }
        lemma_woken_all_moves_jobs(d, elapsed);
        crate::dispatch::lemma_woken_all(d, elapsed);
        let w = d.woken_all(elapsed);
        assert forall|i: usize|
            i < k.core.ctx.len() && (#[trigger] k.core.ktimer_of[i as int]) is Some implies moves_job(
            k,
            r,
            i,
            k.core.ktimer_of[i as int]->0,
            elapsed,
        ) by {
            let s = k.core.ktimer_of[i as int]->0;
            assert(moves_job(d, w, i, s, elapsed));
            assert(r.core.timers[s as int] == w.core.timers[s as int]);
        }
        assert(w.core.timers[CFS_KTIMER as int] == k.core.timers[CFS_KTIMER as int]);
        assert(can_move_on(r)) by {
            assert forall|i: usize|
                i < r.core.ctx.len() && (#[trigger] r.core.ktimer_of[i as int]) is Some implies r.core.timers[r.core.ktimer_of[i as int]->0 as int].timing.relative_deadline_ticks
                > 0 by {
                assert(w.core.ktimer_of[i as int] is Some);
            }
        }
    } else if t == CFS_KTIMER {
        assert forall|i: usize|
            i < k.core.ctx.len() && (#[trigger] k.core.ktimer_of[i as int]) is Some implies moves_job(
            k,
            r,
            i,
            k.core.ktimer_of[i as int]->0,
            elapsed,
        ) by {}
    } else {
        let o = k.core.timer_owner[t as int]->0;
        assert(k.core.timer_owner[t as int] is Some);
        assert forall|i: usize|
            i < k.core.ctx.len() && (#[trigger] k.core.ktimer_of[i as int]) is Some implies moves_job(
            k,
            r,
            i,
            k.core.ktimer_of[i as int]->0,
            elapsed,
        ) by {
            let s = k.core.ktimer_of[i as int]->0;
            assert(k.core.timer_owner[s as int] == Some(i));
            if i != o {
                assert(s != t);
            }
        }
    }
}

proof fn lemma_dispatched_moves(k: KernelView, elapsed: u32)
    requires
        k.dispatchable(),
        k.settled(),
        can_move_on(k),
        k.core.fault is None,
        k.dispatched(elapsed).core.fault is None,
    ensures
        moves_jobs(k, k.dispatched(elapsed), elapsed),
        moves_window(k, k.dispatched(elapsed), elapsed),
        k.dispatched(elapsed).core.waiting.subset_of(k.core.waiting),
    decreases k.core.waiting.len(), k.closing(), k.expired_ids().len(),
{
    if k.due() {
        let r = k.dispatched_first(elapsed);
        crate::dispatch::lemma_dispatch_progress(k, elapsed);
        crate::dispatch::lemma_dispatched_first_kept(k, elapsed);
        if r.core.fault is None {
            crate::dispatch::lemma_dispatchable_kept(k, elapsed);
            crate::lifecycle::lemma_dispatched_first_settled(k, elapsed);
            lemma_dispatched_first_moves(k, elapsed);
            lemma_dispatched_moves(r, elapsed);
            lemma_moves_jobs_twice(k, r, r.dispatched(elapsed), elapsed);
        }
    } else {
        assert forall|i: usize|
            i < k.core.ctx.len() && (#[trigger] k.core.ktimer_of[i as int]) is Some implies moves_job(
            k,
            k,
            i,
            k.core.ktimer_of[i as int]->0,
            elapsed,
        ) by {}
    }
}

/// What a tick does to the job of real-time thread `i` with timer `t`.
///
/// A thread that sleeps on is left alone, and one whose time has come goes on with its
/// job, or starts the next one if the relative deadline is over; it has not run past that.
/// The job of any other thread is left alone before its deadline. At the deadline
/// the next job starts, with no time used and its whole relative deadline ahead; a job
/// that had not finished by then has not run past that deadline.
pub open spec fn ticks_job(k: KernelView, r: KernelView, i: usize, t: usize, elapsed: u32) -> bool {
    let was = k.core.timers[t as int];
    let after = r.core.timers[t as int];
    let later = KernelView { now: r.now, ..k };
    if k.core.waiting.contains(i) && k.core.wait[i as int].wake_at > r.now {
        &&& r.core.waiting.contains(i)
        &&& after == was
        &&& r.core.runtime[i as int] == k.core.runtime[i as int]
    } else if k.core.waiting.contains(i) {
        &&& !r.core.waiting.contains(i)
        &&& if k.core.runtime[i as int] + elapsed < was.timing.relative_deadline_ticks {
            resumes(later, r, i, t, elapsed)
        } else {
            restarts(later, r, i, t, elapsed)
        }
    } else if was.deadline_at > r.now {
        &&& r.queued.contains(t)
        &&& after == was
        &&& r.core.runtime[i as int] == k.core.runtime[i as int]
    } else {
        &&& r.queued.contains(t)
        &&& after.active
        &&& after.deadline_at == r.now + was.timing.relative_deadline_ticks
        &&& after.timing == was.timing
        &&& after.miss_cnt == was.miss_cnt
        &&& r.core.runtime[i as int] == 0
        &&& was.active ==> k.core.runtime[i as int] <= was.timing.relative_deadline_ticks
    }
}

/// A tick advances the clock, moves all real-time jobs and the fair scheduling window on,
/// chooses the timer that decides the dispatch and requests a context switch.
pub proof fn lemma_tick(k: KernelView, elapsed: u32)
    requires
        (KernelView { now: k.now.saturating_add(elapsed as u64), ..k }).dispatchable(),
        can_move_on(KernelView { now: k.now.saturating_add(elapsed as u64), ..k }),
        k.settled(),
        k.wait_timer_set(),
        k.core.fault is None,
        k.ticked(elapsed).core.fault is None,
    ensures
        ({
            let r = k.ticked(elapsed);
            let was = k.core.timers[CFS_KTIMER as int];
            let after = r.core.timers[CFS_KTIMER as int];
            let period = was.timing.period_ticks;
            &&& r.now == k.now + elapsed
            &&& forall|i: usize|
                i < k.core.ctx.len() && (#[trigger] k.core.ktimer_of[i as int]) is Some
                    ==> ticks_job(k, r, i, k.core.ktimer_of[i as int]->0, elapsed)
            &&& r.queued.contains(CFS_KTIMER)
            &&& after.deadline_at == if was.deadline_at > r.now {
                was.deadline_at as int
            } else if was.active && elapsed < period {
                r.now + period - elapsed
            } else {
                r.now + period
            }
            &&& after.active == (r.core.next_ktimer == Some(CFS_KTIMER) || if was.deadline_at > r.now {
                was.active
            } else {
                was.active ==> period <= elapsed
            })
            &&& r.core.next_ktimer is Some
            &&& decides(r, r.core.next_ktimer->0)
            &&& r.core.switch_pending
        }),
{
    let later = KernelView { now: k.now.saturating_add(elapsed as u64), ..k };
    let d = later.dispatched(elapsed);
    let r = k.ticked(elapsed);
    assert(later.settled()) by {
        assert forall|j: usize|
            j < later.core.ctx.len() && (#[trigger] later.core.ktimer_of[j as int]) is Some implies {
            let s = later.core.ktimer_of[j as int]->0;
            &&& s >= 2
            &&& later.core.timer_owner[s as int] == Some(j)
            &&& later.queued.contains(s) == !later.core.waiting.contains(j)
        } by {
            assert(k.core.ktimer_of[j as int] is Some);
        }
    }
    lemma_dispatched_moves(later, elapsed);
    crate::lifecycle::lemma_dispatched_settled(later, elapsed);
    crate::dispatch::lemma_dispatch_leaves_nothing_due(later, elapsed);
    crate::lifecycle::lemma_tick_wakes_due(k, elapsed);
    lemma_chosen_decides(d);
    lemma_first_active(d);
    assert forall|i: usize|
        i < k.core.ctx.len() && (#[trigger] k.core.ktimer_of[i as int]) is Some implies ticks_job(
        k,
        r,
        i,
        k.core.ktimer_of[i as int]->0,
        elapsed,
    ) by {
        let t = k.core.ktimer_of[i as int]->0;
        assert(k.core.timer_owner[t as int] == Some(i));
        assert(k.core.timer_owner[t as int] is Some);
        assert(moves_job(later, d, i, t, elapsed));
        assert(r.core.waiting.contains(i) == later.not_due().contains(i));
        assert(d.core.timers[t as int] == r.core.timers[t as int]);
        assert(d.queued == r.queued);
        assert(d.chosen().0.queued.contains(t) ==> d.chosen().0.core.timers[t as int].deadline_at
            > r.now);
    }
    assert(d.chosen().0.queued.contains(CFS_KTIMER));
    assert(d.chosen().0.core.timers[CFS_KTIMER as int].deadline_at > r.now);
}

/// A dispatch stops only for a missed deadline: some timer that was active has expired,
/// and its owner, which is on record, ran for longer than the relative deadline. The miss
/// is counted at the timer and in the trace.
pub proof fn lemma_stop_is_a_miss(k: KernelView, elapsed: u32)
    requires
        k.dispatchable(),
        k.core.fault is None,
        k.dispatched(elapsed).core.fault is Some,
    ensures
        ({
            let r = k.dispatched(elapsed);
            let i = r.core.fault->0;
            &&& r.now == k.now
            &&& exists|t: usize|
                2 <= t < r.core.timers.len() && #[trigger] r.core.timer_owner[t as int] == Some(i)
                    && !r.queued.contains(t) && r.core.timers[t as int].active
                    && r.core.timers[t as int].deadline_at <= r.now && r.core.timers[t as int].miss_cnt
                    > 0 && r.core.runtime[i as int]
                    > r.core.timers[t as int].timing.relative_deadline_ticks
            &&& r.core.trace.counters.deadline_misses == if k.core.trace.counters.deadline_misses
                < u32::MAX {
                k.core.trace.counters.deadline_misses + 1
            } else {
                u32::MAX as int
            }
        }),
    decreases k.core.waiting.len(), k.closing(), k.expired_ids().len(),
{
    let t = k.first()->0;
    let r = k.dispatched_first(elapsed);
    let f = choose|f: usize|
        crate::rbtree::is_first::<KTimerEntity>(k.core.timers, k.queued, f);
    assert(crate::rbtree::is_first::<KTimerEntity>(k.core.timers, k.queued, f));
    assert(k.queued.contains(t));
    crate::dispatch::lemma_dispatch_progress(k, elapsed);
    crate::dispatch::lemma_dispatched_first_kept(k, elapsed);
    if r.core.fault is None {
        crate::dispatch::lemma_dispatchable_kept(k, elapsed);
        if t == WAIT_KTIMER {
            lemma_woken_all_misses(k.dequeued(t), elapsed);
        }
        lemma_stop_is_a_miss(r, elapsed);
    } else {
        if t == WAIT_KTIMER {
            crate::dispatch::lemma_woken_all(k.dequeued(t), elapsed);
        }
        assert(r.core.timer_owner[t as int] == Some(r.core.fault->0));
        assert(r.dispatched(elapsed) == r);
    }
}

proof fn lemma_woken_all_misses(k: KernelView, elapsed: u32)
    requires
        k.core.waiting.finite(),
    ensures
        k.woken_all(elapsed).core.trace.counters.deadline_misses
            == k.core.trace.counters.deadline_misses,
    decreases k.core.waiting.len(),
{
    if k.has_due_waiter() {
        let i = k.core.first_wait()->0;
        crate::dispatch::lemma_woken_shrinks(k, i, elapsed);
        lemma_woken_all_misses(k.woken(i, elapsed), elapsed);
    }
}

/// A real-time thread that yields has finished its job. Its timer no longer competes
/// until the next release, one period after the start of the job, or at once if the job
/// took longer. The clock advances, the next timer is chosen, and a context switch is
/// requested. Other jobs and timers are left alone.
pub proof fn lemma_yield_ends_job(k: KernelView, elapsed: u32)
    requires
        k.ok(),
        k.core.current is Some,
        !k.core.ctx[k.core.current->0 as int].is_cfs,
        k.core.ktimer_of[k.core.current->0 as int] is Some,
        k.core.timer_owner[k.core.ktimer_of[k.core.current->0 as int]->0 as int] == k.core.current,
        k.now + elapsed + u32::MAX <= u64::MAX,
    ensures
        ({
            let r = k.yielded(elapsed);
            let i = k.core.current->0;
            let t = k.core.ktimer_of[i as int]->0;
            let was = k.core.timers[t as int];
            let after = r.core.timers[t as int];
            let used = k.core.runtime[i as int] + elapsed;
            &&& r.now == k.now + elapsed
            &&& !after.active
            &&& after.deadline_at == if used <= was.timing.period_ticks {
                r.now + was.timing.period_ticks - used
            } else {
                r.now as int
            }
            &&& after.timing == was.timing
            &&& used <= u32::MAX ==> after.miss_cnt == if used > was.timing.budget_ticks
                && was.miss_cnt < u32::MAX {
                was.miss_cnt + 1
            } else {
                was.miss_cnt as int
            }
            &&& r.core.runtime == k.core.runtime.update(i as int, 0)
            &&& r.queued == k.queued
            &&& forall|s: usize|
                1 <= s < k.core.timers.len() && s != t ==> #[trigger] r.core.timers[s as int]
                    == k.core.timers[s as int]
            &&& r.core.timers[CFS_KTIMER as int].deadline_at
                == k.core.timers[CFS_KTIMER as int].deadline_at
            &&& r.core.next_ktimer is Some
            &&& decides(r, r.core.next_ktimer->0)
            &&& r.core.switch_pending
            &&& r.core.ctx == k.core.ctx
            &&& r.core.current == k.core.current
            &&& r.core.run == k.core.run
            &&& r.core.waiting == k.core.waiting
            &&& r.core.sched == k.core.sched
            &&& r.core.trace.counters.yields == if k.core.trace.counters.yields < u32::MAX {
                k.core.trace.counters.yields + 1
            } else {
                u32::MAX as int
            }
        }),
{
    let i = k.core.current->0;
    let t = k.core.ktimer_of[i as int]->0;
    let ended = k.turn_ended(t, elapsed, true);
    let parked = KernelView {
        core: ended.with_timer(t, ended.timers[t as int].with_active(false)),
        queued: k.queued,
        now: k.now.saturating_add(elapsed as u64),
    };
    lemma_chosen_decides(parked);
    let r = k.yielded(elapsed);
    assert(r.core.runtime =~= k.core.runtime.update(i as int, 0));
    assert(r.core.timers == parked.chosen().0.core.timers);
    assert(r.queued == parked.chosen().0.queued);
    assert forall|s: usize|
        1 <= s < k.core.timers.len() && s != t implies #[trigger] r.core.timers[s as int]
        == k.core.timers[s as int] by {
        assert(parked.chosen().0.core.timers[s as int] == parked.core.timers[s as int]);
    }
    assert(parked.chosen().0.core.timers[t as int] == parked.core.timers[t as int]);
}

/// A fair thread that yields ends the window of its class: the fair scheduling timer
/// waits for the rest of its period, unless nobody else competes.
pub proof fn lemma_yield_ends_window(k: KernelView, elapsed: u32)
    requires
        k.ok(),
        k.core.current is Some,
        k.core.ctx[k.core.current->0 as int].is_cfs,
        k.now + elapsed + u32::MAX <= u64::MAX,
    ensures
        ({
            let r = k.yielded(elapsed);
            let was = k.core.timers[CFS_KTIMER as int];
            let after = r.core.timers[CFS_KTIMER as int];
            &&& r.now == k.now + elapsed
            &&& after.deadline_at == if elapsed <= was.timing.period_ticks {
                k.now + was.timing.period_ticks
            } else {
                r.now as int
            }
            &&& after.active == (r.core.next_ktimer == Some(CFS_KTIMER))
            &&& r.core.runtime == k.core.runtime
            &&& r.queued == k.queued
            &&& forall|s: usize|
                1 <= s < k.core.timers.len() ==> #[trigger] r.core.timers[s as int]
                    == k.core.timers[s as int]
            &&& r.core.next_ktimer is Some
            &&& decides(r, r.core.next_ktimer->0)
            &&& r.core.switch_pending
            &&& r.core.ctx == k.core.ctx
            &&& r.core.current == k.core.current
            &&& r.core.run == k.core.run
            &&& r.core.waiting == k.core.waiting
            &&& r.core.sched == k.core.sched
        }),
{
    let ended = k.turn_ended(CFS_KTIMER, elapsed, true);
    let parked = KernelView {
        core: ended.with_timer(
            CFS_KTIMER,
            ended.timers[CFS_KTIMER as int].with_active(false),
        ),
        queued: k.queued,
        now: k.now.saturating_add(elapsed as u64),
    };
    lemma_first_active(parked);
    lemma_chosen_decides(parked);
    let r = k.yielded(elapsed);
    assert(r.core.timers == parked.chosen().0.core.timers);
    assert forall|s: usize| 1 <= s < k.core.timers.len() implies #[trigger] r.core.timers[s as int]
        == k.core.timers[s as int] by {
        assert(parked.chosen().0.core.timers[s as int] == parked.core.timers[s as int]);
    }
}

} // verus!
