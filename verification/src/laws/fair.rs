//! Laws of fair scheduling.

use crate::kernel::{CoreView, KernelView};
use crate::ktimer::WAIT_KTIMER;
use crate::runq::SchedEntity;
use crate::thread::{ThreadCtx, ThreadState};
use vstd::prelude::*;

verus! {

/// The number is the smallest virtual runtime among the given threads.
pub open spec fn is_smallest(sched: Seq<SchedEntity>, ids: Set<usize>, vruntime: u64) -> bool {
    &&& exists|j: usize| #[trigger] ids.contains(j) && sched[j as int].vruntime == vruntime
    &&& forall|j: usize| #[trigger] ids.contains(j) ==> vruntime <= sched[j as int].vruntime
}

/// Fair thread `i` has joined the run queue. It has the smallest virtual runtime among
/// those that were runnable before, or keeps its own if there were none. Its priority
/// counts, and no other thread changes its state, virtual runtime or priority.
pub open spec fn has_joined(core: CoreView, r: CoreView, i: usize) -> bool {
    &&& r.run == core.run.insert(i)
    &&& r.ctx == core.ctx.update(
        i as int,
        ThreadCtx { state: ThreadState::Ready, ..core.ctx[i as int] },
    )
    &&& r.sched.len() == core.sched.len()
    &&& forall|j: int|
        0 <= j < core.sched.len() ==> (#[trigger] r.sched[j]).priority == core.sched[j].priority
    &&& forall|j: int|
        0 <= j < core.sched.len() && j != i ==> (#[trigger] r.sched[j]).vruntime
            == core.sched[j].vruntime
    &&& core.run != Set::<usize>::empty() ==> is_smallest(
        core.sched,
        core.run,
        r.sched[i as int].vruntime,
    )
    &&& core.run == Set::<usize>::empty() ==> r.sched[i as int].vruntime
        == core.sched[i as int].vruntime
    &&& r.priority_sum == if core.priority_sum + core.sched[i as int].priority <= u32::MAX {
        core.priority_sum + core.sched[i as int].priority
    } else {
        u32::MAX as int
    }
}

/// The first runnable thread has the smallest virtual runtime.
pub proof fn lemma_first_run_is_smallest(core: CoreView)
    ensures
        core.run == Set::<usize>::empty() ==> core.first_run() is None,
        core.run != Set::<usize>::empty() ==> core.first_run() is Some && core.run.contains(
            core.first_run()->0,
        ) && is_smallest(
            core.sched,
            core.run,
            core.sched[core.first_run()->0 as int].vruntime,
        ),
{
    if core.run == Set::<usize>::empty() {
        crate::rbtree::lemma_first_of_empty::<SchedEntity>(core.sched, core.run);
    } else {
        crate::rbtree::lemma_first_exists::<SchedEntity>(core.sched, core.run);
        let first = core.first_run()->0;
        assert forall|j: usize| #[trigger] core.run.contains(j) implies core.sched[first as int].vruntime
            <= core.sched[j as int].vruntime by {
            if j != first {
                assert(crate::rbtree::before::<SchedEntity>(core.sched, first, j));
            }
        }
    }
}

proof fn lemma_rejoined_level(core: CoreView, i: usize)
    requires
        core.sched.len() == core.ctx.len(),
        i < core.ctx.len(),
        forall|j: usize| #[trigger] core.run.contains(j) ==> j < core.ctx.len(),
        !core.run.contains(i),
    ensures
        has_joined(core, core.rejoined(i), i),
        core.rejoined(i).waiting == core.waiting,
{
    let sum = core.priority_sum.saturating_add(core.sched[i as int].priority);
    let counted = core.with_state(i, ThreadState::Ready).recounted(sum);
    let r = core.rejoined(i);
    lemma_first_run_is_smallest(counted);
    assert(counted.sched[i as int] == core.sched[i as int]);
    if core.run != Set::<usize>::empty() {
        let first = counted.first_run()->0;
        let v = counted.sched[first as int].vruntime;
        assert(r.sched[i as int].vruntime == v);
        assert forall|j: usize| #[trigger] core.run.contains(j) implies v
            <= core.sched[j as int].vruntime by {
            assert(counted.run.contains(j));
            assert(counted.sched[j as int].vruntime == core.sched[j as int].vruntime);
        }
        assert(core.run.contains(first));
    }
}

/// Execution ticks that a virtual runtime stands for: what a thread of this priority must
/// run to be charged that much, as far as it can be counted.
pub open spec fn ticks_for(vruntime: u64, priority: u32, priority_sum: u32) -> int {
    let exact = (vruntime * priority_sum) / (priority as int);
    if exact > u64::MAX {
        u64::MAX as int
    } else {
        exact
    }
}

/// When a fair thread rejoins, everybody in the queue counts its execution ticks anew,
/// under the new sum of priorities.
pub proof fn lemma_ticks_follow_virtual_runtime(core: CoreView, i: usize)
    requires
        core.sched.len() == core.ctx.len(),
        i < core.ctx.len(),
        forall|j: usize| #[trigger] core.run.contains(j) ==> j < core.ctx.len(),
        !core.run.contains(i),
        0 < core.priority_sum + core.sched[i as int].priority <= u32::MAX,
        forall|j: usize| j < core.ctx.len() ==> (#[trigger] core.sched[j as int]).priority != 0,
    ensures
        ({
            let r = core.rejoined(i);
            &&& forall|j: usize| #[trigger]
                core.run.contains(j) ==> r.sched[j as int].sched_tick_cnt == ticks_for(
                    r.sched[j as int].vruntime,
                    r.sched[j as int].priority,
                    r.priority_sum,
                )
            &&& core.run != Set::<usize>::empty() ==> r.sched[i as int].sched_tick_cnt == ticks_for(
                r.sched[i as int].vruntime,
                r.sched[i as int].priority,
                r.priority_sum,
            )
        }),
{
    let sum = core.priority_sum.saturating_add(core.sched[i as int].priority);
    let counted = core.with_state(i, ThreadState::Ready).recounted(sum);
    lemma_first_run_is_smallest(counted);
    assert forall|j: usize| #[trigger] core.run.contains(j) implies core.rejoined(i).sched[j as int].sched_tick_cnt
        == ticks_for(
        core.rejoined(i).sched[j as int].vruntime,
        core.rejoined(i).sched[j as int].priority,
        core.rejoined(i).priority_sum,
    ) by {
        assert(counted.sched[j as int].sched_tick_cnt == crate::runq::sched_ticks(
            core.sched[j as int].vruntime,
            core.sched[j as int].priority,
            sum,
        ));
    }
}

/// A thread that is aligned takes over the smallest virtual runtime in the queue and the
/// execution ticks that it stands for. Nobody else changes.
pub proof fn lemma_alignment(core: CoreView, i: usize)
    requires
        core.sched.len() == core.ctx.len(),
        i < core.ctx.len(),
        core.priority_sum != 0,
        core.sched[i as int].priority != 0,
    ensures
        core.run == Set::<usize>::empty() ==> core.aligned(i) == core,
        core.run != Set::<usize>::empty() ==> {
            let r = core.aligned(i);
            &&& is_smallest(core.sched, core.run, r.sched[i as int].vruntime)
            &&& r.sched[i as int].sched_tick_cnt == ticks_for(
                r.sched[i as int].vruntime,
                core.sched[i as int].priority,
                core.priority_sum,
            )
            &&& r.sched[i as int].priority == core.sched[i as int].priority
            &&& r == (CoreView {
                sched: core.sched.update(i as int, r.sched[i as int]),
                ..core
            })
        },
{
    lemma_first_run_is_smallest(core);
}

/// A fair thread that becomes runnable for the first time joins level with the others.
pub proof fn lemma_newcomer_joins_level(core: CoreView, i: usize)
    requires
        core.sched.len() == core.ctx.len(),
        i < core.ctx.len(),
        !core.run.contains(i),
        core.priority_sum + core.sched[i as int].priority <= u32::MAX,
    ensures
        has_joined(core, core.runnable(i), i),
        core.runnable(i).waiting == core.waiting,
        forall|j: int|
            0 <= j < core.sched.len() && j != i ==> #[trigger] core.runnable(i).sched[j]
                == core.sched[j],
{
    let ready = core.with_state(i, ThreadState::Ready);
    lemma_first_run_is_smallest(ready);
    if core.run != Set::<usize>::empty() {
        let m = choose|m: usize| #[trigger]
            ready.run.contains(m) && ready.sched[m as int].vruntime
                == ready.sched[ready.first_run()->0 as int].vruntime;
        assert(core.run.contains(m));
    }
}

/// A fair thread whose sleep is over rejoins the run queue level with the others.
pub proof fn lemma_sleeper_rejoins_level(k: KernelView, i: usize, elapsed: u32)
    requires
        k.ok(),
        k.core.waiting.contains(i),
        k.core.ctx[i as int].is_cfs,
    ensures
        has_joined(k.core, k.woken(i, elapsed).core, i),
        k.woken(i, elapsed).core.waiting == k.core.waiting.remove(i),
        k.woken(i, elapsed).core.timers == k.core.timers,
        k.woken(i, elapsed).queued == k.queued,
{
    let ready = k.core.waiting_without(i).with_state(i, ThreadState::Ready);
    let core = CoreView { trace: ready.trace.wakeup(ready.ctx[i as int]), ..ready };
    lemma_rejoined_level(core, i);
    let r = k.woken(i, elapsed).core;
    assert(r == core.rejoined(i));
    assert(r.ctx =~= k.core.ctx.update(
        i as int,
        ThreadCtx { state: ThreadState::Ready, ..k.core.ctx[i as int] },
    ));
}

/// A fair thread that waited for an event rejoins the run queue level with the others.
pub proof fn lemma_waiter_rejoins_level(k: KernelView, i: usize)
    requires
        k.ok(),
        k.core.waiting.contains(i),
        k.core.ctx[i as int].is_cfs,
    ensures
        has_joined(k.core, k.waiter_woken(i).0.core, i),
        k.waiter_woken(i).0.core.waiting == k.core.waiting.remove(i),
{
    let left = k.core.waiting_without(i);
    let core = CoreView { trace: left.trace.wakeup(left.ctx[i as int]), ..left };
    lemma_rejoined_level(core, i);
    crate::lifecycle::lemma_wait_programmed_threads(k.with_core(core.rejoined(i)));
}

/// From `a` to `b` waiting threads may wake. The fair ones among them rejoin the run
/// queue, each with the smallest virtual runtime there; nobody leaves it, and no other
/// virtual runtime changes.
pub open spec fn wakes_level(a: CoreView, b: CoreView) -> bool {
    &&& b.ctx.len() == a.ctx.len()
    &&& b.sched.len() == a.sched.len()
    &&& a.run.subset_of(b.run)
    &&& b.waiting.subset_of(a.waiting)
    &&& forall|i: usize| #[trigger]
        b.run.contains(i) && !a.run.contains(i) ==> a.waiting.contains(i) && !b.waiting.contains(i)
    &&& forall|i: usize| #[trigger]
        a.waiting.contains(i) && !b.waiting.contains(i) && a.ctx[i as int].is_cfs
            ==> b.run.contains(i)
    &&& forall|i: int|
        0 <= i < a.ctx.len() ==> (#[trigger] b.ctx[i]).is_cfs == a.ctx[i].is_cfs
    &&& forall|i: usize|
        i < a.sched.len() && (a.run.contains(i) || !b.run.contains(i)) ==> (
        #[trigger] b.sched[i as int]).vruntime == a.sched[i as int].vruntime
    &&& forall|i: usize, j: usize| #[trigger]
        b.run.contains(i) && !a.run.contains(i) && #[trigger] b.run.contains(j)
            ==> b.sched[i as int].vruntime <= b.sched[j as int].vruntime
    &&& forall|i: usize| #[trigger]
        b.run.contains(i) && !a.run.contains(i) && a.run != Set::<usize>::empty() ==> is_smallest(
            a.sched,
            a.run,
            b.sched[i as int].vruntime,
        )
}

proof fn lemma_wakes_level_twice(a: CoreView, b: CoreView, c: CoreView)
    requires
        wakes_level(a, b),
        wakes_level(b, c),
        a.sched.len() == a.ctx.len(),
        forall|j: usize| #[trigger] c.run.contains(j) ==> j < a.ctx.len(),
        forall|j: usize| #[trigger] a.waiting.contains(j) ==> j < a.ctx.len(),
    ensures
        wakes_level(a, c),
{
    assert forall|i: usize| #[trigger]
        a.waiting.contains(i) && !c.waiting.contains(i) && a.ctx[i as int].is_cfs implies c.run.contains(
    i) by {
        if b.waiting.contains(i) {
            assert(b.ctx[i as int].is_cfs == a.ctx[i as int].is_cfs);
        } else {
            assert(b.run.contains(i));
        }
    }
    assert forall|i: usize, j: usize| #[trigger]
        c.run.contains(i) && !a.run.contains(i) && #[trigger] c.run.contains(j) implies c.sched[i as int].vruntime
        <= c.sched[j as int].vruntime by {
        if b.run.contains(i) {
            assert(c.sched[i as int].vruntime == b.sched[i as int].vruntime);
            if b.run.contains(j) {
                assert(c.sched[j as int].vruntime == b.sched[j as int].vruntime);
            } else {
                assert(is_smallest(b.sched, b.run, c.sched[j as int].vruntime));
                let m = choose|m: usize| #[trigger]
                    b.run.contains(m) && b.sched[m as int].vruntime == c.sched[j as int].vruntime;
                assert(b.run.contains(m));
                assert(b.sched[i as int].vruntime <= b.sched[m as int].vruntime);
            }
        }
    }
    assert forall|i: usize| #[trigger]
        c.run.contains(i) && !a.run.contains(i) && a.run
            != Set::<usize>::empty() implies is_smallest(a.sched, a.run, c.sched[i as int].vruntime) by {
        let one = choose|x: usize| a.run.contains(x);
        assert(a.run.contains(one)) by {
            if forall|x: usize| !a.run.contains(x) {
                assert(a.run =~= Set::<usize>::empty());
            }
        }
        assert(b.run.contains(one));
        if b.run.contains(i) {
            assert(c.sched[i as int].vruntime == b.sched[i as int].vruntime);
        } else {
            assert(is_smallest(b.sched, b.run, c.sched[i as int].vruntime));
            let m = choose|m: usize| #[trigger]
                b.run.contains(m) && b.sched[m as int].vruntime == c.sched[i as int].vruntime;
            assert(b.run.contains(m));
            assert forall|j: usize| #[trigger] a.run.contains(j) implies c.sched[i as int].vruntime
                <= a.sched[j as int].vruntime by {
                assert(b.run.contains(j));
                assert(b.sched[j as int].vruntime == a.sched[j as int].vruntime);
            }
            if a.run.contains(m) {
                assert(b.sched[m as int].vruntime == a.sched[m as int].vruntime);
            } else {
                assert(is_smallest(a.sched, a.run, b.sched[m as int].vruntime));
            }
        }
    }
}

proof fn lemma_woken_all_level(k: KernelView, elapsed: u32)
    requires
        k.ok(),
        k.core.waiting.finite(),
    ensures
        wakes_level(k.core, k.woken_all(elapsed).core),
    decreases k.core.waiting.len(),
{
    if k.has_due_waiter() {
        let i = k.core.first_wait()->0;
        crate::dispatch::lemma_woken_shrinks(k, i, elapsed);
        crate::dispatch::lemma_woken(k, i, elapsed);
        let w = k.woken(i, elapsed);
        if k.core.ctx[i as int].is_cfs {
            lemma_sleeper_rejoins_level(k, i, elapsed);
        }
        assert(wakes_level(k.core, w.core)) by {
            assert forall|a: usize, b: usize| #[trigger]
                w.core.run.contains(a) && !k.core.run.contains(a) && #[trigger] w.core.run.contains(
                    b,
                ) implies w.core.sched[a as int].vruntime <= w.core.sched[b as int].vruntime by {
                if b != i {
                    assert(k.core.run.contains(b));
                    assert(w.core.sched[b as int].vruntime == k.core.sched[b as int].vruntime);
                }
            }
        }
        lemma_woken_all_level(w, elapsed);
        crate::dispatch::lemma_woken_all(w, elapsed);
        lemma_wakes_level_twice(k.core, w.core, w.woken_all(elapsed).core);
    }
}

proof fn lemma_dispatched_level(k: KernelView, elapsed: u32)
    requires
        k.dispatchable(),
        k.core.fault is None,
        k.dispatched(elapsed).core.fault is None,
    ensures
        k.dispatched(elapsed).ok(),
        wakes_level(k.core, k.dispatched(elapsed).core),
    decreases k.core.waiting.len(), k.closing(), k.expired_ids().len(),
{
    if k.due() {
        let t = k.first()->0;
        let r = k.dispatched_first(elapsed);
        crate::dispatch::lemma_dispatch_progress(k, elapsed);
        crate::dispatch::lemma_dispatched_first_kept(k, elapsed);
        if r.core.fault is None {
            crate::dispatch::lemma_dispatchable_kept(k, elapsed);
            if t == WAIT_KTIMER {
                let d = k.dequeued(t);
                lemma_woken_all_level(d, elapsed);
                assert(wakes_level(k.core, r.core));
            } else {
                assert(wakes_level(k.core, r.core));
            }
            lemma_dispatched_level(r, elapsed);
            lemma_wakes_level_twice(k.core, r.core, r.dispatched(elapsed).core);
        }
    }
}

/// A tick lets the fair threads whose time has come rejoin the run queue level with
/// the others, and takes nobody out of it.
pub proof fn lemma_tick_rejoins_level(k: KernelView, elapsed: u32)
    requires
        (KernelView { now: k.now.saturating_add(elapsed as u64), ..k }).dispatchable(),
        k.core.fault is None,
        k.ticked(elapsed).core.fault is None,
    ensures
        wakes_level(k.core, k.ticked(elapsed).core),
{
    let later = KernelView { now: k.now.saturating_add(elapsed as u64), ..k };
    lemma_dispatched_level(later, elapsed);
}

} // verus!
