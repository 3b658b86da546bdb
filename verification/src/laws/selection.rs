//! Laws of the context switch.

use crate::kernel::{CoreView, KernelView};
use crate::ktimer::CFS_KTIMER;
use crate::laws::fair::{is_smallest, lemma_first_run_is_smallest};
use crate::thread::{ThreadCtx, ThreadState};
use vstd::prelude::*;

verus! {

/// Thread `c` is a fair one that can go on running, and not the idle thread.
pub open spec fn is_runnable_fair(core: CoreView, c: usize) -> bool {
    &&& core.ctx[c as int].is_cfs
    &&& !(core.ctx[c as int].state is Waiting)
    &&& core.idle != Some(c)
}

/// No runnable fair thread is lost: each one is still queued, or it is the one that
/// runs. A thread that has to make room is queued. The one that runs is not queued.
pub open spec fn keeps_runnable(core: CoreView, r: CoreView) -> bool {
    &&& forall|j: usize| #[trigger]
        core.run.contains(j) ==> r.run.contains(j) || r.current == Some(j)
    &&& core.current is Some && is_runnable_fair(core, core.current->0) && r.current
        != core.current ==> r.run.contains(core.current->0)
    &&& forall|j: usize| #[trigger]
        r.run.contains(j) ==> core.run.contains(j) || (core.current == Some(j)
            && is_runnable_fair(core, j))
    &&& r.current is Some ==> !r.run.contains(r.current->0)
    &&& r.waiting == core.waiting
    &&& r.priority_sum == core.priority_sum
    &&& r.idle == core.idle
}

/// The selected thread is running, one that made room for it is ready unless it waits,
/// and no other thread changes.
pub open spec fn states_follow(core: CoreView, r: CoreView) -> bool {
    &&& r.ctx.len() == core.ctx.len()
    &&& r.current is Some && r.current != core.current ==> r.ctx[r.current->0 as int] == (
    ThreadCtx { state: ThreadState::Running, ..core.ctx[r.current->0 as int] })
    &&& core.current is Some && r.current != core.current ==> r.ctx[core.current->0 as int] == if core.ctx[core.current->0 as int].state is Waiting {
        core.ctx[core.current->0 as int]
    } else {
        ThreadCtx { state: ThreadState::Ready, ..core.ctx[core.current->0 as int] }
    }
    &&& core.current is Some && r.current == core.current ==> r.ctx[core.current->0 as int]
        == core.ctx[core.current->0 as int] || r.ctx[core.current->0 as int] == (ThreadCtx {
        state: ThreadState::Running,
        ..core.ctx[core.current->0 as int]
    })
    &&& forall|j: usize|
        j < core.ctx.len() && core.current != Some(j) && r.current != Some(j) ==> #[trigger] r.ctx[j as int]
            == core.ctx[j as int]
    &&& r.current is Some ==> r.current_is_cfs == core.ctx[r.current->0 as int].is_cfs
}

/// A fair thread that was running pays for the elapsed time, in proportion to its share
/// in the sum of priorities. Nobody else pays, nor does the idle thread.
pub open spec fn charges(core: CoreView, r: CoreView, elapsed: u32) -> bool {
    &&& r.sched.len() == core.sched.len()
    &&& forall|j: usize|
        j < core.sched.len() && core.current != Some(j) ==> #[trigger] r.sched[j as int]
            == core.sched[j as int]
    &&& core.current is Some ==> {
        let c = core.current->0;
        let was = core.sched[c as int];
        let after = r.sched[c as int];
        if is_runnable_fair(core, c) && core.ctx[c as int].state is Running && core.priority_sum
            != 0 {
            &&& after.vruntime - was.vruntime == (elapsed * was.priority) / (core.priority_sum as int)
            &&& after.sched_tick_cnt - was.sched_tick_cnt == elapsed
            &&& after.priority == was.priority
        } else {
            after == was
        }
    }
}

/// A turn of the fair class in an open window. A runnable fair thread that runs goes on
/// as long as nobody in the queue has a smaller virtual runtime; otherwise a thread with
/// the smallest one takes over. With an empty queue, the idle thread takes over from a
/// real-time thread or one that waits.
pub open spec fn fair_turn(core: CoreView, r: CoreView) -> bool {
    let runs_on = core.current is Some && is_runnable_fair(core, core.current->0);
    let is_ahead = forall|j: usize| #[trigger]
        core.run.contains(j) ==> r.sched[core.current->0 as int].vruntime
            <= core.sched[j as int].vruntime;
    if core.run == Set::<usize>::empty() {
        r.run == core.run && r.current == if core.idle is Some && (core.current is None
            || !core.ctx[core.current->0 as int].is_cfs
            || core.ctx[core.current->0 as int].state is Waiting) {
            core.idle
        } else {
            core.current
        }
    } else if runs_on && is_ahead {
        r.current == core.current && r.run == core.run
    } else {
        &&& r.current is Some
        &&& core.run.contains(r.current->0)
        &&& is_smallest(core.sched, core.run, core.sched[r.current->0 as int].vruntime)
    }
}

proof fn lemma_scaled_fits(elapsed: u32, priority: u32, sum: u32)
    requires
        sum != 0,
    ensures
        crate::runq::vruntime_delta(elapsed as u64, priority, sum) == (elapsed * priority) / (
        sum as int),
{
    let product = elapsed * priority;
    assert(0 <= product <= 0xffff_ffff * 0xffff_ffff) by (nonlinear_arith)
        requires
            product == elapsed * priority,
            0 <= elapsed <= 0xffff_ffff,
            0 <= priority <= 0xffff_ffff,
    ;
    vstd::arithmetic::div_mod::lemma_div_is_ordered_by_denominator(product, 1, sum as int);
    vstd::arithmetic::div_mod::lemma_div_basics(product);
}

/// Every selection for a timer: no runnable thread is lost, states go with the
/// selection, and the running fair thread is charged. The turn of the fair class goes by
/// virtual runtime; in the turn of a real-time timer its owner runs.
pub proof fn lemma_selection(core: CoreView, timer: usize, elapsed: u32)
    requires
        core.ok(),
        core.selectable(Some(timer), elapsed),
    ensures
        keeps_runnable(core, core.selected(Some(timer), elapsed)),
        states_follow(core, core.selected(Some(timer), elapsed)),
        charges(core, core.selected(Some(timer), elapsed), elapsed),
        timer == CFS_KTIMER && (core.timers[CFS_KTIMER as int].active || core.idle is None)
            ==> fair_turn(core, core.selected(Some(timer), elapsed)),
        timer == CFS_KTIMER && !core.timers[CFS_KTIMER as int].active && core.idle is Some
            ==> core.selected(Some(timer), elapsed).current == core.idle,
        timer != CFS_KTIMER && core.timer_owner[timer as int] is Some ==> {
            let r = core.selected(Some(timer), elapsed);
            &&& r.current == core.timer_owner[timer as int]
            &&& r.ctx[r.current->0 as int].state is Running
        },
        timer != CFS_KTIMER && core.timer_owner[timer as int] is None ==> core.selected(
            Some(timer),
            elapsed,
        ).current == core.current,
{
    let r = core.selected(Some(timer), elapsed);
    let charged = core.current_charged(elapsed);
    if core.current_is_charged() {
        let entity = core.sched[core.current->0 as int];
        lemma_scaled_fits(elapsed, entity.priority, core.priority_sum);
    }
    lemma_first_run_is_smallest(charged);
    assert(charges(core, charged, elapsed));
    assert(core.timer_owner[timer as int] is Some ==> !core.ctx[core.timer_owner[timer as int]->0 as int].is_cfs);
    if timer == CFS_KTIMER && !charged.window_closed() {
        assert forall|j: usize| #[trigger] core.run.contains(j) implies charged.sched[j as int]
            == core.sched[j as int] by {}
        if core.run != Set::<usize>::empty() {
            let next = charged.first_run()->0;
            assert(is_smallest(core.sched, core.run, core.sched[next as int].vruntime)) by {
                let m = choose|m: usize| #[trigger]
                    charged.run.contains(m) && charged.sched[m as int].vruntime
                        == charged.sched[next as int].vruntime;
                assert(core.run.contains(next));
            }
            if charged.current_competes() && charged.sched[core.current->0 as int].vruntime
                > charged.sched[next as int].vruntime {
                assert(core.run.contains(next));
            }
        }
    }
}

/// Without a timer that decides the dispatch, nothing is selected.
pub proof fn lemma_no_timer_no_selection(core: CoreView, elapsed: u32)
    ensures
        core.selected(None, elapsed) == core,
{
}

/// The event names the thread and its class.
pub open spec fn names_thread(named: crate::trace::TraceThread, thread: ThreadCtx) -> bool {
    &&& named.id == thread.id
    &&& named.name == thread.name
    &&& named.is_cfs == thread.is_cfs
}

/// The event reports the switch between the two threads.
pub open spec fn is_switch_event(
    ctx: Seq<ThreadCtx>,
    old_thread: Option<usize>,
    new_thread: usize,
    event: crate::trace::TraceEvent,
) -> bool {
    match event {
        crate::trace::TraceEvent::ContextSwitch { from, to } => {
            &&& names_thread(to, ctx[new_thread as int])
            &&& from is Some == old_thread is Some
            &&& from is Some ==> names_thread(from->0, ctx[old_thread->0 as int])
        },
        _ => false,
    }
}

/// A context switch selects by the timer that decides the dispatch, and answers the
/// request for it. It is counted and reported if another thread runs. Timers, their
/// queue, the clock, the time that jobs took and the wait queue stay as they are.
pub proof fn lemma_context_switch(k: KernelView, elapsed: u32)
    requires
        k.ok(),
        k.schedulable(elapsed),
    ensures
        ({
            let r = k.scheduled(elapsed);
            let timer = k.core.next_ktimer;
            &&& timer is Some ==> {
                let t = timer->0;
                &&& keeps_runnable(k.core, r.core)
                &&& states_follow(k.core, r.core)
                &&& charges(k.core, r.core, elapsed)
                &&& t == CFS_KTIMER && k.core.timers[t as int].active ==> fair_turn(
                    k.core,
                    r.core,
                )
                &&& t == CFS_KTIMER && !k.core.timers[t as int].active && k.core.idle is Some
                    ==> r.core.current == k.core.idle
                &&& t != CFS_KTIMER && k.core.timer_owner[t as int] is Some ==> r.core.current
                    == k.core.timer_owner[t as int]
            }
            &&& timer is None ==> r.core.current == k.core.current && r.core.ctx == k.core.ctx
                && r.core.run == k.core.run && r.core.sched == k.core.sched
            &&& r.queued == k.queued
            &&& r.now == k.now
            &&& r.core.timers == k.core.timers
            &&& r.core.runtime == k.core.runtime
            &&& r.core.wait == k.core.wait
            &&& r.core.next_ktimer == k.core.next_ktimer
            &&& !r.core.switch_pending
            &&& r.core.trace.counters.context_switches == if r.core.current != k.core.current
                && r.core.current is Some && k.core.trace.counters.context_switches < u32::MAX {
                k.core.trace.counters.context_switches + 1
            } else {
                k.core.trace.counters.context_switches as int
            }
            &&& r.core.trace.events.len() == k.core.trace.events.len() + if r.core.current
                != k.core.current && r.core.current is Some && k.core.trace.enabled {
                1int
            } else {
                0
            }
            &&& r.core.trace.events.len() > k.core.trace.events.len()
                ==> is_switch_event(
                k.core.ctx,
                k.core.current,
                r.core.current->0,
                r.core.trace.events.last(),
            )
        }),
{
    crate::sched::lemma_selected_run(k.core, k.core.next_ktimer, elapsed);
    if let Some(timer) = k.core.next_ktimer {
        lemma_selection(k.core, timer, elapsed);
        let r = k.scheduled(elapsed);
        let s = k.core.selected(k.core.next_ktimer, elapsed);
        assert(keeps_runnable(k.core, r.core));
        assert(states_follow(k.core, r.core));
        assert(charges(k.core, r.core, elapsed));
    }
}

/// A ready thread that is taken out of the queue is not queued with the others, and its
/// priority does not count. Whoever is not queued is left alone.
pub proof fn lemma_idle_is_not_queued(core: CoreView, i: usize)
    ensures
        core.ctx[i as int].state is Ready && core.run.contains(i) ==> {
            &&& core.unqueued(i).run == core.run.remove(i)
            &&& core.unqueued(i).priority_sum == if core.sched[i as int].priority
                <= core.priority_sum {
                core.priority_sum - core.sched[i as int].priority
            } else {
                0
            }
        },
        !(core.ctx[i as int].state is Ready && core.run.contains(i)) ==> core.unqueued(i) == core,
        core.unqueued(i).sched == core.sched,
        core.unqueued(i).ctx == core.ctx,
        core.unqueued(i).waiting == core.waiting,
        core.unqueued(i).current == core.current,
{
}

/// The first thread runs, is no longer queued, and everybody else waits for a turn.
pub proof fn lemma_first_thread_runs(core: CoreView, i: usize)
    requires
        i < core.ctx.len(),
        core.idle == Some(i) ==> !core.run.contains(i),
    ensures
        core.main_started(i).current == Some(i),
        core.main_started(i).current_is_cfs,
        core.main_started(i).run == core.run.remove(i),
        core.main_started(i).ctx == core.ctx.update(
            i as int,
            ThreadCtx { state: ThreadState::Running, ..core.ctx[i as int] },
        ),
        core.main_started(i).sched == core.sched,
        core.main_started(i).priority_sum == core.priority_sum,
{
    assert(core.main_started(i).run =~= core.run.remove(i));
}

} // verus!
