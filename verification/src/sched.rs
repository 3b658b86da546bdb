//! Selection of the thread to run.

use crate::kernel::{Core, CoreView, Kernel, KernelView};
use crate::ktimer::{is_cfs_ktimer, CfsKTimer, KTimerEntity, RtTiming, CFS_KTIMER};
use crate::rbtree::{RBTreeNode, RbNode};
use crate::runq::{cfs_vruntime_delta, dequeue_thread, init_cfs_rq, SchedEntity};
use crate::thread::{ThreadCtx, ThreadHandle, ThreadState};
use crate::timers::{
    advance_ktimers, dispatch_expired_ktimer, elapsed_ticks_since_last_interrupt, enqueue_ktimer,
    next_ktimer, next_ktimer_reload, update_next_ktimer,
};
use crate::trace::record_context_switch;
use vstd::prelude::*;

verus! {

impl CoreView {
    /// The current thread is a fair one that takes part in the accounting.
    pub open spec fn current_is_charged(self) -> bool {
        &&& self.current_is_cfs
        &&& self.ctx[self.current->0 as int].state is Running
        &&& self.idle != self.current
        &&& self.priority_sum != 0
    }

    /// What the running fair thread is to be charged can be counted.
    pub open spec fn charge_fits(self, elapsed: u32) -> bool {
        self.current_is_charged() ==> {
            let entity = self.sched[self.current->0 as int];
            &&& entity.vruntime + crate::runq::vruntime_delta(
                elapsed as u64,
                entity.priority,
                self.priority_sum,
            ) <= u64::MAX
            &&& entity.sched_tick_cnt + elapsed <= u64::MAX
        }
    }

    /// The running fair thread is charged for the elapsed time.
    pub open spec fn current_charged(self, elapsed: u32) -> CoreView {
        if self.current_is_charged() {
            let c = self.current->0;
            let entity = self.sched[c as int];
            let delta = crate::runq::vruntime_delta(
                elapsed as u64,
                entity.priority,
                self.priority_sum,
            );
            self.with_sched(
                c,
                SchedEntity {
                    vruntime: (entity.vruntime + delta) as u64,
                    sched_tick_cnt: (entity.sched_tick_cnt + elapsed) as u64,
                    ..entity
                },
            )
        } else {
            self
        }
    }

    /// Fair thread `next` runs; the thread that ran, if it does not wait, is ready.
    pub open spec fn switched_to_cfs(self, next: usize) -> CoreView {
        let left = match self.current {
            Some(c) => if c != next && !(self.ctx[c as int].state is Waiting) {
                self.with_state(c, ThreadState::Ready)
            } else {
                self
            },
            None => self,
        };
        CoreView {
            current: Some(next),
            current_is_cfs: true,
            ..left.with_state(next, ThreadState::Running)
        }
    }

    /// The idle thread runs, if one is registered.
    pub open spec fn switched_to_idle(self) -> CoreView {
        match self.idle {
            None => self,
            Some(i) => self.switched_to_cfs(i),
        }
    }

    /// Fair thread `next` preempts the fair thread `c`, which rejoins the run queue.
    pub open spec fn preempted(self, c: usize, next: usize) -> CoreView {
        CoreView {
            run: self.run.remove(next).insert(c),
            current: Some(next),
            current_is_cfs: true,
            ..self.with_state(c, ThreadState::Ready).with_state(next, ThreadState::Running)
        }
    }

    /// The fair execution window is closed, and there is an idle thread to wait for
    /// the next one.
    pub open spec fn window_closed(self) -> bool {
        !self.timers[CFS_KTIMER as int].active && self.idle is Some
    }

    /// The current thread is a fair one that can go on running, other than the idle
    /// thread.
    pub open spec fn current_competes(self) -> bool {
        &&& self.current_is_cfs
        &&& !(self.ctx[self.current->0 as int].state is Waiting)
        &&& self.idle != self.current
    }

    /// The idle thread runs until the next execution window. A fair thread that ran
    /// rejoins the run queue; the other runnable threads stay where they are. The idle
    /// thread itself is not runnable, or no longer.
    pub open spec fn window_waited(self) -> CoreView {
        let rejoined = if self.current_competes() {
            self.run.insert(self.current->0)
        } else {
            self.run
        };
        (CoreView { run: rejoined.remove(self.idle->0), ..self }).switched_to_idle()
    }

    /// The turn of the fair class: the left-most runnable thread competes with the
    /// running fair thread, or simply takes over from anything else. The idle thread
    /// fills in while the execution window is closed, and without a runnable thread
    /// unless a fair thread is running.
    pub open spec fn cfs_selected(self) -> CoreView {
        if self.window_closed() {
            self.window_waited()
        } else {
            self.runnable_selected()
        }
    }

    /// The turn of the fair class in an open execution window.
    pub open spec fn runnable_selected(self) -> CoreView {
        match self.first_run() {
            Some(next) => {
                let popped = CoreView { run: self.run.remove(next), ..self };
                let c = self.current->0;
                if self.current_competes() {
                    if self.sched[c as int].vruntime > self.sched[next as int].vruntime {
                        self.preempted(c, next)
                    } else {
                        self
                    }
                } else {
                    popped.switched_to_cfs(next)
                }
            },
            None => if self.current is None || !self.current_is_cfs
                || self.ctx[self.current->0 as int].state is Waiting {
                self.switched_to_idle()
            } else {
                self
            },
        }
    }

    /// The turn of real-time thread `next`. A fair thread that ran rejoins the run
    /// queue; the idle thread does not.
    pub open spec fn rt_selected(self, next: usize) -> CoreView {
        let c = self.current->0;
        let left = if self.ctx[c as int].state is Waiting {
            self
        } else {
            CoreView {
                run: if self.current_is_cfs && self.idle != Some(c) {
                    self.run.insert(c)
                } else {
                    self.run
                },
                ..self.with_state(c, ThreadState::Ready)
            }
        };
        CoreView {
            current: Some(next),
            current_is_cfs: false,
            ..left.with_state(next, ThreadState::Running)
        }
    }

    /// The thread for the timer that decides the dispatch is selected.
    pub open spec fn selected(self, timer: Option<usize>, elapsed: u32) -> CoreView {
        match timer {
            None => self,
            Some(t) => {
                let core = self.current_charged(elapsed);
                if t == CFS_KTIMER {
                    core.cfs_selected()
                } else {
                    match core.timer_owner[t as int] {
                        None => core,
                        Some(next) => core.rt_selected(next),
                    }
                }
            },
        }
    }

    /// Whatever may be selected for a timer can run: it does not wait, and there
    /// is a current thread for it to take over from. The current thread is not
    /// itself queued to run.
    pub open spec fn selectable(self, timer: Option<usize>, elapsed: u32) -> bool {
        &&& timer is Some ==> timer->0 < self.timers.len()
        &&& timer is Some && self.current_is_cfs ==> self.current is Some
        &&& timer is Some ==> self.charge_fits(elapsed)
        &&& timer is Some && self.current is Some ==> !self.run.contains(self.current->0)
        &&& timer == Some(CFS_KTIMER) ==> {
            &&& self.run != Set::<usize>::empty() ==> self.current is Some
            &&& forall|i: usize| #[trigger]
                self.run.contains(i) ==> !(self.ctx[i as int].state is Waiting)
            &&& self.idle is Some && (self.run == Set::<usize>::empty() || self.window_closed())
                ==> !(self.ctx[self.idle->0 as int].state is Waiting)
        }
        &&& timer is Some && timer->0 != CFS_KTIMER && self.timer_owner[timer->0 as int]
            is Some ==> {
            &&& self.current is Some
            &&& !(self.ctx[self.timer_owner[timer->0 as int]->0 as int].state is Waiting)
        }
    }
}

/// Initialize the CFS scheduler state and enqueue its scheduler timer.
///
/// `ticks` are raw timer ticks because the board owns the clock configuration.
pub fn init_cfs(kernel: &mut Kernel, period_ticks: u32, exec_ticks: u32)
    requires
        old(kernel).wf(),
        old(kernel)@.owned(),
        old(kernel)@.core.fault is None,
        !old(kernel)@.queued.contains(CFS_KTIMER),
    ensures
        final(kernel).wf(),
        final(kernel)@ == old(kernel)@.with_core(
            CoreView {
                run: Set::<usize>::empty(),
                priority_sum: 0,
                idle: None,
                ..old(kernel)@.core.with_timer(
                    CFS_KTIMER,
                    KTimerEntity::armed(
                        exec_ticks,
                        RtTiming {
                            period_ticks,
                            relative_deadline_ticks: exec_ticks,
                            budget_ticks: exec_ticks,
                        },
                    ),
                )
            },
        ).timer_added(CFS_KTIMER),
        final(kernel).core.sync@ == old(kernel).core.sync@,
{
    let ghost k = kernel@;
    init_cfs_rq(&mut kernel.core);
    kernel.core.idle = None;
    let mut cfs = CfsKTimer::new(period_ticks, exec_ticks, "cfs");
    cfs.entity.set_deadline(exec_ticks);
    kernel.core.timers[CFS_KTIMER] = cfs.entity;
    proof {
        kernel.queue.lemma_frame(old(kernel).core.timers@, kernel.core.timers@);
        let core = CoreView {
            run: Set::<usize>::empty(),
            priority_sum: 0,
            idle: None,
            ..k.core.with_timer(
                CFS_KTIMER,
                KTimerEntity::armed(
                    exec_ticks,
                    RtTiming {
                        period_ticks,
                        relative_deadline_ticks: exec_ticks,
                        budget_ticks: exec_ticks,
                    },
                ),
            )
        };
        assert(kernel@ =~= k.with_core(core));
    }
    enqueue_ktimer(kernel, CFS_KTIMER);
}

pub fn is_idle_thread(core: &Core, thread: usize) -> (is_idle: bool)
    ensures
        is_idle == (core@.idle == Some(thread)),
{
    core.idle == Some(thread)
}

/// Context of the idle thread, if one is registered.
pub fn traverse_idle_thread_fn(core: &Core) -> (idle: Option<ThreadCtx>)
    requires
        core.wf(),
    ensures
        idle == match core@.idle {
            None => None,
            Some(i) => Some(core@.ctx[i as int]),
        },
{
    match core.idle {
        None => None,
        Some(idle) => Some(core.ctx[idle]),
    }
}

/// A change of states and of the current thread keeps the columns together.
proof fn lemma_selection_ok(old_core: CoreView, core: CoreView)
    requires
        old_core.ok(),
        core == (CoreView {
            ctx: core.ctx,
            run: core.run,
            current: core.current,
            current_is_cfs: core.current_is_cfs,
            ..old_core
        }),
        core.ctx.len() == old_core.ctx.len(),
        forall|i: int|
            0 <= i < old_core.ctx.len() ==> (#[trigger] core.ctx[i]).is_cfs
                == old_core.ctx[i].is_cfs,
        forall|i: usize| #[trigger]
            core.run.contains(i) ==> i < old_core.ctx.len() && old_core.ctx[i as int].is_cfs,
        core.current is Some ==> core.current->0 < core.ctx.len()
            && core.ctx[core.current->0 as int].is_cfs == core.current_is_cfs,
    ensures
        core.ok(),
{
    assert forall|i: usize| i < core.ctx.len() && (#[trigger] core.ctx[i as int]).is_cfs implies
        core.sched[i as int].priority != 0 by {
        assert(old_core.ctx[i as int].is_cfs);
    }
    assert forall|i: usize| #[trigger] core.run.contains(i) implies i < core.ctx.len()
        && core.ctx[i as int].is_cfs by {
        assert(core.ctx[i as int].is_cfs == old_core.ctx[i as int].is_cfs);
    }
    assert forall|t: usize|
        t < core.timers.len() && (#[trigger] core.timer_owner[t as int]) is Some implies {
        let j = core.timer_owner[t as int]->0;
        t >= 2 && j < core.ctx.len() && !core.ctx[j as int].is_cfs
    } by {
        assert(old_core.timer_owner[t as int] is Some);
    }
}

/// Lets a fair thread run.
fn switch_to_cfs_thread(core: &mut Core, next_thread: usize)
    requires
        old(core).wf(),
        next_thread < old(core).ctx.len(),
        old(core)@.ctx[next_thread as int].is_cfs,
        !(old(core)@.ctx[next_thread as int].state is Waiting),
    ensures
        final(core).wf(),
        final(core)@ == old(core)@.switched_to_cfs(next_thread),
        final(core).timers@ == old(core).timers@,
        final(core).sync@ == old(core).sync@,
{
    if let Some(current) = core.current {
        if current != next_thread && core.ctx[current].state != ThreadState::Waiting {
            core.ctx[current].set_state(ThreadState::Ready);
        }
    }
    core.ctx[next_thread].set_state(ThreadState::Running);
    core.current = Some(next_thread);
    core.current_is_cfs = true;
    proof {
        assert(core@ =~= old(core)@.switched_to_cfs(next_thread));
        lemma_selection_ok(old(core)@, core@);
    }
}

fn switch_to_idle_thread(core: &mut Core)
    requires
        old(core).wf(),
        old(core)@.idle is Some ==> !(old(core)@.ctx[old(core)@.idle->0 as int].state is Waiting),
    ensures
        final(core).wf(),
        final(core)@ == old(core)@.switched_to_idle(),
        final(core).timers@ == old(core).timers@,
        final(core).sync@ == old(core).sync@,
{
    if let Some(idle) = core.idle {
        switch_to_cfs_thread(core, idle);
    }
}

/// Charges the running fair thread for the elapsed time.
fn charge_current_thread(core: &mut Core, elapsed: u32)
    requires
        old(core).wf(),
        old(core)@.current_is_cfs ==> old(core)@.current is Some,
        old(core)@.current is Some ==> !old(core)@.run.contains(old(core)@.current->0),
        old(core)@.charge_fits(elapsed),
    ensures
        final(core).wf(),
        final(core)@ == old(core)@.current_charged(elapsed),
        final(core).timers@ == old(core).timers@,
        final(core).sync@ == old(core).sync@,
{
    if core.current_is_cfs {
        let current: usize = core.current.unwrap();
        if core.ctx[current].state == ThreadState::Running && !is_idle_thread(core, current) {
            let priority_sum: u32 = core.run_queue.priority_sum;
            if priority_sum != 0 {
                assert(old(core)@.ctx[current as int].is_cfs);
                let entity = core.sched[current];
                assert(entity.payload() == old(core)@.sched[current as int]);
                let delta: u64 = cfs_vruntime_delta(
                    elapsed as u64,
                    entity.priority,
                    priority_sum,
                );
                core.sched[current].vruntime = entity.vruntime + delta;
                core.sched[current].sched_tick_cnt = entity.sched_tick_cnt + elapsed as u64;
                proof {
                    core.run_queue.tree.lemma_frame(old(core).sched@, core.sched@);
                    assert(core@ =~= old(core)@.current_charged(elapsed));
                    assert forall|i: usize| i < core@.ctx.len() && (
                    #[trigger] core@.ctx[i as int]).is_cfs implies core@.sched[i as int].priority
                        != 0 by {
                        assert(old(core)@.ctx[i as int].is_cfs);
                    }
                }
            }
        }
    }
}

/// Lets the idle thread run until the next execution window.
fn wait_for_window(core: &mut Core)
    requires
        old(core).wf(),
        old(core)@.current_is_cfs ==> old(core)@.current is Some,
        old(core)@.current is Some ==> !old(core)@.run.contains(old(core)@.current->0),
        old(core)@.idle is Some,
        !(old(core)@.ctx[old(core)@.idle->0 as int].state is Waiting),
    ensures
        final(core).wf(),
        final(core)@ == old(core)@.window_waited(),
        final(core).timers@ == old(core).timers@,
        final(core).sync@ == old(core).sync@,
{
    let ghost k = core@;
    if core.current_is_cfs {
        let current: usize = core.current.unwrap();
        if core.ctx[current].state != ThreadState::Waiting && !is_idle_thread(core, current) {
            core.run_queue.tree.insert(&mut core.sched, current);
            proof {
                assert(core@ =~= (CoreView { run: k.run.insert(current), ..k }));
                lemma_selection_ok(k, core@);
            }
        }
    }
    let ghost rejoined = core@;
    let idle: usize = core.idle.unwrap();
    if core.run_queue.tree.contains(&core.sched, idle) {
        core.run_queue.tree.remove(&mut core.sched, idle);
    }
    proof {
        assert(core@ =~= (CoreView { run: rejoined.run.remove(idle), ..rejoined }));
        lemma_selection_ok(rejoined, core@);
    }
    switch_to_cfs_thread(core, idle);
}

/// Selects the thread that runs in the turn of the fair class.
fn select_cfs_thread(core: &mut Core)
    requires
        old(core).wf(),
        old(core)@.current_is_cfs ==> old(core)@.current is Some,
        old(core)@.current is Some ==> !old(core)@.run.contains(old(core)@.current->0),
        old(core)@.run != Set::<usize>::empty() ==> old(core)@.current is Some,
        forall|i: usize| #[trigger]
            old(core)@.run.contains(i) ==> !(old(core)@.ctx[i as int].state is Waiting),
        old(core)@.idle is Some && (old(core)@.run == Set::<usize>::empty()
            || old(core)@.window_closed()) ==> !(
        old(core)@.ctx[old(core)@.idle->0 as int].state is Waiting),
    ensures
        final(core).wf(),
        final(core)@ == old(core)@.cfs_selected(),
        final(core).timers@ == old(core).timers@,
        final(core).sync@ == old(core).sync@,
{
    assert(core@.timers[CFS_KTIMER as int].active == core.timers@[CFS_KTIMER as int].active);
    if core.idle.is_some() && !core.timers[CFS_KTIMER].is_active() {
        wait_for_window(core);
    } else {
        select_runnable_thread(core);
    }
}

/// Selects the thread that runs in an open execution window.
fn select_runnable_thread(core: &mut Core)
    requires
        old(core).wf(),
        old(core)@.current_is_cfs ==> old(core)@.current is Some,
        old(core)@.current is Some ==> !old(core)@.run.contains(old(core)@.current->0),
        old(core)@.run != Set::<usize>::empty() ==> old(core)@.current is Some,
        forall|i: usize| #[trigger]
            old(core)@.run.contains(i) ==> !(old(core)@.ctx[i as int].state is Waiting),
        old(core)@.run == Set::<usize>::empty() && old(core)@.idle is Some ==> !(
        old(core)@.ctx[old(core)@.idle->0 as int].state is Waiting),
    ensures
        final(core).wf(),
        final(core)@ == old(core)@.runnable_selected(),
        final(core).timers@ == old(core).timers@,
        final(core).sync@ == old(core).sync@,
{
    let ghost k = core@;
    match core.run_queue.tree.first(&core.sched) {
        Some(next) => {
            assert(k.run.contains(next));
            let current: usize = core.current.unwrap();
            assert(core@.sched[next as int].vruntime == core.sched@[next as int].vruntime);
            assert(core@.sched[current as int].vruntime == core.sched@[current as int].vruntime);
            core.run_queue.tree.remove(&mut core.sched, next);
            proof {
                assert(core@ =~= (CoreView { run: k.run.remove(next), ..k }));
            }
            if core.current_is_cfs && core.ctx[current].state != ThreadState::Waiting
                && !is_idle_thread(core, current) {
                assert(core@.sched[next as int].vruntime == core.sched@[next as int].vruntime);
                assert(core@.sched[current as int].vruntime
                    == core.sched@[current as int].vruntime);
                if core.sched[current].vruntime > core.sched[next].vruntime {
                    core.ctx[current].set_state(ThreadState::Ready);
                    core.run_queue.tree.insert(&mut core.sched, current);
                    core.ctx[next].set_state(ThreadState::Running);
                    core.current = Some(next);
                    core.current_is_cfs = true;
                    proof {
                        assert(core@ =~= k.preempted(current, next));
                        lemma_selection_ok(k, core@);
                    }
                } else {
                    core.run_queue.tree.insert(&mut core.sched, next);
                    assert(k.run.remove(next).insert(next) =~= k.run);
                    assert(core@ =~= k);
                }
            } else {
                switch_to_cfs_thread(core, next);
            }
        },
        None => {
            let vacant: bool = match core.current {
                None => true,
                Some(current) => !core.current_is_cfs || core.ctx[current].state
                    == ThreadState::Waiting,
            };
            if vacant {
                switch_to_idle_thread(core);
            }
        },
    }
}

/// Lets a real-time thread run.
fn select_rt_thread(core: &mut Core, next: usize)
    requires
        old(core).wf(),
        next < old(core).ctx.len(),
        !old(core)@.ctx[next as int].is_cfs,
        !(old(core)@.ctx[next as int].state is Waiting),
        old(core)@.current is Some,
        !old(core)@.run.contains(old(core)@.current->0),
    ensures
        final(core).wf(),
        final(core)@ == old(core)@.rt_selected(next),
        final(core).timers@ == old(core).timers@,
        final(core).sync@ == old(core).sync@,
{
    let ghost k = core@;
    let current: usize = core.current.unwrap();
    if core.ctx[current].state != ThreadState::Waiting {
        core.ctx[current].set_state(ThreadState::Ready);
        if core.current_is_cfs && !is_idle_thread(core, current) {
            core.run_queue.tree.insert(&mut core.sched, current);
        }
    }
    core.ctx[next].set_state(ThreadState::Running);
    core.current = Some(next);
    core.current_is_cfs = false;
    proof {
        assert(core@ =~= k.rt_selected(next));
        lemma_selection_ok(k, core@);
    }
}

/// Selects the thread for the timer that decides the dispatch.
///
/// - A running fair thread is charged virtual runtime for the elapsed ticks by
///   its inverse-numeric priority. Lower numeric priority values are favored
///   because they accumulate virtual runtime more slowly.
/// - For the fair timer while it is inactive, the execution window is closed: the idle
///   thread takes over, if one is registered. A fair thread that ran goes back to the
///   run queue.
/// - For the fair timer and a running fair thread, the virtual runtimes of that
///   thread and of the left-most runnable one decide whether to preempt.
/// - For the fair timer and a running real-time thread, the left-most runnable
///   fair thread takes over.
/// - For a real-time timer and a running fair thread, that thread goes back to the
///   run queue and the real-time thread takes over.
/// - For a real-time timer and a running real-time thread, the latter is preempted.
pub fn schedule_next(core: &mut Core, next_ktimer: Option<usize>, elapsed: u32)
    requires
        old(core).wf(),
        old(core)@.selectable(next_ktimer, elapsed),
    ensures
        final(core).wf(),
        final(core)@ == old(core)@.selected(next_ktimer, elapsed),
        final(core).timers@ == old(core).timers@,
        final(core).sync@ == old(core).sync@,
{
    let Some(timer) = next_ktimer else {
        return;
    };
    charge_current_thread(core, elapsed);
    let ghost charged = core@;
    if is_cfs_ktimer(timer) {
        select_cfs_thread(core);
    } else {
        let Some(next) = core.timer_owner[timer] else {
            return;
        };
        assert(charged.timer_owner[timer as int] == Some(next));
        select_rt_thread(core, next);
    }
}

/// Whether what the running fair thread is to be charged can be counted.
fn is_charge_fitting(core: &Core, elapsed: u32) -> (fits: bool)
    requires
        core.wf(),
        core@.current_is_cfs ==> core@.current is Some,
    ensures
        fits == core@.charge_fits(elapsed),
{
    if !core.current_is_cfs {
        return true;
    }
    let current: usize = core.current.unwrap();
    let priority_sum: u32 = core.run_queue.priority_sum;
    if core.ctx[current].state != ThreadState::Running || is_idle_thread(core, current)
        || priority_sum == 0 {
        return true;
    }
    let entity = core.sched[current];
    assert(entity.payload() == core@.sched[current as int]);
    assert(core@.ctx[current as int].is_cfs);
    let delta: u64 = cfs_vruntime_delta(elapsed as u64, entity.priority, priority_sum);
    entity.vruntime.checked_add(delta).is_some() && entity.sched_tick_cnt.checked_add(
        elapsed as u64,
    ).is_some()
}

/// Whether all runnable threads can run.
fn are_runnable_threads_ready(core: &Core) -> (ready: bool)
    requires
        core.wf(),
    ensures
        ready == forall|i: usize| #[trigger]
            core@.run.contains(i) ==> !(core@.ctx[i as int].state is Waiting),
{
    let slots = core.run_queue.tree.entities(&core.sched);
    proof {
        core.run_queue.tree.lemma_in_order(core.sched@);
        core.run_queue.tree.lemma_members(core.sched@);
    }
    let mut n: usize = 0;
    while n < slots.len()
        invariant
            n <= slots.len(),
            core.wf(),
            crate::rbtree::lists::<SchedEntity>(core@.sched, core@.run, slots@),
            forall|j: int| 0 <= j < slots@.len() ==> (#[trigger] slots@[j]) < core.ctx.len(),
            forall|j: int|
                0 <= j < n ==> !(core@.ctx[(#[trigger] slots@[j]) as int].state is Waiting),
        decreases slots.len() - n,
    {
        let slot: usize = slots[n];
        if core.ctx[slot].state == ThreadState::Waiting {
            assert(slots@.contains(slot));
            assert(core@.run.contains(slot));
            return false;
        }
        n = n + 1;
    }
    assert forall|i: usize| #[trigger] core@.run.contains(i) implies !(
    core@.ctx[i as int].state is Waiting) by {
        let j = choose|j: int| 0 <= j < slots@.len() && slots@[j] == i;
        assert(slots@[j] == i);
    }
    true
}

/// Whether `schedule_next` can be called: whatever may be selected can run.
pub fn is_selectable(core: &Core, next_ktimer: Option<usize>, elapsed: u32) -> (possible: bool)
    requires
        core.wf(),
    ensures
        possible == core@.selectable(next_ktimer, elapsed),
{
    let Some(timer) = next_ktimer else {
        return true;
    };
    if timer >= core.timers.len() || core.current_is_cfs && core.current.is_none() {
        return false;
    }
    if !is_charge_fitting(core, elapsed) {
        return false;
    }
    if let Some(current) = core.current {
        if core.run_queue.tree.contains(&core.sched, current) {
            return false;
        }
    }
    if is_cfs_ktimer(timer) {
        let vacant: bool = core.run_queue.tree.is_empty(&core.sched);
        if !vacant && core.current.is_none() || !are_runnable_threads_ready(core) {
            return false;
        }
        assert(core@.timers[CFS_KTIMER as int].active == core.timers@[CFS_KTIMER as int].active);
        match core.idle {
            Some(idle) => !(vacant || !core.timers[CFS_KTIMER].is_active())
                || core.ctx[idle].state != ThreadState::Waiting,
            None => true,
        }
    } else {
        assert(core@.timer_owner[timer as int] is Some
            ==> core@.timer_owner[timer as int]->0 < core@.ctx.len());
        match core.timer_owner[timer] {
            Some(owner) => core.current.is_some() && core.ctx[owner].state != ThreadState::Waiting,
            None => true,
        }
    }
}

/// Register the CFS thread that should run when no normal work is runnable.
///
/// The idle thread is deliberately removed from the CFS run queue so it does
/// not participate in fairness accounting. It is selected only as a scheduler
/// fallback.
pub fn register_idle_thread(core: &mut Core, thread: ThreadHandle)
    requires
        old(core).wf(),
        thread.slot < old(core).ctx.len(),
        old(core)@.ctx[thread.slot as int].is_cfs,
    ensures
        final(core).wf(),
        final(core)@ == (CoreView {
            idle: Some(thread.slot),
            ..old(core)@.unqueued(thread.slot)
        }),
        old(core)@.ctx[thread.slot as int].state is Ready && old(core)@.run.contains(thread.slot)
            ==> crate::rbtree::links(final(core).sched@)[thread.slot as int] == RbNode::detached(),
        final(core).timers@ == old(core).timers@,
        final(core).sync@ == old(core).sync@,
{
    dequeue_thread(core, thread.slot);
    core.idle = Some(thread.slot);
    assert(core@ =~= (CoreView { idle: Some(thread.slot), ..old(core)@.unqueued(thread.slot) }));
}

impl CoreView {
    /// Fair thread `i` is the first that runs.
    pub open spec fn main_started(self, i: usize) -> CoreView {
        CoreView {
            run: if self.idle == Some(i) {
                self.run
            } else {
                self.run.remove(i)
            },
            current: Some(i),
            current_is_cfs: true,
            ..self.with_state(i, ThreadState::Running)
        }
    }
}

/// Selects the first thread.
///
/// The thread must be a fair one. It leaves the run queue, unless it is the idle
/// thread, which is not queued. The platform restores its prepared stack frame
/// afterwards.
pub fn spawn_main_thread(kernel: &mut Kernel, thread: ThreadHandle)
    requires
        old(kernel).wf(),
        thread.valid(old(kernel)@.core),
        old(kernel)@.core.ctx[thread.slot as int].is_cfs,
        old(kernel)@.core.ctx[thread.slot as int].state.allows(ThreadState::Running),
        old(kernel)@.core.idle != Some(thread.slot) ==> old(kernel)@.core.run.contains(thread.slot),
    ensures
        final(kernel).wf(),
        final(kernel)@ == old(kernel)@.with_core(old(kernel)@.core.main_started(thread.slot)),
        final(kernel).core.sync@ == old(kernel).core.sync@,
{
    let ghost k = kernel@;
    if !is_idle_thread(&kernel.core, thread.slot) {
        let _ = kernel.core.run_queue.tree.remove(&mut kernel.core.sched, thread.slot);
    }
    kernel.core.ctx[thread.slot].set_state(ThreadState::Running);
    kernel.core.current = Some(thread.slot);
    kernel.core.current_is_cfs = true;
    proof {
        let r = kernel@;
        assert(r =~= k.with_core(k.core.main_started(thread.slot)));
        assert forall|j: usize|
            j < r.core.ctx.len() && (#[trigger] r.core.ctx[j as int]).is_cfs implies r.core.sched[j as int].priority
            != 0 by {
            assert(k.core.ctx[j as int].is_cfs);
        }
        assert forall|t: usize|
            t < r.core.timers.len() && (#[trigger] r.core.timer_owner[t as int]) is Some implies {
            let o = r.core.timer_owner[t as int]->0;
            t >= 2 && o < r.core.ctx.len() && !r.core.ctx[o as int].is_cfs
        } by {
            assert(k.core.timer_owner[t as int] is Some);
        }
    }
}

/// Asks the platform for a context switch.
pub fn request_context_switch(core: &mut Core)
    requires
        old(core).wf(),
    ensures
        final(core).wf(),
        final(core)@ == (CoreView { switch_pending: true, ..old(core)@ }),
        final(core).timers@ == old(core).timers@,
        final(core).sync@ == old(core).sync@,
{
    core.switch_pending = true;
}

impl KernelView {
    /// A context switch is performed: the thread for the next timer is selected
    /// and the switch is traced.
    pub open spec fn scheduled(self, elapsed: u32) -> KernelView {
        let core = self.core.selected(self.core.next_ktimer, elapsed);
        self.with_core(
            CoreView {
                trace: core.trace.context_switch(core.ctx, self.core.current, core.current),
                switch_pending: false,
                ..core
            },
        )
    }

    /// A context switch can be performed: whatever may be selected can run, and the
    /// current thread is in the wait queue only if it waits.
    pub open spec fn schedulable(self, elapsed: u32) -> bool {
        &&& self.core.selectable(self.core.next_ktimer, elapsed)
        &&& self.core.current is Some && !(self.core.ctx[self.core.current->0 as int].state
            is Waiting) ==> !self.core.waiting.contains(self.core.current->0)
    }

    /// A scheduler tick `elapsed` ticks after the last one: the clock advances, the
    /// expired timers are dispatched, and a context switch is requested.
    pub open spec fn ticked(self, elapsed: u32) -> KernelView {
        let k = (KernelView {
            now: self.now.saturating_add(elapsed as u64),
            ..self
        }).dispatched(elapsed);
        if k.core.fault is Some {
            k
        } else {
            let (r, next) = k.chosen();
            r.with_core(CoreView { next_ktimer: next, switch_pending: true, ..r.core })
        }
    }
}

/// A selection makes at most the current thread runnable, and only when it does
/// not wait.
pub proof fn lemma_selected_run(core: CoreView, timer: Option<usize>, elapsed: u32)
    requires
        core.ok(),
        core.selectable(timer, elapsed),
    ensures
        core.selected(timer, elapsed) == (CoreView {
            ctx: core.selected(timer, elapsed).ctx,
            sched: core.selected(timer, elapsed).sched,
            run: core.selected(timer, elapsed).run,
            current: core.selected(timer, elapsed).current,
            current_is_cfs: core.selected(timer, elapsed).current_is_cfs,
            ..core
        }),
        forall|i: usize| #[trigger]
            core.selected(timer, elapsed).run.contains(i) ==> core.run.contains(i) || (
            core.current == Some(i) && !(core.ctx[i as int].state is Waiting)),
        core.selected(timer, elapsed).ctx.len() == core.ctx.len(),
        forall|i: int|
            0 <= i < core.ctx.len() ==> (#[trigger] core.selected(timer, elapsed).ctx[i]).is_cfs
                == core.ctx[i].is_cfs,
        core.selected(timer, elapsed).current is Some ==> core.selected(
            timer,
            elapsed,
        ).current->0 < core.ctx.len(),
{
    if let Some(t) = timer {
        let charged = core.current_charged(elapsed);
        if t == CFS_KTIMER {
            if charged.window_closed() {
                assert(charged.idle == core.idle);
            } else if let Some(next) = charged.first_run() {
                let f = choose|f: usize|
                    crate::rbtree::is_first::<SchedEntity>(charged.sched, charged.run, f);
                assert(crate::rbtree::is_first::<SchedEntity>(charged.sched, charged.run, f));
                assert(charged.run.contains(next));
            }
        } else if let Some(next) = core.timer_owner[t as int] {
            assert(core.timer_owner[t as int] is Some);
        }
    }
}

/// Performs a context switch. `programmed` is the reload value read from the
/// timer. The result is the reload value to program next.
pub fn schedule(kernel: &mut Kernel, programmed: Option<u32>) -> (reload: Option<u32>)
    requires
        old(kernel).wf(),
        old(kernel)@.schedulable(
            crate::timers::interval_ticks(programmed, old(kernel)@.next_reload()),
        ),
    ensures
        final(kernel).wf(),
        final(kernel)@ == old(kernel)@.scheduled(
            crate::timers::interval_ticks(programmed, old(kernel)@.next_reload()),
        ),
        reload == old(kernel)@.next_reload(),
        reload is Some ==> crate::platform::SCHEDULER_TIMER_RELOAD_MIN <= reload->0
            <= crate::platform::SCHEDULER_TIMER_RELOAD_MAX,
        final(kernel).core.sync@ == old(kernel).core.sync@,
{
    let ghost k = kernel@;
    let elapsed: u32 = elapsed_ticks_since_last_interrupt(kernel, programmed);
    let from = kernel.core.current;
    let timer = next_ktimer(&kernel.core);
    proof {
        lemma_selected_run(k.core, timer, elapsed);
    }
    schedule_next(&mut kernel.core, timer, elapsed);
    let to = kernel.core.current;
    record_context_switch(&mut kernel.core.trace, &kernel.core.ctx, from, to);
    kernel.core.switch_pending = false;
    proof {
        assert(kernel@ =~= k.scheduled(elapsed));
    }
    next_ktimer_reload(kernel)
}

/// Whether `schedule` can be called.
pub fn can_schedule(kernel: &Kernel, programmed: Option<u32>) -> (possible: bool)
    requires
        kernel.wf(),
    ensures
        possible == kernel@.schedulable(
            crate::timers::interval_ticks(programmed, kernel@.next_reload()),
        ),
{
    let elapsed: u32 = elapsed_ticks_since_last_interrupt(kernel, programmed);
    if let Some(current) = kernel.core.current {
        if kernel.core.ctx[current].state != ThreadState::Waiting
            && kernel.core.wait_queue.tree.contains(&kernel.core.wait, current) {
            return false;
        }
    }
    is_selectable(&kernel.core, next_ktimer(&kernel.core), elapsed)
}

/// Handle one scheduler tick and request a context switch.
///
/// A scheduler tick means different things for each timer:
/// - For the fair timer, the current execution window is used up, and the thread of
///   the timer with the next earliest deadline should preempt the current one.
/// - For the wait timer, some waiting thread needs to be woken up.
/// - For a real-time timer that is active, the current job misses its deadline if
///   it has taken longer than its relative deadline. One that is inactive finished
///   its job before and is released again. Either is re-armed with its relative
///   deadline.
///
/// `programmed` is the reload value read from the timer.
pub fn handle_sched_tick(kernel: &mut Kernel, programmed: Option<u32>)
    requires
        old(kernel).wf(),
        old(kernel)@.core.fault is None,
        (KernelView {
            now: old(kernel)@.now.saturating_add(
                crate::timers::interval_ticks(programmed, old(kernel)@.next_reload()) as u64,
            ),
            ..old(kernel)@
        }).dispatchable(),
    ensures
        final(kernel).wf(),
        final(kernel)@ == old(kernel)@.ticked(
            crate::timers::interval_ticks(programmed, old(kernel)@.next_reload()),
        ),
        final(kernel).core.sync@ == old(kernel).core.sync@,
{
    let elapsed: u32 = elapsed_ticks_since_last_interrupt(kernel, programmed);
    advance_ktimers(kernel, elapsed);
    let next = dispatch_expired_ktimer(kernel, elapsed);
    if kernel.core.fault.is_some() {
        return;
    }
    update_next_ktimer(&mut kernel.core, next);
    if next.is_some() {
        request_context_switch(&mut kernel.core);
    }
    assert(kernel@ =~= old(kernel)@.ticked(elapsed));
}

/// The idle thread is a fallback: it takes over only in a turn of the fair class,
/// and only when no fair thread is runnable or the execution window is closed.
pub proof fn lemma_idle_is_a_fallback(core: CoreView, timer: Option<usize>, elapsed: u32)
    requires
        core.ok(),
        core.selectable(timer, elapsed),
        core.idle is Some,
        !core.run.contains(core.idle->0),
        core.current != core.idle,
        core.selected(timer, elapsed).current == core.idle,
    ensures
        timer == Some(CFS_KTIMER),
        core.run == Set::<usize>::empty() || !core.timers[CFS_KTIMER as int].active,
{
    let charged = core.current_charged(elapsed);
    let t = timer->0;
    if t == CFS_KTIMER {
        if core.run != Set::<usize>::empty() {
            crate::rbtree::lemma_first_exists::<SchedEntity>(charged.sched, charged.run);
        }
    } else if let Some(next) = core.timer_owner[t as int] {
        assert(core.timer_owner[t as int] is Some);
    }
}

/// While the execution window is closed, no normal fair thread runs in a turn of the
/// fair class: the idle thread does. The runnable threads stay runnable, and so does a
/// fair thread that ran; a real-time thread that ran is ready.
pub proof fn lemma_closed_window_is_idle(core: CoreView, elapsed: u32)
    requires
        core.ok(),
        core.selectable(Some(CFS_KTIMER), elapsed),
        core.idle is Some,
        !core.timers[CFS_KTIMER as int].active,
    ensures
        ({
            let r = core.selected(Some(CFS_KTIMER), elapsed);
            &&& r.current == core.idle
            &&& r.ctx[core.idle->0 as int].state is Running
            &&& !core.run.contains(core.idle->0) ==> r.run == if core.current_competes() {
                core.run.insert(core.current->0)
            } else {
                core.run
            }
            &&& core.current is Some && core.current != core.idle && !(
            core.ctx[core.current->0 as int].state is Waiting) ==> r.ctx[core.current->0 as int].state
                is Ready
        }),
{
    let r = core.selected(Some(CFS_KTIMER), elapsed);
    if !core.run.contains(core.idle->0) {
        assert(r.run =~= if core.current_competes() {
            core.run.insert(core.current->0)
        } else {
            core.run
        });
    }
}

/// Without a runnable fair thread, the idle thread takes over in a turn of the fair
/// class from a thread of another class or one that waits.
pub proof fn lemma_idle_fills_in(core: CoreView, elapsed: u32)
    requires
        core.ok(),
        core.idle is Some,
        core.run == Set::<usize>::empty(),
        core.current is None || !core.current_is_cfs
            || core.ctx[core.current->0 as int].state is Waiting,
        core.current is None ==> !core.current_is_cfs,
    ensures
        core.selected(Some(CFS_KTIMER), elapsed).current == core.idle,
{
    crate::rbtree::lemma_first_of_empty::<SchedEntity>(
        core.current_charged(elapsed).sched,
        core.run,
    );
}

/// The idle thread takes no part in the accounting.
pub proof fn lemma_idle_is_not_charged(core: CoreView, elapsed: u32)
    requires
        core.current == core.idle,
    ensures
        core.current_charged(elapsed) == core,
{
}

/// After a turn of the fair class, no runnable fair thread has a smaller virtual
/// runtime than the one that runs.
pub proof fn lemma_smallest_vruntime_runs(core: CoreView, elapsed: u32)
    requires
        core.ok(),
        core.selectable(Some(CFS_KTIMER), elapsed),
    ensures
        ({
            let r = core.selected(Some(CFS_KTIMER), elapsed);
            r.current is Some && r.current != r.idle ==> forall|j: usize| #[trigger]
                r.run.contains(j) ==> r.sched[r.current->0 as int].vruntime
                    <= r.sched[j as int].vruntime
        }),
{
    let charged = core.current_charged(elapsed);
    if core.run != Set::<usize>::empty() {
        crate::rbtree::lemma_first_exists::<SchedEntity>(charged.sched, charged.run);
        let next = charged.first_run()->0;
        let r = core.selected(Some(CFS_KTIMER), elapsed);
        if r.current is Some && r.current != r.idle {
            assert forall|j: usize| #[trigger] r.run.contains(j) implies r.sched[r.current->0 as int].vruntime
                <= r.sched[j as int].vruntime by {
                if charged.run.contains(j) && j != next {
                    assert(crate::rbtree::before::<SchedEntity>(charged.sched, next, j));
                }
            }
        }
    } else {
        crate::rbtree::lemma_first_of_empty::<SchedEntity>(charged.sched, charged.run);
    }
}

/// After a tick, the timer with the earliest deadline among the active ones decides
/// the dispatch. The fair scheduling timer decides when none is active.
pub proof fn lemma_earliest_deadline_first(k: KernelView, elapsed: u32)
    requires
        k.ticked(elapsed).core.fault is None,
    ensures
        ({
            let r = k.ticked(elapsed);
            let d = (KernelView {
                now: k.now.saturating_add(elapsed as u64),
                ..k
            }).dispatched(elapsed);
            let active = crate::ktimer::active_ids(d.core.timers, d.queued);
            &&& r.core.next_ktimer is Some
            &&& active == Set::<usize>::empty() ==> r.core.next_ktimer == Some(CFS_KTIMER)
            &&& active != Set::<usize>::empty() ==> active.contains(r.core.next_ktimer->0)
            &&& forall|t: usize| #[trigger]
                active.contains(t)
                    ==> r.core.timers[r.core.next_ktimer->0 as int].deadline_at
                    <= r.core.timers[t as int].deadline_at
        }),
{
    let d = (KernelView { now: k.now.saturating_add(elapsed as u64), ..k }).dispatched(elapsed);
    let active = crate::ktimer::active_ids(d.core.timers, d.queued);
    if active == Set::<usize>::empty() {
        crate::rbtree::lemma_first_of_empty::<KTimerEntity>(d.core.timers, active);
    } else {
        crate::rbtree::lemma_first_exists::<KTimerEntity>(d.core.timers, active);
        let first = d.first_active()->0;
        assert forall|t: usize| #[trigger] active.contains(t) implies d.core.timers[first as int].deadline_at
            <= d.core.timers[t as int].deadline_at by {
            if t != first {
                assert(crate::rbtree::before::<KTimerEntity>(d.core.timers, first, t));
            }
        }
    }
}

} // verus!
