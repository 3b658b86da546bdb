//! Operations of the thread that is running.

use crate::clock::ticks_per_ms;
use crate::kernel::{Core, CoreView, Kernel, KernelView};
use crate::runq::dequeue_runq_to_waitq;
use crate::sched::request_context_switch;
use crate::thread::{ThreadHandle, ThreadId};
use crate::timers::{
    dequeue_ktimerq_to_waitq, ktimer_now_ticks, thread_scheduler_ktimer, update_next_ktimer,
    yield_ktimer,
};
use crate::trace::record_yield;
use crate::waitq::WaitEntity;
use vstd::prelude::*;

verus! {

/// Return a handle to the thread currently selected by the scheduler.
///
/// It returns `None` before the first thread has been started.
pub fn current_thread(core: &Core) -> (thread: Option<ThreadHandle>)
    ensures
        thread == match core@.current {
            Some(slot) => Some(ThreadHandle { slot }),
            None => None,
        },
{
    match core.current {
        Some(slot) => Some(ThreadHandle { slot }),
        None => None,
    }
}

/// Return the identifier of the thread currently selected by the scheduler.
pub fn current_thread_id(core: &Core) -> (id: Option<ThreadId>)
    requires
        core.wf(),
    ensures
        id == match core@.current {
            Some(slot) => Some(ThreadId(core@.ctx[slot as int].id)),
            None => None,
        },
{
    match core.current {
        Some(slot) => Some(core.ctx[slot].id()),
        None => None,
    }
}

impl CoreView {
    /// The current thread is a real-time thread.
    pub open spec fn current_is_rt(self) -> bool {
        self.current is Some && !self.current_is_cfs
    }
}

/// Sets the elapsed ticks of the current real-time thread. Returns whether there
/// is such a thread.
pub fn set_rt_thread_start_time(core: &mut Core, start_time: u32) -> (done: bool)
    requires
        old(core).wf(),
    ensures
        final(core).wf(),
        done == old(core)@.current_is_rt(),
        final(core)@ == if done {
            old(core)@.with_runtime(old(core)@.current->0, start_time)
        } else {
            old(core)@
        },
        final(core).timers@ == old(core).timers@,
        final(core).sync@ == old(core).sync@,
{
    match core.current {
        Some(slot) => if core.current_is_cfs {
            false
        } else {
            core.runtime[slot] = start_time;
            assert(core@ =~= old(core)@.with_runtime(slot, start_time));
            true
        },
        None => false,
    }
}

/// Elapsed ticks of the current real-time thread.
pub fn current_rt_thread_runtime(core: &Core) -> (runtime: Option<u32>)
    requires
        core.wf(),
    ensures
        runtime == if core@.current_is_rt() {
            Some(core@.runtime[core@.current->0 as int])
        } else {
            None
        },
{
    match core.current {
        Some(slot) => if core.current_is_cfs {
            None
        } else {
            Some(core.runtime[slot])
        },
        None => None,
    }
}

impl KernelView {
    /// The current thread finishes its job: its timer waits for the next turn, the
    /// next timer is chosen and a context switch is requested.
    pub open spec fn yielded(self, elapsed: u32) -> KernelView {
        let i = self.core.current->0;
        let (k, next) = match self.core.scheduler_timer(i) {
            None => (self, None),
            Some(t) => self.turn_yielded(t, elapsed, true),
        };
        k.with_core(
            CoreView {
                next_ktimer: next,
                trace: k.core.trace.yielded(k.core.ctx[i as int], elapsed),
                switch_pending: true,
                ..k.core
            },
        )
    }

    /// The current thread ends its turn and waits for the given time. A context
    /// switch is requested.
    pub open spec fn slept(self, msec: u32, elapsed: u32) -> KernelView {
        let i = self.core.current->0;
        let k = match self.core.scheduler_timer(i) {
            None => self,
            Some(t) => self.turn_yielded(t, elapsed, false).0,
        };
        let ticks = saturating_product(msec, self.core.clock.ticks());
        let waiting = k.with_core(
            k.core.with_wait(
                i,
                WaitEntity {
                    wake_at: k.now.saturating_add(ticks as u64),
                    waitevt: 0,
                    ..k.core.wait[i as int]
                },
            ),
        );
        (if self.core.current_is_cfs {
            waiting.cfs_parked(i).0
        } else {
            waiting.rt_parked(i).0
        }).switch_requested()
    }
}

/// Product, or the largest number if the product is larger.
pub open spec fn saturating_product(a: u32, b: u32) -> u32 {
    if a * b > u32::MAX {
        u32::MAX
    } else {
        (a * b) as u32
    }
}

/// Cooperatively yield the CPU from the running thread to the next scheduled
/// left-most timer of the timer queue.
///
/// This is intended for the threads that have completed their current job and
/// want to give a chance to the next scheduled thread. `elapsed` is what has
/// passed of the current timer interval.
pub fn yieldyi(kernel: &mut Kernel, elapsed: u32)
    requires
        old(kernel).wf(),
        old(kernel)@.core.current is Some,
        old(kernel)@.core.scheduler_timer(old(kernel)@.core.current->0) is Some ==> old(
            kernel,
        )@.queued.contains(old(kernel)@.core.scheduler_timer(old(kernel)@.core.current->0)->0),
    ensures
        final(kernel).wf(),
        final(kernel)@ == old(kernel)@.yielded(elapsed),
        final(kernel).core.sync@ == old(kernel).core.sync@,
        old(kernel)@.steady() ==> final(kernel)@.steady(),
{
    let ghost k0 = kernel@;
    let Some(thread) = kernel.core.current else {
        return;
    };
    let timer = thread_scheduler_ktimer(&kernel.core, thread);
    proof {
        if timer is Some && timer->0 >= 2 {
            assert(k0.core.ktimer_of[thread as int] == timer);
            assert(k0.core.timer_owner[timer->0 as int] is Some);
        }
    }
    let next_ktimer = yield_ktimer(kernel, timer, elapsed, true);
    update_next_ktimer(&mut kernel.core, next_ktimer);
    record_yield(&mut kernel.core.trace, &kernel.core.ctx[thread], elapsed);
    request_context_switch(&mut kernel.core);
    proof {
        assert(kernel@ =~= k0.yielded(elapsed));
    }
}

/// Put the running thread to sleep for `msec` milliseconds.
///
/// `elapsed` is what has passed of the current timer interval.
pub fn msleepyi(kernel: &mut Kernel, msec: u32, elapsed: u32)
    requires
        old(kernel).wf(),
        old(kernel)@.can_block(),
    ensures
        final(kernel).wf(),
        final(kernel)@ == old(kernel)@.slept(msec, elapsed),
        final(kernel).core.sync@ == old(kernel).core.sync@,
        final(kernel)@.core.fault is None ==> final(kernel)@.steady(),
{
    let ghost k0 = kernel@;
    let Some(thread) = kernel.core.current else {
        return;
    };
    let timer = thread_scheduler_ktimer(&kernel.core, thread);
    proof {
        if timer is Some && timer->0 >= 2 {
            assert(k0.core.ktimer_of[thread as int] == timer);
            assert(k0.core.timer_owner[timer->0 as int] is Some);
        }
    }
    let _ = yield_ktimer(kernel, timer, elapsed, false);
    let ghost k1 = kernel@;
    let ghost wait0 = kernel.core.wait@;
    let now: u64 = ktimer_now_ticks(kernel);
    let ticks: u32 = match msec.checked_mul(ticks_per_ms(&kernel.core.clock)) {
        Some(ticks) => ticks,
        None => u32::MAX,
    };
    kernel.core.wait[thread].set_wake_after(now, ticks);
    kernel.core.wait[thread].waitevt = 0;
    proof {
        let entity = WaitEntity {
            wake_at: k1.now.saturating_add(ticks as u64),
            waitevt: 0,
            ..k1.core.wait[thread as int]
        };
        assert(kernel@ =~= k1.with_core(k1.core.with_wait(thread, entity)));
        kernel.core.wait_queue.tree.lemma_frame(wait0, kernel.core.wait@);
    }
    let _ = if kernel.core.current_is_cfs {
        dequeue_runq_to_waitq(kernel, thread)
    } else {
        dequeue_ktimerq_to_waitq(kernel, thread)
    };
    request_context_switch(&mut kernel.core);
    proof {
        assert(kernel@ =~= k0.slept(msec, elapsed));
    }
}

} // verus!
