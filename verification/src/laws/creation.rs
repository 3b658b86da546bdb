//! Laws of the creation of threads.

use crate::kernel::KernelView;
use crate::ktimer::RtKTimer;
use crate::laws::fair::{is_smallest, lemma_newcomer_joins_level};
use crate::laws::timing::{decides, has_timers, lemma_next_timer_decides};
use crate::rbtree::RBTreeNode;
use crate::runq::SchedEntity;
use crate::spawn::ThreadStart;
use crate::thread::{CfsThread, RtThread, ThreadCtx, ThreadSpawnError};
use vstd::prelude::*;

verus! {

/// The context belongs to a new thread: it is ready, has the next identifier and the
/// given name, and its stack pointer is that of a frame of sixteen words at the top of
/// its stack.
pub open spec fn is_new(
    k: KernelView,
    ctx: ThreadCtx,
    start: ThreadStart,
    words: int,
    base: usize,
    is_cfs: bool,
) -> bool {
    &&& ctx.state is Ready
    &&& ctx.is_cfs == is_cfs
    &&& ctx.id == k.core.next_thread_id
    &&& ctx.name == start.name
    &&& ctx.exc_return == 0xFFFF_FFFD
    &&& 0 <= base + 4 * words - 64 <= u32::MAX ==> ctx.sp == base + 4 * words - 64
}

/// All threads that were there before are as they were.
pub open spec fn keeps_threads(k: KernelView, r: KernelView) -> bool {
    &&& forall|j: int| 0 <= j < k.core.ctx.len() ==> #[trigger] r.core.ctx[j] == k.core.ctx[j]
    &&& forall|j: int| 0 <= j < k.core.wait.len() ==> #[trigger] r.core.wait[j] == k.core.wait[j]
    &&& forall|j: int| 0 <= j < k.core.sync.len() ==> #[trigger] r.core.sync[j] == k.core.sync[j]
    &&& forall|j: int| 0 <= j < k.core.sched.len() ==> #[trigger] r.core.sched[j] == k.core.sched[j]
    &&& forall|j: int|
        0 <= j < k.core.ktimer_of.len() ==> #[trigger] r.core.ktimer_of[j] == k.core.ktimer_of[j]
    &&& r.core.waiting == k.core.waiting
    &&& r.core.current == k.core.current
    &&& r.core.idle == k.core.idle
    &&& r.now == k.now
    &&& r.core.next_thread_id == (k.core.next_thread_id + 1) % 0x1_0000_0000
}

/// A new fair thread is ready and runnable. It starts level with the others, or at zero
/// if there are none, and its priority counts.
pub proof fn lemma_fair_thread_created(
    k: KernelView,
    start: ThreadStart,
    words: int,
    base: usize,
    priority: u32,
)
    requires
        k.ok(),
        k.core.ctx.len() < usize::MAX,
        k.core.priority_sum + priority <= u32::MAX,
    ensures
        ({
            let r = k.forked::<CfsThread>(start, words, base, priority);
            let n = k.core.ctx.len() as int;
            &&& r.core.ctx.len() == n + 1
            &&& is_new(k, r.core.ctx[n], start, words, base, true)
            &&& keeps_threads(k, r)
            &&& r.core.run == k.core.run.insert(n as usize)
            &&& r.core.priority_sum == k.core.priority_sum + priority
            &&& r.core.sched[n].priority == priority
            &&& k.core.run == Set::<usize>::empty() ==> r.core.sched[n].vruntime == 0
            &&& k.core.run != Set::<usize>::empty() ==> is_smallest(
                k.core.sched,
                k.core.run,
                r.core.sched[n].vruntime,
            )
            &&& r.core.ktimer_of[n] is None
            &&& r.core.runtime[n] == 0
            &&& r.core.timers == k.core.timers
            &&& r.queued == k.queued
            &&& r.core.next_ktimer == k.core.next_ktimer
        }),
{
    let n = k.core.ctx.len() as usize;
    let ctx = k.new_context(start, words, base, true);
    let added = k.id_taken().core.thread_added(ctx, SchedEntity::fresh(priority));
    let r = k.forked::<CfsThread>(start, words, base, priority);
    assert(!k.core.run.contains(n));
    lemma_newcomer_joins_level(added, n);
    assert(r.core == added.runnable(n));
    assert forall|j: int| 0 <= j < k.core.sched.len() implies #[trigger] r.core.sched[j]
        == k.core.sched[j] by {
        assert(added.sched[j] == k.core.sched[j]);
    }
    assert forall|j: int| 0 <= j < k.core.ctx.len() implies #[trigger] r.core.ctx[j]
        == k.core.ctx[j] by {
        assert(added.ctx[j] == k.core.ctx[j]);
    }
    if k.core.run != Set::<usize>::empty() {
        let v = r.core.sched[n as int].vruntime;
        let m = choose|m: usize| #[trigger]
            added.run.contains(m) && added.sched[m as int].vruntime == v;
        assert(k.core.run.contains(m));
        assert forall|j: usize| #[trigger] k.core.run.contains(j) implies v
            <= k.core.sched[j as int].vruntime by {
            assert(added.run.contains(j));
        }
    }
}

/// A new real-time thread is ready and has its timer, which is queued as it was given
/// unless it has expired already. The timer that decides the dispatch has the earliest
/// deadline of all that compete, the new one included.
pub proof fn lemma_rt_thread_created(
    k: KernelView,
    start: ThreadStart,
    words: int,
    base: usize,
    timer: RtKTimer,
)
    requires
        k.ok(),
        k.owned(),
        k.core.fault is None,
        k.core.ctx.len() < usize::MAX,
        k.core.timers.len() < usize::MAX,
        k.forked::<RtThread>(start, words, base, timer).core.fault is None,
    ensures
        ({
            let r = k.forked::<RtThread>(start, words, base, timer);
            let n = k.core.ctx.len() as int;
            let t = k.core.timers.len() as int;
            &&& r.core.ctx.len() == n + 1
            &&& is_new(k, r.core.ctx[n], start, words, base, false)
            &&& keeps_threads(k, r)
            &&& r.core.run == k.core.run
            &&& r.core.priority_sum == k.core.priority_sum
            &&& r.core.timers.len() == t + 1
            &&& r.core.ktimer_of[n] == Some(t as usize)
            &&& r.core.timer_owner[t] == Some(n as usize)
            &&& r.core.timer_names[t] == timer.name
            &&& r.queued.contains(t as usize)
            &&& r.core.timers[t].active == timer.entity.active
            &&& r.core.timers[t].timing == timer.entity.timing
            &&& r.core.timers[t].miss_cnt == timer.entity.miss_cnt
            &&& timer.entity.deadline_at > k.now ==> r.core.timers[t].deadline_at
                == timer.entity.deadline_at
            &&& r.core.runtime[n] == 0
            &&& k.queued.subset_of(r.queued)
            &&& forall|s: usize|
                2 <= s < t && k.core.timers[s as int].deadline_at > k.now
                    ==> #[trigger] r.core.timers[s as int] == k.core.timers[s as int]
            &&& r.core.next_ktimer is Some
            &&& decides(r, r.core.next_ktimer->0)
        }),
{
    let n = k.core.ctx.len() as usize;
    let t = k.core.timers.len() as usize;
    let ctx = k.new_context(start, words, base, false);
    let core = k.id_taken().core.thread_added(ctx, SchedEntity::fresh(0)).timer_created(
        timer,
    ).timer_bound(t, n);
    let queued = k.id_taken().with_core(core).enqueued(t);
    let r = k.forked::<RtThread>(start, words, base, timer);
    assert(r == queued.refreshed());
    assert(has_timers(queued));
    assert(crate::laws::timing::has_owners(queued)) by {
        assert forall|s: usize| s >= 2 && #[trigger] queued.queued.contains(s) implies queued.core.timer_owner[s as int]
            is Some && queued.core.timer_owner[s as int]->0 < queued.core.runtime.len() by {
            if s != t {
                assert(k.queued.contains(s));
                assert(k.core.timer_owner[s as int] is Some);
            }
        }
    }
    lemma_next_timer_decides(queued);
    crate::lifecycle::lemma_refreshed_threads(queued);
    assert(queued.core.timers[t as int] == timer.entity.payload());
    assert(queued.core.runtime[n as int] == 0);
    assert(queued.queued.contains(t));
    assert forall|s: usize|
        2 <= s < t && k.core.timers[s as int].deadline_at > k.now implies #[trigger] r.core.timers[s as int]
        == k.core.timers[s as int] by {
        assert(queued.core.timers[s as int] == k.core.timers[s as int]);
    }
    assert forall|s: usize| k.queued.contains(s) implies r.queued.contains(s) by {
        assert(queued.queued.contains(s));
    }
}

/// A thread needs storage and a stack with room for the initial frame and an aligned top;
/// whatever is missing first is named.
pub proof fn lemma_spawn_faults(
    storage: Option<crate::spawn::ThreadStorage>,
    has_stack: bool,
    words: int,
    base: usize,
)
    requires
        0 <= words <= usize::MAX,
    ensures
        crate::spawn::spawn_fault(storage, has_stack, words, base) == if storage is None {
            Some(ThreadSpawnError::NullThreadStorage)
        } else if !has_stack {
            Some(ThreadSpawnError::NullStack)
        } else if words < 16 {
            Some(
                ThreadSpawnError::StackTooSmall {
                    required_words: 16,
                    actual_words: words as usize,
                },
            )
        } else if (base + 4 * words) % 8 != 0 {
            Some(ThreadSpawnError::UnalignedStackTop)
        } else {
            None
        },
{
}

/// The initial frame takes the topmost sixteen words. The thread starts at its entry with
/// its argument, in Thumb state; the other registers are zero. The rest of the stack is
/// left alone.
pub proof fn lemma_initial_frame(words: Seq<u32>, top: int, entry: usize, arg: usize)
    requires
        16 <= top <= words.len(),
    ensures
        ({
            let f = crate::platform::framed(words, top, entry, arg);
            &&& f.len() == words.len()
            &&& f[top - 1] == 0x0100_0000
            &&& f[top - 2] == entry as u32
            &&& f[top - 3] == 0xFFFF_FFFD
            &&& f[top - 8] == arg as u32
            &&& forall|i: int|
                top - 16 <= i < top && i != top - 1 && i != top - 2 && i != top - 3 && i != top - 8
                    ==> #[trigger] f[i] == 0
            &&& forall|i: int|
                0 <= i < words.len() && !(top - 16 <= i < top) ==> #[trigger] f[i] == words[i]
        }),
{
}

} // verus!
