//! Wait queue of sleeping and blocked threads.

use crate::kernel::{Core, CoreView};
use crate::rbtree::{RBTree, RBTreeNode, RbNode};
use crate::thread::ThreadCtx;
use vstd::prelude::*;

verus! {

#[derive(Clone, Copy, Debug, PartialEq, Eq, Structural)]
pub enum WaitQueueError {
    /// The thread does not belong to the queue it should be moved from.
    NotFound,
    /// A real-time thread missed its deadline; the scheduler has stopped.
    DeadlineMiss,
}

/// Waiting threads, ordered by the time at which they wake.
pub struct WaitQueue {
    pub tree: RBTree<WaitEntity>,
}

impl WaitQueue {
    pub fn new() -> (queue: Self)
        ensures
            queue.tree.ids() == Set::<usize>::empty(),
            forall|wait: Seq<WaitEntity>| #[trigger] queue.tree.wf(wait),
    {
        Self { tree: RBTree::new() }
    }
}

/// Wake-up time and event of a waiting thread.
#[derive(Clone, Copy, Debug, PartialEq, Eq, Structural)]
pub struct WaitEntity {
    pub wake_at: u64,
    /// Tag of the event the thread waits for; zero for none.
    pub waitevt: u32,
    pub rb_node: RbNode,
}

impl WaitEntity {
    pub open spec fn fresh() -> WaitEntity {
        WaitEntity { wake_at: 0, waitevt: 0, rb_node: RbNode::detached() }
    }

    pub open spec fn expired(self, now: u64) -> bool {
        self.wake_at <= now
    }

    pub open spec fn remaining(self, now: u64) -> u32 {
        if self.wake_at <= now {
            0
        } else if self.wake_at - now > u32::MAX {
            u32::MAX
        } else {
            (self.wake_at - now) as u32
        }
    }

    pub fn new() -> (entity: Self)
        ensures
            entity == Self::fresh(),
    {
        Self { wake_at: 0, waitevt: 0, rb_node: RbNode::new() }
    }

    pub fn set_wake_after(&mut self, now_ticks: u64, wait_ticks: u32)
        ensures
            *final(self) == (WaitEntity {
                wake_at: now_ticks.saturating_add(wait_ticks as u64),
                ..*old(self)
            }),
    {
        self.wake_at = now_ticks.saturating_add(wait_ticks as u64);
    }

    pub fn remaining_at(&self, now_ticks: u64) -> (ticks: u32)
        ensures
            ticks == self.remaining(now_ticks),
    {
        let ticks: u64 = self.wake_at.saturating_sub(now_ticks);
        if ticks > u32::MAX as u64 {
            u32::MAX
        } else {
            ticks as u32
        }
    }

    pub fn is_expired_at(&self, now_ticks: u64) -> (expired: bool)
        ensures
            expired == self.expired(now_ticks),
    {
        self.wake_at <= now_ticks
    }

    pub fn reset_links(&mut self)
        ensures
            *final(self) == (WaitEntity { rb_node: RbNode::detached(), ..*old(self) }),
    {
        self.rb_node.reset_links();
    }
}

impl RBTreeNode for WaitEntity {
    type Payload = WaitEntity;

    open spec fn links(&self) -> RbNode {
        self.rb_node
    }

    open spec fn payload(&self) -> WaitEntity {
        WaitEntity { rb_node: RbNode::detached(), ..*self }
    }

    /// Earlier wake-ups first, then smaller event tags.
    open spec fn rank(payload: WaitEntity) -> (int, int) {
        (payload.wake_at as int, payload.waitevt as int)
    }

    fn node(&self) -> (node: RbNode) {
        self.rb_node
    }

    fn set_node(&mut self, node: RbNode) {
        self.rb_node = node;
    }

    fn key(&self) -> (key: (u64, u32)) {
        (self.wake_at, self.waitevt)
    }
}

impl CoreView {
    /// The waiting thread that wakes first.
    pub open spec fn first_wait(self) -> Option<usize> {
        crate::rbtree::first_of::<WaitEntity>(self.wait, self.waiting)
    }

    /// The waiting threads in the order in which they wake.
    pub open spec fn wait_order(self) -> Seq<usize> {
        crate::rbtree::in_order::<WaitEntity>(self.wait, self.waiting)
    }

    pub open spec fn waiting_with(self, i: usize) -> CoreView {
        CoreView { waiting: self.waiting.insert(i), ..self }
    }

    pub open spec fn waiting_without(self, i: usize) -> CoreView {
        CoreView { waiting: self.waiting.remove(i), ..self }
    }
}

/// Contexts of the listed threads, in order.
pub open spec fn contexts(ctx: Seq<ThreadCtx>, slots: Seq<usize>) -> Seq<ThreadCtx> {
    Seq::new(slots.len(), |k: int| ctx[slots[k] as int])
}

/// Traverse waiting threads in ascending wait-time order.
///
/// Pass `None` to return the first waiting thread. Pass the previously returned
/// thread to return the next one. Returns `None` after the final waiting thread.
pub fn traverse_wait_queue(core: &Core, cursor: Option<usize>) -> (thread: Option<usize>)
    requires
        core.wf(),
        cursor is Some ==> core@.waiting.contains(cursor->0),
    ensures
        match cursor {
            None => thread == core@.first_wait(),
            Some(c) => exists|k: int|
                0 <= k < core@.wait_order().len() && #[trigger] core@.wait_order()[k] == c
                    && thread == if k + 1 < core@.wait_order().len() {
                    Some(core@.wait_order()[k + 1])
                } else {
                    None
                },
        },
{
    proof {
        core.wait_queue.tree.lemma_in_order(core.wait@);
    }
    match cursor {
        None => core.wait_queue.tree.first(&core.wait),
        Some(thread) => {
            proof {
                core.wait_queue.tree.lemma_members(core.wait@);
                let k = core.wait_queue.tree.position(thread);
                assert(core@.wait_order()[k] == thread);
            }
            core.wait_queue.tree.next(&core.wait, thread)
        },
    }
}

/// Contexts of the waiting threads, in the order in which they wake.
pub fn traverse_wait_queue_fn(core: &Core) -> (threads: Vec<ThreadCtx>)
    requires
        core.wf(),
    ensures
        threads@ == contexts(core@.ctx, core@.wait_order()),
{
    let slots = core.wait_queue.tree.entities(&core.wait);
    contexts_of(core, &slots)
}

/// Contexts of the threads in the given slots.
pub fn contexts_of(core: &Core, slots: &Vec<usize>) -> (threads: Vec<ThreadCtx>)
    requires
        forall|k: int| 0 <= k < slots@.len() ==> (#[trigger] slots@[k]) < core.ctx.len(),
    ensures
        threads@ == contexts(core@.ctx, slots@),
{
    let mut threads: Vec<ThreadCtx> = Vec::new();
    let mut k: usize = 0;
    while k < slots.len()
        invariant
            k <= slots.len(),
            forall|k: int| 0 <= k < slots@.len() ==> (#[trigger] slots@[k]) < core.ctx.len(),
            threads@ == contexts(core@.ctx, slots@.take(k as int)),
        decreases slots.len() - k,
    {
        let slot: usize = slots[k];
        threads.push(core.ctx[slot]);
        k = k + 1;
        assert(threads@ =~= contexts(core@.ctx, slots@.take(k as int)));
    }
    assert(slots@.take(k as int) =~= slots@);
    threads
}

/// Takes the first waiting thread out of the wait queue if its time has come.
pub fn pop_expired_wait_thread(core: &mut Core, now_ticks: u64) -> (thread: Option<usize>)
    requires
        old(core).wf(),
    ensures
        final(core).wf(),
        thread == match old(core)@.first_wait() {
            Some(first) => if old(core)@.wait[first as int].expired(now_ticks) {
                Some(first)
            } else {
                None
            },
            None => None,
        },
        final(core)@ == match thread {
            Some(i) => old(core)@.waiting_without(i),
            None => old(core)@,
        },
        thread is Some ==> thread->0 < final(core).ctx.len() && old(core)@.waiting.contains(
            thread->0,
        ) && crate::rbtree::links(final(core).wait@)[thread->0 as int] == RbNode::detached(),
        final(core).timers@ == old(core).timers@,
        final(core).sync@ == old(core).sync@,
        final(core).sched@ == old(core).sched@,
        final(core).run_queue == old(core).run_queue,
{
    match core.wait_queue.tree.first(&core.wait) {
        None => None,
        Some(first) => {
            assert(core@.wait[first as int].wake_at == core.wait@[first as int].wake_at);
            if !core.wait[first].is_expired_at(now_ticks) {
                return None;
            }
            core.wait_queue.tree.remove(&mut core.wait, first);
            assert(core@ =~= old(core)@.waiting_without(first));
            Some(first)
        },
    }
}

pub fn insert_wait_thread(core: &mut Core, thread: usize)
    requires
        old(core).wf(),
        thread < old(core).ctx.len(),
        !old(core)@.waiting.contains(thread),
    ensures
        final(core).wf(),
        final(core)@ == old(core)@.waiting_with(thread),
        final(core).timers@ == old(core).timers@,
        final(core).sync@ == old(core).sync@,
        final(core).sched@ == old(core).sched@,
        final(core).run_queue == old(core).run_queue,
{
    core.wait[thread].reset_links();
    proof {
        core.wait_queue.tree.lemma_frame(old(core).wait@, core.wait@);
    }
    core.wait_queue.tree.insert(&mut core.wait, thread);
    assert(core@ =~= old(core)@.waiting_with(thread));
}

pub fn remove_wait_thread(core: &mut Core, thread: usize)
    requires
        old(core).wf(),
        old(core)@.waiting.contains(thread),
    ensures
        final(core).wf(),
        final(core)@ == old(core)@.waiting_without(thread),
        crate::rbtree::links(final(core).wait@)[thread as int] == RbNode::detached(),
        final(core).timers@ == old(core).timers@,
        final(core).sync@ == old(core).sync@,
        final(core).sched@ == old(core).sched@,
        final(core).run_queue == old(core).run_queue,
{
    core.wait_queue.tree.remove(&mut core.wait, thread);
    assert(core@ =~= old(core)@.waiting_without(thread));
}

} // verus!
