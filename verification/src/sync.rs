//! Synchronization primitives built on the scheduler wait queue.

use crate::kernel::{Core, CoreView, Kernel, KernelView};
use crate::ktimer::{KTimerEntity, CFS_KTIMER, WAIT_KTIMER};
use crate::rbtree::{RBTree, RBTreeNode, RbNode};
use crate::runq::{dequeue_runq_to_waitq, enqueue_runq_from_waitq};
use crate::sched::request_context_switch;
use crate::thread::ThreadState;
use crate::timers::{
    dequeue_ktimerq_to_waitq, earliest_queued_scheduler_deadline_at, enqueue_ktimerq_from_waitq,
    program_wait_ktimer, set_thread_scheduler_deadline_at, thread_scheduler_deadline_at,
    thread_scheduler_ktimer, yield_ktimer,
};
use crate::trace::record_wakeup;
use crate::waitq::{remove_wait_thread, WaitEntity, WaitQueueError};
use core::marker::PhantomData;
use vstd::prelude::*;

verus! {

/// The characters "semb", most significant byte first.
pub const BINARY_SEMAPHORE_TAG: u32 = 0x7365_6d62;

/// The characters "semc", most significant byte first.
pub const COUNTING_SEMAPHORE_TAG: u32 = 0x7365_6d63;

/// The characters "mute", most significant byte first.
pub const MUTEX_TAG: u32 = 0x6d75_7465;

/// Synchronization primitive type encoded in a waiting thread's event tag.
///
/// The types are ordered by their tags; the variants stand in ascending order.
#[derive(Clone, Copy, Debug, PartialEq, Eq, Ord, Structural)]
pub enum SyncType {
    Mutex,
    BinarySemaphore,
    CountingSemaphore,
}

impl SyncType {
    /// Event tag of each type: four characters of its name.
    pub open spec fn tag(self) -> u32 {
        match self {
            SyncType::BinarySemaphore => BINARY_SEMAPHORE_TAG,
            SyncType::CountingSemaphore => COUNTING_SEMAPHORE_TAG,
            SyncType::Mutex => MUTEX_TAG,
        }
    }

    /// The synchronization type with the given tag, if there is one.
    pub open spec fn tagged(wait_event: u32) -> Option<SyncType> {
        if exists|kind: SyncType| #[trigger] kind.tag() == wait_event {
            Some(choose|kind: SyncType| #[trigger] kind.tag() == wait_event)
        } else {
            None
        }
    }

    /// Return the wait-queue event tag for this synchronization type.
    pub fn wait_event(self) -> (tag: u32)
        ensures
            tag == self.tag(),
    {
        match self {
            SyncType::BinarySemaphore => BINARY_SEMAPHORE_TAG,
            SyncType::CountingSemaphore => COUNTING_SEMAPHORE_TAG,
            SyncType::Mutex => MUTEX_TAG,
        }
    }

    /// Decode a wait-queue event tag into a synchronization type.
    pub fn from_wait_event(wait_event: u32) -> (kind: Option<Self>)
        ensures
            kind == Self::tagged(wait_event),
    {
        proof {
            assert(SyncType::BinarySemaphore.tag() == BINARY_SEMAPHORE_TAG);
            assert(SyncType::CountingSemaphore.tag() == COUNTING_SEMAPHORE_TAG);
            assert(SyncType::Mutex.tag() == MUTEX_TAG);
        }
        if wait_event == SyncType::BinarySemaphore.wait_event() {
            Some(SyncType::BinarySemaphore)
        } else if wait_event == SyncType::CountingSemaphore.wait_event() {
            Some(SyncType::CountingSemaphore)
        } else if wait_event == SyncType::Mutex.wait_event() {
            Some(SyncType::Mutex)
        } else {
            None
        }
    }
}

impl PartialOrd for SyncType {
    fn partial_cmp(&self, other: &Self) -> (order: Option<core::cmp::Ordering>) {
        let left: u32 = self.wait_event();
        let right: u32 = other.wait_event();
        if left < right {
            Some(core::cmp::Ordering::Less)
        } else if left == right {
            Some(core::cmp::Ordering::Equal)
        } else {
            Some(core::cmp::Ordering::Greater)
        }
    }
}

impl vstd::std_specs::cmp::PartialOrdSpecImpl for SyncType {
    open spec fn obeys_partial_cmp_spec() -> bool {
        true
    }

    /// Types compare as their tags do.
    open spec fn partial_cmp_spec(&self, other: &Self) -> Option<core::cmp::Ordering> {
        if self.tag() < other.tag() {
            Some(core::cmp::Ordering::Less)
        } else if self.tag() == other.tag() {
            Some(core::cmp::Ordering::Equal)
        } else {
            Some(core::cmp::Ordering::Greater)
        }
    }
}

/// Decoding a tag gives back the type that it was made from.
pub proof fn lemma_tag_round_trip(kind: SyncType)
    ensures
        SyncType::tagged(kind.tag()) == Some(kind),
{
    let found = choose|k: SyncType| #[trigger] k.tag() == kind.tag();
    assert(found.tag() == kind.tag());
}

/// Event tags tell the synchronization types apart, and none of them is the tag
/// of a plain sleep.
pub proof fn lemma_tags_are_distinct(a: SyncType, b: SyncType)
    ensures
        a.tag() == b.tag() ==> a == b,
        a.tag() != 0,
{
}

/// Scheduler deadline with which a blocked thread queues for a synchronization
/// object.
#[derive(Clone, Copy, Debug, PartialEq, Eq, Structural)]
pub struct SyncEntity {
    pub deadline_at: u64,
    pub rb_node: RbNode,
}

impl SyncEntity {
    pub open spec fn fresh() -> SyncEntity {
        SyncEntity { deadline_at: 0, rb_node: RbNode::detached() }
    }

    pub fn new() -> (entity: Self)
        ensures
            entity == Self::fresh(),
    {
        Self { deadline_at: 0, rb_node: RbNode::new() }
    }

    pub fn set_deadline_at(&mut self, deadline_at: u64)
        ensures
            *final(self) == (SyncEntity { deadline_at, ..*old(self) }),
    {
        self.deadline_at = deadline_at;
    }

    pub fn deadline_at(&self) -> (deadline_at: u64)
        ensures
            deadline_at == self.deadline_at,
    {
        self.deadline_at
    }

    pub fn reset_links(&mut self)
        ensures
            *final(self) == (SyncEntity { rb_node: RbNode::detached(), ..*old(self) }),
    {
        self.rb_node.reset_links();
    }
}

impl RBTreeNode for SyncEntity {
    type Payload = SyncEntity;

    open spec fn links(&self) -> RbNode {
        self.rb_node
    }

    open spec fn payload(&self) -> SyncEntity {
        SyncEntity { rb_node: RbNode::detached(), ..*self }
    }

    open spec fn rank(payload: SyncEntity) -> (int, int) {
        (payload.deadline_at as int, 0)
    }

    fn node(&self) -> (node: RbNode) {
        self.rb_node
    }

    fn set_node(&mut self, node: RbNode) {
        self.rb_node = node;
    }

    fn key(&self) -> (key: (u64, u32)) {
        (self.deadline_at, 0)
    }
}

/// Wake-up time of a thread that waits for an event only.
pub const WAIT_FOREVER_TICKS: u64 = 0xffff_ffff_ffff_ffff;

/// Waiters of a synchronization object, ordered by scheduler deadline.
pub type WaitTree = RBTree<SyncEntity>;

impl KernelView {
    /// The current thread ends its turn and waits for an event. The result is the
    /// deadline by which it competed.
    pub open spec fn blocked(self, kind: SyncType, elapsed: u32) -> (
        KernelView,
        Result<u64, WaitQueueError>,
    ) {
        let i = self.core.current->0;
        let k = match self.core.scheduler_timer(i) {
            None => self,
            Some(t) => self.turn_yielded(t, elapsed, false).0,
        };
        let waiting = k.with_core(
            k.core.with_wait(
                i,
                WaitEntity {
                    wake_at: WAIT_FOREVER_TICKS,
                    waitevt: kind.tag(),
                    ..k.core.wait[i as int]
                },
            ),
        );
        let (r, result) = if self.core.current_is_cfs {
            waiting.cfs_parked(i)
        } else {
            waiting.rt_parked(i)
        };
        (
            r,
            match result {
                Ok(()) => Ok(self.core.scheduler_deadline(i)),
                Err(error) => Err(error),
            },
        )
    }

    /// The current thread blocks and queues for a synchronization object with the
    /// deadline by which it competed. A context switch is requested.
    pub open spec fn blocked_on(self, kind: SyncType, elapsed: u32) -> (
        KernelView,
        Result<u64, WaitQueueError>,
    ) {
        let i = self.core.current->0;
        let (k, result) = self.blocked(kind, elapsed);
        match result {
            Ok(deadline_at) => (
                k.with_core(
                    CoreView {
                        sync: k.core.sync.update(
                            i as int,
                            SyncEntity { deadline_at, ..k.core.sync[i as int] },
                        ),
                        switch_pending: true,
                        ..k.core
                    },
                ),
                Ok(deadline_at),
            ),
            Err(error) => (k, Err(error)),
        }
    }

    /// A blocked thread becomes ready again.
    pub open spec fn waiter_woken(self, i: usize) -> (KernelView, Result<(), WaitQueueError>) {
        if self.core.ctx[i as int].is_cfs {
            let core = self.core.waiting_without(i);
            self.with_core(
                (CoreView { trace: core.trace.wakeup(core.ctx[i as int]), ..core }).rejoined(i),
            ).wait_programmed().completed()
        } else {
            self.rt_unparked(i)
        }
    }

    /// The current thread can block: it is in no queue but that of its own timer.
    pub open spec fn can_block(self) -> bool {
        &&& self.steady()
        &&& self.core.current is Some
        &&& !self.core.waiting.contains(self.core.current->0)
        &&& self.core.scheduler_timer(self.core.current->0) is Some ==> self.queued.contains(
            self.core.scheduler_timer(self.core.current->0)->0,
        )
        &&& self.core.current_is_cfs ==> (
        self.core.ctx[self.core.current->0 as int].state is Ready) == self.core.run.contains(
            self.core.current->0,
        )
    }
}

/// Slot of the thread that the scheduler selected.
fn current_thread_handle(core: &Core) -> (thread: Option<usize>)
    ensures
        thread == core@.current,
{
    core.current
}

/// Ends the turn of the current thread and moves it to the wait queue.
///
/// `elapsed` is what has passed of the current interval.
fn block_current_thread(kernel: &mut Kernel, thread: usize, kind: SyncType, elapsed: u32) -> (result:
    Result<u64, WaitQueueError>)
    requires
        old(kernel).wf(),
        old(kernel)@.can_block(),
        old(kernel)@.core.current == Some(thread),
    ensures
        final(kernel).wf(),
        (final(kernel)@, result) == old(kernel)@.blocked(kind, elapsed),
        result is Ok ==> final(kernel)@.steady(),
        final(kernel).core.sync@ == old(kernel).core.sync@,
{
    let timer = thread_scheduler_ktimer(&kernel.core, thread);
    let deadline_at: u64 = thread_scheduler_deadline_at(&kernel.core, thread);
    let _ = yield_ktimer(kernel, timer, elapsed, false);
    let ghost k1 = kernel@;
    let ghost wait0 = kernel.core.wait@;
    kernel.core.wait[thread].wake_at = WAIT_FOREVER_TICKS;
    kernel.core.wait[thread].waitevt = kind.wait_event();
    proof {
        let entity = WaitEntity {
            wake_at: WAIT_FOREVER_TICKS,
            waitevt: kind.tag(),
            ..k1.core.wait[thread as int]
        };
        assert(kernel@ =~= k1.with_core(k1.core.with_wait(thread, entity)));
        kernel.core.wait_queue.tree.lemma_frame(wait0, kernel.core.wait@);
    }
    let result = if kernel.core.current_is_cfs {
        dequeue_runq_to_waitq(kernel, thread)
    } else {
        dequeue_ktimerq_to_waitq(kernel, thread)
    };
    match result {
        Ok(()) => Ok(deadline_at),
        Err(error) => Err(error),
    }
}

/// Only the waiter entities in `ids` differ.
pub open spec fn untouched(a: Seq<SyncEntity>, b: Seq<SyncEntity>, ids: Set<usize>) -> bool {
    &&& a.len() == b.len()
    &&& forall|i: usize| i < a.len() && !ids.contains(i) ==> #[trigger] b[i as int] == a[i as int]
}

/// What happens to one synchronization object leaves the waiters of another one
/// as they are.
pub proof fn lemma_other_waiters_kept(
    other: WaitTree,
    a: Seq<SyncEntity>,
    b: Seq<SyncEntity>,
    ids: Set<usize>,
)
    requires
        other.wf(a),
        untouched(a, b, ids),
        other.ids().disjoint(ids),
    ensures
        other.wf(b),
{
    other.lemma_frame(a, b);
}

proof fn lemma_untouched_by_tree(a: Seq<SyncEntity>, b: Seq<SyncEntity>, ids: Set<usize>)
    requires
        a.len() == b.len(),
        crate::rbtree::payloads(a) == crate::rbtree::payloads(b),
        forall|i: usize|
            i < a.len() && !ids.contains(i) ==> #[trigger] crate::rbtree::links(b)[i as int]
                == crate::rbtree::links(a)[i as int],
    ensures
        untouched(a, b, ids),
{
    assert forall|i: usize| i < a.len() && !ids.contains(i) implies #[trigger] b[i as int]
        == a[i as int] by {
        assert(crate::rbtree::links(b)[i as int] == b[i as int].links());
        assert(crate::rbtree::links(a)[i as int] == a[i as int].links());
        assert(crate::rbtree::payloads(b)[i as int] == b[i as int].payload());
        assert(crate::rbtree::payloads(a)[i as int] == a[i as int].payload());
    }
}

/// Blocks the current thread and queues it for a synchronization object.
fn block_current_thread_on(
    kernel: &mut Kernel,
    waiters: &mut WaitTree,
    thread: usize,
    kind: SyncType,
    elapsed: u32,
) -> (result: Result<u64, WaitQueueError>)
    requires
        old(kernel).wf(),
        old(kernel)@.can_block(),
        old(kernel)@.core.current == Some(thread),
        old(waiters).wf(old(kernel).core.sync@),
        !old(waiters).ids().contains(thread),
    ensures
        final(kernel).wf(),
        (final(kernel)@, result) == old(kernel)@.blocked_on(kind, elapsed),
        result is Ok ==> final(kernel)@.steady(),
        final(waiters).wf(final(kernel).core.sync@),
        final(waiters).ids() == if result is Ok {
            old(waiters).ids().insert(thread)
        } else {
            old(waiters).ids()
        },
        untouched(
            old(kernel).core.sync@,
            final(kernel).core.sync@,
            old(waiters).ids().insert(thread),
        ),
{
    let ghost k = kernel@;
    let deadline_at: u64 = match block_current_thread(kernel, thread, kind, elapsed) {
        Ok(deadline_at) => deadline_at,
        Err(error) => {
            return Err(error);
        },
    };
    queue_waiter(&mut kernel.core, waiters, thread, deadline_at);
    request_context_switch(&mut kernel.core);
    proof {
        assert(kernel@ =~= k.blocked_on(kind, elapsed).0);
    }
    Ok(deadline_at)
}

/// Queues a thread for a synchronization object.
fn queue_waiter(core: &mut Core, waiters: &mut WaitTree, thread: usize, deadline_at: u64)
    requires
        old(core).wf(),
        old(waiters).wf(old(core).sync@),
        thread < old(core).ctx.len(),
        !old(waiters).ids().contains(thread),
    ensures
        final(core).wf(),
        *final(core) == (Core { sync: final(core).sync, ..*old(core) }),
        final(core)@ == (CoreView {
            sync: old(core)@.sync.update(
                thread as int,
                SyncEntity { deadline_at, ..old(core)@.sync[thread as int] },
            ),
            ..old(core)@
        }),
        final(waiters).wf(final(core).sync@),
        final(waiters).ids() == old(waiters).ids().insert(thread),
        untouched(old(core).sync@, final(core).sync@, old(waiters).ids().insert(thread)),
{
    let ghost sync0 = core.sync@;
    core.sync[thread].set_deadline_at(deadline_at);
    core.sync[thread].reset_links();
    proof {
        waiters.lemma_frame(sync0, core.sync@);
    }
    let ghost sync1 = core.sync@;
    waiters.insert(&mut core.sync, thread);
    proof {
        lemma_untouched_by_tree(sync1, core.sync@, waiters.ids());
        assert(core@.sync =~= old(core)@.sync.update(
            thread as int,
            SyncEntity { deadline_at, ..old(core)@.sync[thread as int] },
        ));
    }
}

impl CoreView {
    /// The queued waiters that still wait.
    pub open spec fn still_waiting(self, ids: Set<usize>) -> Set<usize> {
        ids.filter(|i: usize| self.ctx[i as int].state is Waiting)
    }

    /// The waiter with the earliest deadline among those that still wait.
    pub open spec fn first_waiter(self, ids: Set<usize>) -> Option<usize> {
        crate::rbtree::first_of::<SyncEntity>(self.sync, self.still_waiting(ids))
    }

    /// The waiters behind that one; those before it no longer wait.
    pub open spec fn waiters_behind(self, ids: Set<usize>) -> Set<usize> {
        match self.first_waiter(ids) {
            None => Set::empty(),
            Some(first) => ids.filter(
                |i: usize| crate::rbtree::before::<SyncEntity>(self.sync, first, i),
            ),
        }
    }
}

/// Takes the waiter with the earliest deadline that still waits out of the tree.
pub fn pop_waiting_thread(core: &mut Core, waiters: &mut WaitTree) -> (thread: Option<usize>)
    requires
        old(core).wf(),
        old(waiters).wf(old(core).sync@),
    ensures
        final(core).wf(),
        final(core)@ == old(core)@,
        *final(core) == (Core { sync: final(core).sync, ..*old(core) }),
        thread == old(core)@.first_waiter(old(waiters).ids()),
        thread is Some ==> thread->0 < old(core).ctx.len() && old(waiters).ids().contains(thread->0)
            && old(core)@.ctx[thread->0 as int].state is Waiting
            && crate::rbtree::links(final(core).sync@)[thread->0 as int] == RbNode::detached(),
        final(waiters).wf(final(core).sync@),
        final(waiters).ids() == old(core)@.waiters_behind(old(waiters).ids()),
        untouched(old(core).sync@, final(core).sync@, old(waiters).ids()),
{
    let ghost all = waiters.ids();
    let ghost data = core@.sync;
    proof {
        waiters.lemma_members(core.sync@);
    }
    loop
        invariant_except_break
            core.wf(),
            core@ == old(core)@,
            *core == (Core { sync: core.sync, ..*old(core) }),
            all == old(waiters).ids(),
            data == core@.sync,
            waiters.wf(core.sync@),
            waiters.ids().subset_of(all),
            forall|i: usize| #[trigger]
                all.contains(i) && !waiters.ids().contains(i) ==> !(
                core@.ctx[i as int].state is Waiting),
            forall|i: usize, j: usize|
                #![trigger waiters.ids().contains(j), all.contains(i)]
                all.contains(i) && !waiters.ids().contains(i) && waiters.ids().contains(j)
                    ==> crate::rbtree::before::<SyncEntity>(data, i, j),
            forall|i: usize| #[trigger] all.contains(i) ==> i < core.sync.len(),
            untouched(old(core).sync@, core.sync@, all),
        ensures
            core.wf(),
            core@ == old(core)@,
            *core == (Core { sync: core.sync, ..*old(core) }),
            all == old(waiters).ids(),
            waiters.wf(core.sync@),
            waiters.ids() == Set::<usize>::empty(),
            forall|i: usize| #[trigger]
                all.contains(i) ==> !(core@.ctx[i as int].state is Waiting),
            untouched(old(core).sync@, core.sync@, all),
        decreases waiters.len,
    {
        let ghost before = waiters.ids();
        let ghost sync0 = core.sync@;
        match waiters.pop_first(&mut core.sync) {
            None => {
                break;
            },
            Some(first) => {
                proof {
                    assert(before.contains(first));
                    assert(all.contains(first));
                    lemma_untouched_by_tree(sync0, core.sync@, before);
                    assert(core@ =~= old(core)@);
                    assert(untouched(old(core).sync@, core.sync@, all)) by {
                        assert forall|i: usize|
                            i < old(core).sync@.len() && !all.contains(i) implies #[trigger] core.sync@[i as int]
                            == old(core).sync@[i as int] by {
                            assert(!before.contains(i));
                            assert(core.sync@[i as int] == sync0[i as int]);
                        }
                    }
                }
                if core.ctx[first].state == ThreadState::Waiting {
                    proof {
                        let cand = core@.still_waiting(all);
                        assert(cand.contains(first));
                        assert forall|i: usize| #[trigger] cand.contains(i) && i != first implies
                            crate::rbtree::before::<SyncEntity>(data, first, i) by {
                            assert(all.contains(i));
                            assert(before.contains(i));
                        }
                        crate::rbtree::lemma_first_of::<SyncEntity>(data, cand, first);
                        assert(waiters.ids() =~= core@.waiters_behind(all)) by {
                            assert forall|i: usize|
                                waiters.ids().contains(i) <==> core@.waiters_behind(all).contains(
                                    i,
                                ) by {
                                if waiters.ids().contains(i) {
                                    assert(before.contains(i));
                                    assert(all.contains(i));
                                }
                                if core@.waiters_behind(all).contains(i) {
                                    assert(all.contains(i));
                                    if !before.contains(i) {
                                        assert(crate::rbtree::before::<SyncEntity>(data, i, first));
                                    }
                                }
                            }
                        }
                    }
                    return Some(first);
                }
                proof {
                    assert forall|i: usize, j: usize|
                        #![trigger waiters.ids().contains(j), all.contains(i)]
                        all.contains(i) && !waiters.ids().contains(i) && waiters.ids().contains(
                            j,
                        ) implies crate::rbtree::before::<SyncEntity>(data, i, j) by {
                        assert(before.contains(j));
                        if i != first {
                            assert(!before.contains(i));
                        }
                    }
                }
            },
        }
    }
    proof {
        let cand = core@.still_waiting(all);
        assert(cand =~= Set::<usize>::empty());
        crate::rbtree::lemma_first_of_empty::<SyncEntity>(core@.sync, cand);
    }
    None
}

/// Makes a blocked thread ready again.
pub fn wake_waiter(kernel: &mut Kernel, thread: usize) -> (result: Result<(), WaitQueueError>)
    requires
        old(kernel).wf(),
        old(kernel)@.steady(),
        old(kernel)@.core.waiting.contains(thread),
    ensures
        final(kernel).wf(),
        (final(kernel)@, result) == old(kernel)@.waiter_woken(thread),
        result is Ok ==> final(kernel)@.steady(),
        final(kernel).core.sync@ == old(kernel).core.sync@,
{
    let ghost k = kernel@;
    assert(k.core.waiting.contains(thread));
    if kernel.core.ctx[thread].is_cfs {
        remove_wait_thread(&mut kernel.core, thread);
        record_wakeup(&mut kernel.core.trace, &kernel.core.ctx[thread]);
        enqueue_runq_from_waitq(&mut kernel.core, thread);
        proof {
            lemma_rejoined_steady(k, thread);
            let core = k.core.waiting_without(thread);
            assert(kernel@ =~= k.with_core(
                (CoreView {
                    trace: core.trace.wakeup(core.ctx[thread as int]),
                    ..core
                }).rejoined(thread),
            ));
        }
        program_wait_ktimer(kernel);
        if kernel.core.fault.is_some() {
            Err(WaitQueueError::DeadlineMiss)
        } else {
            Ok(())
        }
    } else {
        enqueue_ktimerq_from_waitq(kernel, thread)
    }
}

/// The scheduler stays set up when a fair thread leaves the wait queue for the
/// run queue.
proof fn lemma_rejoined_steady(k: KernelView, i: usize)
    requires
        k.steady(),
        k.core.waiting.contains(i),
        k.core.ctx[i as int].is_cfs,
    ensures
        ({
            let core = k.core.waiting_without(i);
            k.with_core(
                (CoreView { trace: core.trace.wakeup(core.ctx[i as int]), ..core }).rejoined(i),
            ).steady()
        }),
{
    let core = k.core.waiting_without(i);
    let r = k.with_core(
        (CoreView { trace: core.trace.wakeup(core.ctx[i as int]), ..core }).rejoined(i),
    );
    assert(r.core.waiting == k.core.waiting.remove(i));
    assert forall|j: usize|
        j < r.core.ctx.len() && (#[trigger] r.core.ctx[j as int]).is_cfs implies r.core.sched[j as int].priority
        != 0 by {
        assert(k.core.ctx[j as int].is_cfs);
    }
    assert forall|t: usize|
        t < r.core.timers.len() && (#[trigger] r.core.timer_owner[t as int]) is Some implies {
        let o = r.core.timer_owner[t as int]->0;
        t >= 2 && o < r.core.ctx.len() && !r.core.ctx[o as int].is_cfs
    } by {
        assert(k.core.timer_owner[t as int] is Some);
    }
    assert forall|j: usize| #[trigger] r.core.run.contains(j) implies j < r.core.ctx.len()
        && r.core.ctx[j as int].is_cfs by {
        if j != i {
            assert(k.core.run.contains(j));
        }
    }
}

/// Error returned by semaphore operations.
#[derive(Clone, Copy, Debug, PartialEq, Eq, Structural)]
pub enum SemaphoreError {
    /// The semaphore is not currently available for a non-blocking take.
    WouldBlock,
    /// The semaphore is already available and cannot hold another token.
    Full,
    /// A blocking take was requested before the scheduler selected a thread.
    NoCurrentThread,
    /// The scheduler could not move a thread between wait and ready queues.
    WaitQueue(WaitQueueError),
}

impl From<WaitQueueError> for SemaphoreError {
    fn from(error: WaitQueueError) -> (converted: Self) {
        SemaphoreError::WaitQueue(error)
    }
}

impl vstd::std_specs::convert::FromSpecImpl<WaitQueueError> for SemaphoreError {
    open spec fn obeys_from_spec() -> bool {
        true
    }

    open spec fn from_spec(error: WaitQueueError) -> SemaphoreError {
        SemaphoreError::WaitQueue(error)
    }
}

/// Value of a word.
fn load_word(word: &usize) -> (value: usize)
    ensures
        value == *word,
{
    *word
}

/// Replaces a word that holds `current`. The result is what the word held, as a
/// success or as a failure.
fn compare_exchange_word(word: &mut usize, current: usize, new: usize) -> (result: Result<
    usize,
    usize,
>)
    ensures
        *old(word) == current ==> *final(word) == new && result == Ok::<usize, usize>(*old(word)),
        *old(word) != current ==> *final(word) == *old(word) && result == Err::<usize, usize>(
            *old(word),
        ),
{
    let observed: usize = *word;
    if observed == current {
        *word = new;
        Ok(observed)
    } else {
        Err(observed)
    }
}

/// Takes one from a word that is not zero.
fn decrement_word_if_positive(word: &mut usize) -> (done: bool)
    ensures
        done == (*old(word) > 0),
        *final(word) == if done {
            *old(word) - 1
        } else {
            *old(word) as int
        },
{
    match word.checked_sub(1) {
        Some(left) => {
            *word = left;
            true
        },
        None => false,
    }
}

/// Adds one to a word that is below `max`.
fn increment_word_if_below(word: &mut usize, max: usize) -> (done: bool)
    ensures
        done == (*old(word) < max),
        *final(word) == if done {
            *old(word) + 1
        } else {
            *old(word) as int
        },
{
    if *word < max {
        *word = *word + 1;
        true
    } else {
        false
    }
}

/// Abstract state of a semaphore.
#[verifier::ext_equal]
pub struct SemaphoreView {
    /// Tokens that can be taken without blocking.
    pub tokens: nat,
    /// Tokens that the semaphore can hold.
    pub max: nat,
    /// Threads that queue for a token.
    pub waiters: Set<usize>,
}

impl SemaphoreView {
    /// No more tokens than the semaphore can hold, which is at least one.
    pub open spec fn ok(self) -> bool {
        0 < self.max && self.tokens <= self.max
    }

    /// A take that does not block.
    pub open spec fn take_tried(self) -> (SemaphoreView, Result<(), SemaphoreError>) {
        if self.tokens > 0 {
            (SemaphoreView { tokens: (self.tokens - 1) as nat, ..self }, Ok(()))
        } else {
            (self, Err(SemaphoreError::WouldBlock))
        }
    }

    /// A take by the current thread, which blocks when there is no token.
    pub open spec fn taken(self, k: KernelView, kind: SyncType, elapsed: u32) -> (
        SemaphoreView,
        KernelView,
        Result<(), SemaphoreError>,
    ) {
        if self.tokens > 0 {
            (self.take_tried().0, k, Ok(()))
        } else if k.core.current is None {
            (self, k, Err(SemaphoreError::NoCurrentThread))
        } else {
            match k.blocked_on(kind, elapsed) {
                (r, Ok(_)) => (
                    SemaphoreView { waiters: self.waiters.insert(k.core.current->0), ..self },
                    r,
                    Ok(()),
                ),
                (r, Err(error)) => (self, r, Err(SemaphoreError::WaitQueue(error))),
            }
        }
    }

    /// A give. The waiter with the earliest deadline that still waits receives the
    /// token and a context switch is requested; without one the token is stored.
    pub open spec fn given(self, k: KernelView) -> (
        SemaphoreView,
        KernelView,
        Result<(), SemaphoreError>,
    ) {
        let left = SemaphoreView { waiters: k.core.waiters_behind(self.waiters), ..self };
        match k.core.first_waiter(self.waiters) {
            Some(i) => match k.waiter_woken(i) {
                (r, Ok(())) => (left, r.switch_requested(), Ok(())),
                (r, Err(error)) => (left, r, Err(SemaphoreError::WaitQueue(error))),
            },
            None => if self.tokens < self.max {
                (SemaphoreView { tokens: self.tokens + 1, ..left }, k, Ok(()))
            } else {
                (left, k, Err(SemaphoreError::Full))
            },
        }
    }
}

impl KernelView {
    pub open spec fn switch_requested(self) -> KernelView {
        self.with_core(CoreView { switch_pending: true, ..self.core })
    }

    /// The current thread, if there is one, can block on an object with the given
    /// waiters.
    pub open spec fn can_block_on(self, waiters: Set<usize>) -> bool {
        self.core.current is Some ==> self.can_block() && !waiters.contains(self.core.current->0)
    }

    /// The waiter that is to be woken, if there is one, is in the wait queue of a
    /// scheduler that is running.
    pub open spec fn can_wake(self, waiters: Set<usize>) -> bool {
        self.core.first_waiter(waiters) is Some ==> self.steady() && self.core.waiting.contains(
            self.core.first_waiter(waiters)->0,
        )
    }
}

/// Waiter entities that an operation of the current thread may touch.
pub open spec fn involved(waiters: Set<usize>, current: Option<usize>) -> Set<usize> {
    match current {
        Some(i) => waiters.insert(i),
        None => waiters,
    }
}

/// A take: consumes a token, or blocks the current thread.
fn take_token(
    kernel: &mut Kernel,
    tokens: &mut usize,
    waiters: &mut WaitTree,
    kind: SyncType,
    elapsed: u32,
    max: Ghost<nat>,
) -> (result: Result<(), SemaphoreError>)
    requires
        old(kernel).wf(),
        old(waiters).wf(old(kernel).core.sync@),
        *old(tokens) == 0 ==> old(kernel)@.can_block_on(old(waiters).ids()),
    ensures
        final(kernel).wf(),
        final(waiters).wf(final(kernel).core.sync@),
        (
            SemaphoreView {
                tokens: *final(tokens) as nat,
                max: max@,
                waiters: final(waiters).ids(),
            },
            final(kernel)@,
            result,
        ) == (SemaphoreView {
            tokens: *old(tokens) as nat,
            max: max@,
            waiters: old(waiters).ids(),
        }).taken(old(kernel)@, kind, elapsed),
        untouched(
            old(kernel).core.sync@,
            final(kernel).core.sync@,
            involved(old(waiters).ids(), old(kernel)@.core.current),
        ),
        old(kernel)@.steady() && result is Ok ==> final(kernel)@.steady(),
{
    if decrement_word_if_positive(tokens) {
        return Ok(());
    }
    match current_thread_handle(&kernel.core) {
        None => Err(SemaphoreError::NoCurrentThread),
        Some(thread) => match block_current_thread_on(kernel, waiters, thread, kind, elapsed) {
            Ok(_) => Ok(()),
            Err(error) => Err(SemaphoreError::from(error)),
        },
    }
}

/// A give: hands a token to a waiter, or stores it.
fn give_token(
    kernel: &mut Kernel,
    tokens: &mut usize,
    waiters: &mut WaitTree,
    max: usize,
) -> (result: Result<(), SemaphoreError>)
    requires
        old(kernel).wf(),
        old(waiters).wf(old(kernel).core.sync@),
        old(kernel)@.can_wake(old(waiters).ids()),
    ensures
        final(kernel).wf(),
        final(waiters).wf(final(kernel).core.sync@),
        (
            SemaphoreView {
                tokens: *final(tokens) as nat,
                max: max as nat,
                waiters: final(waiters).ids(),
            },
            final(kernel)@,
            result,
        ) == (SemaphoreView {
            tokens: *old(tokens) as nat,
            max: max as nat,
            waiters: old(waiters).ids(),
        }).given(old(kernel)@),
        untouched(old(kernel).core.sync@, final(kernel).core.sync@, old(waiters).ids()),
        old(kernel)@.steady() && result is Ok ==> final(kernel)@.steady(),
{
    let popped = pop_waiting_thread(&mut kernel.core, waiters);
    assert(kernel@ =~= old(kernel)@);
    if let Some(waiter) = popped {
        match wake_waiter(kernel, waiter) {
            Ok(()) => {},
            Err(error) => {
                return Err(SemaphoreError::from(error));
            },
        }
        request_context_switch(&mut kernel.core);
        return Ok(());
    }
    if increment_word_if_below(tokens, max) {
        Ok(())
    } else {
        Err(SemaphoreError::Full)
    }
}

/// A no-heap binary semaphore.
///
/// The semaphore stores a single token. `try_take` consumes that token when it
/// is available. `take` blocks the current scheduler thread when the token is
/// unavailable, and `give` either wakes the blocked waiter with the earliest
/// scheduler deadline or restores the token for a future taker.
pub struct BinarySemaphore {
    pub available: usize,
    pub waiters: WaitTree,
}

impl View for BinarySemaphore {
    type V = SemaphoreView;

    open spec fn view(&self) -> SemaphoreView {
        SemaphoreView { tokens: self.available as nat, max: 1, waiters: self.waiters.ids() }
    }
}

impl BinarySemaphore {
    /// The semaphore holds at most one token and its waiters are in order.
    pub open spec fn wf(&self, kernel: &Kernel) -> bool {
        &&& self@.ok()
        &&& self.waiters.wf(kernel.core.sync@)
    }

    /// Create a binary semaphore.
    ///
    /// Pass `true` to create it with an available token, or `false` to require
    /// a later `give` before the first take can complete.
    pub fn new(available: bool) -> (semaphore: Self)
        ensures
            semaphore@ == (SemaphoreView {
                tokens: if available {
                    1
                } else {
                    0
                },
                max: 1,
                waiters: Set::empty(),
            }),
            forall|kernel: &Kernel| #[trigger] semaphore.wf(kernel),
    {
        let semaphore = Self {
            available: if available {
                1
            } else {
                0
            },
            waiters: WaitTree::new(),
        };
        semaphore
    }

    /// Create a binary semaphore with an available token.
    pub fn available() -> (semaphore: Self)
        ensures
            semaphore@ == (SemaphoreView { tokens: 1, max: 1, waiters: Set::empty() }),
            forall|kernel: &Kernel| #[trigger] semaphore.wf(kernel),
    {
        Self::new(true)
    }

    /// Create a binary semaphore with no available token.
    pub fn empty() -> (semaphore: Self)
        ensures
            semaphore@ == (SemaphoreView { tokens: 0, max: 1, waiters: Set::empty() }),
            forall|kernel: &Kernel| #[trigger] semaphore.wf(kernel),
    {
        Self::new(false)
    }

    /// Return whether the semaphore currently has a token available.
    pub fn is_available(&self) -> (available: bool)
        ensures
            available == (self@.tokens > 0),
    {
        load_word(&self.available) != 0
    }

    /// Try to take the semaphore without blocking.
    pub fn try_take(&mut self) -> (result: Result<(), SemaphoreError>)
        ensures
            (final(self)@, result) == old(self)@.take_tried(),
            final(self).waiters == old(self).waiters,
    {
        if decrement_word_if_positive(&mut self.available) {
            Ok(())
        } else {
            Err(SemaphoreError::WouldBlock)
        }
    }

    /// Take the semaphore, blocking the current scheduler thread if needed.
    ///
    /// `elapsed` is what has passed of the current timer interval.
    pub fn take(&mut self, kernel: &mut Kernel, elapsed: u32) -> (result: Result<
        (),
        SemaphoreError,
    >)
        requires
            old(kernel).wf(),
            old(self).wf(old(kernel)),
            old(self)@.tokens == 0 ==> old(kernel)@.can_block_on(old(self)@.waiters),
        ensures
            final(kernel).wf(),
            final(self).wf(final(kernel)),
            (final(self)@, final(kernel)@, result) == old(self)@.taken(
                old(kernel)@,
                SyncType::BinarySemaphore,
                elapsed,
            ),
            untouched(
                old(kernel).core.sync@,
                final(kernel).core.sync@,
                involved(old(self)@.waiters, old(kernel)@.core.current),
            ),
            old(kernel)@.steady() && result is Ok ==> final(kernel)@.steady(),
    {
        take_token(
            kernel,
            &mut self.available,
            &mut self.waiters,
            SyncType::BinarySemaphore,
            elapsed,
            Ghost(1),
        )
    }

    /// Give the semaphore.
    ///
    /// If one or more threads are blocked in `take`, the earliest-deadline
    /// waiter is made ready and receives the token directly. Otherwise this
    /// restores the token for a future taker, unless the semaphore is already
    /// full.
    pub fn give(&mut self, kernel: &mut Kernel) -> (result: Result<(), SemaphoreError>)
        requires
            old(kernel).wf(),
            old(self).wf(old(kernel)),
            old(kernel)@.can_wake(old(self)@.waiters),
        ensures
            final(kernel).wf(),
            final(self).wf(final(kernel)),
            (final(self)@, final(kernel)@, result) == old(self)@.given(old(kernel)@),
            untouched(old(kernel).core.sync@, final(kernel).core.sync@, old(self)@.waiters),
            old(kernel)@.steady() && result is Ok ==> final(kernel)@.steady(),
    {
        give_token(kernel, &mut self.available, &mut self.waiters, 1)
    }
}

/// A no-heap counting semaphore.
///
/// The semaphore stores up to `max_count` tokens. `try_take` consumes one token
/// when available. `take` blocks the current scheduler thread when no tokens
/// are available, and `give` either wakes the blocked waiter with the earliest
/// scheduler deadline or stores one token for a future taker.
pub struct CountingSemaphore {
    pub count: usize,
    pub max_count: usize,
    pub waiters: WaitTree,
}

impl View for CountingSemaphore {
    type V = SemaphoreView;

    open spec fn view(&self) -> SemaphoreView {
        SemaphoreView {
            tokens: self.count as nat,
            max: self.max_count as nat,
            waiters: self.waiters.ids(),
        }
    }
}

impl CountingSemaphore {
    /// The counts are in range.
    pub open spec fn in_range(&self) -> bool {
        self@.ok() && self.max_count <= u32::MAX
    }

    /// The counts are in range and the waiters are in order.
    pub open spec fn wf(&self, kernel: &Kernel) -> bool {
        &&& self.in_range()
        &&& self.waiters.wf(kernel.core.sync@)
    }

    /// Create a counting semaphore.
    ///
    /// `max_count` must be non-zero and `initial_count` must not exceed
    /// `max_count`.
    pub fn new(max_count: u32, initial_count: u32) -> (semaphore: Self)
        requires
            max_count != 0,
            initial_count <= max_count,
        ensures
            semaphore@ == (SemaphoreView {
                tokens: initial_count as nat,
                max: max_count as nat,
                waiters: Set::empty(),
            }),
            forall|kernel: &Kernel| #[trigger] semaphore.wf(kernel),
    {
        let semaphore = Self {
            count: initial_count as usize,
            max_count: max_count as usize,
            waiters: WaitTree::new(),
        };
        semaphore
    }

    /// Create a counting semaphore with no available tokens.
    pub fn empty(max_count: u32) -> (semaphore: Self)
        requires
            max_count != 0,
        ensures
            semaphore@ == (SemaphoreView {
                tokens: 0,
                max: max_count as nat,
                waiters: Set::empty(),
            }),
            forall|kernel: &Kernel| #[trigger] semaphore.wf(kernel),
    {
        Self::new(max_count, 0)
    }

    /// Create a counting semaphore with all tokens available.
    pub fn full(max_count: u32) -> (semaphore: Self)
        requires
            max_count != 0,
        ensures
            semaphore@ == (SemaphoreView {
                tokens: max_count as nat,
                max: max_count as nat,
                waiters: Set::empty(),
            }),
            forall|kernel: &Kernel| #[trigger] semaphore.wf(kernel),
    {
        Self::new(max_count, max_count)
    }

    /// Return the current number of available tokens.
    pub fn count(&self) -> (count: u32)
        requires
            self.in_range(),
        ensures
            count == self@.tokens,
    {
        load_word(&self.count) as u32
    }

    /// Return the maximum number of tokens this semaphore can store.
    pub fn max_count(&self) -> (max_count: u32)
        requires
            self.in_range(),
        ensures
            max_count == self@.max,
    {
        load_word(&self.max_count) as u32
    }

    /// Try to take one token without blocking.
    pub fn try_take(&mut self) -> (result: Result<(), SemaphoreError>)
        ensures
            (final(self)@, result) == old(self)@.take_tried(),
            final(self).waiters == old(self).waiters,
            final(self).max_count == old(self).max_count,
    {
        if decrement_word_if_positive(&mut self.count) {
            Ok(())
        } else {
            Err(SemaphoreError::WouldBlock)
        }
    }

    /// Take one token, blocking the current scheduler thread if needed.
    ///
    /// `elapsed` is what has passed of the current timer interval.
    pub fn take(&mut self, kernel: &mut Kernel, elapsed: u32) -> (result: Result<
        (),
        SemaphoreError,
    >)
        requires
            old(kernel).wf(),
            old(self).wf(old(kernel)),
            old(self)@.tokens == 0 ==> old(kernel)@.can_block_on(old(self)@.waiters),
        ensures
            final(kernel).wf(),
            final(self).wf(final(kernel)),
            (final(self)@, final(kernel)@, result) == old(self)@.taken(
                old(kernel)@,
                SyncType::CountingSemaphore,
                elapsed,
            ),
            untouched(
                old(kernel).core.sync@,
                final(kernel).core.sync@,
                involved(old(self)@.waiters, old(kernel)@.core.current),
            ),
            old(kernel)@.steady() && result is Ok ==> final(kernel)@.steady(),
    {
        take_token(
            kernel,
            &mut self.count,
            &mut self.waiters,
            SyncType::CountingSemaphore,
            elapsed,
            Ghost(self.max_count as nat),
        )
    }

    /// Give one token.
    ///
    /// If one or more threads are blocked in `take`, the earliest-deadline
    /// waiter is made ready and receives the token directly. Otherwise the
    /// token is stored unless the semaphore is already full.
    pub fn give(&mut self, kernel: &mut Kernel) -> (result: Result<(), SemaphoreError>)
        requires
            old(kernel).wf(),
            old(self).wf(old(kernel)),
            old(kernel)@.can_wake(old(self)@.waiters),
        ensures
            final(kernel).wf(),
            final(self).wf(final(kernel)),
            (final(self)@, final(kernel)@, result) == old(self)@.given(old(kernel)@),
            untouched(old(kernel).core.sync@, final(kernel).core.sync@, old(self)@.waiters),
            old(kernel)@.steady() && result is Ok ==> final(kernel)@.steady(),
    {
        let max_count: usize = load_word(&self.max_count);
        give_token(kernel, &mut self.count, &mut self.waiters, max_count)
    }
}

/// Error returned by mutex operations.
#[derive(Clone, Copy, Debug, PartialEq, Eq, Structural)]
pub enum MutexError {
    /// The mutex is owned by another thread and cannot be taken without blocking.
    WouldBlock,
    /// The current thread already owns this non-recursive mutex.
    WouldDeadlock,
    /// A lock was requested before the scheduler selected a thread.
    NoCurrentThread,
    /// The scheduler could not move a thread between wait and ready queues.
    WaitQueue(WaitQueueError),
}

impl From<WaitQueueError> for MutexError {
    fn from(error: WaitQueueError) -> (converted: Self) {
        MutexError::WaitQueue(error)
    }
}

impl vstd::std_specs::convert::FromSpecImpl<WaitQueueError> for MutexError {
    open spec fn obeys_from_spec() -> bool {
        true
    }

    open spec fn from_spec(error: WaitQueueError) -> MutexError {
        MutexError::WaitQueue(error)
    }
}

/// Thread that an owner word stands for: zero stands for nobody.
pub open spec fn token_owner(token: usize) -> Option<usize> {
    if token == 0 {
        None
    } else {
        Some((token - 1) as usize)
    }
}

/// Owner word of a thread.
fn owner_token(thread: usize) -> (token: usize)
    requires
        thread < usize::MAX,
    ensures
        token != 0,
        token_owner(token) == Some(thread),
{
    thread + 1
}

/// The thread that an owner word names, if any.
pub fn thread_from_owner_token(token: usize) -> (thread: Option<usize>)
    ensures
        thread == token_owner(token),
{
    if token == 0 {
        None
    } else {
        Some(token - 1)
    }
}

/// Ownership of a mutex.
pub struct MutexState {
    pub owner: usize,
    pub waiters: WaitTree,
    pub owner_original_deadline_at: u64,
    pub owner_boosted: bool,
}

/// Abstract ownership of a mutex.
#[verifier::ext_equal]
pub struct MutexView {
    pub owner: Option<usize>,
    /// Threads that queue for the mutex.
    pub waiters: Set<usize>,
    /// Deadline of the owner before its first boost.
    pub original_deadline_at: u64,
    pub boosted: bool,
}

impl View for MutexState {
    type V = MutexView;

    open spec fn view(&self) -> MutexView {
        MutexView {
            owner: token_owner(self.owner),
            waiters: self.waiters.ids(),
            original_deadline_at: self.owner_original_deadline_at,
            boosted: self.owner_boosted,
        }
    }
}

impl MutexView {
    /// Ownership of a mutex that nobody has locked.
    pub open spec fn unlocked() -> MutexView {
        MutexView { owner: None, waiters: Set::empty(), original_deadline_at: 0, boosted: false }
    }

    /// A lock that does not block.
    pub open spec fn lock_tried(self, current: Option<usize>) -> (
        MutexView,
        Result<(), MutexError>,
    ) {
        if current is None {
            (self, Err(MutexError::NoCurrentThread))
        } else if self.owner is None {
            (MutexView { owner: current, ..self }, Ok(()))
        } else if self.owner == current {
            (self, Err(MutexError::WouldDeadlock))
        } else {
            (self, Err(MutexError::WouldBlock))
        }
    }

    /// The owner inherits the deadline with which the waiter blocked, or an even
    /// earlier one of a queued timer, if that is earlier than its own. Fair threads
    /// share one deadline and do not inherit it from each other. The deadline of
    /// the owner before the first boost is kept.
    pub open spec fn boosted_by(
        self,
        k: KernelView,
        owner: usize,
        waiter: usize,
        waiter_deadline_at: u64,
    ) -> (MutexView, KernelView) {
        let earliest = k.earliest_deadline();
        let boost_deadline_at = if waiter_deadline_at <= earliest {
            waiter_deadline_at
        } else {
            earliest
        };
        let owner_deadline_at = k.core.scheduler_deadline(owner);
        if k.core.ctx[owner as int].is_cfs && k.core.ctx[waiter as int].is_cfs || boost_deadline_at
            >= owner_deadline_at {
            (self, k)
        } else {
            (
                if self.boosted {
                    self
                } else {
                    MutexView { original_deadline_at: owner_deadline_at, boosted: true, ..self }
                },
                k.deadline_set(owner, boost_deadline_at),
            )
        }
    }

    /// The boost of the owner ends.
    pub open spec fn restored(self, k: KernelView) -> (MutexView, KernelView) {
        if !self.boosted {
            (self, k)
        } else {
            let r = match self.owner {
                Some(owner) => k.deadline_set(owner, self.original_deadline_at),
                None => k,
            };
            if r.core.fault is Some {
                (self, r)
            } else {
                (MutexView { original_deadline_at: 0, boosted: false, ..self }, r)
            }
        }
    }

    /// A lock by the current thread, which blocks when another thread is the
    /// owner and boosts that owner.
    pub open spec fn locked(self, k: KernelView, elapsed: u32) -> (
        MutexView,
        KernelView,
        Result<(), MutexError>,
    ) {
        match self.lock_tried(k.core.current) {
            (m, Err(MutexError::WouldBlock)) => match k.blocked_on(SyncType::Mutex, elapsed) {
                (r, Ok(deadline_at)) => {
                    let (boosted, s) = (MutexView {
                        waiters: m.waiters.insert(k.core.current->0),
                        ..m
                    }).boosted_by(r, m.owner->0, k.core.current->0, deadline_at);
                    (
                        boosted,
                        s,
                        if s.core.fault is Some {
                            Err(MutexError::WaitQueue(WaitQueueError::DeadlineMiss))
                        } else {
                            Ok(())
                        },
                    )
                },
                (r, Err(error)) => (m, r, Err(MutexError::WaitQueue(error))),
            },
            (m, result) => (m, k, result),
        }
    }

    /// The current thread unlocks. The boost ends, and the waiter with the
    /// earliest deadline that still waits becomes the owner. A thread that is not
    /// the owner changes nothing.
    pub open spec fn released(self, k: KernelView) -> (
        MutexView,
        KernelView,
        Result<(), MutexError>,
    ) {
        if self.owner != k.core.current {
            (self, k, Ok(()))
        } else {
            let (m, r) = self.restored(k);
            if r.core.fault is Some {
                (m, r, Err(MutexError::WaitQueue(WaitQueueError::DeadlineMiss)))
            } else {
                let next = r.core.first_waiter(m.waiters);
                let passed = MutexView {
                    owner: next,
                    waiters: r.core.waiters_behind(m.waiters),
                    ..m
                };
                match next {
                    Some(i) => match r.waiter_woken(i) {
                        (s, Ok(())) => (passed, s.switch_requested(), Ok(())),
                        (s, Err(error)) => (passed, s, Err(MutexError::WaitQueue(error))),
                    },
                    None => (passed, r, Ok(())),
                }
            }
        }
    }
}

impl MutexState {
    /// The waiters are in order, and the owner is a thread.
    pub open spec fn wf(&self, kernel: &Kernel) -> bool {
        &&& self.waiters.wf(kernel.core.sync@)
        &&& self.owner <= kernel.core.ctx.len()
    }

    pub fn new() -> (state: Self)
        ensures
            state@ == MutexView::unlocked(),
            forall|kernel: &Kernel| #[trigger] state.wf(kernel),
    {
        let state = Self {
            owner: 0,
            waiters: WaitTree::new(),
            owner_original_deadline_at: 0,
            owner_boosted: false,
        };
        state
    }
}

/// Lets the owner of a mutex inherit the deadline of a waiter.
fn boost_owner_deadline(
    kernel: &mut Kernel,
    state: &mut MutexState,
    owner: usize,
    waiter: usize,
    waiter_deadline_at: u64,
)
    requires
        old(kernel).wf(),
        old(kernel)@.steady(),
        waiter < old(kernel).core.ctx.len(),
        old(state).wf(old(kernel)),
        owner <= old(kernel).core.ctx.len(),
    ensures
        final(kernel).wf(),
        final(state).wf(final(kernel)),
        match token_owner(owner) {
            Some(o) => (final(state)@, final(kernel)@) == old(state)@.boosted_by(
                old(kernel)@,
                o,
                waiter,
                waiter_deadline_at,
            ),
            None => final(state)@ == old(state)@ && final(kernel)@ == old(kernel)@,
        },
        final(kernel)@.core.fault is None ==> final(kernel)@.steady(),
        final(kernel).core.sync@ == old(kernel).core.sync@,
{
    let Some(owner) = thread_from_owner_token(owner) else {
        return;
    };
    if kernel.core.ctx[owner].is_cfs && kernel.core.ctx[waiter].is_cfs {
        return;
    }
    let earliest: u64 = earliest_queued_scheduler_deadline_at(kernel);
    let boost_deadline_at: u64 = if waiter_deadline_at <= earliest {
        waiter_deadline_at
    } else {
        earliest
    };
    let owner_deadline_at: u64 = thread_scheduler_deadline_at(&kernel.core, owner);
    if boost_deadline_at >= owner_deadline_at {
        return;
    }
    if !state.owner_boosted {
        state.owner_original_deadline_at = owner_deadline_at;
        state.owner_boosted = true;
    }
    set_thread_scheduler_deadline_at(kernel, owner, boost_deadline_at);
}

/// Gives the owner of a mutex its own deadline back.
fn restore_owner_deadline(kernel: &mut Kernel, state: &mut MutexState, owner: usize)
    requires
        old(kernel).wf(),
        old(state).wf(old(kernel)),
        old(state).owner == owner,
        old(state)@.boosted ==> old(kernel)@.steady(),
    ensures
        final(kernel).wf(),
        final(state).wf(final(kernel)),
        (final(state)@, final(kernel)@) == old(state)@.restored(old(kernel)@),
        final(state).waiters == old(state).waiters,
        final(state).owner == old(state).owner,
        old(kernel)@.steady() && final(kernel)@.core.fault is None ==> final(kernel)@.steady(),
        final(kernel)@.core.waiting == old(kernel)@.core.waiting,
        final(kernel)@.core.ctx == old(kernel)@.core.ctx,
        final(kernel)@.core.current == old(kernel)@.core.current,
        final(kernel).core.sync@ == old(kernel).core.sync@,
{
    if !state.owner_boosted {
        return;
    }
    if let Some(owner) = thread_from_owner_token(owner) {
        set_thread_scheduler_deadline_at(kernel, owner, state.owner_original_deadline_at);
        if kernel.core.fault.is_some() {
            return;
        }
    }
    state.owner_original_deadline_at = 0;
    state.owner_boosted = false;
}

/// A no-heap, non-recursive scheduler mutex protecting a value of type `T`.
///
/// The mutex is owned by a scheduler thread while a [`MutexGuard`] exists. If
/// another thread calls `lock`, it is moved to the wait queue and becomes the
/// owner once the current owner gives its guard back and it has the earliest
/// scheduler deadline among the mutex waiters.
pub struct Mutex<T> {
    pub state: MutexState,
    pub data: T,
}

impl<T> View for Mutex<T> {
    type V = MutexView;

    open spec fn view(&self) -> MutexView {
        self.state@
    }
}

impl<T> Mutex<T> {
    pub open spec fn wf(&self, kernel: &Kernel) -> bool {
        self.state.wf(kernel)
    }

    /// Create a mutex containing `value`.
    pub fn new(value: T) -> (mutex: Self)
        ensures
            mutex@ == MutexView::unlocked(),
            mutex.data == value,
            forall|kernel: &Kernel| #[trigger] mutex.wf(kernel),
    {
        let mutex = Self { state: MutexState::new(), data: value };
        assert forall|kernel: &Kernel| #[trigger] mutex.wf(kernel) by {
            assert(mutex.state.wf(kernel));
        }
        mutex
    }

    /// Consume the mutex and return its inner value.
    pub fn into_inner(self) -> (value: T)
        ensures
            value == self.data,
    {
        self.data
    }

    /// Return a mutable reference to the inner value.
    ///
    /// This requires unique access to the mutex, so no scheduler locking is
    /// needed.
    pub fn get_mut(&mut self) -> (value: &mut T)
        ensures
            *value == old(self).data,
            *final(self) == (Mutex { data: *final(value), ..*old(self) }),
    {
        &mut self.data
    }

    /// Return whether the mutex is currently owned by a thread.
    pub fn is_locked(&self) -> (locked: bool)
        ensures
            locked == (self@.owner is Some),
    {
        load_word(&self.state.owner) != 0
    }

    /// Try to lock the mutex without blocking.
    pub fn try_lock(&mut self, kernel: &Kernel) -> (result: Result<MutexGuard<T>, MutexError>)
        requires
            kernel.wf(),
            old(self).wf(kernel),
        ensures
            final(self).wf(kernel),
            final(self).data == old(self).data,
            (final(self)@, guarded(result)) == old(self)@.lock_tried(kernel@.core.current),
            result is Ok ==> Some(result->Ok_0.owner) == kernel@.core.current,
            final(self).state.waiters == old(self).state.waiters,
    {
        let Some(current_thread) = current_thread_handle(&kernel.core) else {
            return Err(MutexError::NoCurrentThread);
        };
        let current_owner: usize = owner_token(current_thread);
        match compare_exchange_word(&mut self.state.owner, 0, current_owner) {
            Ok(_) => Ok(MutexGuard::new(current_thread)),
            Err(owner) => if owner == current_owner {
                Err(MutexError::WouldDeadlock)
            } else {
                Err(MutexError::WouldBlock)
            },
        }
    }

    /// Lock the mutex, blocking the current scheduler thread if needed.
    ///
    /// `elapsed` is what has passed of the current timer interval. The guard of a
    /// thread that had to block is good once the thread runs again.
    pub fn lock(&mut self, kernel: &mut Kernel, elapsed: u32) -> (result: Result<
        MutexGuard<T>,
        MutexError,
    >)
        requires
            old(kernel).wf(),
            old(self).wf(old(kernel)),
            old(self)@.owner is Some && old(self)@.owner != old(kernel)@.core.current ==> old(
                kernel,
            )@.can_block_on(old(self)@.waiters),
        ensures
            final(kernel).wf(),
            final(self).wf(final(kernel)),
            final(self).data == old(self).data,
            (final(self)@, final(kernel)@, guarded(result)) == old(self)@.locked(
                old(kernel)@,
                elapsed,
            ),
            result is Ok ==> Some(result->Ok_0.owner) == old(kernel)@.core.current,
            untouched(
                old(kernel).core.sync@,
                final(kernel).core.sync@,
                involved(old(self)@.waiters, old(kernel)@.core.current),
            ),
            old(kernel)@.steady() && result is Ok ==> final(kernel)@.steady(),
    {
        let Some(current_thread) = current_thread_handle(&kernel.core) else {
            return Err(MutexError::NoCurrentThread);
        };
        let current_owner: usize = owner_token(current_thread);
        match compare_exchange_word(&mut self.state.owner, 0, current_owner) {
            Ok(_) => {},
            Err(owner) => {
                if owner == current_owner {
                    return Err(MutexError::WouldDeadlock);
                }
                let waiter_deadline_at: u64 = match block_current_thread_on(
                    kernel,
                    &mut self.state.waiters,
                    current_thread,
                    SyncType::Mutex,
                    elapsed,
                ) {
                    Ok(deadline_at) => deadline_at,
                    Err(error) => {
                        return Err(MutexError::from(error));
                    },
                };
                boost_owner_deadline(
                    kernel,
                    &mut self.state,
                    owner,
                    current_thread,
                    waiter_deadline_at,
                );
                if kernel.core.fault.is_some() {
                    return Err(MutexError::from(WaitQueueError::DeadlineMiss));
                }
            },
        }
        Ok(MutexGuard::new(current_thread))
    }

    /// Gives the mutex to the next waiter, or leaves it unlocked.
    fn unlock_guard(&mut self, kernel: &mut Kernel) -> (result: Result<(), MutexError>)
        requires
            old(kernel).wf(),
            old(self).wf(old(kernel)),
            old(self)@.owner == old(kernel)@.core.current ==> {
                &&& old(self)@.boosted ==> old(kernel)@.steady()
                &&& old(kernel)@.can_wake(old(self)@.waiters)
            },
        ensures
            final(kernel).wf(),
            final(self).wf(final(kernel)),
            final(self).data == old(self).data,
            (final(self)@, final(kernel)@, result) == old(self)@.released(old(kernel)@),
            untouched(old(kernel).core.sync@, final(kernel).core.sync@, old(self)@.waiters),
            old(kernel)@.steady() && result is Ok ==> final(kernel)@.steady(),
    {
        let current_owner: usize = match current_thread_handle(&kernel.core) {
            Some(thread) => owner_token(thread),
            None => 0,
        };
        let observed_owner: usize = load_word(&self.state.owner);
        if observed_owner != current_owner {
            return Ok(());
        }
        restore_owner_deadline(kernel, &mut self.state, current_owner);
        if kernel.core.fault.is_some() {
            return Err(MutexError::from(WaitQueueError::DeadlineMiss));
        }
        let ghost restored = kernel@;
        let popped = pop_waiting_thread(&mut kernel.core, &mut self.state.waiters);
        assert(kernel@ =~= restored);
        if let Some(waiter) = popped {
            let _ = compare_exchange_word(
                &mut self.state.owner,
                current_owner,
                owner_token(waiter),
            );
            match wake_waiter(kernel, waiter) {
                Ok(()) => {},
                Err(error) => {
                    return Err(MutexError::from(error));
                },
            }
            request_context_switch(&mut kernel.core);
        } else {
            let _ = compare_exchange_word(&mut self.state.owner, current_owner, 0);
        }
        Ok(())
    }
}

/// The outcome of a lock without its guard.
pub open spec fn guarded<T>(result: Result<MutexGuard<T>, MutexError>) -> Result<(), MutexError> {
    match result {
        Ok(_) => Ok(()),
        Err(error) => Err(error),
    }
}

/// Guard returned by [`Mutex::lock`] and [`Mutex::try_lock`].
///
/// Giving the guard back unlocks the mutex and wakes the earliest-deadline
/// waiting thread, if one exists.
pub struct MutexGuard<T> {
    /// Thread that the guard was made for.
    pub owner: usize,
    pub _protects: PhantomData<T>,
}

impl<T> MutexGuard<T> {
    fn new(owner: usize) -> (guard: Self)
        ensures
            guard.owner == owner,
    {
        Self { owner, _protects: PhantomData }
    }

    /// Value that the mutex protects, for the thread that owns the mutex.
    pub fn deref<'a>(&'a self, mutex: &'a Mutex<T>) -> (value: &'a T)
        requires
            mutex@.owner == Some(self.owner),
        ensures
            *value == mutex.data,
    {
        &mutex.data
    }

    /// Value that the mutex protects, to be changed by the thread that owns the mutex.
    pub fn deref_mut<'a>(&'a mut self, mutex: &'a mut Mutex<T>) -> (value: &'a mut T)
        requires
            old(mutex)@.owner == Some(old(self).owner),
        ensures
            *value == old(mutex).data,
            *final(mutex) == (Mutex { data: *final(value), ..*old(mutex) }),
            *final(self) == *old(self),
    {
        &mut mutex.data
    }

    /// Gives the guard back.
    pub fn unlock(self, mutex: &mut Mutex<T>, kernel: &mut Kernel)
        requires
            old(kernel).wf(),
            old(mutex).wf(old(kernel)),
            old(mutex)@.owner == old(kernel)@.core.current ==> {
                &&& old(mutex)@.boosted ==> old(kernel)@.steady()
                &&& old(kernel)@.can_wake(old(mutex)@.waiters)
            },
        ensures
            final(kernel).wf(),
            final(mutex).wf(final(kernel)),
            final(mutex).data == old(mutex).data,
            final(mutex)@ == old(mutex)@.released(old(kernel)@).0,
            final(kernel)@ == old(mutex)@.released(old(kernel)@).1,
            untouched(old(kernel).core.sync@, final(kernel).core.sync@, old(mutex)@.waiters),
            old(kernel)@.steady() && final(kernel)@.core.fault is None ==> final(kernel)@.steady(),
    {
        let _ = mutex.unlock_guard(kernel);
    }
}

/// Of the queued threads that still wait, the one with the earliest deadline is the
/// first; if any of them still waits, there is such a first one.
pub proof fn lemma_earliest_waiter_first(core: CoreView, waiters: Set<usize>)
    ensures
        match core.first_waiter(waiters) {
            Some(i) => {
                &&& waiters.contains(i)
                &&& core.ctx[i as int].state is Waiting
                &&& !core.waiters_behind(waiters).contains(i)
                &&& forall|j: usize| #[trigger]
                    waiters.contains(j) && core.ctx[j as int].state is Waiting
                        ==> core.sync[i as int].deadline_at <= core.sync[j as int].deadline_at && (j
                        == i || core.waiters_behind(waiters).contains(j))
            },
            None => forall|j: usize| #[trigger]
                waiters.contains(j) ==> !(core.ctx[j as int].state is Waiting),
        },
{
    let ids = core.still_waiting(waiters);
    if ids == Set::<usize>::empty() {
        crate::rbtree::lemma_first_of_empty::<SyncEntity>(core.sync, ids);
        assert forall|j: usize| #[trigger] waiters.contains(j) implies !(
        core.ctx[j as int].state is Waiting) by {
            assert(!ids.contains(j));
        }
    } else {
        crate::rbtree::lemma_first_exists::<SyncEntity>(core.sync, ids);
        let i = core.first_waiter(waiters)->0;
        assert(ids.contains(i));
        assert forall|j: usize| #[trigger]
            waiters.contains(j) && core.ctx[j as int].state is Waiting implies core.sync[i as int].deadline_at
            <= core.sync[j as int].deadline_at && (j == i || core.waiters_behind(waiters).contains(
            j,
        )) by {
            assert(ids.contains(j));
            if j != i {
                assert(crate::rbtree::before::<SyncEntity>(core.sync, i, j));
            }
        }
    }
}

/// The number of tokens stays within its bounds.
pub proof fn lemma_tokens_bounded(
    semaphore: SemaphoreView,
    k: KernelView,
    kind: SyncType,
    elapsed: u32,
)
    requires
        semaphore.ok(),
    ensures
        semaphore.take_tried().0.ok(),
        semaphore.taken(k, kind, elapsed).0.ok(),
        semaphore.given(k).0.ok(),
{
}

/// A give undoes a take that did not block, and a take that does not block undoes a
/// give that stored its token.
pub proof fn lemma_take_and_give_cancel(
    semaphore: SemaphoreView,
    k: KernelView,
    kind: SyncType,
    elapsed: u32,
)
    requires
        semaphore.ok(),
        k.core.first_waiter(semaphore.waiters) is None,
    ensures
        semaphore.tokens > 0 ==> ({
            let (taken, after_take, result) = semaphore.taken(k, kind, elapsed);
            let (given, after_give, answer) = taken.given(after_take);
            &&& result is Ok && answer is Ok
            &&& given.tokens == semaphore.tokens
            &&& after_give == k
        }),
        semaphore.tokens < semaphore.max ==> ({
            let (given, after_give, answer) = semaphore.given(k);
            let (taken, result) = given.take_tried();
            &&& result is Ok && answer is Ok
            &&& taken.tokens == semaphore.tokens
            &&& after_give == k
        }),
{
}

/// A give to a waiter hands the token over: none is stored, and the waiter is ready
/// and no longer queued.
pub proof fn lemma_give_hands_over(semaphore: SemaphoreView, k: KernelView)
    requires
        k.can_wake(semaphore.waiters),
        k.core.first_waiter(semaphore.waiters) is Some,
        semaphore.given(k).2 is Ok,
    ensures
        ({
            let i = k.core.first_waiter(semaphore.waiters)->0;
            let (given, r, _) = semaphore.given(k);
            &&& given.tokens == semaphore.tokens
            &&& !given.waiters.contains(i)
            &&& r.core.ctx[i as int].state is Ready
            &&& !r.core.waiting.contains(i)
            &&& r.core.switch_pending
        }),
{
    let i = k.core.first_waiter(semaphore.waiters)->0;
    assert(k.core.waiting.contains(i));
    lemma_earliest_waiter_first(k.core, semaphore.waiters);
    if k.core.ctx[i as int].is_cfs {
        let core = k.core.waiting_without(i);
        crate::lifecycle::lemma_wait_programmed_threads(
            k.with_core(
                (CoreView { trace: core.trace.wakeup(core.ctx[i as int]), ..core }).rejoined(i),
            ),
        );
    } else {
        let t = k.core.ktimer_of[i as int]->0;
        let ready = k.core.waiting_without(i).with_state(i, ThreadState::Ready);
        let traced = k.with_core(
            CoreView { trace: ready.trace.wakeup(ready.ctx[i as int]), ..ready },
        );
        let queued = traced.with_core(
            traced.core.with_timer(t, traced.core.timers[t as int].with_active(true)),
        ).enqueued(t);
        crate::lifecycle::lemma_refreshed_threads(queued);
        crate::lifecycle::lemma_wait_programmed_threads(queued.refreshed());
    }
}

/// A mutex has one owner at a time: a lock makes the current thread the owner only
/// if there is none, and otherwise leaves the owner in place.
pub proof fn lemma_lock_is_exclusive(mutex: MutexView, k: KernelView, elapsed: u32)
    ensures
        ({
            let (locked, _, result) = mutex.locked(k, elapsed);
            &&& mutex.owner is Some ==> locked.owner == mutex.owner
            &&& mutex.owner is None ==> locked.owner == k.core.current
            &&& mutex.owner is Some && mutex.owner == k.core.current ==> result == Err::<
                (),
                MutexError,
            >(MutexError::WouldDeadlock)
        }),
{
}

/// An unlock by the owner passes the mutex to the waiter with the earliest deadline
/// that still waits, or leaves it unlocked.
pub proof fn lemma_unlock_passes_on(mutex: MutexView, k: KernelView)
    requires
        mutex.owner == k.core.current,
        mutex.released(k).2 is Ok,
    ensures
        mutex.released(k).0.owner == k.core.first_waiter(mutex.waiters),
        !mutex.released(k).0.boosted,
{
    if mutex.boosted {
        if let Some(owner) = mutex.owner {
            crate::lifecycle::lemma_deadline_set_threads(k, owner, mutex.original_deadline_at);
        }
    }
}

impl KernelView {
    /// The queue holds timers that exist, and the two timers of the scheduler do.
    spec fn has_timers(self) -> bool {
        &&& self.core.timers.len() >= 2
        &&& forall|t: usize| #[trigger] self.queued.contains(t) ==> t < self.core.timers.len()
    }
}

/// Choosing the next timer leaves a deadline that is still ahead as it is.
proof fn lemma_refreshed_keeps_deadline(k: KernelView, t: usize)
    requires
        k.has_timers(),
        t < k.core.timers.len(),
        k.core.timers[t as int].deadline_at > k.now,
    ensures
        k.refreshed().core.timers[t as int].deadline_at == k.core.timers[t as int].deadline_at,
        k.refreshed().core.timers.len() == k.core.timers.len(),
        k.refreshed().has_timers(),
        k.refreshed().now == k.now,
{
    if let Some(s) = k.first_active() {
        let ids = crate::ktimer::active_ids(k.core.timers, k.queued);
        let f = choose|f: usize| crate::rbtree::is_first::<KTimerEntity>(k.core.timers, ids, f);
        assert(crate::rbtree::is_first::<KTimerEntity>(k.core.timers, ids, f));
        assert(ids.contains(s));
        assert(k.queued.contains(s));
    }
}

/// Changing the deadline of a thread to a later time than now takes effect.
proof fn lemma_deadline_set_effect(k: KernelView, i: usize, deadline_at: u64)
    requires
        k.ok(),
        i < k.core.ctx.len(),
        k.core.scheduler_timer(i) is Some,
        deadline_at > k.now,
    ensures
        k.deadline_set(i, deadline_at).core.scheduler_deadline(i) == deadline_at,
{
    let t = k.core.scheduler_timer(i)->0;
    if t != CFS_KTIMER {
        assert(k.core.ktimer_of[i as int] == Some(t));
    }
    let set = k.with_core(
        k.core.with_timer(t, KTimerEntity { deadline_at, ..k.core.timers[t as int] }),
    );
    crate::lifecycle::lemma_refreshed_threads(set);
    lemma_refreshed_keeps_deadline(set, t);
}

/// While a thread of higher urgency waits for a mutex, the owner competes with a
/// deadline that is no later. Between fair threads, which share one deadline, there
/// is nothing to inherit.
pub proof fn lemma_owner_inherits_deadline(
    mutex: MutexView,
    k: KernelView,
    owner: usize,
    waiter: usize,
    waiter_deadline_at: u64,
)
    requires
        k.ok(),
        owner < k.core.ctx.len(),
        waiter < k.core.ctx.len(),
        !(k.core.ctx[owner as int].is_cfs && k.core.ctx[waiter as int].is_cfs),
        k.core.scheduler_timer(owner) is Some,
        waiter_deadline_at > k.now,
        k.earliest_deadline() > k.now,
    ensures
        mutex.boosted_by(k, owner, waiter, waiter_deadline_at).1.core.scheduler_deadline(owner)
            <= waiter_deadline_at,
{
    let earliest = k.earliest_deadline();
    let boost = if waiter_deadline_at <= earliest {
        waiter_deadline_at
    } else {
        earliest
    };
    lemma_deadline_set_effect(k, owner, boost);
}

/// However often the owner of a mutex is boosted, the deadline to go back to is the
/// one before the first boost.
pub proof fn lemma_original_deadline_kept(
    mutex: MutexView,
    k: KernelView,
    owner: usize,
    waiter: usize,
    waiter_deadline_at: u64,
)
    ensures
        ({
            let (boosted, r) = mutex.boosted_by(k, owner, waiter, waiter_deadline_at);
            &&& mutex.boosted ==> boosted == mutex
            &&& !mutex.boosted && boosted.boosted ==> boosted.original_deadline_at
                == k.core.scheduler_deadline(owner)
            &&& !boosted.boosted ==> r == k && boosted == mutex
        }),
{
}

/// Setting the wait timer leaves the deadline of any other timer as it is, if it is
/// still ahead.
proof fn lemma_wait_programmed_keeps_deadline(k: KernelView, t: usize)
    requires
        k.has_timers(),
        t < k.core.timers.len(),
        t != WAIT_KTIMER,
        k.core.timers[t as int].deadline_at > k.now,
    ensures
        k.wait_programmed().core.timers[t as int].deadline_at
            == k.core.timers[t as int].deadline_at,
{
    lemma_refreshed_keeps_deadline(
        k.dequeued(WAIT_KTIMER).wait_armed().enqueued(WAIT_KTIMER),
        t,
    );
}

/// Waking a waiter leaves the deadline of every thread as it is, if it is still ahead.
proof fn lemma_waiter_woken_keeps_deadline(k: KernelView, waiter: usize, i: usize)
    requires
        k.has_timers(),
        i < k.core.ctx.len(),
        waiter < k.core.ctx.len(),
        k.core.scheduler_timer(i) is Some,
        k.core.scheduler_timer(i)->0 != WAIT_KTIMER,
        k.core.scheduler_timer(i)->0 < k.core.timers.len(),
        k.core.ktimer_of[waiter as int] is Some ==> k.core.ktimer_of[waiter as int]->0
            < k.core.timers.len(),
        k.core.scheduler_deadline(i) > k.now,
    ensures
        k.waiter_woken(waiter).0.core.scheduler_deadline(i) == k.core.scheduler_deadline(i),
{
    let t = k.core.scheduler_timer(i)->0;
    if k.core.ctx[waiter as int].is_cfs {
        let left = k.core.waiting_without(waiter);
        let ready = k.with_core(
            (CoreView { trace: left.trace.wakeup(left.ctx[waiter as int]), ..left }).rejoined(
                waiter,
            ),
        );
        lemma_wait_programmed_keeps_deadline(ready, t);
        crate::lifecycle::lemma_wait_programmed_threads(ready);
    } else if k.core.ktimer_of[waiter as int] is Some {
        let s = k.core.ktimer_of[waiter as int]->0;
        let ready = k.core.waiting_without(waiter).with_state(waiter, ThreadState::Ready);
        let traced = k.with_core(
            CoreView { trace: ready.trace.wakeup(ready.ctx[waiter as int]), ..ready },
        );
        let queued = traced.with_core(
            traced.core.with_timer(s, traced.core.timers[s as int].with_active(true)),
        ).enqueued(s);
        lemma_refreshed_keeps_deadline(queued, t);
        crate::lifecycle::lemma_refreshed_threads(queued);
        lemma_wait_programmed_keeps_deadline(queued.refreshed(), t);
        crate::lifecycle::lemma_wait_programmed_threads(queued.refreshed());
    }
}

/// An unlock ends the boost: when it is done and the next waiter has been woken, the
/// former owner competes with its original deadline again.
pub proof fn lemma_unlock_restores_deadline(mutex: MutexView, k: KernelView)
    requires
        k.ok(),
        k.can_wake(mutex.waiters),
        mutex.boosted,
        mutex.owner is Some,
        mutex.owner == k.core.current,
        mutex.owner->0 < k.core.ctx.len(),
        k.core.scheduler_timer(mutex.owner->0) is Some,
        mutex.original_deadline_at > k.now,
    ensures
        mutex.released(k).1.core.scheduler_deadline(mutex.owner->0) == mutex.original_deadline_at,
        mutex.restored(k).1.core.fault is None ==> !mutex.released(k).0.boosted,
{
    let owner = mutex.owner->0;
    let (m, r) = mutex.restored(k);
    lemma_deadline_set_effect(k, owner, mutex.original_deadline_at);
    crate::lifecycle::lemma_deadline_set_threads(k, owner, mutex.original_deadline_at);
    let t = k.core.scheduler_timer(owner)->0;
    if t != CFS_KTIMER {
        assert(k.core.ktimer_of[owner as int] == Some(t));
    }
    let set = k.with_core(
        k.core.with_timer(
            t,
            KTimerEntity {
                deadline_at: mutex.original_deadline_at,
                ..k.core.timers[t as int]
            },
        ),
    );
    lemma_refreshed_keeps_deadline(set, t);
    if r.core.fault is None {
        assert(r.core.first_waiter(m.waiters) == k.core.first_waiter(mutex.waiters));
        if let Some(i) = r.core.first_waiter(m.waiters) {
            assert(k.core.waiting.contains(i));
            assert(k.core.ktimer_of[i as int] is Some ==> k.core.ktimer_of[i as int]->0
                < k.core.timers.len());
            lemma_waiter_woken_keeps_deadline(r, i, owner);
        }
    }
}

} // verus!
