//! Run queue of the fair scheduling class.

use crate::kernel::{Core, CoreView, Kernel, KernelView};
use crate::rbtree::{RBTree, RBTreeNode, RbNode};
use crate::thread::{ThreadCtx, ThreadHandle, ThreadState};
use crate::timers::program_wait_ktimer;
use crate::waitq::{contexts_of, insert_wait_thread, WaitQueueError};
use vstd::prelude::*;

verus! {

/// Runnable fair threads, ordered by virtual runtime, and the sum of the
/// priorities of all fair threads that take part in the accounting.
pub struct RunQueue {
    pub tree: RBTree<SchedEntity>,
    pub priority_sum: u32,
}

impl RunQueue {
    pub fn new() -> (queue: Self)
        ensures
            queue.tree.ids() == Set::<usize>::empty(),
            queue.priority_sum == 0,
            forall|sched: Seq<SchedEntity>| #[trigger] queue.tree.wf(sched),
    {
        Self { tree: RBTree::new(), priority_sum: 0 }
    }
}

/// Scheduler entity used as the tree node and ordering key.
///
/// `vruntime` is the primary key. When two entities have the same `vruntime`,
/// their slots are used as a stable tie-breaker so the tree keeps a strict total
/// ordering.
///
/// CFS priority is inverse-numeric: `1` is the most favored priority and larger
/// values are less favored. A larger numeric priority charges more `vruntime`
/// for the same elapsed time, so the scheduler will tend to choose it less
/// often than a lower numeric priority.
#[derive(Clone, Copy, Debug, PartialEq, Eq, Structural)]
pub struct SchedEntity {
    pub sched_tick_cnt: u64,
    /// Scheduler virtual runtime metric used as the red-black tree key.
    pub vruntime: u64,
    /// Non-zero inverse-numeric priority. Lower values are favored.
    pub priority: u32,
    pub rb_node: RbNode,
}

impl SchedEntity {
    /// Entity that has not run yet and is in no queue.
    pub open spec fn fresh(priority: u32) -> SchedEntity {
        SchedEntity { sched_tick_cnt: 0, vruntime: 0, priority, rb_node: RbNode::detached() }
    }

    /// Create a detached scheduler entity that can be inserted into a tree.
    pub fn new(priority: u32) -> (entity: Self)
        ensures
            entity == Self::fresh(priority),
    {
        Self { sched_tick_cnt: 0, vruntime: 0, priority, rb_node: RbNode::new() }
    }

    /// Reset linkage so the entity can be reused or inserted into another tree.
    pub fn reset_links(&mut self)
        ensures
            *final(self) == (SchedEntity { rb_node: RbNode::detached(), ..*old(self) }),
    {
        self.rb_node.reset_links();
    }

    /// Return `true` if the entity is currently linked to another node.
    pub fn is_linked(&self) -> (linked: bool)
        ensures
            linked == (self.rb_node.parent is Some || self.rb_node.left is Some
                || self.rb_node.right is Some),
    {
        self.rb_node.is_linked()
    }

    /// Return the scheduler virtual runtime used for run-queue ordering.
    pub fn vruntime(&self) -> (vruntime: u64)
        ensures
            vruntime == self.vruntime,
    {
        self.vruntime
    }

    /// Return the scheduler tick count accumulated for this entity.
    pub fn sched_tick_cnt(&self) -> (ticks: u64)
        ensures
            ticks == self.sched_tick_cnt,
    {
        self.sched_tick_cnt
    }
}

impl RBTreeNode for SchedEntity {
    type Payload = SchedEntity;

    open spec fn links(&self) -> RbNode {
        self.rb_node
    }

    open spec fn payload(&self) -> SchedEntity {
        SchedEntity { rb_node: RbNode::detached(), ..*self }
    }

    open spec fn rank(payload: SchedEntity) -> (int, int) {
        (payload.vruntime as int, 0)
    }

    fn node(&self) -> (node: RbNode) {
        self.rb_node
    }

    fn set_node(&mut self, node: RbNode) {
        self.rb_node = node;
    }

    fn key(&self) -> (key: (u64, u32)) {
        (self.vruntime, 0)
    }
}

/// `amount * factor / divisor`, rounded down and capped at the largest count.
pub open spec fn scaled(amount: u64, factor: u32, divisor: u32) -> u64 {
    let exact = (amount * factor) / (divisor as int);
    if exact > u64::MAX {
        u64::MAX
    } else {
        exact as u64
    }
}

/// Virtual runtime charged for elapsed execution: the elapsed ticks weighted by
/// the share of the priority in the sum of all priorities.
pub open spec fn vruntime_delta(elapsed_ticks: u64, priority: u32, priority_sum: u32) -> u64 {
    if priority_sum == 0 {
        0
    } else {
        scaled(elapsed_ticks, priority, priority_sum)
    }
}

/// Execution ticks that a virtual runtime stands for.
pub open spec fn sched_ticks(vruntime: u64, priority: u32, priority_sum: u32) -> u64 {
    if priority_sum == 0 {
        0
    } else {
        scaled(vruntime, priority_sum, priority)
    }
}

fn scale(amount: u64, factor: u32, divisor: u32) -> (result: u64)
    requires
        divisor != 0,
    ensures
        result == scaled(amount, factor, divisor),
{
    assert(0 <= amount * factor <= 0xffff_ffff_ffff_ffff * 0xffff_ffff) by (nonlinear_arith)
        requires
            0 <= amount <= 0xffff_ffff_ffff_ffff,
            0 <= factor <= 0xffff_ffff,
    ;
    let product: u128 = amount as u128 * factor as u128;
    let exact: u128 = product / divisor as u128;
    if exact > u64::MAX as u128 {
        u64::MAX
    } else {
        exact as u64
    }
}

/// Calculate how much `vruntime` to charge for elapsed CFS execution.
///
/// Lower numeric CFS priority values are favored because this formula charges
/// less `vruntime` for the same elapsed time. The scheduler selects the CFS
/// thread with the smallest `vruntime`.
pub fn cfs_vruntime_delta(elapsed_ticks: u64, priority: u32, priority_sum: u32) -> (delta: u64)
    requires
        priority != 0,
    ensures
        delta == vruntime_delta(elapsed_ticks, priority, priority_sum),
{
    if priority_sum == 0 {
        return 0;
    }
    scale(elapsed_ticks, priority, priority_sum)
}

/// Execution ticks that correspond to a virtual runtime.
pub fn cfs_sched_ticks_from_vruntime(vruntime: u64, priority: u32, priority_sum: u32) -> (ticks:
    u64)
    requires
        priority != 0,
    ensures
        ticks == sched_ticks(vruntime, priority, priority_sum),
{
    if priority_sum == 0 {
        return 0;
    }
    scale(vruntime, priority_sum, priority)
}

/// A more favored thread is never charged more virtual runtime for the same
/// elapsed time.
pub proof fn lemma_favored_charged_less(
    elapsed_ticks: u64,
    favored: u32,
    other: u32,
    priority_sum: u32,
)
    requires
        favored <= other,
    ensures
        vruntime_delta(elapsed_ticks, favored, priority_sum) <= vruntime_delta(
            elapsed_ticks,
            other,
            priority_sum,
        ),
{
    if priority_sum != 0 {
        assert(elapsed_ticks * favored <= elapsed_ticks * other) by (nonlinear_arith)
            requires
                favored <= other,
                0 <= elapsed_ticks,
        ;
        vstd::arithmetic::div_mod::lemma_div_is_ordered(
            elapsed_ticks * favored,
            elapsed_ticks * other,
            priority_sum as int,
        );
    }
}

/// Running longer is never charged less.
pub proof fn lemma_charge_grows_with_time(
    shorter: u64,
    longer: u64,
    priority: u32,
    priority_sum: u32,
)
    requires
        shorter <= longer,
    ensures
        vruntime_delta(shorter, priority, priority_sum) <= vruntime_delta(
            longer,
            priority,
            priority_sum,
        ),
{
    if priority_sum != 0 {
        assert(shorter * priority <= longer * priority) by (nonlinear_arith)
            requires
                shorter <= longer,
                0 <= priority,
        ;
        vstd::arithmetic::div_mod::lemma_div_is_ordered(
            shorter * priority,
            longer * priority,
            priority_sum as int,
        );
    }
}

/// A thread of `times` times the priority is charged `times` times as much for the
/// same elapsed time, but for what is lost in rounding down.
pub proof fn lemma_charge_is_proportional(
    elapsed_ticks: u64,
    priority: u32,
    times: u32,
    priority_sum: u32,
)
    requires
        times >= 1,
        priority_sum != 0,
        priority * times <= u32::MAX,
        elapsed_ticks * (priority * times) <= u64::MAX,
    ensures
        times * vruntime_delta(elapsed_ticks, priority, priority_sum) <= vruntime_delta(
            elapsed_ticks,
            (priority * times) as u32,
            priority_sum,
        ) < times * vruntime_delta(elapsed_ticks, priority, priority_sum) + times,
{
    let s = priority_sum as int;
    let n = times as int;
    let x = elapsed_ticks * priority;
    let y = elapsed_ticks * (priority * times);
    let q = x / s;
    let r = x % s;
    assert(0 <= x <= y && y == n * x) by (nonlinear_arith)
        requires
            x == elapsed_ticks * priority,
            y == elapsed_ticks * (priority * times),
            n == times,
            times >= 1,
    ;
    vstd::arithmetic::div_mod::lemma_fundamental_div_mod(x, s);
    assert(0 <= r < s);
    assert(y == s * (n * q) + n * r) by (nonlinear_arith)
        requires
            y == n * x,
            x == s * q + r,
    ;
    vstd::arithmetic::div_mod::lemma_fundamental_div_mod(y, s);
    let z = y / s;
    let w = y % s;
    assert(0 <= w < s);
    assert(n * q <= z < n * q + n) by (nonlinear_arith)
        requires
            s * z + w == s * (n * q) + n * r,
            0 <= w < s,
            0 <= r < s,
            n >= 1,
            s > 0,
    ;
    assert(z <= y) by (nonlinear_arith)
        requires
            y == s * z + w,
            w >= 0,
            s >= 1,
            y >= 0,
    ;
    assert(0 <= q) by (nonlinear_arith)
        requires
            x == s * q + r,
            0 <= r < s,
            x >= 0,
            s > 0,
    ;
    assert(q <= x) by (nonlinear_arith)
        requires
            x == s * q + r,
            0 <= r,
            s >= 1,
            q >= 0,
    ;
}

/// A thread that ran long enough for its share is charged something, so that the
/// others get their turn.
pub proof fn lemma_charge_moves_on(elapsed_ticks: u64, priority: u32, priority_sum: u32)
    requires
        priority_sum != 0,
        elapsed_ticks * priority >= priority_sum,
    ensures
        vruntime_delta(elapsed_ticks, priority, priority_sum) >= 1,
{
    vstd::arithmetic::div_mod::lemma_div_is_ordered(
        priority_sum as int,
        elapsed_ticks * priority,
        priority_sum as int,
    );
    vstd::arithmetic::div_mod::lemma_div_by_self(priority_sum as int);
}

/// The virtual runtime charged to a thread is at most the time it ran, because
/// its own priority is part of the sum.
pub proof fn lemma_charge_is_a_share(elapsed_ticks: u64, priority: u32, priority_sum: u32)
    requires
        priority <= priority_sum,
    ensures
        vruntime_delta(elapsed_ticks, priority, priority_sum) <= elapsed_ticks,
{
    if priority_sum != 0 {
        assert(elapsed_ticks * priority <= elapsed_ticks * priority_sum) by (nonlinear_arith)
            requires
                priority <= priority_sum,
                0 <= elapsed_ticks,
        ;
        vstd::arithmetic::div_mod::lemma_div_is_ordered(
            elapsed_ticks * priority,
            elapsed_ticks * priority_sum,
            priority_sum as int,
        );
        vstd::arithmetic::div_mod::lemma_div_multiples_vanish(
            elapsed_ticks as int,
            priority_sum as int,
        );
        vstd::arithmetic::mul::lemma_mul_is_commutative(elapsed_ticks as int, priority_sum as int);
    }
}

impl CoreView {
    /// The runnable fair thread with the smallest virtual runtime.
    pub open spec fn first_run(self) -> Option<usize> {
        crate::rbtree::first_of::<SchedEntity>(self.sched, self.run)
    }

    /// Entity `i` takes over the virtual runtime of the left-most runnable thread,
    /// with the execution ticks that it stands for.
    pub open spec fn aligned(self, i: usize) -> CoreView {
        match self.first_run() {
            None => self,
            Some(first) => {
                let vruntime = self.sched[first as int].vruntime;
                let entity = self.sched[i as int];
                self.with_sched(
                    i,
                    SchedEntity {
                        vruntime,
                        sched_tick_cnt: sched_ticks(vruntime, entity.priority, self.priority_sum),
                        ..entity
                    },
                )
            },
        }
    }

    /// Thread `i` becomes runnable behind those that wait already.
    pub open spec fn runnable(self, i: usize) -> CoreView {
        let core = self.with_state(i, ThreadState::Ready).aligned(i);
        CoreView {
            run: core.run.insert(i),
            priority_sum: (core.priority_sum + core.sched[i as int].priority) as u32,
            ..core
        }
    }

    /// Thread `i` leaves the run queue, if it is ready and queued there.
    pub open spec fn unqueued(self, i: usize) -> CoreView {
        if self.ctx[i as int].state is Ready && self.run.contains(i) {
            CoreView {
                run: self.run.remove(i),
                priority_sum: self.priority_sum.saturating_sub(self.sched[i as int].priority),
                ..self
            }
        } else {
            self
        }
    }

    /// The execution ticks of all runnable threads, under a new sum of priorities.
    pub open spec fn recounted(self, priority_sum: u32) -> CoreView {
        CoreView {
            priority_sum,
            sched: Seq::new(
                self.sched.len(),
                |j: int|
                    if self.run.contains(j as usize) {
                        SchedEntity {
                            sched_tick_cnt: sched_ticks(
                                self.sched[j].vruntime,
                                self.sched[j].priority,
                                priority_sum,
                            ),
                            ..self.sched[j]
                        }
                    } else {
                        self.sched[j]
                    },
            ),
            ..self
        }
    }

    /// A woken fair thread rejoins the run queue: its priority counts again for
    /// everybody, and it starts level with the left-most runnable thread.
    pub open spec fn rejoined(self, i: usize) -> CoreView {
        let core = self.with_state(i, ThreadState::Ready).recounted(
            self.priority_sum.saturating_add(self.sched[i as int].priority),
        ).aligned(i);
        CoreView { run: core.run.insert(i), ..core }
    }
}

/// Reset the run queue to an empty state.
pub fn init_cfs_rq(core: &mut Core)
    requires
        old(core).wf(),
    ensures
        final(core).wf(),
        final(core)@ == (CoreView {
            run: Set::<usize>::empty(),
            priority_sum: 0,
            ..old(core)@
        }),
        final(core).timers@ == old(core).timers@,
        final(core).sync@ == old(core).sync@,
{
    core.run_queue = RunQueue::new();
}

/// Align a detached entity's vruntime and sched_tick_cnt with the left-most queued entity.
///
/// If the run queue is empty, the entity keeps its current vruntime.
pub fn update_from_leftmost(core: &mut Core, entity: usize)
    requires
        old(core).wf(),
        entity < old(core).ctx.len(),
        old(core)@.ctx[entity as int].is_cfs,
        !old(core)@.run.contains(entity),
    ensures
        final(core).wf(),
        final(core)@ == old(core)@.aligned(entity),
        final(core).timers@ == old(core).timers@,
        final(core).sync@ == old(core).sync@,
{
    let priority_sum: u32 = core.run_queue.priority_sum;
    let priority: u32 = core.sched[entity].priority;
    assert(old(core)@.ctx[entity as int].is_cfs);
    match core.run_queue.tree.first(&core.sched) {
        None => {},
        Some(leftmost) => {
            let vruntime: u64 = core.sched[leftmost].vruntime;
            assert(old(core)@.sched[leftmost as int].vruntime == vruntime);
            core.sched[entity].vruntime = vruntime;
            core.sched[entity].sched_tick_cnt = cfs_sched_ticks_from_vruntime(
                vruntime,
                priority,
                priority_sum,
            );
            proof {
                core.run_queue.tree.lemma_frame(old(core).sched@, core.sched@);
                assert(core@ =~= old(core)@.aligned(entity));
            }
        },
    }
}

/// Enqueue a thread into the scheduler run queue.
///
/// The thread's scheduler entity vruntime field is used as the red-black tree key.
pub fn enqueue_thread(core: &mut Core, thread: usize)
    requires
        old(core).wf(),
        thread < old(core).ctx.len(),
        old(core)@.ctx[thread as int].is_cfs,
        !old(core)@.run.contains(thread),
        old(core)@.priority_sum + old(core)@.sched[thread as int].priority <= u32::MAX,
    ensures
        final(core).wf(),
        final(core)@ == old(core)@.runnable(thread),
        final(core).timers@ == old(core).timers@,
        final(core).sync@ == old(core).sync@,
{
    core.ctx[thread].state = ThreadState::Ready;
    core.sched[thread].reset_links();
    proof {
        core.run_queue.tree.lemma_frame(old(core).sched@, core.sched@);
        assert(core@ =~= old(core)@.with_state(thread, ThreadState::Ready));
    }
    update_from_leftmost(core, thread);
    let ghost mid = core@;
    core.run_queue.tree.insert(&mut core.sched, thread);
    let priority: u32 = core.sched[thread].priority;
    assert(mid.sched[thread as int].priority == priority);
    core.run_queue.priority_sum = core.run_queue.priority_sum + priority;
    assert(core@ =~= old(core)@.runnable(thread));
}

/// Remove a thread from the scheduler run queue if it is currently queued.
pub fn dequeue_thread(core: &mut Core, thread: usize)
    requires
        old(core).wf(),
        thread < old(core).ctx.len(),
        old(core)@.ctx[thread as int].is_cfs,
    ensures
        final(core).wf(),
        final(core)@ == old(core)@.unqueued(thread),
        old(core)@.ctx[thread as int].state is Ready && old(core)@.run.contains(thread)
            ==> crate::rbtree::links(final(core).sched@)[thread as int] == RbNode::detached(),
        final(core).timers@ == old(core).timers@,
        final(core).sync@ == old(core).sync@,
{
    if core.ctx[thread].state == ThreadState::Ready && core.run_queue.tree.contains(
        &core.sched,
        thread,
    ) {
        core.run_queue.tree.remove(&mut core.sched, thread);
        let priority: u32 = core.sched[thread].priority;
        assert(old(core)@.sched[thread as int].priority == core@.sched[thread as int].priority);
        core.run_queue.priority_sum = core.run_queue.priority_sum.saturating_sub(priority);
        assert(core@ =~= old(core)@.unqueued(thread));
    }
}

/// Recomputes the execution ticks of all runnable threads.
///
/// The run queue is rebuilt entity by entity, from the left-most one on.
fn recount_run_queue(core: &mut Core)
    requires
        old(core).wf(),
    ensures
        final(core).wf(),
        final(core)@ == old(core)@.recounted(old(core)@.priority_sum),
        final(core).timers@ == old(core).timers@,
        final(core).sync@ == old(core).sync@,
{
    let ghost begin = core@;
    let mut updated: RBTree<SchedEntity> = RBTree::new();
    let mut next: Option<usize> = core.run_queue.tree.first(&core.sched);
    proof {
        assert(updated.wf(core.sched@));
        assert(core@.sched =~= begin.sched);
    }
    while next.is_some()
        invariant
            core.run_queue.tree.wf(core.sched@),
            updated.wf(core.sched@),
            core.wait_queue.tree.wf(core.wait@),
            begin.ok(),
            begin == old(core)@,
            next == crate::rbtree::first_of::<SchedEntity>(
                core@.sched,
                core.run_queue.tree.ids(),
            ),
            next is Some ==> core.run_queue.tree.ids().contains(next->0),
            next is None ==> core.run_queue.tree.ids() == Set::<usize>::empty(),
            core.run_queue.tree.ids().disjoint(updated.ids()),
            core.run_queue.tree.ids().union(updated.ids()) == begin.run,
            core@ == (CoreView { sched: core@.sched, run: core@.run, ..begin }),
            core@.sched.len() == begin.sched.len(),
            forall|j: usize|
                j < begin.sched.len() ==> #[trigger] core@.sched[j as int]
                    == if updated.ids().contains(j) {
                    begin.recounted(begin.priority_sum).sched[j as int]
                } else {
                    begin.sched[j as int]
                },
            core.timers@ == old(core).timers@,
            core.sync@ == old(core).sync@,
        decreases core.run_queue.tree.len,
    {
        let entity: usize = next.unwrap();
        assert(begin.run.contains(entity));
        let ghost s0 = core.sched@;
        proof {
            core.run_queue.tree.lemma_members(core.sched@);
        }
        core.run_queue.tree.remove(&mut core.sched, entity);
        proof {
            core.run_queue.tree.lemma_members(core.sched@);
            assert(updated.wf(core.sched@)) by {
                assert forall|i: usize|
                    i < s0.len() && #[trigger] updated.ids().contains(i) implies {
                    &&& core.sched@[i as int].links() == s0[i as int].links()
                    &&& SchedEntity::rank(core.sched@[i as int].payload()) == SchedEntity::rank(
                        s0[i as int].payload(),
                    )
                } by {
                    assert(crate::rbtree::links(core.sched@)[i as int] == crate::rbtree::links(
                        s0,
                    )[i as int]);
                    assert(crate::rbtree::payloads(core.sched@)[i as int]
                        == crate::rbtree::payloads(s0)[i as int]);
                }
                updated.lemma_frame(s0, core.sched@);
            }
            assert(crate::rbtree::payloads(core.sched@)[entity as int] == crate::rbtree::payloads(
                s0,
            )[entity as int]);
            assert(begin.ctx[entity as int].is_cfs);
        }
        let priority_sum: u32 = core.run_queue.priority_sum;
        let priority: u32 = core.sched[entity].priority;
        let vruntime: u64 = core.sched[entity].vruntime;
        let ghost s1 = core.sched@;
        core.sched[entity].sched_tick_cnt = cfs_sched_ticks_from_vruntime(
            vruntime,
            priority,
            priority_sum,
        );
        proof {
            core.run_queue.tree.lemma_frame(s1, core.sched@);
            updated.lemma_frame(s1, core.sched@);
        }
        let ghost s2 = core.sched@;
        updated.insert(&mut core.sched, entity);
        proof {
            assert(core.run_queue.tree.wf(core.sched@)) by {
                assert forall|i: usize|
                    i < s2.len() && #[trigger] core.run_queue.tree.ids().contains(i) implies {
                    &&& core.sched@[i as int].links() == s2[i as int].links()
                    &&& SchedEntity::rank(core.sched@[i as int].payload()) == SchedEntity::rank(
                        s2[i as int].payload(),
                    )
                } by {
                    assert(crate::rbtree::links(core.sched@)[i as int] == crate::rbtree::links(
                        s2,
                    )[i as int]);
                    assert(crate::rbtree::payloads(core.sched@)[i as int]
                        == crate::rbtree::payloads(s2)[i as int]);
                }
                core.run_queue.tree.lemma_frame(s2, core.sched@);
            }
            assert(core.run_queue.tree.ids().union(updated.ids()) =~= begin.run);
            assert(core@ =~= (CoreView { sched: core@.sched, run: core@.run, ..begin }));
            assert forall|j: usize| j < begin.sched.len() implies #[trigger] core@.sched[j as int]
                == if updated.ids().contains(j) {
                begin.recounted(begin.priority_sum).sched[j as int]
            } else {
                begin.sched[j as int]
            } by {
                assert(crate::rbtree::payloads(core.sched@)[j as int] == crate::rbtree::payloads(
                    s2,
                )[j as int]);
                assert(crate::rbtree::payloads(s1)[j as int] == crate::rbtree::payloads(
                    s0,
                )[j as int]);
                if j != entity {
                    assert(s2[j as int] == s1[j as int]);
                }
            }
        }
        next = core.run_queue.tree.first(&core.sched);
    }
    core.run_queue.tree = updated;
    proof {
        assert(updated.ids() =~= begin.run);
        assert forall|j: int| 0 <= j < begin.sched.len() implies core@.sched[j]
            == begin.recounted(begin.priority_sum).sched[j] by {
            assert(core@.sched[(j as usize) as int] == core@.sched[j]);
        }
        assert(core@.sched =~= begin.recounted(begin.priority_sum).sched);
        assert(core@ =~= begin.recounted(begin.priority_sum));
        assert(core@.ok()) by {
            assert forall|i: usize|
                i < core@.ctx.len() && (#[trigger] core@.ctx[i as int]).is_cfs implies
                core@.sched[i as int].priority != 0 by {
                assert(begin.ctx[i as int].is_cfs);
            }
        }
    }
}

/// Puts a woken fair thread back into the run queue.
///
/// The wait timer is left alone: a caller that dispatches it re-arms it itself.
pub fn enqueue_runq_from_waitq(core: &mut Core, thread: usize)
    requires
        old(core).wf(),
        thread < old(core).ctx.len(),
        old(core)@.ctx[thread as int].is_cfs,
        !old(core)@.run.contains(thread),
    ensures
        final(core).wf(),
        final(core)@ == old(core)@.rejoined(thread),
        final(core).timers@ == old(core).timers@,
        final(core).sync@ == old(core).sync@,
{
    let priority: u32 = core.sched[thread].priority;
    assert(old(core)@.sched[thread as int].priority == priority);
    core.sched[thread].reset_links();
    proof {
        core.run_queue.tree.lemma_frame(old(core).sched@, core.sched@);
    }
    core.run_queue.priority_sum = core.run_queue.priority_sum.saturating_add(priority);
    core.ctx[thread].state = ThreadState::Ready;
    let ghost mid = core@;
    assert(mid =~= (CoreView {
        priority_sum: mid.priority_sum,
        ..old(core)@.with_state(thread, ThreadState::Ready)
    }));
    recount_run_queue(core);
    assert(core@ =~= old(core)@.with_state(thread, ThreadState::Ready).recounted(
        mid.priority_sum,
    ));
    update_from_leftmost(core, thread);
    core.run_queue.tree.insert(&mut core.sched, thread);
    assert(core@ =~= old(core)@.rejoined(thread));
}

impl CoreView {
    /// The runnable fair threads by ascending virtual runtime.
    pub open spec fn run_order(self) -> Seq<usize> {
        crate::rbtree::in_order::<SchedEntity>(self.sched, self.run)
    }

    /// The fair threads that take part in scheduling: the running one, if the
    /// current thread is fair, then the runnable ones.
    pub open spec fn visible_cfs(self) -> Seq<usize> {
        match self.current {
            Some(c) => if self.current_is_cfs {
                seq![c] + self.run_order()
            } else {
                self.run_order()
            },
            None => self.run_order(),
        }
    }
}

/// Traverse the CFS scheduler-visible threads, including the running CFS thread.
///
/// Pass `None` to get the current thread when it is a CFS thread; otherwise this
/// returns the first queued CFS thread. Pass the previously returned thread to
/// get the next entry. After the running CFS thread, traversal continues through
/// the run queue in ascending vruntime order. Returns `None` after the last
/// queued CFS thread.
pub fn traverse_run_queue(core: &Core, cursor: Option<usize>) -> (thread: Option<usize>)
    requires
        core.wf(),
        cursor is Some && cursor != core@.current ==> core@.run.contains(cursor->0),
    ensures
        match cursor {
            None => thread == if core@.current_is_cfs && core@.current is Some {
                core@.current
            } else {
                core@.first_run()
            },
            Some(c) => if core@.current == Some(c) {
                thread == core@.first_run()
            } else {
                exists|k: int|
                    0 <= k < core@.run_order().len() && #[trigger] core@.run_order()[k] == c
                        && thread == if k + 1 < core@.run_order().len() {
                        Some(core@.run_order()[k + 1])
                    } else {
                        None
                    }
            },
        },
{
    match cursor {
        None => {
            if core.current_is_cfs && core.current.is_some() {
                core.current
            } else {
                core.run_queue.tree.first(&core.sched)
            }
        },
        Some(thread) => {
            if core.current == Some(thread) {
                core.run_queue.tree.first(&core.sched)
            } else {
                proof {
                    core.run_queue.tree.lemma_in_order(core.sched@);
                    core.run_queue.tree.lemma_members(core.sched@);
                    let k = core.run_queue.tree.position(thread);
                    assert(core@.run_order()[k] == thread);
                }
                core.run_queue.tree.next(&core.sched, thread)
            }
        },
    }
}

/// Slots of the scheduler-visible fair threads.
pub fn visible_cfs_threads(core: &Core) -> (slots: Vec<usize>)
    requires
        core.wf(),
    ensures
        slots@ == core@.visible_cfs(),
        forall|k: int| 0 <= k < slots@.len() ==> (#[trigger] slots@[k]) < core.ctx.len(),
{
    let mut slots: Vec<usize> = Vec::new();
    if core.current_is_cfs {
        if let Some(current) = core.current {
            slots.push(current);
        }
    }
    let mut queued = core.run_queue.tree.entities(&core.sched);
    slots.append(&mut queued);
    assert(slots@ =~= core@.visible_cfs());
    slots
}

/// Contexts of the scheduler-visible fair threads, the running one first.
pub fn traverse_run_queue_fn(core: &Core) -> (threads: Vec<ThreadCtx>)
    requires
        core.wf(),
    ensures
        threads@ == crate::waitq::contexts(core@.ctx, core@.visible_cfs()),
{
    let slots = visible_cfs_threads(core);
    contexts_of(core, &slots)
}

impl KernelView {
    /// A fair thread leaves the run queue, if it is there, and starts to wait. Its
    /// priority no longer counts.
    pub open spec fn cfs_parked(self, i: usize) -> (KernelView, Result<(), WaitQueueError>) {
        let core = self.core;
        let left = CoreView {
            run: if core.ctx[i as int].state is Ready { core.run.remove(i) } else { core.run },
            priority_sum: core.priority_sum.saturating_sub(core.sched[i as int].priority),
            ..core
        };
        self.with_core(
            left.with_state(i, ThreadState::Waiting).waiting_with(i),
        ).wait_programmed().completed()
    }
}

/// Moves a fair thread to the wait queue.
pub fn dequeue_runq_to_waitq(kernel: &mut Kernel, thread: usize) -> (result: Result<
    (),
    WaitQueueError,
>)
    requires
        old(kernel).wf(),
        old(kernel)@.steady(),
        thread < old(kernel).core.ctx.len(),
        old(kernel)@.core.ctx[thread as int].is_cfs,
        (old(kernel)@.core.ctx[thread as int].state is Ready) == old(kernel)@.core.run.contains(
            thread,
        ),
        !old(kernel)@.core.waiting.contains(thread),
    ensures
        final(kernel).wf(),
        (final(kernel)@, result) == old(kernel)@.cfs_parked(thread),
        final(kernel)@.core.fault is None ==> final(kernel)@.steady(),
        final(kernel).core.sync@ == old(kernel).core.sync@,
{
    let ghost k = kernel@;
    if kernel.core.ctx[thread].state == ThreadState::Ready {
        kernel.core.run_queue.tree.remove(&mut kernel.core.sched, thread);
    }
    kernel.core.ctx[thread].state = ThreadState::Waiting;
    let ghost mid = kernel@;
    proof {
        assert(mid.core.run =~= k.core.run.remove(thread));
        assert(mid.core =~= (CoreView {
            run: k.core.run.remove(thread),
            ..k.core
        }).with_state(thread, ThreadState::Waiting));
        assert forall|j: usize| j < mid.core.ctx.len() && (
        #[trigger] mid.core.ctx[j as int]).is_cfs implies mid.core.sched[j as int].priority != 0 by {
            assert(k.core.ctx[j as int].is_cfs);
        }
        assert forall|t: usize|
            t < mid.core.timers.len() && (#[trigger] mid.core.timer_owner[t as int])
                is Some implies {
            let j = mid.core.timer_owner[t as int]->0;
            t >= 2 && j < mid.core.ctx.len() && !mid.core.ctx[j as int].is_cfs
        } by {
            assert(k.core.timer_owner[t as int] is Some);
        }
        assert(mid.core.ok());
    }
    insert_wait_thread(&mut kernel.core, thread);
    let priority: u32 = kernel.core.sched[thread].priority;
    assert(priority == k.core.sched[thread as int].priority) by {
        assert(kernel@.core.sched[thread as int] == k.core.sched[thread as int]);
    }
    kernel.core.run_queue.priority_sum = kernel.core.run_queue.priority_sum.saturating_sub(
        priority,
    );
    proof {
        let core = k.core;
        let left = CoreView {
            run: if core.ctx[thread as int].state is Ready { core.run.remove(thread) } else {
                core.run
            },
            priority_sum: core.priority_sum.saturating_sub(core.sched[thread as int].priority),
            ..core
        };
        assert(left.run =~= core.run.remove(thread));
        assert(kernel@ =~= k.with_core(
            left.with_state(thread, ThreadState::Waiting).waiting_with(thread),
        ));
    }
    program_wait_ktimer(kernel);
    if kernel.core.fault.is_some() {
        return Err(WaitQueueError::DeadlineMiss);
    }
    Ok(())
}

/// Moves a fair thread, named by its handle, to the wait queue.
pub fn dequeue_cfs_thread_to_waitq(kernel: &mut Kernel, thread: ThreadHandle) -> (result: Result<
    (),
    WaitQueueError,
>)
    requires
        old(kernel).wf(),
        old(kernel)@.steady(),
        thread.valid(old(kernel)@.core),
        old(kernel)@.core.ctx[thread.slot as int].is_cfs,
        (old(kernel)@.core.ctx[thread.slot as int].state is Ready)
            == old(kernel)@.core.run.contains(thread.slot),
        !old(kernel)@.core.waiting.contains(thread.slot),
    ensures
        final(kernel).wf(),
        (final(kernel)@, result) == old(kernel)@.cfs_parked(thread.slot),
        final(kernel)@.core.fault is None ==> final(kernel)@.steady(),
        final(kernel).core.sync@ == old(kernel).core.sync@,
{
    dequeue_runq_to_waitq(kernel, thread.slot)
}

} // verus!
