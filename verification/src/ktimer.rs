//! Kernel timers and the timer queue keyed by their deadline.

use crate::platform::{SCHEDULER_TIMER_RELOAD_MAX, SCHEDULER_TIMER_RELOAD_MIN};
use crate::rbtree::{RBTree, RBTreeNode, RbNode};
use vstd::prelude::*;

verus! {

/// Deadline of a timer that never expires.
pub const KTIMER_DEADLINE_NEVER: u64 = 0xffff_ffff_ffff_ffff;

/// Slot of the timer that opens and closes the fair scheduling window.
pub const CFS_KTIMER: usize = 0;

/// Slot of the timer that wakes sleeping threads.
pub const WAIT_KTIMER: usize = 1;

#[derive(Clone, Copy, Debug, PartialEq, Eq, Structural)]
pub struct RtTiming {
    /// Time between releases of consecutive jobs, when the next job is released.
    pub period_ticks: u32,
    /// Relative deadline for each released job, when this job must complete by.
    pub relative_deadline_ticks: u32,
    /// Maximum runtime budget charged to the current job window.
    /// How much CPU time it is allowed to consume.
    pub budget_ticks: u32,
}

impl RtTiming {
    pub fn new(period_ticks: u32, relative_deadline_ticks: u32, budget_ticks: u32) -> (timing: Self)
        ensures
            timing == (RtTiming { period_ticks, relative_deadline_ticks, budget_ticks }),
    {
        Self { period_ticks, relative_deadline_ticks, budget_ticks }
    }

    pub fn from_period(period_ticks: u32) -> (timing: Self)
        ensures
            timing == (RtTiming {
                period_ticks,
                relative_deadline_ticks: period_ticks,
                budget_ticks: period_ticks,
            }),
    {
        Self::new(period_ticks, period_ticks, period_ticks)
    }

    pub fn period_ticks(&self) -> (ticks: u32)
        ensures
            ticks == self.period_ticks,
    {
        self.period_ticks
    }

    pub fn relative_deadline_ticks(&self) -> (ticks: u32)
        ensures
            ticks == self.relative_deadline_ticks,
    {
        self.relative_deadline_ticks
    }

    pub fn budget_ticks(&self) -> (ticks: u32)
        ensures
            ticks == self.budget_ticks,
    {
        self.budget_ticks
    }
}

/// Timer entry: its next absolute expiration, its timing and its queue links.
#[derive(Clone, Copy, Debug, PartialEq, Eq, Structural)]
pub struct KTimerEntity {
    pub deadline_at: u64,
    pub node: RbNode,
    pub active: bool,
    pub miss_cnt: u32,
    pub timing: RtTiming,
}

impl KTimerEntity {
    /// The timer `ticks` after `now`; a sum that does not fit never expires.
    pub open spec fn after(self, now: u64, ticks: u32) -> KTimerEntity {
        KTimerEntity { deadline_at: now.saturating_add(ticks as u64), ..self }
    }

    pub open spec fn with_active(self, active: bool) -> KTimerEntity {
        KTimerEntity { active, ..self }
    }

    /// One more miss, counted up to the limit of the counter.
    pub open spec fn missed(self) -> KTimerEntity {
        KTimerEntity { miss_cnt: self.miss_cnt.saturating_add(1), ..self }
    }

    pub open spec fn expired(self, now: u64) -> bool {
        self.deadline_at <= now
    }

    /// Ticks up to the deadline, as far as one timer interval can tell.
    pub open spec fn remaining(self, now: u64) -> u32 {
        if self.deadline_at == KTIMER_DEADLINE_NEVER || self.deadline_at - now
            > SCHEDULER_TIMER_RELOAD_MAX {
            SCHEDULER_TIMER_RELOAD_MAX
        } else if self.deadline_at < now {
            0
        } else {
            (self.deadline_at - now) as u32
        }
    }

    /// A timer with the given deadline and timing, active and in no queue.
    pub open spec fn armed(deadline_ticks: u32, timing: RtTiming) -> KTimerEntity {
        KTimerEntity {
            deadline_at: deadline_ticks as u64,
            node: RbNode::detached(),
            active: true,
            miss_cnt: 0,
            timing,
        }
    }

    pub fn new(deadline_ticks: u32) -> (timer: Self)
        ensures
            timer == Self::armed(
                deadline_ticks,
                (RtTiming {
                    period_ticks: deadline_ticks,
                    relative_deadline_ticks: deadline_ticks,
                    budget_ticks: deadline_ticks,
                }),
            ),
    {
        Self::new_with_timing(deadline_ticks, RtTiming::from_period(deadline_ticks))
    }

    pub fn new_with_timing(deadline_ticks: u32, timing: RtTiming) -> (timer: Self)
        ensures
            timer == Self::armed(deadline_ticks, timing),
    {
        Self {
            deadline_at: deadline_ticks as u64,
            node: RbNode::new(),
            active: true,
            miss_cnt: 0,
            timing,
        }
    }

    pub fn deadline(&self) -> (deadline: u32)
        ensures
            deadline == if self.deadline_at > u32::MAX { u32::MAX as int } else {
                self.deadline_at as int
            },
    {
        if self.deadline_at > u32::MAX as u64 {
            u32::MAX
        } else {
            self.deadline_at as u32
        }
    }

    pub fn set_deadline(&mut self, deadline: u32)
        ensures
            *final(self) == (KTimerEntity { deadline_at: deadline as u64, ..*old(self) }),
    {
        self.deadline_at = deadline as u64;
    }

    pub fn deadline_at(&self) -> (deadline_at: u64)
        ensures
            deadline_at == self.deadline_at,
    {
        self.deadline_at
    }

    pub fn set_deadline_at(&mut self, deadline_at: u64)
        ensures
            *final(self) == (KTimerEntity { deadline_at, ..*old(self) }),
    {
        self.deadline_at = deadline_at;
    }

    pub fn set_deadline_after(&mut self, now_ticks: u64, ticks: u32)
        ensures
            *final(self) == old(self).after(now_ticks, ticks),
    {
        self.deadline_at = now_ticks.saturating_add(ticks as u64);
    }

    pub fn set_deadline_never(&mut self)
        ensures
            *final(self) == (KTimerEntity { deadline_at: KTIMER_DEADLINE_NEVER, ..*old(self) }),
    {
        self.deadline_at = KTIMER_DEADLINE_NEVER;
    }

    pub fn remaining_at(&self, now_ticks: u64) -> (ticks: u32)
        ensures
            ticks == self.remaining(now_ticks),
    {
        if self.deadline_at == KTIMER_DEADLINE_NEVER {
            return SCHEDULER_TIMER_RELOAD_MAX;
        }
        let ticks: u64 = self.deadline_at.saturating_sub(now_ticks);
        if ticks > SCHEDULER_TIMER_RELOAD_MAX as u64 {
            SCHEDULER_TIMER_RELOAD_MAX
        } else {
            ticks as u32
        }
    }

    pub fn is_expired_at(&self, now_ticks: u64) -> (expired: bool)
        ensures
            expired == self.expired(now_ticks),
    {
        self.deadline_at <= now_ticks
    }

    pub fn reset_links(&mut self)
        ensures
            *final(self) == (KTimerEntity { node: RbNode::detached(), ..*old(self) }),
    {
        self.node.reset_links();
    }

    pub fn is_linked(&self) -> (linked: bool)
        ensures
            linked == (self.node.parent is Some || self.node.left is Some
                || self.node.right is Some),
    {
        self.node.is_linked()
    }

    pub fn is_active(&self) -> (active: bool)
        ensures
            active == self.active,
    {
        self.active
    }

    pub fn set_active(&mut self, active: bool)
        ensures
            *final(self) == old(self).with_active(active),
    {
        self.active = active;
    }

    pub fn timing(&self) -> (timing: RtTiming)
        ensures
            timing == self.timing,
    {
        self.timing
    }

    pub fn period_ticks(&self) -> (ticks: u32)
        ensures
            ticks == self.timing.period_ticks,
    {
        self.timing.period_ticks()
    }

    pub fn relative_deadline_ticks(&self) -> (ticks: u32)
        ensures
            ticks == self.timing.relative_deadline_ticks,
    {
        self.timing.relative_deadline_ticks()
    }

    pub fn budget_ticks(&self) -> (ticks: u32)
        ensures
            ticks == self.timing.budget_ticks,
    {
        self.timing.budget_ticks()
    }
}

impl RBTreeNode for KTimerEntity {
    type Payload = KTimerEntity;

    open spec fn links(&self) -> RbNode {
        self.node
    }

    open spec fn payload(&self) -> KTimerEntity {
        KTimerEntity { node: RbNode::detached(), ..*self }
    }

    open spec fn rank(payload: KTimerEntity) -> (int, int) {
        (payload.deadline_at as int, 0)
    }

    fn node(&self) -> (node: RbNode) {
        self.node
    }

    fn set_node(&mut self, node: RbNode) {
        self.node = node;
    }

    fn key(&self) -> (key: (u64, u32)) {
        (self.deadline_at, 0)
    }
}

/// Timer of the fair scheduling class.
#[derive(Clone, Copy, Debug, PartialEq, Eq)]
pub struct CfsKTimer {
    pub entity: KTimerEntity,
    pub name: &'static str,
}

impl CfsKTimer {
    pub fn new(period_ticks: u32, execution_ticks: u32, name: &'static str) -> (timer: Self)
        ensures
            timer.name == name,
            timer.entity == KTimerEntity::armed(
                period_ticks,
                (RtTiming {
                    period_ticks,
                    relative_deadline_ticks: execution_ticks,
                    budget_ticks: execution_ticks,
                }),
            ),
    {
        Self {
            entity: KTimerEntity::new_with_timing(
                period_ticks,
                RtTiming::new(period_ticks, execution_ticks, execution_ticks),
            ),
            name,
        }
    }

    pub fn entity_mut(&mut self) -> (entity: &mut KTimerEntity)
        ensures
            *entity == old(self).entity,
            *final(self) == (CfsKTimer { entity: *final(entity), ..*old(self) }),
    {
        &mut self.entity
    }

    pub fn execution_ticks(&self) -> (ticks: u32)
        ensures
            ticks == self.entity.timing.relative_deadline_ticks,
    {
        self.entity.relative_deadline_ticks()
    }

    pub fn period_ticks(&self) -> (ticks: u32)
        ensures
            ticks == self.entity.timing.period_ticks,
    {
        self.entity.period_ticks()
    }

    pub fn timing(&self) -> (timing: RtTiming)
        ensures
            timing == self.entity.timing,
    {
        self.entity.timing()
    }
}

/// Timer that expires when the first sleeping thread must wake.
#[derive(Clone, Copy, Debug, PartialEq, Eq)]
pub struct WaitKTimer {
    pub entity: KTimerEntity,
    pub name: &'static str,
}

impl WaitKTimer {
    /// Wait timer with nobody to wake.
    pub open spec fn parked() -> KTimerEntity {
        KTimerEntity {
            deadline_at: KTIMER_DEADLINE_NEVER,
            node: RbNode::detached(),
            active: false,
            miss_cnt: 0,
            timing: RtTiming { period_ticks: 0, relative_deadline_ticks: 0, budget_ticks: 0 },
        }
    }

    pub fn inactive() -> (timer: Self)
        ensures
            timer.name == "wait",
            timer.entity == Self::parked(),
    {
        Self {
            entity: KTimerEntity {
                deadline_at: KTIMER_DEADLINE_NEVER,
                node: RbNode::new(),
                active: false,
                miss_cnt: 0,
                timing: RtTiming::new(0, 0, 0),
            },
            name: "wait",
        }
    }

    pub fn entity_mut(&mut self) -> (entity: &mut KTimerEntity)
        ensures
            *entity == old(self).entity,
            *final(self) == (WaitKTimer { entity: *final(entity), ..*old(self) }),
    {
        &mut self.entity
    }
}

/// Timer of one real-time thread. `thread` is the slot of its owner.
#[derive(Clone, Copy, Debug, PartialEq, Eq)]
pub struct RtKTimer {
    pub entity: KTimerEntity,
    pub name: &'static str,
    pub thread: Option<usize>,
}

impl RtKTimer {
    /// Timer whose period, relative deadline and budget are the same.
    pub fn new(period_ticks: u32, thread: Option<usize>, name: &'static str) -> (timer: Self)
        ensures
            timer.name == name,
            timer.thread == thread,
            timer.entity == KTimerEntity::armed(
                period_ticks,
                (RtTiming {
                    period_ticks,
                    relative_deadline_ticks: period_ticks,
                    budget_ticks: period_ticks,
                }),
            ),
    {
        Self::new_with_timing(RtTiming::from_period(period_ticks), thread, name)
    }

    pub fn new_with_timing(timing: RtTiming, thread: Option<usize>, name: &'static str) -> (timer:
        Self)
        ensures
            timer.name == name,
            timer.thread == thread,
            timer.entity == KTimerEntity::armed(timing.relative_deadline_ticks, timing),
    {
        Self {
            entity: KTimerEntity::new_with_timing(timing.relative_deadline_ticks(), timing),
            name,
            thread,
        }
    }

    pub fn entity_mut(&mut self) -> (entity: &mut KTimerEntity)
        ensures
            *entity == old(self).entity,
            *final(self) == (RtKTimer { entity: *final(entity), ..*old(self) }),
    {
        &mut self.entity
    }

    /// Slot of the thread that owns the timer.
    pub fn thread_ctx(&self) -> (thread: Option<usize>)
        ensures
            thread == self.thread,
    {
        self.thread
    }

    pub fn timing(&self) -> (timing: RtTiming)
        ensures
            timing == self.entity.timing,
    {
        self.entity.timing()
    }

    pub fn period_ticks(&self) -> (ticks: u32)
        ensures
            ticks == self.entity.timing.period_ticks,
    {
        self.entity.period_ticks()
    }

    pub fn relative_deadline_ticks(&self) -> (ticks: u32)
        ensures
            ticks == self.entity.timing.relative_deadline_ticks,
    {
        self.entity.relative_deadline_ticks()
    }

    pub fn budget_ticks(&self) -> (ticks: u32)
        ensures
            ticks == self.entity.timing.budget_ticks,
    {
        self.entity.budget_ticks()
    }
}

/// Convert a raw tick interval into a scheduler timer reload register value.
///
/// The timer stores a reload register value. A reload value of `R` wraps after
/// `R + 1` ticks, so an interval of `N` ticks must be represented as `N - 1`.
/// This helper returns the raw conversion and allows reload `0`; scheduler
/// programming raises the reload value `0` to `SCHEDULER_TIMER_RELOAD_MIN`
/// before writing the hardware register.
pub fn reload_from_ticks(ticks: u32) -> (reload: Option<u32>)
    ensures
        match reload {
            Some(r) => r + 1 == ticks && r <= SCHEDULER_TIMER_RELOAD_MAX,
            None => ticks == 0 || ticks > SCHEDULER_TIMER_RELOAD_MAX + 1,
        },
{
    if ticks == 0 {
        None
    } else if ticks - 1 <= SCHEDULER_TIMER_RELOAD_MAX {
        Some(ticks - 1)
    } else {
        None
    }
}

/// Reload value nearest to `reload` that the timer can hold.
pub open spec fn writable(reload: int) -> u32 {
    if reload < SCHEDULER_TIMER_RELOAD_MIN {
        SCHEDULER_TIMER_RELOAD_MIN
    } else if reload > SCHEDULER_TIMER_RELOAD_MAX {
        SCHEDULER_TIMER_RELOAD_MAX
    } else {
        reload as u32
    }
}

pub fn writable_reload(reload: u32) -> (written: u32)
    ensures
        written == writable(reload as int),
        SCHEDULER_TIMER_RELOAD_MIN <= written <= SCHEDULER_TIMER_RELOAD_MAX,
{
    if reload < SCHEDULER_TIMER_RELOAD_MIN {
        SCHEDULER_TIMER_RELOAD_MIN
    } else if reload > SCHEDULER_TIMER_RELOAD_MAX {
        SCHEDULER_TIMER_RELOAD_MAX
    } else {
        reload
    }
}

pub fn programmable_reload_from_ticks(ticks: u32) -> (reload: u32)
    ensures
        reload == writable(ticks - 1),
        SCHEDULER_TIMER_RELOAD_MIN <= reload <= SCHEDULER_TIMER_RELOAD_MAX,
{
    let reload: u32 = match reload_from_ticks(ticks) {
        Some(reload) => reload,
        None => if ticks == 0 {
            0
        } else {
            SCHEDULER_TIMER_RELOAD_MAX
        },
    };
    writable_reload(reload)
}

/// Reload value for the interval up to the expiration of a timer, or the nearest one
/// that the hardware can hold. The fair scheduling timer runs for one execution window
/// at most.
pub open spec fn reload_of(timer: KTimerEntity, is_cfs: bool, now: u64) -> u32 {
    let distance = timer.deadline_at - now;
    let window = timer.timing.relative_deadline_ticks as int;
    if is_cfs && window < distance {
        writable(window - 1)
    } else {
        writable(distance - 1)
    }
}

/// Slots of the active timers among `ids`.
pub open spec fn active_ids(timers: Seq<KTimerEntity>, ids: Set<usize>) -> Set<usize> {
    Set::new(|t: usize| ids.contains(t) && timers[t as int].active)
}

/// Queue of the timers of an arena, ordered by absolute deadline.
pub struct KTimerQueue {
    pub tree: RBTree<KTimerEntity>,
    pub left_most: Option<usize>,
    pub now_ticks: u64,
}

impl KTimerQueue {
    /// The tree is in order and its left-most timer is cached.
    pub open spec fn wf(&self, timers: Seq<KTimerEntity>) -> bool {
        &&& self.tree.wf(timers)
        &&& self.left_most == crate::rbtree::first_of::<KTimerEntity>(
            crate::rbtree::payloads(timers),
            self.ids(),
        )
        &&& self.left_most is Some ==> crate::rbtree::is_first::<KTimerEntity>(
            crate::rbtree::payloads(timers),
            self.ids(),
            self.left_most->0,
        )
        &&& self.left_most is None ==> self.ids() == Set::<usize>::empty()
    }

    /// Slots of the queued timers.
    pub open spec fn ids(&self) -> Set<usize> {
        self.tree.ids()
    }

    /// The queue depends on the links and the deadlines of its own timers only.
    pub proof fn lemma_frame(&self, a: Seq<KTimerEntity>, b: Seq<KTimerEntity>)
        requires
            self.wf(a),
            a.len() <= b.len(),
            forall|t: usize|
                t < a.len() && #[trigger] self.ids().contains(t) ==> b[t as int].node
                    == a[t as int].node && b[t as int].deadline_at == a[t as int].deadline_at,
        ensures
            self.wf(b),
    {
        self.tree.lemma_members(a);
        self.tree.lemma_frame(a, b);
        let pa = crate::rbtree::payloads(a);
        let pb = crate::rbtree::payloads(b);
        match self.left_most {
            None => {
                crate::rbtree::lemma_first_of_empty::<KTimerEntity>(pb, self.ids());
            },
            Some(first) => {
                assert forall|i: usize| #[trigger] self.ids().contains(i) && i != first implies
                    crate::rbtree::before::<KTimerEntity>(pb, first, i) by {
                    assert(crate::rbtree::before::<KTimerEntity>(pa, first, i));
                }
                crate::rbtree::lemma_first_of::<KTimerEntity>(pb, self.ids(), first);
            },
        }
    }

    pub fn new() -> (queue: Self)
        ensures
            queue.ids() == Set::<usize>::empty(),
            queue.now_ticks == 0,
            forall|timers: Seq<KTimerEntity>| #[trigger] queue.wf(timers),
    {
        let queue = Self { tree: RBTree::new(), left_most: None, now_ticks: 0 };
        proof {
            assert forall|timers: Seq<KTimerEntity>| #[trigger] queue.wf(timers) by {
                crate::rbtree::lemma_first_of_empty::<KTimerEntity>(
                    crate::rbtree::payloads(timers),
                    queue.ids(),
                );
                assert(queue.tree.wf(timers));
            }
        }
        queue
    }

    pub fn is_empty(&self, timers: &Vec<KTimerEntity>) -> (empty: bool)
        requires
            self.wf(timers@),
        ensures
            empty == (self.ids() == Set::<usize>::empty()),
    {
        self.tree.is_empty(timers)
    }

    pub fn len(&self) -> (len: usize)
        ensures
            len == self.tree.len,
    {
        self.tree.len()
    }

    pub fn root(&self) -> (root: Option<usize>)
        ensures
            root == self.tree.root,
    {
        self.tree.root()
    }

    /// The timer that expires first.
    pub fn first(&self) -> (first: Option<usize>)
        ensures
            first == self.left_most,
    {
        self.left_most
    }

    pub fn last(&self, timers: &Vec<KTimerEntity>) -> (last: Option<usize>)
        requires
            self.wf(timers@),
        ensures
            match last {
                None => self.ids() == Set::<usize>::empty(),
                Some(t) => t < timers.len() && crate::rbtree::is_last::<KTimerEntity>(
                    crate::rbtree::payloads(timers@),
                    self.ids(),
                    t,
                ),
            },
    {
        self.tree.last(timers)
    }

    pub fn next(&self, timers: &Vec<KTimerEntity>, entity: usize) -> (next: Option<usize>)
        requires
            self.wf(timers@),
            self.ids().contains(entity),
        ensures
            self.tree.order()[self.tree.position(entity)] == entity,
            next == if self.tree.position(entity) + 1 < self.tree.order().len() {
                Some(self.tree.order()[self.tree.position(entity) + 1])
            } else {
                None
            },
            next is Some ==> self.ids().contains(next->0) && self.tree.position(next->0)
                == self.tree.position(entity) + 1,
    {
        self.tree.next(timers, entity)
    }

    pub fn contains(&self, timers: &Vec<KTimerEntity>, entity: usize) -> (found: bool)
        requires
            self.wf(timers@),
        ensures
            found == self.ids().contains(entity),
    {
        self.tree.contains(timers, entity)
    }

    pub fn now_ticks(&self) -> (now: u64)
        ensures
            now == self.now_ticks,
    {
        self.now_ticks
    }

    /// Ticks up to the first expiration.
    pub fn next_deadline(&self, timers: &Vec<KTimerEntity>) -> (ticks: Option<u32>)
        requires
            self.wf(timers@),
        ensures
            ticks == match self.left_most {
                None => None,
                Some(t) => Some(timers@[t as int].remaining(self.now_ticks)),
            },
    {
        proof {
            self.tree.lemma_members(timers@);
        }
        match self.first() {
            None => None,
            Some(t) => Some(timers[t].remaining_at(self.now_ticks)),
        }
    }

    /// Reload value that lets the timer interrupt at the first expiration.
    pub fn next_reload(&self, timers: &Vec<KTimerEntity>) -> (reload: Option<u32>)
        requires
            self.wf(timers@),
        ensures
            reload == match self.left_most {
                None => None,
                Some(t) => Some(reload_of(timers@[t as int], t == CFS_KTIMER, self.now_ticks)),
            },
    {
        next_scheduler_timer_reload(self, timers)
    }

    pub fn advance_time(&mut self, elapsed: u32)
        ensures
            final(self).now_ticks == old(self).now_ticks.saturating_add(elapsed as u64),
            final(self).tree == old(self).tree,
            final(self).left_most == old(self).left_most,
    {
        self.now_ticks = self.now_ticks.saturating_add(elapsed as u64);
    }

    /// Insert a detached timer into the queue.
    pub fn insert(&mut self, timers: &mut Vec<KTimerEntity>, entity: usize)
        requires
            old(self).wf(old(timers)@),
            entity < old(timers).len(),
            !old(self).ids().contains(entity),
        ensures
            final(self).wf(final(timers)@),
            final(self).ids() == old(self).ids().insert(entity),
            final(self).now_ticks == old(self).now_ticks,
            crate::rbtree::payloads(final(timers)@) == crate::rbtree::payloads(old(timers)@),
            final(timers).len() == old(timers).len(),
    {
        let ghost data = crate::rbtree::payloads(timers@);
        let ghost ids = self.ids();
        self.tree.insert(timers, entity);
        let earlier: bool = match self.left_most {
            None => true,
            Some(first) => {
                proof {
                    self.tree.lemma_members(timers@);
                    assert(ids.contains(first));
                    assert(self.tree.ids().contains(first));
                }
                let a: u64 = timers[entity].deadline_at;
                let b: u64 = timers[first].deadline_at;
                assert(data[entity as int] == timers@[entity as int].payload());
                assert(data[first as int] == timers@[first as int].payload());
                a < b || (a == b && entity < first)
            },
        };
        if earlier {
            self.left_most = Some(entity);
        }
        proof {
            crate::rbtree::lemma_first_of::<KTimerEntity>(data, self.ids(), self.left_most->0);
        }
    }

    /// Remove a queued timer from the queue.
    pub fn remove(&mut self, timers: &mut Vec<KTimerEntity>, entity: usize) -> (removed: usize)
        requires
            old(self).wf(old(timers)@),
            old(self).ids().contains(entity),
        ensures
            removed == entity,
            removed < final(timers).len(),
            final(self).wf(final(timers)@),
            final(self).ids() == old(self).ids().remove(entity),
            final(self).now_ticks == old(self).now_ticks,
            crate::rbtree::payloads(final(timers)@) == crate::rbtree::payloads(old(timers)@),
            crate::rbtree::links(final(timers)@)[entity as int] == RbNode::detached(),
            final(timers).len() == old(timers).len(),
    {
        let ghost data = crate::rbtree::payloads(timers@);
        let ghost order = self.tree.order();
        proof {
            self.tree.lemma_members(timers@);
        }
        let removing_left_most: bool = self.left_most == Some(entity);
        let next_left_most: Option<usize> = if removing_left_most {
            self.tree.next(timers, entity)
        } else {
            None
        };
        proof {
            if removing_left_most {
                assert(self.tree.position(entity) == 0) by {
                    if self.tree.position(entity) > 0 {
                        assert(crate::rbtree::before::<KTimerEntity>(data, order[0], entity));
                        assert(self.ids().contains(order[0]));
                    }
                }
            }
        }
        let ghost ids = self.ids();
        let ghost tree = self.tree;
        let removed: usize = self.tree.remove(timers, entity);
        if removing_left_most {
            self.left_most = next_left_most;
        }
        proof {
            assert(data =~= crate::rbtree::payloads(timers@));
            match self.left_most {
                None => {
                    assert(self.ids() =~= Set::<usize>::empty()) by {
                        assert forall|i: usize| !self.ids().contains(i) by {
                            if self.ids().contains(i) {
                                assert(ids.contains(i));
                                assert(0 <= tree.position(i) < order.len());
                            }
                        }
                    }
                    crate::rbtree::lemma_first_of_empty::<KTimerEntity>(data, self.ids());
                },
                Some(first) => {
                    assert forall|i: usize| #[trigger]
                        self.ids().contains(i) && i != first implies crate::rbtree::before::<
                        KTimerEntity,
                    >(data, first, i) by {
                        assert(ids.contains(i));
                        if removing_left_most {
                            assert(tree.position(first) == 1);
                            assert(tree.position(i) > 1) by {
                                assert(order[tree.position(i)] == i);
                                assert(order[0] == entity);
                                assert(order[1] == first);
                            }
                            assert(crate::rbtree::before::<KTimerEntity>(
                                data,
                                order[1],
                                order[tree.position(i)],
                            ));
                        }
                    }
                    crate::rbtree::lemma_first_of::<KTimerEntity>(data, self.ids(), first);
                },
            }
        }
        removed
    }

    /// Remove and return the timer that expires first.
    pub fn pop_first(&mut self, timers: &mut Vec<KTimerEntity>) -> (popped: Option<usize>)
        requires
            old(self).wf(old(timers)@),
        ensures
            final(self).wf(final(timers)@),
            popped == old(self).left_most,
            final(self).ids() == match popped {
                None => old(self).ids(),
                Some(t) => old(self).ids().remove(t),
            },
            popped is Some ==> popped->0 < final(timers).len() && crate::rbtree::links(
                final(timers)@,
            )[popped->0 as int] == RbNode::detached(),
            final(self).now_ticks == old(self).now_ticks,
            crate::rbtree::payloads(final(timers)@) == crate::rbtree::payloads(old(timers)@),
            final(timers).len() == old(timers).len(),
    {
        match self.first() {
            None => None,
            Some(first) => Some(self.remove(timers, first)),
        }
    }

    /// The timer that expires first and the first that is active.
    pub fn first_and_first_active(&self, timers: &Vec<KTimerEntity>) -> (found: (
        Option<usize>,
        Option<usize>,
    ))
        requires
            self.wf(timers@),
        ensures
            found.0 == self.left_most,
            found.1 == crate::rbtree::first_of::<KTimerEntity>(
                crate::rbtree::payloads(timers@),
                active_ids(crate::rbtree::payloads(timers@), self.ids()),
            ),
            found.1 is Some ==> self.ids().contains(found.1->0) && found.1->0 < timers.len()
                && timers@[found.1->0 as int].active,
            found.1 is None ==> forall|t: usize| #[trigger]
                self.ids().contains(t) ==> !timers@[t as int].active,
            found.0 is Some ==> self.ids().contains(found.0->0) && found.0->0 < timers.len(),
    {
        let ghost data = crate::rbtree::payloads(timers@);
        let ghost order = self.tree.order();
        let ghost mut k: int = 0;
        let first = self.first();
        let mut entity: Option<usize> = first;
        proof {
            self.tree.lemma_members(timers@);
            match first {
                None => {
                    if order.len() > 0 {
                        assert(self.ids().contains(order[0]));
                    }
                },
                Some(f) => {
                    if self.tree.position(f) > 0 {
                        assert(crate::rbtree::before::<KTimerEntity>(
                            data,
                            order[0],
                            order[self.tree.position(f)],
                        ));
                        assert(self.ids().contains(order[0]));
                    }
                },
            }
        }
        while entity.is_some()
            invariant
                self.wf(timers@),
                data == crate::rbtree::payloads(timers@),
                order == self.tree.order(),
                first == self.left_most,
                0 <= k <= order.len(),
                entity == if k < order.len() {
                    Some(order[k])
                } else {
                    None
                },
                forall|j: int|
                    0 <= j < order.len() ==> self.ids().contains(#[trigger] order[j])
                        && self.tree.position(order[j]) == j,
                forall|t: usize| #[trigger]
                    self.ids().contains(t) ==> t < timers.len() && 0 <= self.tree.position(t)
                        < order.len() && order[self.tree.position(t)] == t,
                forall|j: int| 0 <= j < k ==> !timers@[(#[trigger] order[j]) as int].active,
            decreases order.len() - k,
        {
            let t: usize = entity.unwrap();
            assert(self.ids().contains(order[k]));
            if timers[t].is_active() {
                proof {
                    let ids = active_ids(data, self.ids());
                    assert(data[t as int].active);
                    assert forall|i: usize| #[trigger] ids.contains(i) && i != t implies
                        crate::rbtree::before::<KTimerEntity>(data, t, i) by {
                        assert(self.ids().contains(i));
                        let j = self.tree.position(i);
                        assert(data[i as int].active);
                        assert(order[j] == i);
                        if j < k {
                            assert(!timers@[order[j] as int].active);
                        }
                        assert(crate::rbtree::before::<KTimerEntity>(data, order[k], order[j]));
                    }
                    crate::rbtree::lemma_first_of::<KTimerEntity>(data, ids, t);
                }
                return (first, Some(t));
            }
            entity = self.next(timers, t);
            proof {
                k = k + 1;
            }
        }
        proof {
            let ids = active_ids(data, self.ids());
            assert forall|t: usize| #[trigger] self.ids().contains(t) implies
                !timers@[t as int].active by {
                assert(!timers@[order[self.tree.position(t)] as int].active);
            }
            assert(ids =~= Set::<usize>::empty());
            crate::rbtree::lemma_first_of_empty::<KTimerEntity>(data, ids);
        }
        (first, None)
    }

    pub fn first_active(&self, timers: &Vec<KTimerEntity>) -> (active: Option<usize>)
        requires
            self.wf(timers@),
        ensures
            active == crate::rbtree::first_of::<KTimerEntity>(
                crate::rbtree::payloads(timers@),
                active_ids(crate::rbtree::payloads(timers@), self.ids()),
            ),
            active is Some ==> self.ids().contains(active->0) && active->0 < timers.len()
                && timers@[active->0 as int].active,
            active is None ==> forall|t: usize| #[trigger]
                self.ids().contains(t) ==> !timers@[t as int].active,
    {
        self.first_and_first_active(timers).1
    }
}

impl Default for KTimerQueue {
    fn default() -> (queue: Self)
        ensures
            queue.ids() == Set::<usize>::empty(),
            queue.now_ticks == 0,
            forall|timers: Seq<KTimerEntity>| #[trigger] queue.wf(timers),
    {
        Self::new()
    }
}

fn scheduler_timer_reload_for_entity(
    queue: &KTimerQueue,
    timers: &Vec<KTimerEntity>,
    entity: Option<usize>,
) -> (reload: Option<u32>)
    requires
        entity is Some ==> entity->0 < timers.len(),
    ensures
        reload == match entity {
            None => None,
            Some(t) => Some(reload_of(timers@[t as int], t == CFS_KTIMER, queue.now_ticks)),
        },
{
    match entity {
        None => None,
        Some(t) => {
            let distance: u64 = timers[t].deadline_at.saturating_sub(queue.now_ticks());
            let window: u32 = timers[t].relative_deadline_ticks();
            if is_cfs_ktimer(t) && (window as u64) < distance {
                Some(programmable_reload_from_ticks(window))
            } else {
                let raw: u64 = distance.saturating_sub(1);
                let raw_reload: u32 = if raw > SCHEDULER_TIMER_RELOAD_MAX as u64 {
                    SCHEDULER_TIMER_RELOAD_MAX
                } else {
                    raw as u32
                };
                Some(writable_reload(raw_reload))
            }
        },
    }
}

fn next_scheduler_timer_reload(queue: &KTimerQueue, timers: &Vec<KTimerEntity>) -> (reload: Option<
    u32,
>)
    requires
        queue.wf(timers@),
    ensures
        reload == match queue.left_most {
            None => None,
            Some(t) => Some(reload_of(timers@[t as int], t == CFS_KTIMER, queue.now_ticks)),
        },
{
    proof {
        queue.tree.lemma_members(timers@);
    }
    scheduler_timer_reload_for_entity(queue, timers, queue.first())
}

pub fn is_cfs_ktimer(entity: usize) -> (is_cfs: bool)
    ensures
        is_cfs == (entity == CFS_KTIMER),
{
    entity == CFS_KTIMER
}

pub fn is_wait_ktimer(entity: usize) -> (is_wait: bool)
    ensures
        is_wait == (entity == WAIT_KTIMER),
{
    entity == WAIT_KTIMER
}

} // verus!
