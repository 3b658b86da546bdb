//! Listings of timers and threads, and the report on a missed deadline.

use crate::kernel::{Core, CoreView, KernelView};
use crate::ktimer::{is_cfs_ktimer, is_wait_ktimer, KTimerEntity, KTimerQueue};
use crate::print::{DiagLine, KTimerKind, ThreadLabel};
use crate::rbtree::RBTreeNode;
use crate::runq::visible_cfs_threads;
use crate::sync::SyncType;
use vstd::prelude::*;

verus! {

/// Class of the timer in a slot.
pub open spec fn kind_of(t: usize) -> KTimerKind {
    if t == crate::ktimer::CFS_KTIMER {
        KTimerKind::Cfs
    } else if t == crate::ktimer::WAIT_KTIMER {
        KTimerKind::Wait
    } else {
        KTimerKind::Rt
    }
}

impl CoreView {
    pub open spec fn cfs_thread_line(self, label: ThreadLabel, i: usize) -> DiagLine {
        let ctx = self.ctx[i as int];
        let entity = self.sched[i as int];
        DiagLine::CfsThread {
            label,
            id: ctx.id,
            name: ctx.name,
            state: ctx.state,
            priority: entity.priority,
            sched_ticks: entity.sched_tick_cnt,
            vruntime: entity.vruntime,
        }
    }

    pub open spec fn rt_thread_line(
        self,
        label: ThreadLabel,
        i: usize,
        timer: Option<usize>,
        now: u64,
    ) -> DiagLine {
        let ctx = self.ctx[i as int];
        match timer {
            None => DiagLine::RtThreadWithoutTimer {
                label,
                id: ctx.id,
                name: ctx.name,
                state: ctx.state,
                runtime: self.runtime[i as int],
            },
            Some(t) => DiagLine::RtThread {
                label,
                id: ctx.id,
                name: ctx.name,
                state: ctx.state,
                runtime: self.runtime[i as int],
                ktimer: self.timer_names[t as int],
                deadline_at: self.timers[t as int].deadline_at,
                remaining: self.timers[t as int].remaining(now),
                active: self.timers[t as int].active,
                misses: self.timers[t as int].miss_cnt,
            },
        }
    }

    pub open spec fn waiting_thread_line(self, i: usize, now: u64) -> DiagLine {
        let ctx = self.ctx[i as int];
        DiagLine::WaitingThread {
            id: ctx.id,
            name: ctx.name,
            is_cfs: ctx.is_cfs,
            state: ctx.state,
            waited_runtime: if ctx.is_cfs { None } else { Some(self.runtime[i as int]) },
            wait_ticks: self.wait[i as int].remaining(now),
            waitevt: SyncType::tagged(self.wait[i as int].waitevt),
        }
    }

    pub open spec fn current_line(self, now: u64) -> DiagLine {
        match self.current {
            None => DiagLine::NoThread { label: ThreadLabel::Current },
            Some(c) => if self.current_is_cfs {
                self.cfs_thread_line(ThreadLabel::Current, c)
            } else {
                self.rt_thread_line(ThreadLabel::Current, c, self.ktimer_of[c as int], now)
            },
        }
    }

    pub open spec fn idle_line(self) -> DiagLine {
        match self.idle {
            None => DiagLine::NoThread { label: ThreadLabel::Idle },
            Some(i) => self.cfs_thread_line(ThreadLabel::Idle, i),
        }
    }

    pub open spec fn cfs_list(self) -> Seq<DiagLine> {
        let slots = self.visible_cfs();
        seq![DiagLine::CfsThreadsHeader] + if slots.len() == 0 {
            seq![DiagLine::Empty]
        } else {
            Seq::new(slots.len(), |k: int| self.cfs_thread_line(ThreadLabel::Cfs, slots[k]))
        }
    }

    pub open spec fn wait_list(self, now: u64) -> Seq<DiagLine> {
        let slots = self.wait_order();
        seq![DiagLine::WaitQueueHeader] + if slots.len() == 0 {
            seq![DiagLine::Empty]
        } else {
            Seq::new(slots.len(), |k: int| self.waiting_thread_line(slots[k], now))
        }
    }

    /// Lines on one timer: its state and, for a real-time timer, its timing.
    pub open spec fn timer_lines(self, t: usize, marked: bool, queued: bool, now: u64) -> Seq<
        DiagLine,
    > {
        let timer = self.timers[t as int];
        let line = DiagLine::Timer {
            marked,
            name: self.timer_names[t as int],
            kind: kind_of(t),
            queued,
            deadline_at: timer.deadline_at,
            remaining: timer.remaining(now),
            active: timer.active,
            misses: timer.miss_cnt,
        };
        if kind_of(t) == KTimerKind::Rt {
            match self.timer_owner[t as int] {
                None => seq![line, DiagLine::OrphanTiming { timing: timer.timing }],
                Some(i) => seq![
                    line,
                    DiagLine::OwnedTiming {
                        timing: timer.timing,
                        thread_id: self.ctx[i as int].id,
                        state: self.ctx[i as int].state,
                        runtime: self.runtime[i as int],
                    },
                ],
            }
        } else {
            seq![line]
        }
    }

    /// Lines on the listed timers, in order; the one that missed is marked.
    pub open spec fn timer_list(self, slots: Seq<usize>, missed: Option<usize>, now: u64) -> Seq<
        DiagLine,
    >
        decreases slots.len(),
    {
        if slots.len() == 0 {
            Seq::empty()
        } else {
            self.timer_list(slots.drop_last(), missed, now) + self.timer_lines(
                slots.last(),
                missed == Some(slots.last()),
                true,
                now,
            )
        }
    }
}

impl KernelView {
    /// The queued timers in the order in which they expire.
    pub open spec fn queue_order(self) -> Seq<usize> {
        crate::rbtree::in_order::<KTimerEntity>(self.core.timers, self.queued)
    }

    /// Report on the timer queue. A timer that missed is listed even when it has
    /// been removed from the queue.
    pub open spec fn queue_report(self, missed: Option<usize>) -> Seq<DiagLine> {
        let order = self.queue_order();
        seq![
            DiagLine::QueueHeader {
                now: self.now,
                len: order.len() as usize,
                first_active: match self.first_active() {
                    None => None,
                    Some(t) => Some(self.core.timer_names[t as int]),
                },
            },
        ] + self.core.timer_list(order, missed, self.now) + match missed {
            None => Seq::empty(),
            Some(t) => if self.queued.contains(t) {
                Seq::empty()
            } else {
                seq![DiagLine::TimerAlreadyRemoved] + self.core.timer_lines(
                    t,
                    true,
                    false,
                    self.now,
                )
            },
        }
    }

    /// Report on the threads: the one that missed, the current one, the idle one,
    /// the fair ones and the waiting ones.
    pub open spec fn thread_report(self, t: usize, i: usize) -> Seq<DiagLine> {
        seq![
            DiagLine::ThreadsHeader,
            self.core.rt_thread_line(ThreadLabel::Missed, i, Some(t), self.now),
            self.core.current_line(self.now),
            self.core.idle_line(),
        ] + self.core.cfs_list() + self.core.wait_list(self.now)
    }

    /// Everything that is reported when thread `i` misses the deadline of timer `t`.
    pub open spec fn miss_report(self, t: usize, i: usize) -> Seq<DiagLine> {
        seq![
            DiagLine::DeadlineMiss {
                name: self.core.ctx[i as int].name,
                relative_deadline: self.core.timers[t as int].timing.relative_deadline_ticks,
                runtime: self.core.runtime[i as int],
            },
            DiagLine::DeadlineMissHeader,
        ] + self.queue_report(Some(t)) + self.thread_report(t, i)
    }
}

pub fn ktimer_name(core: &Core, entity: usize) -> (name: &'static str)
    requires
        entity < core.timer_names.len(),
    ensures
        name == core@.timer_names[entity as int],
{
    core.timer_names[entity]
}

fn ktimer_name_or_none(core: &Core, entity: Option<usize>) -> (name: Option<&'static str>)
    requires
        entity is Some ==> entity->0 < core.timer_names.len(),
    ensures
        name == match entity {
            None => None,
            Some(t) => Some(core@.timer_names[t as int]),
        },
{
    match entity {
        None => None,
        Some(t) => Some(ktimer_name(core, t)),
    }
}

fn ktimer_kind(entity: usize) -> (kind: KTimerKind)
    ensures
        kind == kind_of(entity),
{
    if is_cfs_ktimer(entity) {
        KTimerKind::Cfs
    } else if is_wait_ktimer(entity) {
        KTimerKind::Wait
    } else {
        KTimerKind::Rt
    }
}

/// Lines on one timer.
pub fn print_ktimer_statistics(
    core: &Core,
    entity: usize,
    marked: bool,
    queued: bool,
    now_ticks: u64,
) -> (lines: Vec<DiagLine>)
    requires
        core.wf(),
        entity < core.timers.len(),
    ensures
        lines@ == core@.timer_lines(entity, marked, queued, now_ticks),
{
    let mut lines: Vec<DiagLine> = Vec::new();
    let timer = core.timers[entity];
    assert(timer.payload() == core@.timers[entity as int]);
    lines.push(
        DiagLine::Timer {
            marked,
            name: ktimer_name(core, entity),
            kind: ktimer_kind(entity),
            queued,
            deadline_at: timer.deadline_at(),
            remaining: timer.remaining_at(now_ticks),
            active: timer.is_active(),
            misses: timer.miss_cnt,
        },
    );
    if !is_cfs_ktimer(entity) && !is_wait_ktimer(entity) {
        match core.timer_owner[entity] {
            None => {
                lines.push(DiagLine::OrphanTiming { timing: timer.timing() });
            },
            Some(thread) => {
                assert(core@.timer_owner[entity as int] is Some);
                let ctx = &core.ctx[thread];
                lines.push(
                    DiagLine::OwnedTiming {
                        timing: timer.timing(),
                        thread_id: ctx.id,
                        state: ctx.state,
                        runtime: core.runtime[thread],
                    },
                );
            },
        }
    }
    assert(lines@ =~= core@.timer_lines(entity, marked, queued, now_ticks));
    lines
}

/// Report on the timer queue.
pub fn print_ktimer_queue_statistics(
    queue: &KTimerQueue,
    core: &Core,
    missed: Option<usize>,
) -> (lines: Vec<DiagLine>)
    requires
        core.wf(),
        queue.wf(core.timers@),
        missed is Some ==> missed->0 < core.timers.len(),
    ensures
        lines@ == crate::kernel::kview(queue, core).queue_report(missed),
{
    let ghost k = crate::kernel::kview(queue, core);
    let now: u64 = queue.now_ticks();
    let mut lines: Vec<DiagLine> = Vec::new();
    proof {
        queue.tree.lemma_in_order(core.timers@);
    }
    lines.push(
        DiagLine::QueueHeader {
            now,
            len: queue.len(),
            first_active: ktimer_name_or_none(core, queue.first_active(&core.timers)),
        },
    );
    let slots = queue.tree.entities(&core.timers);
    let ghost head = lines@;
    let mut printed_missed: bool = false;
    let mut n: usize = 0;
    while n < slots.len()
        invariant
            core.wf(),
            queue.wf(core.timers@),
            n <= slots.len(),
            slots@ == k.queue_order(),
            k == crate::kernel::kview(queue, core),
            now == k.now,
            forall|j: int| 0 <= j < slots@.len() ==> (#[trigger] slots@[j]) < core.timers.len(),
            lines@ == head + core@.timer_list(slots@.take(n as int), missed, now),
            printed_missed == (missed is Some && slots@.take(n as int).contains(missed->0)),
        decreases slots.len() - n,
    {
        let entity: usize = slots[n];
        let is_missed: bool = missed == Some(entity);
        let ghost seen = slots@.take(n as int);
        let ghost more = slots@.take(n + 1);
        if is_missed {
            printed_missed = true;
        }
        let mut entry = print_ktimer_statistics(core, entity, is_missed, true, now);
        lines.append(&mut entry);
        proof {
            assert(more.drop_last() =~= seen);
            assert(more.last() == entity);
            assert(lines@ =~= head + core@.timer_list(more, missed, now));
            if let Some(t) = missed {
                assert(more.contains(t) <==> seen.contains(t) || t == entity) by {
                    if seen.contains(t) {
                        let j = choose|j: int| 0 <= j < seen.len() && seen[j] == t;
                        assert(more[j] == t);
                    }
                    if t == entity {
                        assert(more[n as int] == t);
                    }
                    if more.contains(t) {
                        let j = choose|j: int| 0 <= j < more.len() && more[j] == t;
                        if j < n {
                            assert(seen[j] == t);
                        }
                    }
                }
            }
        }
        n = n + 1;
    }
    assert(slots@.take(n as int) =~= slots@);
    if let Some(t) = missed {
        if !printed_missed {
            lines.push(DiagLine::TimerAlreadyRemoved);
            let mut entry = print_ktimer_statistics(core, t, true, false, now);
            lines.append(&mut entry);
        }
        proof {
            assert(k.queued.contains(t) <==> slots@.contains(t));
        }
    }
    assert(lines@ =~= k.queue_report(missed));
    lines
}

pub fn print_cfs_thread_statistics(core: &Core, label: ThreadLabel, thread: usize) -> (line:
    DiagLine)
    requires
        core.wf(),
        thread < core.ctx.len(),
    ensures
        line == core@.cfs_thread_line(label, thread),
{
    let ctx = &core.ctx[thread];
    let entity = &core.sched[thread];
    assert(entity.payload() == core@.sched[thread as int]);
    DiagLine::CfsThread {
        label,
        id: ctx.id,
        name: ctx.name,
        state: ctx.state,
        priority: entity.priority,
        sched_ticks: entity.sched_tick_cnt(),
        vruntime: entity.vruntime(),
    }
}

pub fn print_rt_thread_statistics(
    core: &Core,
    label: ThreadLabel,
    thread: usize,
    timer: Option<usize>,
    now_ticks: u64,
) -> (line: DiagLine)
    requires
        core.wf(),
        thread < core.ctx.len(),
        timer is Some ==> timer->0 < core.timers.len(),
    ensures
        line == core@.rt_thread_line(label, thread, timer, now_ticks),
{
    let ctx = &core.ctx[thread];
    match timer {
        None => DiagLine::RtThreadWithoutTimer {
            label,
            id: ctx.id,
            name: ctx.name,
            state: ctx.state,
            runtime: core.runtime[thread],
        },
        Some(t) => {
            let entity = &core.timers[t];
            assert(entity.payload() == core@.timers[t as int]);
            DiagLine::RtThread {
                label,
                id: ctx.id,
                name: ctx.name,
                state: ctx.state,
                runtime: core.runtime[thread],
                ktimer: ktimer_name(core, t),
                deadline_at: entity.deadline_at(),
                remaining: entity.remaining_at(now_ticks),
                active: entity.is_active(),
                misses: entity.miss_cnt,
            }
        },
    }
}

pub fn print_wait_thread_statistics(core: &Core, thread: usize, now_ticks: u64) -> (line: DiagLine)
    requires
        core.wf(),
        thread < core.ctx.len(),
    ensures
        line == core@.waiting_thread_line(thread, now_ticks),
{
    let ctx = &core.ctx[thread];
    let entity = &core.wait[thread];
    assert(entity.payload() == core@.wait[thread as int]);
    DiagLine::WaitingThread {
        id: ctx.id,
        name: ctx.name,
        is_cfs: ctx.is_cfs,
        state: ctx.state,
        waited_runtime: if ctx.is_cfs {
            None
        } else {
            Some(core.runtime[thread])
        },
        wait_ticks: entity.remaining_at(now_ticks),
        waitevt: SyncType::from_wait_event(entity.waitevt),
    }
}

pub fn print_current_thread_statistics(core: &Core, now_ticks: u64) -> (line: DiagLine)
    requires
        core.wf(),
    ensures
        line == core@.current_line(now_ticks),
{
    match core.current {
        None => DiagLine::NoThread { label: ThreadLabel::Current },
        Some(current) => {
            if core.current_is_cfs {
                print_cfs_thread_statistics(core, ThreadLabel::Current, current)
            } else {
                let timer = core.ktimer_of[current];
                assert(core@.ktimer_of[current as int] == timer);
                print_rt_thread_statistics(core, ThreadLabel::Current, current, timer, now_ticks)
            }
        },
    }
}

pub fn print_idle_thread_statistics(core: &Core) -> (line: DiagLine)
    requires
        core.wf(),
    ensures
        line == core@.idle_line(),
{
    match core.idle {
        None => DiagLine::NoThread { label: ThreadLabel::Idle },
        Some(idle) => print_cfs_thread_statistics(core, ThreadLabel::Idle, idle),
    }
}

pub fn print_cfs_thread_statistics_list(core: &Core) -> (lines: Vec<DiagLine>)
    requires
        core.wf(),
    ensures
        lines@ == core@.cfs_list(),
{
    let mut lines: Vec<DiagLine> = Vec::new();
    lines.push(DiagLine::CfsThreadsHeader);
    let slots = visible_cfs_threads(core);
    let mut k: usize = 0;
    while k < slots.len()
        invariant
            core.wf(),
            k <= slots.len(),
            slots@ == core@.visible_cfs(),
            forall|j: int| 0 <= j < slots@.len() ==> (#[trigger] slots@[j]) < core.ctx.len(),
            lines@.len() == k + 1,
            lines@[0] == DiagLine::CfsThreadsHeader,
            forall|j: int|
                0 <= j < k ==> #[trigger] lines@[j + 1] == core@.cfs_thread_line(
                    ThreadLabel::Cfs,
                    slots@[j],
                ),
        decreases slots.len() - k,
    {
        let line = print_cfs_thread_statistics(core, ThreadLabel::Cfs, slots[k]);
        lines.push(line);
        k = k + 1;
    }
    if slots.len() == 0 {
        lines.push(DiagLine::Empty);
    }
    assert(lines@ =~= core@.cfs_list()) by {
        assert forall|j: int| 0 <= j < lines@.len() implies lines@[j] == core@.cfs_list()[j] by {
            if j > 0 && slots@.len() > 0 {
                assert(lines@[(j - 1) + 1] == core@.cfs_thread_line(
                    ThreadLabel::Cfs,
                    slots@[j - 1],
                ));
            }
        }
    }
    lines
}

pub fn print_wait_thread_statistics_list(core: &Core, now_ticks: u64) -> (lines: Vec<DiagLine>)
    requires
        core.wf(),
    ensures
        lines@ == core@.wait_list(now_ticks),
{
    let mut lines: Vec<DiagLine> = Vec::new();
    lines.push(DiagLine::WaitQueueHeader);
    let slots = core.wait_queue.tree.entities(&core.wait);
    let mut k: usize = 0;
    while k < slots.len()
        invariant
            core.wf(),
            k <= slots.len(),
            slots@ == core@.wait_order(),
            forall|j: int| 0 <= j < slots@.len() ==> (#[trigger] slots@[j]) < core.ctx.len(),
            lines@.len() == k + 1,
            lines@[0] == DiagLine::WaitQueueHeader,
            forall|j: int|
                0 <= j < k ==> #[trigger] lines@[j + 1] == core@.waiting_thread_line(
                    slots@[j],
                    now_ticks,
                ),
        decreases slots.len() - k,
    {
        let line = print_wait_thread_statistics(core, slots[k], now_ticks);
        lines.push(line);
        k = k + 1;
    }
    if slots.len() == 0 {
        lines.push(DiagLine::Empty);
    }
    assert(lines@ =~= core@.wait_list(now_ticks)) by {
        assert forall|j: int| 0 <= j < lines@.len() implies lines@[j] == core@.wait_list(
            now_ticks,
        )[j] by {
            if j > 0 && slots@.len() > 0 {
                assert(lines@[(j - 1) + 1] == core@.waiting_thread_line(slots@[j - 1], now_ticks));
            }
        }
    }
    lines
}

/// Report on the threads after thread `thread` missed the deadline of `timer`.
pub fn print_thread_statistics(
    queue: &KTimerQueue,
    core: &Core,
    timer: usize,
    thread: usize,
) -> (lines: Vec<DiagLine>)
    requires
        core.wf(),
        timer < core.timers.len(),
        thread < core.ctx.len(),
    ensures
        lines@ == crate::kernel::kview(queue, core).thread_report(timer, thread),
{
    let now: u64 = queue.now_ticks();
    let mut lines: Vec<DiagLine> = Vec::new();
    lines.push(DiagLine::ThreadsHeader);
    lines.push(
        print_rt_thread_statistics(core, ThreadLabel::Missed, thread, Some(timer), now),
    );
    lines.push(print_current_thread_statistics(core, now));
    lines.push(print_idle_thread_statistics(core));
    let mut cfs = print_cfs_thread_statistics_list(core);
    lines.append(&mut cfs);
    let mut waiting = print_wait_thread_statistics_list(core, now);
    lines.append(&mut waiting);
    assert(lines@ =~= crate::kernel::kview(queue, core).thread_report(timer, thread));
    lines
}

/// Everything that is reported when `thread` misses the deadline of `timer`.
pub fn print_rt_deadline_miss_diagnostics(
    queue: &KTimerQueue,
    core: &Core,
    timer: usize,
    thread: usize,
) -> (lines: Vec<DiagLine>)
    requires
        core.wf(),
        queue.wf(core.timers@),
        timer < core.timers.len(),
        thread < core.ctx.len(),
    ensures
        lines@ == crate::kernel::kview(queue, core).miss_report(timer, thread),
{
    let mut lines: Vec<DiagLine> = Vec::new();
    let relative_deadline: u32 = core.timers[timer].relative_deadline_ticks();
    assert(relative_deadline == core@.timers[timer as int].timing.relative_deadline_ticks);
    lines.push(
        DiagLine::DeadlineMiss {
            name: core.ctx[thread].name,
            relative_deadline,
            runtime: core.runtime[thread],
        },
    );
    lines.push(DiagLine::DeadlineMissHeader);
    let mut queue_lines = print_ktimer_queue_statistics(queue, core, Some(timer));
    lines.append(&mut queue_lines);
    let mut thread_lines = print_thread_statistics(queue, core, timer, thread);
    lines.append(&mut thread_lines);
    assert(lines@ =~= crate::kernel::kview(queue, core).miss_report(timer, thread));
    lines
}

} // verus!
