//! Laws of clocks, orders, traces and reports.

use crate::kernel::{CoreView, KernelView};
use crate::ktimer::{KTimerEntity, CFS_KTIMER};
use crate::laws::selection::names_thread;
use crate::print::{DiagLine, ThreadLabel};
use crate::runq::SchedEntity;
use crate::sync::SyncEntity;
use crate::thread::ThreadCtx;
use crate::trace::{TraceEvent, TraceView};
use crate::waitq::WaitEntity;
use vstd::prelude::*;

verus! {

/// Whole milliseconds: what is left over is less than one.
pub proof fn lemma_whole_milliseconds(cycles: u32, ticks: u32)
    ensures
        ticks == 0 ==> crate::clock::msec_of_cycles(cycles, ticks) == 0,
        ticks > 0 ==> ({
            let msec = crate::clock::msec_of_cycles(cycles, ticks);
            msec * ticks <= cycles < (msec + 1) * ticks
        }),
{
    if ticks > 0 {
        vstd::arithmetic::div_mod::lemma_fundamental_div_mod(cycles as int, ticks as int);
        let msec = crate::clock::msec_of_cycles(cycles, ticks) as int;
        assert(msec * ticks <= cycles < (msec + 1) * ticks) by (nonlinear_arith)
            requires
                cycles == ticks * msec + cycles as int % (ticks as int),
                0 <= cycles as int % (ticks as int) < ticks,
        ;
    }
}

/// The cycles between two readings lead from the first to the second, round the end of
/// the counter if need be.
pub proof fn lemma_cycles_between(start: u32, now: u32)
    ensures
        (start + crate::platform::cycles_between(start, now)) % 0x1_0000_0000 == now,
{
}

/// Ticks up to the deadline of a timer: none once it has passed, and at most what one
/// interval of the hardware timer can hold.
pub proof fn lemma_remaining_ticks(timer: KTimerEntity, now: u64)
    ensures
        ({
            let left = timer.deadline_at - now;
            timer.remaining(now) == if timer.deadline_at == u64::MAX || left > 0x00ff_ffff {
                0x00ff_ffff
            } else if left < 0 {
                0
            } else {
                left
            }
        }),
{
}

/// Ticks up to a wake-up: none once it is due.
pub proof fn lemma_remaining_wait(entity: WaitEntity, now: u64)
    ensures
        ({
            let left = entity.wake_at - now;
            entity.remaining(now) == if left <= 0 {
                0
            } else if left > u32::MAX {
                u32::MAX as int
            } else {
                left
            }
        }),
{
}

/// An interval lasts one tick longer than the value it was programmed with. Without that
/// value, the one that leads to the next expiration counts, and without any nothing has
/// passed.
pub proof fn lemma_interval_length(programmed: u32, next: u32)
    requires
        programmed < u32::MAX,
        next < u32::MAX,
    ensures
        crate::timers::interval_ticks(Some(programmed), Some(next)) == programmed + 1,
        crate::timers::interval_ticks(Some(programmed), None) == programmed + 1,
        crate::timers::interval_ticks(None, Some(next)) == next + 1,
        crate::timers::interval_ticks(None, None) == 0,
{
}

/// The first timer is the one with the earliest deadline of all that are queued.
pub proof fn lemma_earliest_timer_first(k: KernelView)
    ensures
        match k.first() {
            None => k.queued == Set::<usize>::empty(),
            Some(t) => k.queued.contains(t) && forall|s: usize| #[trigger]
                k.queued.contains(s) ==> k.core.timers[t as int].deadline_at
                    <= k.core.timers[s as int].deadline_at,
        },
{
    if k.queued == Set::<usize>::empty() {
        crate::rbtree::lemma_first_of_empty::<KTimerEntity>(k.core.timers, k.queued);
    } else {
        crate::rbtree::lemma_first_exists::<KTimerEntity>(k.core.timers, k.queued);
        let t = k.first()->0;
        assert forall|s: usize| #[trigger] k.queued.contains(s) implies k.core.timers[t as int].deadline_at
            <= k.core.timers[s as int].deadline_at by {
            if s != t {
                assert(crate::rbtree::before::<KTimerEntity>(k.core.timers, t, s));
            }
        }
    }
}

/// The hardware timer is programmed up to the first deadline, and for the fair class up to
/// the end of its execution window if that comes first. Intervals that are too short or
/// too long for it are the shortest and the longest it can hold.
pub proof fn lemma_interval_is_exact(k: KernelView)
    ensures
        k.first() is None ==> k.next_reload() is None,
        k.first() is Some ==> ({
            let t = k.first()->0;
            let timer = k.core.timers[t as int];
            let distance = timer.deadline_at - k.now;
            let window = timer.timing.relative_deadline_ticks as int;
            let wanted = if t == CFS_KTIMER && window < distance {
                window
            } else {
                distance
            };
            k.next_reload() is Some && k.next_reload()->0 + 1 == if wanted < 2 {
                2
            } else if wanted > 0x0100_0000 {
                0x0100_0000
            } else {
                wanted
            }
        }),
{
}

/// Timers are in the order of their deadlines, runnable threads in that of their virtual
/// runtimes, waiting threads in that of their wake-ups and event tags, and the waiters of
/// an object in that of their deadlines. Slots decide between equals.
pub proof fn lemma_orders(core: CoreView, a: usize, b: usize)
    requires
        a != b,
    ensures
        crate::rbtree::before::<KTimerEntity>(core.timers, a, b) == ({
            let x = core.timers[a as int].deadline_at;
            let y = core.timers[b as int].deadline_at;
            x < y || x == y && a < b
        }),
        crate::rbtree::before::<SchedEntity>(core.sched, a, b) == ({
            let x = core.sched[a as int].vruntime;
            let y = core.sched[b as int].vruntime;
            x < y || x == y && a < b
        }),
        crate::rbtree::before::<SyncEntity>(core.sync, a, b) == ({
            let x = core.sync[a as int].deadline_at;
            let y = core.sync[b as int].deadline_at;
            x < y || x == y && a < b
        }),
        crate::rbtree::before::<WaitEntity>(core.wait, a, b) == ({
            let x = core.wait[a as int];
            let y = core.wait[b as int];
            x.wake_at < y.wake_at || x.wake_at == y.wake_at && (x.waitevt < y.waitevt || x.waitevt
                == y.waitevt && a < b)
        }),
{
}

/// One more, as far as can be counted.
pub open spec fn one_more(count: u32) -> int {
    if count < u32::MAX {
        count + 1
    } else {
        u32::MAX as int
    }
}

/// The event is appended if somebody listens.
pub open spec fn appends(a: TraceView, b: TraceView, event: TraceEvent) -> bool {
    &&& b.enabled == a.enabled
    &&& b.events == if a.enabled {
        a.events.push(event)
    } else {
        a.events
    }
}

/// Every event counts under its own name, and reaches whoever listens with the thread
/// and the numbers that belong to it.
pub proof fn lemma_events_are_counted(
    trace: TraceView,
    thread: ThreadCtx,
    runtime_ticks: u32,
    relative_deadline_ticks: u32,
)
    ensures
        ({
            let r = trace.wakeup(thread);
            &&& r.counters.wakeups == one_more(trace.counters.wakeups)
            &&& r.counters.yields == trace.counters.yields
            &&& r.counters.deadline_misses == trace.counters.deadline_misses
            &&& r.counters.context_switches == trace.counters.context_switches
            &&& exists|named: crate::trace::TraceThread| #[trigger]
                names_thread(named, thread) && appends(
                    trace,
                    r,
                    TraceEvent::Wakeup { thread: named },
                )
        }),
        ({
            let r = trace.yielded(thread, runtime_ticks);
            &&& r.counters.yields == one_more(trace.counters.yields)
            &&& r.counters.wakeups == trace.counters.wakeups
            &&& r.counters.deadline_misses == trace.counters.deadline_misses
            &&& r.counters.context_switches == trace.counters.context_switches
            &&& exists|named: crate::trace::TraceThread| #[trigger]
                names_thread(named, thread) && appends(
                    trace,
                    r,
                    TraceEvent::Yield { thread: named, elapsed_ticks: runtime_ticks },
                )
        }),
        ({
            let r = trace.deadline_miss(thread, runtime_ticks, relative_deadline_ticks);
            &&& r.counters.deadline_misses == one_more(trace.counters.deadline_misses)
            &&& r.counters.wakeups == trace.counters.wakeups
            &&& r.counters.yields == trace.counters.yields
            &&& r.counters.context_switches == trace.counters.context_switches
            &&& exists|named: crate::trace::TraceThread| #[trigger]
                names_thread(named, thread) && appends(
                    trace,
                    r,
                    TraceEvent::DeadlineMiss {
                        thread: named,
                        runtime_ticks,
                        relative_deadline_ticks,
                    },
                )
        }),
{
    let named = crate::trace::TraceThread::spec_of(thread);
    assert(names_thread(named, thread));
    assert(appends(trace, trace.wakeup(thread), TraceEvent::Wakeup { thread: named }));
    assert(appends(
        trace,
        trace.yielded(thread, runtime_ticks),
        TraceEvent::Yield { thread: named, elapsed_ticks: runtime_ticks },
    ));
    assert(appends(
        trace,
        trace.deadline_miss(thread, runtime_ticks, relative_deadline_ticks),
        TraceEvent::DeadlineMiss { thread: named, runtime_ticks, relative_deadline_ticks },
    ));
}

/// Every wake-up is traced, once: that of a sleeper and that of a waiter.
pub proof fn lemma_wake_ups_are_traced(k: KernelView, i: usize, elapsed: u32)
    requires
        k.steady(),
        k.core.waiting.contains(i),
    ensures
        ({
            let r = k.woken(i, elapsed);
            &&& r.core.trace.counters.wakeups == one_more(k.core.trace.counters.wakeups)
            &&& exists|named: crate::trace::TraceThread| #[trigger]
                names_thread(named, k.core.ctx[i as int]) && appends(
                    k.core.trace,
                    r.core.trace,
                    TraceEvent::Wakeup { thread: named },
                )
        }),
        k.waiter_woken(i).1 is Ok ==> ({
            let r = k.waiter_woken(i).0;
            &&& r.core.trace.counters.wakeups == one_more(k.core.trace.counters.wakeups)
            &&& exists|named: crate::trace::TraceThread| #[trigger]
                names_thread(named, k.core.ctx[i as int]) && appends(
                    k.core.trace,
                    r.core.trace,
                    TraceEvent::Wakeup { thread: named },
                )
        }),
{
    let named = crate::trace::TraceThread::spec_of(k.core.ctx[i as int]);
    assert(names_thread(named, k.core.ctx[i as int]));
    let event = TraceEvent::Wakeup { thread: named };
    let ready = k.core.waiting_without(i).with_state(i, crate::thread::ThreadState::Ready);
    assert(ready.trace.wakeup(ready.ctx[i as int]) == k.core.trace.wakeup(k.core.ctx[i as int]));
    assert(appends(k.core.trace, k.woken(i, elapsed).core.trace, event));
    if k.waiter_woken(i).1 is Ok {
        lemma_waiter_wake_up_trace(k, i);
        assert(appends(k.core.trace, k.waiter_woken(i).0.core.trace, event));
    }
}

proof fn lemma_waiter_wake_up_trace(k: KernelView, i: usize)
    requires
        k.steady(),
        k.core.waiting.contains(i),
        k.waiter_woken(i).1 is Ok,
    ensures
        k.waiter_woken(i).0.core.trace == k.core.trace.wakeup(k.core.ctx[i as int]),
{
    if k.core.ctx[i as int].is_cfs {
        let left = k.core.waiting_without(i);
        let core = CoreView { trace: left.trace.wakeup(left.ctx[i as int]), ..left };
        crate::laws::waiting::lemma_wait_timer_follows(k.with_core(core.rejoined(i)));
    } else {
        let t = k.core.ktimer_of[i as int]->0;
        assert(k.core.ktimer_of[i as int] is Some);
        let ready = k.core.waiting_without(i).with_state(i, crate::thread::ThreadState::Ready);
        let traced = k.with_core(
            CoreView { trace: ready.trace.wakeup(ready.ctx[i as int]), ..ready },
        );
        let queued = traced.with_core(
            traced.core.with_timer(t, traced.core.timers[t as int].with_active(true)),
        ).enqueued(t);
        assert(crate::laws::timing::has_timers(queued));
        crate::laws::timing::lemma_next_timer_decides(queued);
        crate::laws::waiting::lemma_wait_timer_follows(queued.refreshed());
    }
}

/// A yield is traced with the thread and the time that had passed.
pub proof fn lemma_yields_are_traced(k: KernelView, elapsed: u32)
    requires
        k.core.current is Some,
    ensures
        ({
            let r = k.yielded(elapsed);
            &&& r.core.trace.counters.yields == one_more(k.core.trace.counters.yields)
            &&& exists|named: crate::trace::TraceThread| #[trigger]
                names_thread(named, k.core.ctx[k.core.current->0 as int]) && appends(
                    k.core.trace,
                    r.core.trace,
                    TraceEvent::Yield { thread: named, elapsed_ticks: elapsed },
                )
        }),
{
    let i = k.core.current->0;
    let named = crate::trace::TraceThread::spec_of(k.core.ctx[i as int]);
    assert(names_thread(named, k.core.ctx[i as int]));
    assert(appends(
        k.core.trace,
        k.yielded(elapsed).core.trace,
        TraceEvent::Yield { thread: named, elapsed_ticks: elapsed },
    ));
}

/// A timer is looked up by its name in the queue; of several the first counts.
pub proof fn lemma_timer_by_name(k: KernelView, name: Seq<char>)
    ensures
        match k.named(name) {
            None => forall|t: usize| #[trigger]
                k.queued.contains(t) ==> k.core.timer_names[t as int]@ != name,
            Some(t) => {
                &&& k.queued.contains(t)
                &&& k.core.timer_names[t as int]@ == name
                &&& forall|s: usize| #[trigger]
                    k.queued.contains(s) && k.core.timer_names[s as int]@ == name
                        ==> k.core.timers[t as int].deadline_at
                        <= k.core.timers[s as int].deadline_at
            },
        },
{
    let ids = k.all_named(name);
    if ids == Set::<usize>::empty() {
        crate::rbtree::lemma_first_of_empty::<KTimerEntity>(k.core.timers, ids);
        assert forall|t: usize| #[trigger] k.queued.contains(t) implies k.core.timer_names[t as int]@
            != name by {
            assert(!ids.contains(t));
        }
    } else {
        crate::rbtree::lemma_first_exists::<KTimerEntity>(k.core.timers, ids);
        let t = crate::rbtree::first_of::<KTimerEntity>(k.core.timers, ids)->0;
        assert(ids.contains(t));
        assert forall|s: usize| #[trigger]
            k.queued.contains(s) && k.core.timer_names[s as int]@ == name implies k.core.timers[t as int].deadline_at
            <= k.core.timers[s as int].deadline_at by {
            assert(ids.contains(s));
            if s != t {
                assert(crate::rbtree::before::<KTimerEntity>(k.core.timers, t, s));
            }
        }
    }
}

/// The table of timers has one row for each queued timer, by rising deadline.
pub proof fn lemma_timer_table(k: KernelView)
    requires
        crate::rbtree::lists::<KTimerEntity>(k.core.timers, k.queued, k.queue_order()),
    ensures
        ({
            let order = k.queue_order();
            &&& k.timer_table().len() == order.len()
            &&& forall|t: usize| #[trigger] k.queued.contains(t) <==> order.contains(t)
            &&& forall|n: int|
                0 <= n < order.len() ==> (#[trigger] k.timer_table()[n]).0
                    == k.core.timer_names[order[n] as int] && k.timer_table()[n].1
                    == k.core.timers[order[n] as int].remaining(k.now)
            &&& forall|n: int, m: int|
                0 <= n < m < order.len() ==> order[n] != order[m]
                    && k.core.timers[#[trigger] order[n] as int].deadline_at
                    <= k.core.timers[#[trigger] order[m] as int].deadline_at
        }),
{
    let order = k.queue_order();
    assert forall|n: int, m: int| 0 <= n < m < order.len() implies order[n] != order[m]
        && k.core.timers[#[trigger] order[n] as int].deadline_at
        <= k.core.timers[#[trigger] order[m] as int].deadline_at by {
        assert(crate::rbtree::before::<KTimerEntity>(k.core.timers, order[n], order[m]));
    }
}

/// The visible fair threads: the one that runs comes first, then those in the queue, each
/// once, by rising virtual runtime.
pub proof fn lemma_visible_threads(core: CoreView)
    requires
        crate::rbtree::lists::<SchedEntity>(core.sched, core.run, core.run_order()),
    ensures
        ({
            let all = core.visible_cfs();
            let first: int = if core.current is Some && core.current_is_cfs {
                1
            } else {
                0
            };
            &&& first == 1 ==> all.len() > 0 && Some(all[0]) == core.current
            &&& forall|j: usize| #[trigger]
                core.run.contains(j) <==> all.skip(first).contains(j)
            &&& forall|n: int, m: int|
                first <= n < m < all.len() ==> all[n] != all[m]
                    && core.sched[#[trigger] all[n] as int].vruntime
                    <= core.sched[#[trigger] all[m] as int].vruntime
        }),
{
    let order = core.run_order();
    let all = core.visible_cfs();
    let first: int = if core.current is Some && core.current_is_cfs {
        1
    } else {
        0
    };
    assert(all.skip(first) =~= order);
    assert forall|n: int, m: int| first <= n < m < all.len() implies all[n] != all[m]
        && core.sched[#[trigger] all[n] as int].vruntime
        <= core.sched[#[trigger] all[m] as int].vruntime by {
        assert(all[n] == order[n - first]);
        assert(all[m] == order[m - first]);
        assert(crate::rbtree::before::<SchedEntity>(
            core.sched,
            order[n - first],
            order[m - first],
        ));
    }
}

/// The waiting threads in order: each once, by rising wake-up time.
pub proof fn lemma_waiting_threads(core: CoreView)
    requires
        crate::rbtree::lists::<WaitEntity>(core.wait, core.waiting, core.wait_order()),
    ensures
        ({
            let all = core.wait_order();
            &&& forall|j: usize| #[trigger] core.waiting.contains(j) <==> all.contains(j)
            &&& forall|n: int, m: int|
                0 <= n < m < all.len() ==> all[n] != all[m]
                    && core.wait[#[trigger] all[n] as int].wake_at
                    <= core.wait[#[trigger] all[m] as int].wake_at
        }),
{
    let all = core.wait_order();
    assert forall|n: int, m: int| 0 <= n < m < all.len() implies all[n] != all[m]
        && core.wait[#[trigger] all[n] as int].wake_at
        <= core.wait[#[trigger] all[m] as int].wake_at by {
        assert(crate::rbtree::before::<WaitEntity>(core.wait, all[n], all[m]));
    }
}

/// A thread that ran for longer than its budget is reported with both numbers, and the
/// miss counts at its timer. One that kept to its budget is not.
pub proof fn lemma_overrun_is_reported(core: CoreView, t: usize, i: usize)
    requires
        t < core.timers.len(),
    ensures
        ({
            let r = core.budget_charged(t, i);
            let budget = core.timers[t as int].timing.budget_ticks;
            if core.runtime[i as int] > budget {
                &&& r.timers[t as int].miss_cnt == one_more(core.timers[t as int].miss_cnt)
                &&& r.timers[t as int].deadline_at == core.timers[t as int].deadline_at
                &&& r.printer.lines == if core.printer.enabled {
                    core.printer.lines.push(
                        DiagLine::BudgetOverrun {
                            name: core.ctx[i as int].name,
                            runtime: core.runtime[i as int],
                            budget,
                        },
                    )
                } else {
                    core.printer.lines
                }
            } else {
                r == core
            }
        }),
{
    let line = DiagLine::BudgetOverrun {
        name: core.ctx[i as int].name,
        runtime: core.runtime[i as int],
        budget: core.timers[t as int].timing.budget_ticks,
    };
    assert(core.printer.lines + seq![line] =~= core.printer.lines.push(line));
}

/// A missed deadline is counted at the timer and traced, the thread is on record, and the
/// report begins with the thread and its numbers and the state of the queue. Deadline,
/// activity and runtime stay as they are.
pub proof fn lemma_miss_is_reported(k: KernelView, t: usize, i: usize)
    requires
        t < k.core.timers.len(),
    ensures
        ({
            let r = k.deadline_missed(t, i);
            let was = k.core.timers[t as int];
            let report = r.core.printer.lines.skip(k.core.printer.lines.len() as int);
            &&& r.core.fault == Some(i)
            &&& r.core.timers == k.core.timers.update(
                t as int,
                KTimerEntity { miss_cnt: one_more(was.miss_cnt) as u32, ..was },
            )
            &&& r.core.runtime == k.core.runtime
            &&& r.core.ctx == k.core.ctx
            &&& r.queued == k.queued
            &&& r.now == k.now
            &&& r.core.trace.counters.deadline_misses == one_more(
                k.core.trace.counters.deadline_misses,
            )
            &&& exists|named: crate::trace::TraceThread| #[trigger]
                names_thread(named, k.core.ctx[i as int]) && appends(
                    k.core.trace,
                    r.core.trace,
                    TraceEvent::DeadlineMiss {
                        thread: named,
                        runtime_ticks: k.core.runtime[i as int],
                        relative_deadline_ticks: was.timing.relative_deadline_ticks,
                    },
                )
            &&& !k.core.printer.enabled ==> r.core.printer.lines == k.core.printer.lines
            &&& k.core.printer.enabled ==> {
                &&& report.len() > 2
                &&& report[0] == (DiagLine::DeadlineMiss {
                    name: k.core.ctx[i as int].name,
                    relative_deadline: was.timing.relative_deadline_ticks,
                    runtime: k.core.runtime[i as int],
                })
                &&& report[1] == DiagLine::DeadlineMissHeader
                &&& report[2] is QueueHeader && report[2]->now == k.now
            }
        }),
{
    let counted = CoreView {
        trace: k.core.trace.deadline_miss(
            k.core.ctx[i as int],
            k.core.runtime[i as int],
            k.core.timers[t as int].timing.relative_deadline_ticks,
        ),
        ..k.core.with_timer(t, k.core.timers[t as int].missed())
    };
    let lines = k.with_core(counted).miss_report(t, i);
    let r = k.deadline_missed(t, i);
    let named = crate::trace::TraceThread::spec_of(k.core.ctx[i as int]);
    assert(names_thread(named, k.core.ctx[i as int]));
    assert(appends(
        k.core.trace,
        r.core.trace,
        TraceEvent::DeadlineMiss {
            thread: named,
            runtime_ticks: k.core.runtime[i as int],
            relative_deadline_ticks: k.core.timers[t as int].timing.relative_deadline_ticks,
        },
    ));
    if k.core.printer.enabled {
        assert(r.core.printer.lines.skip(k.core.printer.lines.len() as int) =~= lines);
        assert(lines[2] == k.with_core(counted).queue_report(Some(t))[0]);
    }
}

/// A thread is listed with what belongs to it.
pub proof fn lemma_listed_thread(core: CoreView, label: crate::print::ThreadLabel, i: usize, t: usize, now: u64)
    ensures
        core.cfs_thread_line(label, i) matches DiagLine::CfsThread {
            label: l,
            id,
            name,
            state,
            priority,
            sched_ticks,
            vruntime,
        } && l == label && id == core.ctx[i as int].id && name == core.ctx[i as int].name && state
            == core.ctx[i as int].state && priority == core.sched[i as int].priority && sched_ticks
            == core.sched[i as int].sched_tick_cnt && vruntime == core.sched[i as int].vruntime,
        core.rt_thread_line(label, i, Some(t), now) matches DiagLine::RtThread {
            label: l,
            id,
            name,
            state,
            runtime,
            ktimer,
            deadline_at,
            remaining,
            active,
            misses,
        } && l == label && id == core.ctx[i as int].id && name == core.ctx[i as int].name && state
            == core.ctx[i as int].state && runtime == core.runtime[i as int] && ktimer
            == core.timer_names[t as int] && deadline_at == core.timers[t as int].deadline_at
            && active == core.timers[t as int].active && misses == core.timers[t as int].miss_cnt,
        core.waiting_thread_line(i, now) matches DiagLine::WaitingThread {
            id,
            name,
            is_cfs,
            state,
            waited_runtime,
            wait_ticks,
            waitevt,
        } && id == core.ctx[i as int].id && name == core.ctx[i as int].name && is_cfs
            == core.ctx[i as int].is_cfs && state == core.ctx[i as int].state && (waited_runtime is Some
            == !is_cfs) && (waited_runtime is Some ==> waited_runtime->0 == core.runtime[i as int]),
{
}

/// A timer is listed with what belongs to it, and one of a real-time thread with its timing
/// and that of its owner.
pub proof fn lemma_listed_timer(core: CoreView, t: usize, marked: bool, queued: bool, now: u64)
    ensures
        ({
            let lines = core.timer_lines(t, marked, queued, now);
            let timer = core.timers[t as int];
            &&& lines.len() == if t >= 2 {
                2nat
            } else {
                1
            }
            &&& lines[0] matches DiagLine::Timer {
                marked: m,
                name,
                kind,
                queued: q,
                deadline_at,
                remaining,
                active,
                misses,
            } && m == marked && q == queued && name == core.timer_names[t as int] && deadline_at
                == timer.deadline_at && remaining == timer.remaining(now) && active == timer.active
                && misses == timer.miss_cnt
            &&& t >= 2 && core.timer_owner[t as int] is Some ==> lines[1] == (
            DiagLine::OwnedTiming {
                timing: timer.timing,
                thread_id: core.ctx[core.timer_owner[t as int]->0 as int].id,
                state: core.ctx[core.timer_owner[t as int]->0 as int].state,
                runtime: core.runtime[core.timer_owner[t as int]->0 as int],
            })
            &&& t >= 2 && core.timer_owner[t as int] is None ==> lines[1] == (
            DiagLine::OrphanTiming { timing: timer.timing })
        }),
{
}

/// The report on threads: the one that missed, the current one and the idle one, then all
/// visible fair threads and all that wait.
pub proof fn lemma_thread_report(k: KernelView, t: usize, i: usize)
    ensures
        ({
            let report = k.thread_report(t, i);
            let core = k.core;
            let fair = core.visible_cfs();
            let waiting = core.wait_order();
            let rows: int = if fair.len() == 0 {
                1
            } else {
                fair.len() as int
            };
            &&& report[0] == DiagLine::ThreadsHeader
            &&& report[1] is RtThread && report[1]->RtThread_id == core.ctx[i as int].id
                && report[1]->RtThread_label == ThreadLabel::Missed
            &&& core.current is None ==> report[2] == (DiagLine::NoThread {
                label: ThreadLabel::Current,
            })
            &&& core.current is Some && core.current_is_cfs ==> report[2] is CfsThread
                && report[2]->CfsThread_id == core.ctx[core.current->0 as int].id
            &&& core.idle is None ==> report[3] == (DiagLine::NoThread { label: ThreadLabel::Idle })
            &&& core.idle is Some ==> report[3] is CfsThread && report[3]->CfsThread_id
                == core.ctx[core.idle->0 as int].id
            &&& report[4] == DiagLine::CfsThreadsHeader
            &&& fair.len() == 0 ==> report[5] == DiagLine::Empty
            &&& forall|n: int|
                0 <= n < fair.len() ==> (#[trigger] report[5 + n]) is CfsThread && report[5
                    + n]->CfsThread_id == core.ctx[fair[n] as int].id
            &&& report[5 + rows] == DiagLine::WaitQueueHeader
            &&& waiting.len() == 0 ==> report[6 + rows] == DiagLine::Empty
            &&& forall|n: int|
                0 <= n < waiting.len() ==> (#[trigger] report[6 + rows + n]) is WaitingThread
                    && report[6 + rows + n]->WaitingThread_id == core.ctx[waiting[n] as int].id
        }),
{
}

/// Lines reach whoever listens, behind those that are there.
pub proof fn lemma_lines_are_appended(
    printer: crate::print::PrinterView,
    lines: Seq<crate::print::DiagLine>,
)
    ensures
        printer.say(lines).enabled == printer.enabled,
        printer.enabled ==> printer.say(lines).lines == printer.lines + lines,
        !printer.enabled ==> printer.say(lines).lines == printer.lines,
{
}

/// The value of a text in decimal notation.
pub open spec fn value_of(text: Seq<char>) -> int
    decreases text.len(),
{
    if text.len() == 0 {
        0
    } else {
        10 * value_of(text.drop_last()) + (text.last() as int - '0' as int)
    }
}

/// A number is written so that it can be read back, without leading zeros.
pub proof fn lemma_decimal_reads_back(number: nat)
    ensures
        crate::render::decimal(number).len() > 0,
        value_of(crate::render::decimal(number)) == number,
        number > 0 ==> crate::render::decimal(number)[0] != '0',
    decreases number,
{
    let text = crate::render::decimal(number);
    if number < 10 {
        assert(text.drop_last() =~= Seq::<char>::empty());
        assert(value_of(text.drop_last()) == 0);
    } else {
        lemma_decimal_reads_back(number / 10);
        assert(text.drop_last() =~= crate::render::decimal(number / 10));
    }
}

} // verus!
