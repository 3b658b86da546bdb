//! Lightweight scheduler tracing hooks.
//!
//! Every event advances a saturating counter. While a trace callback is
//! registered, the event is also put in an outbox, from which the board hands it
//! to the callback.

use crate::thread::ThreadCtx;
use vstd::prelude::*;

verus! {

/// Snapshot of a scheduler-visible thread for trace events.
#[derive(Clone, Copy, Debug, PartialEq, Eq)]
pub struct TraceThread {
    pub id: u32,
    pub name: &'static str,
    pub is_cfs: bool,
}

impl TraceThread {
    pub open spec fn spec_of(thread: ThreadCtx) -> TraceThread {
        TraceThread { id: thread.id, name: thread.name, is_cfs: thread.is_cfs }
    }

    /// Snapshot of the thread in a slot, if there is one.
    pub open spec fn spec_at(threads: Seq<ThreadCtx>, slot: Option<usize>) -> Option<TraceThread> {
        match slot {
            None => None,
            Some(i) => Some(Self::spec_of(threads[i as int])),
        }
    }

    pub fn at(threads: &Vec<ThreadCtx>, slot: Option<usize>) -> (snapshot: Option<TraceThread>)
        requires
            slot is Some ==> slot->0 < threads.len(),
        ensures
            snapshot == Self::spec_at(threads@, slot),
    {
        match slot {
            None => None,
            Some(i) => {
                let thread = &threads[i];
                Some(TraceThread { id: thread.id, name: thread.name, is_cfs: thread.is_cfs })
            },
        }
    }
}

/// Scheduler events emitted by the tracing hook.
///
/// Callbacks run from scheduler paths, often inside a critical section or an
/// interrupt-triggered context switch path, so they should stay short and
/// non-blocking.
#[derive(Clone, Copy, Debug, PartialEq, Eq)]
pub enum TraceEvent {
    ContextSwitch { from: Option<TraceThread>, to: TraceThread },
    DeadlineMiss { thread: TraceThread, runtime_ticks: u32, relative_deadline_ticks: u32 },
    Wakeup { thread: TraceThread },
    Yield { thread: TraceThread, elapsed_ticks: u32 },
}

/// Saturating counters for common scheduler events.
#[derive(Clone, Copy, Debug, PartialEq, Eq, Structural)]
pub struct TraceCounters {
    pub context_switches: u32,
    pub deadline_misses: u32,
    pub wakeups: u32,
    pub yields: u32,
}

impl Default for TraceCounters {
    fn default() -> (counters: Self)
        ensures
            counters == (TraceCounters {
                context_switches: 0,
                deadline_misses: 0,
                wakeups: 0,
                yields: 0,
            }),
    {
        TraceCounters { context_switches: 0, deadline_misses: 0, wakeups: 0, yields: 0 }
    }
}

/// Abstract state of the tracing hook.
#[verifier::ext_equal]
pub struct TraceView {
    pub counters: TraceCounters,
    pub enabled: bool,
    pub events: Seq<TraceEvent>,
}

impl TraceView {
    /// The event reaches the callback, if one is registered.
    pub open spec fn emit(self, event: TraceEvent) -> TraceView {
        TraceView {
            events: if self.enabled { self.events.push(event) } else { self.events },
            ..self
        }
    }

    /// A switch between different threads is counted and emitted.
    pub open spec fn context_switch(
        self,
        threads: Seq<ThreadCtx>,
        from: Option<usize>,
        to: Option<usize>,
    ) -> TraceView {
        if from == to || to is None {
            self
        } else {
            TraceView {
                counters: TraceCounters {
                    context_switches: self.counters.context_switches.saturating_add(1),
                    ..self.counters
                },
                ..self
            }.emit(
                TraceEvent::ContextSwitch {
                    from: TraceThread::spec_at(threads, from),
                    to: TraceThread::spec_of(threads[to->0 as int]),
                },
            )
        }
    }

    pub open spec fn deadline_miss(
        self,
        thread: ThreadCtx,
        runtime_ticks: u32,
        relative_deadline_ticks: u32,
    ) -> TraceView {
        TraceView {
            counters: TraceCounters {
                deadline_misses: self.counters.deadline_misses.saturating_add(1),
                ..self.counters
            },
            ..self
        }.emit(
            TraceEvent::DeadlineMiss {
                thread: TraceThread::spec_of(thread),
                runtime_ticks,
                relative_deadline_ticks,
            },
        )
    }

    pub open spec fn wakeup(self, thread: ThreadCtx) -> TraceView {
        TraceView {
            counters: TraceCounters {
                wakeups: self.counters.wakeups.saturating_add(1),
                ..self.counters
            },
            ..self
        }.emit(TraceEvent::Wakeup { thread: TraceThread::spec_of(thread) })
    }

    pub open spec fn yielded(self, thread: ThreadCtx, elapsed_ticks: u32) -> TraceView {
        TraceView {
            counters: TraceCounters {
                yields: self.counters.yields.saturating_add(1),
                ..self.counters
            },
            ..self
        }.emit(TraceEvent::Yield { thread: TraceThread::spec_of(thread), elapsed_ticks })
    }
}

/// Counters, callback registration and outbox of the tracing hook.
pub struct Trace {
    pub counters: TraceCounters,
    pub enabled: bool,
    pub events: Vec<TraceEvent>,
}

impl View for Trace {
    type V = TraceView;

    open spec fn view(&self) -> TraceView {
        TraceView { counters: self.counters, enabled: self.enabled, events: self.events@ }
    }
}

impl Trace {
    pub fn new() -> (trace: Self)
        ensures
            trace@ == (TraceView {
                counters: TraceCounters {
                    context_switches: 0,
                    deadline_misses: 0,
                    wakeups: 0,
                    yields: 0,
                },
                enabled: false,
                events: Seq::empty(),
            }),
    {
        Trace { counters: TraceCounters::default(), enabled: false, events: Vec::new() }
    }
}

/// A trace callback is registered: from now on events go to the outbox.
pub fn set_trace_fn(trace: &mut Trace)
    ensures
        final(trace)@ == (TraceView { enabled: true, ..old(trace)@ }),
{
    trace.enabled = true;
}

/// The trace callback is removed: from now on events are only counted.
pub fn clear_trace_fn(trace: &mut Trace)
    ensures
        final(trace)@ == (TraceView { enabled: false, ..old(trace)@ }),
{
    trace.enabled = false;
}

/// Return the current scheduler trace counters.
pub fn trace_counters(trace: &Trace) -> (counters: TraceCounters)
    ensures
        counters == trace@.counters,
{
    trace.counters
}

/// Reset scheduler trace counters to zero.
pub fn reset_trace_counters(trace: &mut Trace)
    ensures
        final(trace)@ == (TraceView {
            counters: TraceCounters {
                context_switches: 0,
                deadline_misses: 0,
                wakeups: 0,
                yields: 0,
            },
            ..old(trace)@
        }),
{
    trace.counters = TraceCounters::default();
}

pub fn record_context_switch(
    trace: &mut Trace,
    threads: &Vec<ThreadCtx>,
    from: Option<usize>,
    to: Option<usize>,
)
    requires
        from is Some ==> from->0 < threads.len(),
        to is Some ==> to->0 < threads.len(),
    ensures
        final(trace)@ == old(trace)@.context_switch(threads@, from, to),
{
    if from == to {
        return;
    }
    let Some(target) = TraceThread::at(threads, to) else {
        return;
    };
    trace.counters.context_switches = increment(trace.counters.context_switches);
    let source = TraceThread::at(threads, from);
    emit(trace, TraceEvent::ContextSwitch { from: source, to: target });
}

pub fn record_deadline_miss(
    trace: &mut Trace,
    thread: &ThreadCtx,
    runtime_ticks: u32,
    relative_deadline_ticks: u32,
)
    ensures
        final(trace)@ == old(trace)@.deadline_miss(
            *thread,
            runtime_ticks,
            relative_deadline_ticks,
        ),
{
    trace.counters.deadline_misses = increment(trace.counters.deadline_misses);
    let thread = TraceThread { id: thread.id, name: thread.name, is_cfs: thread.is_cfs };
    emit(trace, TraceEvent::DeadlineMiss { thread, runtime_ticks, relative_deadline_ticks });
}

pub fn record_wakeup(trace: &mut Trace, thread: &ThreadCtx)
    ensures
        final(trace)@ == old(trace)@.wakeup(*thread),
{
    trace.counters.wakeups = increment(trace.counters.wakeups);
    let thread = TraceThread { id: thread.id, name: thread.name, is_cfs: thread.is_cfs };
    emit(trace, TraceEvent::Wakeup { thread });
}

pub fn record_yield(trace: &mut Trace, thread: &ThreadCtx, elapsed_ticks: u32)
    ensures
        final(trace)@ == old(trace)@.yielded(*thread, elapsed_ticks),
{
    trace.counters.yields = increment(trace.counters.yields);
    let thread = TraceThread { id: thread.id, name: thread.name, is_cfs: thread.is_cfs };
    emit(trace, TraceEvent::Yield { thread, elapsed_ticks });
}

fn increment(counter: u32) -> (next: u32)
    ensures
        next == counter.saturating_add(1),
{
    match counter.checked_add(1) {
        Some(next) => next,
        None => counter,
    }
}

fn emit(trace: &mut Trace, event: TraceEvent)
    ensures
        final(trace)@ == old(trace)@.emit(event),
{
    if trace.enabled {
        trace.events.push(event);
    }
}

/// Cycle timing of the path from the tick interrupt to the context switch.
#[derive(Clone, Copy, Debug, PartialEq, Eq, Structural)]
pub struct SchedIsrTiming {
    pub samples: u32,
    pub last_ticks: u32,
    pub max_ticks: u32,
}

impl SchedIsrTiming {
    pub open spec fn zero() -> SchedIsrTiming {
        SchedIsrTiming { samples: 0, last_ticks: 0, max_ticks: 0 }
    }
}

impl Default for SchedIsrTiming {
    fn default() -> (timing: Self)
        ensures
            timing == Self::zero(),
    {
        SchedIsrTiming { samples: 0, last_ticks: 0, max_ticks: 0 }
    }
}

/// Sampling state behind `SchedIsrTiming`.
#[derive(Clone, Copy, Debug, PartialEq, Eq, Structural)]
pub struct SchedIsrProbe {
    pub enabled: bool,
    pub armed: bool,
    pub start_cycle: u32,
    pub timing: SchedIsrTiming,
}

impl SchedIsrProbe {
    pub fn new() -> (probe: Self)
        ensures
            probe == (SchedIsrProbe {
                enabled: false,
                armed: false,
                start_cycle: 0,
                timing: SchedIsrTiming::zero(),
            }),
    {
        SchedIsrProbe {
            enabled: false,
            armed: false,
            start_cycle: 0,
            timing: SchedIsrTiming::default(),
        }
    }
}

/// Mark the beginning of a tick interrupt, at the reading `start_cycle` of the
/// cycle counter.
///
/// A sample is recorded only when the same tick requests a context switch.
pub fn mark_sched_tick_to_pendsv_start(probe: &mut SchedIsrProbe, start_cycle: u32)
    ensures
        *final(probe) == (SchedIsrProbe { enabled: true, start_cycle, ..*old(probe) }),
{
    probe.enabled = true;
    probe.start_cycle = start_cycle;
}

/// A context switch was requested: the next switch ends a sample.
pub fn arm_sched_tick_to_pendsv_sample(probe: &mut SchedIsrProbe)
    ensures
        *final(probe) == (SchedIsrProbe {
            armed: old(probe).armed || old(probe).enabled,
            ..*old(probe)
        }),
{
    if probe.enabled {
        probe.armed = true;
    }
}

/// End of a context switch, at the reading `now_cycle` of the cycle counter: an
/// armed probe takes one sample.
pub fn record_sched_tick_to_pendsv_sample(probe: &mut SchedIsrProbe, now_cycle: u32)
    ensures
        *final(probe) == if old(probe).armed {
            let ticks = crate::platform::cycles_between(old(probe).start_cycle, now_cycle);
            SchedIsrProbe {
                armed: false,
                timing: SchedIsrTiming {
                    samples: if old(probe).timing.samples == u32::MAX {
                        0
                    } else {
                        (old(probe).timing.samples + 1) as u32
                    },
                    last_ticks: ticks,
                    max_ticks: if old(probe).timing.max_ticks < ticks {
                        ticks
                    } else {
                        old(probe).timing.max_ticks
                    },
                },
                ..*old(probe)
            }
        } else {
            *old(probe)
        },
{
    if probe.armed {
        probe.armed = false;
        let ticks: u32 = now_cycle.wrapping_sub(probe.start_cycle);
        probe.timing.last_ticks = ticks;
        probe.timing.samples = probe.timing.samples.wrapping_add(1);
        if probe.timing.max_ticks < ticks {
            probe.timing.max_ticks = ticks;
        }
    }
}

pub fn sched_tick_to_pendsv_timing(probe: &SchedIsrProbe) -> (timing: SchedIsrTiming)
    ensures
        timing == probe.timing,
{
    probe.timing
}

pub fn reset_sched_tick_to_pendsv_timing(probe: &mut SchedIsrProbe)
    ensures
        *final(probe) == (SchedIsrProbe {
            armed: false,
            start_cycle: 0,
            timing: SchedIsrTiming::zero(),
            ..*old(probe)
        }),
{
    probe.armed = false;
    probe.start_cycle = 0;
    probe.timing = SchedIsrTiming::default();
}

} // verus!
