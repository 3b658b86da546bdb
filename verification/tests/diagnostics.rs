use rtsched::ktimer::RtTiming;
use rtsched::print::{DiagLine, KTimerKind, Printer, ThreadLabel};
use rtsched::render::{drain_text, put_number, render};
use rtsched::trace::{
    arm_sched_tick_to_pendsv_sample, mark_sched_tick_to_pendsv_start, record_context_switch,
    record_deadline_miss, record_sched_tick_to_pendsv_sample, record_wakeup, record_yield,
    reset_sched_tick_to_pendsv_timing, sched_tick_to_pendsv_timing, SchedIsrProbe, Trace,
};
use rtsched::{
    clear_trace_fn, reset_trace_counters, set_print_fn, set_trace_fn, trace_counters, SyncType,
    ThreadCtx, ThreadState, TraceCounters, TraceEvent, TraceThread,
};

fn thread(id: u32, name: &'static str, is_cfs: bool) -> ThreadCtx {
    ThreadCtx {
        sp: 0,
        exc_return: 0,
        id,
        name,
        state: ThreadState::Ready,
        is_cfs,
    }
}

#[test]
fn trace_records_counters_and_callback_events() {
    let mut trace = Trace::new();
    let threads = vec![thread(1, "from", true), thread(2, "to", false)];

    reset_trace_counters(&mut trace);
    set_trace_fn(&mut trace);

    record_context_switch(&mut trace, &threads, Some(0), Some(1));
    record_deadline_miss(&mut trace, &threads[1], 37, 40);
    record_wakeup(&mut trace, &threads[0]);
    record_yield(&mut trace, &threads[1], 5);

    clear_trace_fn(&mut trace);

    let counters = trace_counters(&trace);
    assert!(counters.context_switches >= 1);
    assert!(counters.deadline_misses >= 1);
    assert!(counters.wakeups >= 1);
    assert!(counters.yields >= 1);

    let from = TraceThread {
        id: 1,
        name: "from",
        is_cfs: true,
    };
    let to = TraceThread {
        id: 2,
        name: "to",
        is_cfs: false,
    };
    let events = &trace.events;
    assert!(events.contains(&TraceEvent::ContextSwitch {
        from: Some(from),
        to
    }));
    assert!(events.contains(&TraceEvent::DeadlineMiss {
        thread: to,
        runtime_ticks: 37,
        relative_deadline_ticks: 40,
    }));
    assert!(events.contains(&TraceEvent::Wakeup { thread: from }));
    assert!(events.contains(&TraceEvent::Yield {
        thread: to,
        elapsed_ticks: 5,
    }));
}

#[test]
fn trace_counts_without_callback_and_ignores_switches_to_the_same_thread() {
    let mut trace = Trace::new();
    let threads = vec![thread(1, "only", true)];

    record_context_switch(&mut trace, &threads, Some(0), Some(0));
    assert_eq!(trace_counters(&trace), TraceCounters::default());
    record_context_switch(&mut trace, &threads, None, Some(0));
    record_wakeup(&mut trace, &threads[0]);
    trace.counters.yields = u32::MAX;
    record_yield(&mut trace, &threads[0], 1);

    assert_eq!(
        trace_counters(&trace),
        TraceCounters {
            context_switches: 1,
            deadline_misses: 0,
            wakeups: 1,
            yields: u32::MAX,
        }
    );
    assert!(trace.events.is_empty());
    reset_trace_counters(&mut trace);
    assert_eq!(trace_counters(&trace), TraceCounters::default());
}

#[test]
fn interrupt_latency_is_sampled_once_per_arming() {
    let mut probe = SchedIsrProbe::new();

    mark_sched_tick_to_pendsv_start(&mut probe, 100);
    record_sched_tick_to_pendsv_sample(&mut probe, 130);
    assert_eq!(sched_tick_to_pendsv_timing(&probe).samples, 0);

    mark_sched_tick_to_pendsv_start(&mut probe, 100);
    arm_sched_tick_to_pendsv_sample(&mut probe);
    record_sched_tick_to_pendsv_sample(&mut probe, 130);
    record_sched_tick_to_pendsv_sample(&mut probe, 190);
    let timing = sched_tick_to_pendsv_timing(&probe);
    assert_eq!(timing.samples, 1);
    assert_eq!(timing.last_ticks, 30);

    reset_sched_tick_to_pendsv_timing(&mut probe);
    assert_eq!(sched_tick_to_pendsv_timing(&probe).samples, 0);
}

#[test]
fn print_without_callback_is_ignored() {
    let mut printer = Printer::new();

    printer._print("hello");

    assert!(drain_text(&mut printer).is_empty());
}

#[test]
fn print_uses_registered_callback() {
    let mut printer = Printer::new();
    set_print_fn(&mut printer);

    printer._print("hello 42");

    assert_eq!(drain_text(&mut printer), ["hello 42"]);
}

#[test]
fn println_macro_prints_message_and_crlf() {
    let mut printer = Printer::new();
    set_print_fn(&mut printer);

    printer.println(DiagLine::Text { text: "tick 7" });

    assert_eq!(drain_text(&mut printer), ["tick 7", "\r\n"]);
    assert!(drain_text(&mut printer).is_empty());
}

#[test]
fn numbers_are_written_in_decimal() {
    for number in [0, 7, 10, 42, 1_000, u64::from(u32::MAX), u64::MAX] {
        let mut text = String::from("n=");
        put_number(&mut text, number);
        assert_eq!(text, format!("n={}", number));
    }
}

#[test]
fn every_line_has_its_text() {
    let timing = RtTiming::new(100, 40, 20);
    let cases = [
        (
            DiagLine::BudgetOverrun {
                name: "rt",
                runtime: 15,
                budget: 10,
            },
            "Budget overrun in thread 'rt': runtime 15 ticks exceeded budget 10 ticks",
        ),
        (
            DiagLine::DeadlineMiss {
                name: "rt",
                relative_deadline: 40,
                runtime: 45,
            },
            "Deadline miss in thread 'rt': timer expired at relative deadline 40 ticks (runtime 45 ticks)",
        ),
        (DiagLine::DeadlineMissHeader, "rt deadline miss diagnostics:"),
        (
            DiagLine::QueueHeader {
                now: 12,
                len: 3,
                first_active: Some("cfs"),
            },
            "ktimer queue statistics: now=12 len=3 first_active='cfs'",
        ),
        (
            DiagLine::Timer {
                marked: false,
                name: "wait",
                kind: KTimerKind::Wait,
                queued: true,
                deadline_at: 9,
                remaining: 8,
                active: false,
                misses: 7,
            },
            "    name='wait' kind=wait queued=yes deadline_at=9 remaining=8 active=no misses=7",
        ),
        (
            DiagLine::OrphanTiming { timing },
            "    rt timing: period=100 relative_deadline=40 budget=20 thread=<none>",
        ),
        (
            DiagLine::OwnedTiming {
                timing,
                thread_id: 3,
                state: ThreadState::Ready,
                runtime: 4,
            },
            "    rt timing: period=100 relative_deadline=40 budget=20 thread_id=3 thread_state=Ready runtime=4",
        ),
        (
            DiagLine::TimerAlreadyRemoved,
            "  * expired timer was already removed from the queue",
        ),
        (DiagLine::ThreadsHeader, "thread statistics:"),
        (
            DiagLine::NoThread {
                label: ThreadLabel::Current,
            },
            "  current: <none>",
        ),
        (DiagLine::CfsThreadsHeader, "  cfs threads:"),
        (DiagLine::WaitQueueHeader, "  wait queue:"),
        (DiagLine::Empty, "    <empty>"),
        (
            DiagLine::CfsThread {
                label: ThreadLabel::Cfs,
                id: 1,
                name: "shell",
                state: ThreadState::Running,
                priority: 2,
                sched_ticks: 30,
                vruntime: 4,
            },
            "    cfs: id=1 name='shell' class=cfs state=Running priority=2 sched_ticks=30 vruntime=4",
        ),
        (
            DiagLine::RtThreadWithoutTimer {
                label: ThreadLabel::Missed,
                id: 2,
                name: "rt",
                state: ThreadState::Ready,
                runtime: 6,
            },
            "  missed: id=2 name='rt' class=rt state=Ready runtime=6 ktimer=<none>",
        ),
        (
            DiagLine::RtThread {
                label: ThreadLabel::Current,
                id: 2,
                name: "rt",
                state: ThreadState::Running,
                runtime: 6,
                ktimer: "rt",
                deadline_at: 50,
                remaining: 40,
                active: true,
                misses: 0,
            },
            "  current: id=2 name='rt' class=rt state=Running runtime=6 ktimer='rt' deadline_at=50 remaining=40 active=yes misses=0",
        ),
        (
            DiagLine::WaitingThread {
                id: 5,
                name: "sleeper",
                is_cfs: true,
                state: ThreadState::Waiting,
                waited_runtime: None,
                wait_ticks: 11,
                waitevt: None,
            },
            "    wait: id=5 name='sleeper' class=cfs state=Waiting wait_ticks=11 waitevt=none",
        ),
        (
            DiagLine::WaitingThread {
                id: 6,
                name: "blocked",
                is_cfs: false,
                state: ThreadState::Waiting,
                waited_runtime: Some(3),
                wait_ticks: 12,
                waitevt: Some(SyncType::Mutex),
            },
            "    wait: id=6 name='blocked' class=rt state=Waiting runtime=3 wait_ticks=12 waitevt=mutex",
        ),
        (DiagLine::KTimerHeader, "ktimer queue:"),
        (
            DiagLine::KTimer {
                name: "cfs",
                remaining: 25,
                active: true,
            },
            "cfs ktimer's deadline=25, active=true",
        ),
    ];
    for (line, text) in cases {
        assert_eq!(render(&line), text);
    }
    assert_eq!(
        rtsched::render::sync_type_name(Some(SyncType::BinarySemaphore)),
        "binary-semaphore"
    );
    assert_eq!(
        rtsched::render::sync_type_name(Some(SyncType::CountingSemaphore)),
        "counting-semaphore"
    );
}
