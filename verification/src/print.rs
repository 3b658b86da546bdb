//! Diagnostic output of the scheduler.
//!
//! The scheduler writes its diagnostics as structured lines. While a print
//! callback is registered they go to an outbox, from which the board hands the
//! text of each line to the callback.

use crate::ktimer::RtTiming;
use crate::sync::SyncType;
use crate::thread::ThreadState;
use vstd::prelude::*;

verus! {

/// Class of a kernel timer.
#[derive(Clone, Copy, Debug, PartialEq, Eq, Structural)]
pub enum KTimerKind {
    Cfs,
    Wait,
    Rt,
}

/// Role under which a thread is listed.
#[derive(Clone, Copy, Debug, PartialEq, Eq, Structural)]
pub enum ThreadLabel {
    Missed,
    Current,
    Idle,
    Cfs,
    Wait,
}

/// One line of diagnostic output.
#[derive(Clone, Copy, Debug, PartialEq, Eq)]
pub enum DiagLine {
    /// Text of the application, which does not end the line.
    Fragment { text: &'static str },
    /// Line of the application.
    Text { text: &'static str },
    BudgetOverrun { name: &'static str, runtime: u32, budget: u32 },
    DeadlineMiss { name: &'static str, relative_deadline: u32, runtime: u32 },
    DeadlineMissHeader,
    QueueHeader { now: u64, len: usize, first_active: Option<&'static str> },
    Timer {
        marked: bool,
        name: &'static str,
        kind: KTimerKind,
        queued: bool,
        deadline_at: u64,
        remaining: u32,
        active: bool,
        misses: u32,
    },
    OrphanTiming { timing: RtTiming },
    OwnedTiming { timing: RtTiming, thread_id: u32, state: ThreadState, runtime: u32 },
    TimerAlreadyRemoved,
    ThreadsHeader,
    NoThread { label: ThreadLabel },
    CfsThreadsHeader,
    WaitQueueHeader,
    Empty,
    CfsThread {
        label: ThreadLabel,
        id: u32,
        name: &'static str,
        state: ThreadState,
        priority: u32,
        sched_ticks: u64,
        vruntime: u64,
    },
    RtThreadWithoutTimer {
        label: ThreadLabel,
        id: u32,
        name: &'static str,
        state: ThreadState,
        runtime: u32,
    },
    RtThread {
        label: ThreadLabel,
        id: u32,
        name: &'static str,
        state: ThreadState,
        runtime: u32,
        ktimer: &'static str,
        deadline_at: u64,
        remaining: u32,
        active: bool,
        misses: u32,
    },
    WaitingThread {
        id: u32,
        name: &'static str,
        is_cfs: bool,
        state: ThreadState,
        waited_runtime: Option<u32>,
        wait_ticks: u32,
        waitevt: Option<SyncType>,
    },
    KTimerHeader,
    KTimer { name: &'static str, remaining: u32, active: bool },
}

/// Abstract state of the diagnostic output.
#[verifier::ext_equal]
pub struct PrinterView {
    pub enabled: bool,
    pub lines: Seq<DiagLine>,
}

impl PrinterView {
    /// The lines reach the callback, if one is registered.
    pub open spec fn say(self, lines: Seq<DiagLine>) -> PrinterView {
        PrinterView {
            lines: if self.enabled { self.lines + lines } else { self.lines },
            ..self
        }
    }
}

/// Callback registration and outbox of the diagnostic output.
pub struct Printer {
    pub enabled: bool,
    pub lines: Vec<DiagLine>,
}

impl View for Printer {
    type V = PrinterView;

    open spec fn view(&self) -> PrinterView {
        PrinterView { enabled: self.enabled, lines: self.lines@ }
    }
}

impl Printer {
    pub fn new() -> (printer: Self)
        ensures
            printer@ == (PrinterView { enabled: false, lines: Seq::empty() }),
    {
        Printer { enabled: false, lines: Vec::new() }
    }

    /// Writes one line, if a callback is registered.
    pub fn println(&mut self, line: DiagLine)
        ensures
            final(self)@ == old(self)@.say(seq![line]),
    {
        if self.enabled {
            self.lines.push(line);
        }
        assert(self.lines@ =~= old(self)@.say(seq![line]).lines);
    }

    /// Writes text that does not end the line, if a callback is registered.
    pub fn _print(&mut self, text: &'static str)
        ensures
            final(self)@ == old(self)@.say(seq![DiagLine::Fragment { text }]),
    {
        self.println(DiagLine::Fragment { text });
    }

    /// Writes the lines in order, if a callback is registered.
    pub fn print_all(&mut self, lines: &Vec<DiagLine>)
        ensures
            final(self)@ == old(self)@.say(lines@),
    {
        let mut k: usize = 0;
        while k < lines.len()
            invariant
                k <= lines.len(),
                self@ == old(self)@.say(lines@.take(k as int)),
            decreases lines.len() - k,
        {
            self.println(lines[k]);
            assert(self@ =~= old(self)@.say(lines@.take(k + 1))) by {
                assert(lines@.take(k as int) + seq![lines@[k as int]] =~= lines@.take(k + 1));
            }
            k = k + 1;
        }
        assert(lines@.take(k as int) =~= lines@);
    }
}

/// A print callback is registered: from now on diagnostics go to the outbox.
pub fn set_print_fn(printer: &mut Printer)
    ensures
        final(printer)@ == (PrinterView { enabled: true, ..old(printer)@ }),
{
    printer.enabled = true;
}

} // verus!
