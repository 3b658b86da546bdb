//! Text of the diagnostic output.

use crate::print::{DiagLine, KTimerKind, Printer, PrinterView, ThreadLabel};
use crate::sync::SyncType;
use crate::thread::ThreadState;
use vstd::prelude::*;
use vstd::string::StringExecFns;

verus! {

/// Text for the class of a timer.
pub open spec fn ktimer_kind_name_text(kind: KTimerKind) -> &'static str {
    match kind {
        KTimerKind::Cfs => "cfs",
        KTimerKind::Wait => "wait",
        KTimerKind::Rt => "rt",
    }
}

pub fn ktimer_kind_name(kind: KTimerKind) -> (text: &'static str)
    ensures
        text == ktimer_kind_name_text(kind),
{
    match kind {
        KTimerKind::Cfs => "cfs",
        KTimerKind::Wait => "wait",
        KTimerKind::Rt => "rt",
    }
}

/// Text for the state of a thread.
pub open spec fn thread_state_name_text(state: ThreadState) -> &'static str {
    match state {
        ThreadState::Ready => "Ready",
        ThreadState::Running => "Running",
        ThreadState::Waiting => "Waiting",
    }
}

pub fn thread_state_name(state: ThreadState) -> (text: &'static str)
    ensures
        text == thread_state_name_text(state),
{
    match state {
        ThreadState::Ready => "Ready",
        ThreadState::Running => "Running",
        ThreadState::Waiting => "Waiting",
    }
}

/// Text for the event that a thread waits for.
pub open spec fn sync_type_name_text(waitevt: Option<SyncType>) -> &'static str {
    match waitevt {
        Some(SyncType::BinarySemaphore) => "binary-semaphore",
        Some(SyncType::CountingSemaphore) => "counting-semaphore",
        Some(SyncType::Mutex) => "mutex",
        None => "none",
    }
}

pub fn sync_type_name(waitevt: Option<SyncType>) -> (text: &'static str)
    ensures
        text == sync_type_name_text(waitevt),
{
    match waitevt {
        Some(SyncType::BinarySemaphore) => "binary-semaphore",
        Some(SyncType::CountingSemaphore) => "counting-semaphore",
        Some(SyncType::Mutex) => "mutex",
        None => "none",
    }
}

/// Text for the role under which a thread is listed.
pub open spec fn label_name_text(label: ThreadLabel) -> &'static str {
    match label {
        ThreadLabel::Missed => "missed",
        ThreadLabel::Current => "current",
        ThreadLabel::Idle => "idle",
        ThreadLabel::Cfs => "cfs",
        ThreadLabel::Wait => "wait",
    }
}

pub fn label_name(label: ThreadLabel) -> (text: &'static str)
    ensures
        text == label_name_text(label),
{
    match label {
        ThreadLabel::Missed => "missed",
        ThreadLabel::Current => "current",
        ThreadLabel::Idle => "idle",
        ThreadLabel::Cfs => "cfs",
        ThreadLabel::Wait => "wait",
    }
}

/// Indentation of a thread: those of a list stand further to the right.
pub open spec fn label_indent_text(label: ThreadLabel) -> &'static str {
    match label {
        ThreadLabel::Missed => "  ",
        ThreadLabel::Current => "  ",
        ThreadLabel::Idle => "  ",
        ThreadLabel::Cfs => "    ",
        ThreadLabel::Wait => "    ",
    }
}

pub fn label_indent(label: ThreadLabel) -> (text: &'static str)
    ensures
        text == label_indent_text(label),
{
    match label {
        ThreadLabel::Missed => "  ",
        ThreadLabel::Current => "  ",
        ThreadLabel::Idle => "  ",
        ThreadLabel::Cfs => "    ",
        ThreadLabel::Wait => "    ",
    }
}

/// Text for a flag.
pub open spec fn yes_no_text(value: bool) -> &'static str {
    if value {
        "yes"
    } else {
        "no"
    }
}

pub fn yes_no(value: bool) -> (text: &'static str)
    ensures
        text == yes_no_text(value),
{
    if value {
        "yes"
    } else {
        "no"
    }
}

/// Text for a truth value.
pub open spec fn true_false_text(value: bool) -> &'static str {
    if value {
        "true"
    } else {
        "false"
    }
}

pub fn true_false(value: bool) -> (text: &'static str)
    ensures
        text == true_false_text(value),
{
    if value {
        "true"
    } else {
        "false"
    }
}

/// The timer that missed its deadline is marked.
pub open spec fn marker_text(value: bool) -> &'static str {
    if value {
        "*"
    } else {
        " "
    }
}

pub fn marker(value: bool) -> (text: &'static str)
    ensures
        text == marker_text(value),
{
    if value {
        "*"
    } else {
        " "
    }
}

/// Text for the scheduler class of a thread.
pub open spec fn class_name_text(value: bool) -> &'static str {
    if value {
        "cfs"
    } else {
        "rt"
    }
}

pub fn class_name(value: bool) -> (text: &'static str)
    ensures
        text == class_name_text(value),
{
    if value {
        "cfs"
    } else {
        "rt"
    }
}

/// Name of a timer, if there is one.
pub open spec fn name_or_none_text(name: Option<&'static str>) -> &'static str {
    match name {
        Some(name) => name,
        None => "<none>",
    }
}

pub fn name_or_none(name: Option<&'static str>) -> (text: &'static str)
    ensures
        text == name_or_none_text(name),
{
    match name {
        Some(name) => name,
        None => "<none>",
    }
}

/// Character of a decimal digit.
pub open spec fn digit(d: nat) -> char {
    (48 + d) as char
}

/// A number in decimal notation, without leading zeros.
pub open spec fn decimal(number: nat) -> Seq<char>
    decreases number,
{
    if number < 10 {
        seq![digit(number)]
    } else {
        decimal(number / 10).push(digit(number % 10))
    }
}

fn digit_text(d: u64) -> (text: &'static str)
    requires
        d < 10,
    ensures
        text@ == seq![digit(d as nat)],
{
    match d {
        0 => {
            proof {
                reveal_strlit("0");
            }
            "0"
        },
        1 => {
            proof {
                reveal_strlit("1");
            }
            "1"
        },
        2 => {
            proof {
                reveal_strlit("2");
            }
            "2"
        },
        3 => {
            proof {
                reveal_strlit("3");
            }
            "3"
        },
        4 => {
            proof {
                reveal_strlit("4");
            }
            "4"
        },
        5 => {
            proof {
                reveal_strlit("5");
            }
            "5"
        },
        6 => {
            proof {
                reveal_strlit("6");
            }
            "6"
        },
        7 => {
            proof {
                reveal_strlit("7");
            }
            "7"
        },
        8 => {
            proof {
                reveal_strlit("8");
            }
            "8"
        },
        _ => {
            proof {
                reveal_strlit("9");
            }
            "9"
        },
    }
}

/// Appends a number in decimal notation.
pub fn put_number(out: &mut String, number: u64)
    ensures
        final(out)@ == old(out)@ + decimal(number as nat),
    decreases number,
{
    let ghost before = out@;
    if number >= 10 {
        put_number(out, number / 10);
    }
    out.append(digit_text(number % 10));
    proof {
        if number >= 10 {
            assert(before + decimal((number / 10) as nat) + seq![digit((number % 10) as nat)]
                =~= before + decimal(number as nat));
        }
    }
}

impl DiagLine {
    /// Text of the line.
    pub open spec fn text(self) -> Seq<char> {
        match self {
            DiagLine::Fragment { text } => text@,
            DiagLine::Text { text } => text@,
            DiagLine::BudgetOverrun { name, runtime, budget } => "Budget overrun in thread '"@
                + name@
                + "': runtime "@
                + decimal(runtime as nat)
                + " ticks exceeded budget "@
                + decimal(budget as nat)
                + " ticks"@,
            DiagLine::DeadlineMiss { name, relative_deadline, runtime } => "Deadline miss in thread '"@
                + name@
                + "': timer expired at relative deadline "@
                + decimal(relative_deadline as nat)
                + " ticks (runtime "@
                + decimal(runtime as nat)
                + " ticks)"@,
            DiagLine::DeadlineMissHeader => "rt deadline miss diagnostics:"@,
            DiagLine::QueueHeader { now, len, first_active } => "ktimer queue statistics: now="@
                + decimal(now as nat)
                + " len="@
                + decimal(len as nat)
                + " first_active='"@
                + name_or_none_text(first_active)@
                + "'"@,
            DiagLine::Timer { marked, name, kind, queued, deadline_at, remaining, active, misses } => "  "@
                + marker_text(marked)@
                + " name='"@
                + name@
                + "' kind="@
                + ktimer_kind_name_text(kind)@
                + " queued="@
                + yes_no_text(queued)@
                + " deadline_at="@
                + decimal(deadline_at as nat)
                + " remaining="@
                + decimal(remaining as nat)
                + " active="@
                + yes_no_text(active)@
                + " misses="@
                + decimal(misses as nat),
            DiagLine::OrphanTiming { timing } => "    rt timing: period="@
                + decimal(timing.period_ticks as nat)
                + " relative_deadline="@
                + decimal(timing.relative_deadline_ticks as nat)
                + " budget="@
                + decimal(timing.budget_ticks as nat)
                + " thread=<none>"@,
            DiagLine::OwnedTiming { timing, thread_id, state, runtime } => "    rt timing: period="@
                + decimal(timing.period_ticks as nat)
                + " relative_deadline="@
                + decimal(timing.relative_deadline_ticks as nat)
                + " budget="@
                + decimal(timing.budget_ticks as nat)
                + " thread_id="@
                + decimal(thread_id as nat)
                + " thread_state="@
                + thread_state_name_text(state)@
                + " runtime="@
                + decimal(runtime as nat),
            DiagLine::TimerAlreadyRemoved => "  * expired timer was already removed from the queue"@,
            DiagLine::ThreadsHeader => "thread statistics:"@,
            DiagLine::NoThread { label } => "  "@
                + label_name_text(label)@
                + ": <none>"@,
            DiagLine::CfsThreadsHeader => "  cfs threads:"@,
            DiagLine::WaitQueueHeader => "  wait queue:"@,
            DiagLine::Empty => "    <empty>"@,
            DiagLine::CfsThread { label, id, name, state, priority, sched_ticks, vruntime } => label_indent_text(label)@
                + label_name_text(label)@
                + ": id="@
                + decimal(id as nat)
                + " name='"@
                + name@
                + "' class=cfs state="@
                + thread_state_name_text(state)@
                + " priority="@
                + decimal(priority as nat)
                + " sched_ticks="@
                + decimal(sched_ticks as nat)
                + " vruntime="@
                + decimal(vruntime as nat),
            DiagLine::RtThreadWithoutTimer { label, id, name, state, runtime } => label_indent_text(label)@
                + label_name_text(label)@
                + ": id="@
                + decimal(id as nat)
                + " name='"@
                + name@
                + "' class=rt state="@
                + thread_state_name_text(state)@
                + " runtime="@
                + decimal(runtime as nat)
                + " ktimer=<none>"@,
            DiagLine::RtThread { label, id, name, state, runtime, ktimer, deadline_at, remaining, active, misses } => label_indent_text(label)@
                + label_name_text(label)@
                + ": id="@
                + decimal(id as nat)
                + " name='"@
                + name@
                + "' class=rt state="@
                + thread_state_name_text(state)@
                + " runtime="@
                + decimal(runtime as nat)
                + " ktimer='"@
                + ktimer@
                + "' deadline_at="@
                + decimal(deadline_at as nat)
                + " remaining="@
                + decimal(remaining as nat)
                + " active="@
                + yes_no_text(active)@
                + " misses="@
                + decimal(misses as nat),
            DiagLine::WaitingThread { id, name, is_cfs, state, waited_runtime: Some(ran), wait_ticks, waitevt } => "    wait: id="@
                + decimal(id as nat)
                + " name='"@
                + name@
                + "' class="@
                + class_name_text(is_cfs)@
                + " state="@
                + thread_state_name_text(state)@
                + " runtime="@
                + decimal(ran as nat)
                + " wait_ticks="@
                + decimal(wait_ticks as nat)
                + " waitevt="@
                + sync_type_name_text(waitevt)@,
            DiagLine::WaitingThread { id, name, is_cfs, state, waited_runtime: None, wait_ticks, waitevt } => "    wait: id="@
                + decimal(id as nat)
                + " name='"@
                + name@
                + "' class="@
                + class_name_text(is_cfs)@
                + " state="@
                + thread_state_name_text(state)@
                + " wait_ticks="@
                + decimal(wait_ticks as nat)
                + " waitevt="@
                + sync_type_name_text(waitevt)@,
            DiagLine::KTimerHeader => "ktimer queue:"@,
            DiagLine::KTimer { name, remaining, active } => name@
                + " ktimer's deadline="@
                + decimal(remaining as nat)
                + ", active="@
                + true_false_text(active)@,
        }
    }
}

/// Text of a line of diagnostic output.
pub fn render(line: &DiagLine) -> (text: String)
    ensures
        text@ == line.text(),
{
    match line {
        DiagLine::Fragment { text } => (*text).to_owned(),
        DiagLine::Text { text } => (*text).to_owned(),
        DiagLine::BudgetOverrun { name, runtime, budget } => {
            let mut out: String = "Budget overrun in thread '".to_owned();
            out.append(name);
            out.append("': runtime ");
            put_number(&mut out, *runtime as u64);
            out.append(" ticks exceeded budget ");
            put_number(&mut out, *budget as u64);
            out.append(" ticks");
            out
        },
        DiagLine::DeadlineMiss { name, relative_deadline, runtime } => {
            let mut out: String = "Deadline miss in thread '".to_owned();
            out.append(name);
            out.append("': timer expired at relative deadline ");
            put_number(&mut out, *relative_deadline as u64);
            out.append(" ticks (runtime ");
            put_number(&mut out, *runtime as u64);
            out.append(" ticks)");
            out
        },
        DiagLine::DeadlineMissHeader => {
            "rt deadline miss diagnostics:".to_owned()
        },
        DiagLine::QueueHeader { now, len, first_active } => {
            let mut out: String = "ktimer queue statistics: now=".to_owned();
            put_number(&mut out, *now as u64);
            out.append(" len=");
            put_number(&mut out, *len as u64);
            out.append(" first_active='");
            out.append(name_or_none(*first_active));
            out.append("'");
            out
        },
        DiagLine::Timer { marked, name, kind, queued, deadline_at, remaining, active, misses } => {
            let mut out: String = "  ".to_owned();
            out.append(marker(*marked));
            out.append(" name='");
            out.append(name);
            out.append("' kind=");
            out.append(ktimer_kind_name(*kind));
            out.append(" queued=");
            out.append(yes_no(*queued));
            out.append(" deadline_at=");
            put_number(&mut out, *deadline_at as u64);
            out.append(" remaining=");
            put_number(&mut out, *remaining as u64);
            out.append(" active=");
            out.append(yes_no(*active));
            out.append(" misses=");
            put_number(&mut out, *misses as u64);
            out
        },
        DiagLine::OrphanTiming { timing } => {
            let mut out: String = "    rt timing: period=".to_owned();
            put_number(&mut out, timing.period_ticks as u64);
            out.append(" relative_deadline=");
            put_number(&mut out, timing.relative_deadline_ticks as u64);
            out.append(" budget=");
            put_number(&mut out, timing.budget_ticks as u64);
            out.append(" thread=<none>");
            out
        },
        DiagLine::OwnedTiming { timing, thread_id, state, runtime } => {
            let mut out: String = "    rt timing: period=".to_owned();
            put_number(&mut out, timing.period_ticks as u64);
            out.append(" relative_deadline=");
            put_number(&mut out, timing.relative_deadline_ticks as u64);
            out.append(" budget=");
            put_number(&mut out, timing.budget_ticks as u64);
            out.append(" thread_id=");
            put_number(&mut out, *thread_id as u64);
            out.append(" thread_state=");
            out.append(thread_state_name(*state));
            out.append(" runtime=");
            put_number(&mut out, *runtime as u64);
            out
        },
        DiagLine::TimerAlreadyRemoved => {
            "  * expired timer was already removed from the queue".to_owned()
        },
        DiagLine::ThreadsHeader => {
            "thread statistics:".to_owned()
        },
        DiagLine::NoThread { label } => {
            let mut out: String = "  ".to_owned();
            out.append(label_name(*label));
            out.append(": <none>");
            out
        },
        DiagLine::CfsThreadsHeader => {
            "  cfs threads:".to_owned()
        },
        DiagLine::WaitQueueHeader => {
            "  wait queue:".to_owned()
        },
        DiagLine::Empty => {
            "    <empty>".to_owned()
        },
        DiagLine::CfsThread { label, id, name, state, priority, sched_ticks, vruntime } => {
            let mut out: String = label_indent(*label).to_owned();
            out.append(label_name(*label));
            out.append(": id=");
            put_number(&mut out, *id as u64);
            out.append(" name='");
            out.append(name);
            out.append("' class=cfs state=");
            out.append(thread_state_name(*state));
            out.append(" priority=");
            put_number(&mut out, *priority as u64);
            out.append(" sched_ticks=");
            put_number(&mut out, *sched_ticks as u64);
            out.append(" vruntime=");
            put_number(&mut out, *vruntime as u64);
            out
        },
        DiagLine::RtThreadWithoutTimer { label, id, name, state, runtime } => {
            let mut out: String = label_indent(*label).to_owned();
            out.append(label_name(*label));
            out.append(": id=");
            put_number(&mut out, *id as u64);
            out.append(" name='");
            out.append(name);
            out.append("' class=rt state=");
            out.append(thread_state_name(*state));
            out.append(" runtime=");
            put_number(&mut out, *runtime as u64);
            out.append(" ktimer=<none>");
            out
        },
        DiagLine::RtThread { label, id, name, state, runtime, ktimer, deadline_at, remaining, active, misses } => {
            let mut out: String = label_indent(*label).to_owned();
            out.append(label_name(*label));
            out.append(": id=");
            put_number(&mut out, *id as u64);
            out.append(" name='");
            out.append(name);
            out.append("' class=rt state=");
            out.append(thread_state_name(*state));
            out.append(" runtime=");
            put_number(&mut out, *runtime as u64);
            out.append(" ktimer='");
            out.append(ktimer);
            out.append("' deadline_at=");
            put_number(&mut out, *deadline_at as u64);
            out.append(" remaining=");
            put_number(&mut out, *remaining as u64);
            out.append(" active=");
            out.append(yes_no(*active));
            out.append(" misses=");
            put_number(&mut out, *misses as u64);
            out
        },
        DiagLine::WaitingThread { id, name, is_cfs, state, waited_runtime: Some(ran), wait_ticks, waitevt } => {
            let mut out: String = "    wait: id=".to_owned();
            put_number(&mut out, *id as u64);
            out.append(" name='");
            out.append(name);
            out.append("' class=");
            out.append(class_name(*is_cfs));
            out.append(" state=");
            out.append(thread_state_name(*state));
            out.append(" runtime=");
            put_number(&mut out, *ran as u64);
            out.append(" wait_ticks=");
            put_number(&mut out, *wait_ticks as u64);
            out.append(" waitevt=");
            out.append(sync_type_name(*waitevt));
            out
        },
        DiagLine::WaitingThread { id, name, is_cfs, state, waited_runtime: None, wait_ticks, waitevt } => {
            let mut out: String = "    wait: id=".to_owned();
            put_number(&mut out, *id as u64);
            out.append(" name='");
            out.append(name);
            out.append("' class=");
            out.append(class_name(*is_cfs));
            out.append(" state=");
            out.append(thread_state_name(*state));
            out.append(" wait_ticks=");
            put_number(&mut out, *wait_ticks as u64);
            out.append(" waitevt=");
            out.append(sync_type_name(*waitevt));
            out
        },
        DiagLine::KTimerHeader => {
            "ktimer queue:".to_owned()
        },
        DiagLine::KTimer { name, remaining, active } => {
            let mut out: String = (*name).to_owned();
            out.append(" ktimer's deadline=");
            put_number(&mut out, *remaining as u64);
            out.append(", active=");
            out.append(true_false(*active));
            out
        },
    }
}

/// End of a line of diagnostic output.
pub const END_OF_LINE: &'static str = "\r\n";

impl DiagLine {
    /// What the print callback receives of the line: its text and its end.
    pub open spec fn pieces(self) -> Seq<Seq<char>> {
        if self is Fragment {
            seq![self.text()]
        } else {
            seq![self.text(), END_OF_LINE@]
        }
    }
}

/// What the print callback receives of the lines, in order.
pub open spec fn all_pieces(lines: Seq<DiagLine>) -> Seq<Seq<char>>
    decreases lines.len(),
{
    if lines.len() == 0 {
        Seq::empty()
    } else {
        all_pieces(lines.drop_last()) + lines.last().pieces()
    }
}

/// Contents of the strings.
pub open spec fn views(strings: Seq<String>) -> Seq<Seq<char>> {
    Seq::new(strings.len(), |k: int| strings[k]@)
}

/// Empties the outbox. The result is what the print callback receives.
pub fn drain_text(printer: &mut Printer) -> (pieces: Vec<String>)
    ensures
        final(printer)@ == (PrinterView { lines: Seq::empty(), ..old(printer)@ }),
        views(pieces@) == all_pieces(old(printer)@.lines),
{
    let ghost lines = printer.lines@;
    let mut pieces: Vec<String> = Vec::new();
    let mut k: usize = 0;
    while k < printer.lines.len()
        invariant
            k <= printer.lines.len(),
            printer.lines@ == lines,
            views(pieces@) == all_pieces(lines.take(k as int)),
        decreases printer.lines.len() - k,
    {
        let ghost before = views(pieces@);
        let line: DiagLine = printer.lines[k];
        pieces.push(render(&line));
        let ends: bool = match line {
            DiagLine::Fragment { .. } => false,
            _ => true,
        };
        if ends {
            pieces.push(END_OF_LINE.to_owned());
        }
        proof {
            assert(lines.take(k + 1).drop_last() =~= lines.take(k as int));
            assert(lines.take(k + 1).last() == line);
            assert(views(pieces@) =~= before + line.pieces());
        }
        k = k + 1;
    }
    assert(lines.take(k as int) =~= lines);
    printer.lines = Vec::new();
    pieces
}

} // verus!
