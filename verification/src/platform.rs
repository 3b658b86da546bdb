//! Platform interface used by the scheduler core.
//!
//! The interface is split into small capability traits so that a port can
//! replace a timer, a cycle counter, the critical-section primitive or the
//! context-switch backend without touching the timer-queue logic.

use crate::clock::msec_from_cycles;
use vstd::prelude::*;

verus! {

pub const SCHEDULER_TIMER_RELOAD_BITS: u32 = 24;

pub const SCHEDULER_TIMER_RELOAD_MIN: u32 = 1;

pub const SCHEDULER_TIMER_RELOAD_MAX: u32 = 0x00ff_ffff;

pub const THREAD_STACK_ALIGNMENT: usize = 8;

pub const THREAD_INITIAL_FRAME_WORDS: usize = 16;

pub const INITIAL_XPSR_THUMB_STATE: u32 = 0x0100_0000;

pub const EXC_RETURN_THREAD_MODE_PSP: u32 = 0xFFFF_FFFD;

/// 8-byte aligned stack storage for platform thread contexts.
///
/// The words are the stack from its lowest address up; the address of the first
/// word is passed beside the storage wherever an address is needed.
pub struct AlignedStack<const N: usize>(pub [u32; N]);

impl<const N: usize> AlignedStack<N> {
    /// Address one past the last word of the stack whose first word is at `base`.
    pub fn top(&self, base: usize) -> (top: usize)
        requires
            base + 4 * N <= usize::MAX,
            (base + 4 * N) % (THREAD_STACK_ALIGNMENT as int) == 0,
        ensures
            top == base + 4 * N,
    {
        base + 4 * N
    }
}

/// Initial thread context produced by a platform stack initializer.
#[derive(Clone, Copy, Debug, PartialEq, Eq, Structural)]
pub struct InitialThreadContext {
    pub sp: u32,
    pub exc_return: u32,
}

/// Index one past the highest word of the stack that an aligned frame may use.
pub open spec fn frame_top(words: int, base: int) -> int {
    if (base + 4 * words) % 8 == 0 {
        words
    } else {
        words - 1
    }
}

/// Word of the initial frame, counted from the top of the stack down: xPSR, pc,
/// lr, r12, r3, r2, r1, r0, then r11 down to r4.
pub open spec fn frame_word(depth: int, entry: usize, arg: usize) -> u32 {
    if depth == 1 {
        INITIAL_XPSR_THUMB_STATE
    } else if depth == 2 {
        entry as u32
    } else if depth == 3 {
        EXC_RETURN_THREAD_MODE_PSP
    } else if depth == 8 {
        arg as u32
    } else {
        0
    }
}

/// The stack after the initial frame was pushed below `top`.
pub open spec fn framed(words: Seq<u32>, top: int, entry: usize, arg: usize) -> Seq<u32> {
    Seq::new(
        words.len(),
        |i: int|
            if top - 16 <= i < top {
                frame_word(top - i, entry, arg)
            } else {
                words[i]
            },
    )
}

/// Builds the synthetic stack frame needed to start a scheduler thread.
pub trait ThreadStackPort {
    /// `base` is the address of the first word of the stack.
    fn init_thread_stack<const N: usize>(
        stack: &mut AlignedStack<N>,
        base: usize,
        entry: usize,
        arg: usize,
    ) -> (context: InitialThreadContext)
        requires
            base % 4 == 0,
            base + 4 * N <= usize::MAX,
            frame_top(N as int, base as int) >= THREAD_INITIAL_FRAME_WORDS,
        ensures
            final(stack).0@ == framed(
                old(stack).0@,
                frame_top(N as int, base as int),
                entry,
                arg,
            ),
            context.sp == (base + 4 * (frame_top(N as int, base as int) - 16)) as u32,
            context.exc_return == EXC_RETURN_THREAD_MODE_PSP,
    ;
}

/// Protects scheduler state from interrupt or thread interleaving.
pub trait CriticalSectionPort {
    fn critical_section<R, F: FnOnce() -> R>(f: F) -> (r: R)
        requires
            f.requires(()),
        ensures
            f.ensures((), r),
    ;
}

/// Provides the architecture context-switch request.
pub trait ContextSwitchPort {
    fn request_context_switch();
}

/// Provides the reloadable timer used by the kernel timer queue.
pub trait SchedulerTimerPort {
    /// Reload value that is programmed now, if the timer can be read.
    fn reload() -> (reload: Option<u32>)
        ensures
            reload is Some ==> reload->0 <= SCHEDULER_TIMER_RELOAD_MAX,
    ;

    /// Value of the down-counter, if the timer can be read.
    fn current() -> (current: Option<u32>)
        ensures
            current is Some ==> current->0 <= SCHEDULER_TIMER_RELOAD_MAX,
    ;

    /// Starts a new interval; returns whether there is a timer to program.
    fn program_reload(reload: u32) -> bool
        requires
            SCHEDULER_TIMER_RELOAD_MIN <= reload <= SCHEDULER_TIMER_RELOAD_MAX,
    ;
}

/// Provides a cycle counter used for elapsed-time diagnostics.
pub trait CycleCounterPort {
    fn cycle_count() -> u32;
}

/// Complete scheduler platform contract.
pub trait Platform: ThreadStackPort + CriticalSectionPort + ContextSwitchPort + SchedulerTimerPort + CycleCounterPort {

}

/// Fallback for builds without scheduler hardware.
pub struct HostPlatform;

impl ThreadStackPort for HostPlatform {
    fn init_thread_stack<const N: usize>(
        stack: &mut AlignedStack<N>,
        base: usize,
        entry: usize,
        arg: usize,
    ) -> (context: InitialThreadContext) {
        init_cortex_m_thread_stack(stack, base, entry, arg)
    }
}

impl CriticalSectionPort for HostPlatform {
    fn critical_section<R, F: FnOnce() -> R>(f: F) -> (r: R) {
        f()
    }
}

impl ContextSwitchPort for HostPlatform {
    fn request_context_switch() {
    }
}

impl SchedulerTimerPort for HostPlatform {
    fn reload() -> (reload: Option<u32>)
        ensures
            reload is None,
    {
        None
    }

    fn current() -> (current: Option<u32>)
        ensures
            current is None,
    {
        None
    }

    fn program_reload(reload: u32) -> (programmed: bool)
        ensures
            !programmed,
    {
        false
    }
}

impl CycleCounterPort for HostPlatform {
    fn cycle_count() -> (count: u32)
        ensures
            count == 0,
    {
        0
    }
}

impl Platform for HostPlatform {

}

/// Pushes the frame that the first restore of a thread consumes.
///
/// After the context switch restores r4-r11, exception return consumes the
/// standard hardware frame: r0, r1, r2, r3, r12, lr, pc, xPSR.
pub fn init_cortex_m_thread_stack<const N: usize>(
    stack: &mut AlignedStack<N>,
    base: usize,
    entry: usize,
    arg: usize,
) -> (context: InitialThreadContext)
    requires
        base % 4 == 0,
        base + 4 * N <= usize::MAX,
        frame_top(N as int, base as int) >= THREAD_INITIAL_FRAME_WORDS,
    ensures
        final(stack).0@ == framed(old(stack).0@, frame_top(N as int, base as int), entry, arg),
        context.sp == (base + 4 * (frame_top(N as int, base as int) - 16)) as u32,
        context.exc_return == EXC_RETURN_THREAD_MODE_PSP,
{
    let top: usize = if (base + 4 * N) % THREAD_STACK_ALIGNMENT == 0 {
        N
    } else {
        N - 1
    };
    let mut sp: usize = top;
    let ghost before = stack.0@;

    sp = sp - 1;
    stack.0[sp] = INITIAL_XPSR_THUMB_STATE;

    sp = sp - 1;
    stack.0[sp] = entry as u32;

    sp = sp - 1;
    stack.0[sp] = EXC_RETURN_THREAD_MODE_PSP;

    sp = sp - 1;
    stack.0[sp] = 0;

    let mut k: usize = 0;
    while k < 3
        invariant
            k <= 3,
            16 <= top <= N,
            sp == top - 4 - k,
            stack.0@.len() == N,
            before.len() == N,
            forall|i: int|
                0 <= i < N ==> #[trigger] stack.0@[i] == if sp <= i < top {
                    frame_word(top - i, entry, arg)
                } else {
                    before[i]
                },
        decreases 3 - k,
    {
        sp = sp - 1;
        stack.0[sp] = 0;
        k = k + 1;
    }

    sp = sp - 1;
    stack.0[sp] = arg as u32;

    let mut j: usize = 0;
    while j < 8
        invariant
            j <= 8,
            16 <= top <= N,
            sp == top - 8 - j,
            stack.0@.len() == N,
            before.len() == N,
            forall|i: int|
                0 <= i < N ==> #[trigger] stack.0@[i] == if sp <= i < top {
                    frame_word(top - i, entry, arg)
                } else {
                    before[i]
                },
        decreases 8 - j,
    {
        sp = sp - 1;
        stack.0[sp] = 0;
        j = j + 1;
    }
    assert(stack.0@ =~= framed(before, top as int, entry, arg));

    InitialThreadContext { sp: (base + 4 * sp) as u32, exc_return: EXC_RETURN_THREAD_MODE_PSP }
}

/// Builds the initial stack frame of a thread. The aligned top of the stack is
/// that of the storage.
pub fn init_thread_stack<const N: usize>(
    stack: &mut AlignedStack<N>,
    base: usize,
    entry: usize,
    arg: usize,
) -> (context: InitialThreadContext)
    requires
        base % 4 == 0,
        base + 4 * N <= usize::MAX,
        (base + 4 * N) % 8 == 0,
        N >= THREAD_INITIAL_FRAME_WORDS,
    ensures
        final(stack).0@ == framed(old(stack).0@, N as int, entry, arg),
        context.sp == (base + 4 * (N - 16)) as u32,
        context.exc_return == EXC_RETURN_THREAD_MODE_PSP,
{
    HostPlatform::init_thread_stack(stack, base, entry, arg)
}

/// Run `f` while scheduler state is protected from interrupt or thread
/// interleaving.
///
/// Calls may be nested.
pub fn critical_section<R, F: FnOnce() -> R>(f: F) -> (r: R)
    requires
        f.requires(()),
    ensures
        f.ensures((), r),
{
    HostPlatform::critical_section(f)
}

/// Elapsed cycles between two readings of the cycle counter.
///
/// The subtraction is wrapping, so the value is valid for intervals shorter
/// than one full wrap of the counter.
pub open spec fn cycles_between(start_cycle: u32, now_cycle: u32) -> u32 {
    if now_cycle >= start_cycle {
        (now_cycle - start_cycle) as u32
    } else {
        (0x1_0000_0000 + now_cycle - start_cycle) as u32
    }
}

/// Baseline of the elapsed-time counters.
#[derive(Clone, Copy, Debug, PartialEq, Eq, Structural)]
pub struct ElapseCounter {
    pub start_cycle: u32,
}

/// Current reading of the cycle counter: what the platform gives.
pub fn dwt_cycle_count<P: CycleCounterPort>() -> (count: u32)
    ensures
        call_ensures(P::cycle_count, (), count),
{
    P::cycle_count()
}

/// Reset the baseline used by `get_elapse_cycles` and `get_elapse_msec` to the
/// reading `now_cycle` of the cycle counter.
pub fn reset_elapse_counter(counter: &mut ElapseCounter, now_cycle: u32)
    ensures
        final(counter).start_cycle == now_cycle,
{
    counter.start_cycle = now_cycle;
}

/// Elapsed cycles since the last reset of the baseline.
pub fn get_elapse_cycles(counter: &ElapseCounter, now_cycle: u32) -> (cycles: u32)
    ensures
        cycles == cycles_between(counter.start_cycle, now_cycle),
{
    now_cycle.wrapping_sub(counter.start_cycle)
}

/// Elapsed milliseconds since the last reset of the baseline, on a clock of
/// `ticks_per_ms` cycles per millisecond.
pub fn get_elapse_msec(counter: &ElapseCounter, now_cycle: u32, ticks_per_ms: u32) -> (msec: u32)
    ensures
        msec == crate::clock::msec_of_cycles(
            cycles_between(counter.start_cycle, now_cycle),
            ticks_per_ms,
        ),
{
    msec_from_cycles(get_elapse_cycles(counter, now_cycle), ticks_per_ms)
}

/// Elapsed milliseconds since the cycle counter read `start_cycle`.
pub fn get_elapse_msec_since(start_cycle: u32, now_cycle: u32, ticks_per_ms: u32) -> (msec: u32)
    ensures
        msec == crate::clock::msec_of_cycles(cycles_between(start_cycle, now_cycle), ticks_per_ms),
{
    msec_from_cycles(now_cycle.wrapping_sub(start_cycle), ticks_per_ms)
}

} // verus!
