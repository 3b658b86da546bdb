//! Runtime scheduler primitives for embedded applications.
//!
//! The crate provides the core pieces needed to create, queue, block, wake, and
//! context-switch application threads on a single microcontroller core. It
//! combines CFS-style background scheduling with soft real-time scheduling built
//! on kernel timers ordered by deadline.
//!
//! Board crates own the hardware setup: clocks, timer interrupts,
//! architecture-specific context-switch entry points and stack storage. A typical
//! board initializes the timer queue with `init_ktimer_queue`, configures CFS with
//! `init_cfs`, creates threads with their builders, registers an idle CFS thread
//! with `register_idle_thread`, and starts execution with `spawn_main_thread`.
//!
//! # Scheduling model
//!
//! - Fair threads use a red-black-tree run queue ordered by virtual runtime.
//! - Real-time threads use timers for deadline-based scheduling.
//! - Waiting threads move through a wait queue and can be resumed by timer expiry
//!   or scheduler wake-up paths.
//! - `handle_sched_tick` advances timers and requests dispatch from the
//!   target-specific context-switch path.
//!
//! # State
//!
//! The scheduler state is one value of type `Kernel`. What is read from hardware,
//! such as the elapsed part of a timer interval, is passed to the functions that
//! need it.
//!
//! A missed deadline of a real-time thread is fatal. The operation that finds it
//! counts, traces and reports it, records the thread in `Core::fault` and stops;
//! no further operation is allowed, and the program around the scheduler ends.

pub mod clock;
pub mod current;
pub mod diag;
pub mod dispatch;
pub mod kernel;
pub mod ktimer;
pub mod laws;
pub mod lifecycle;
pub mod list;
pub mod platform;
pub mod print;
pub mod rbtree;
pub mod render;
pub mod runq;
pub mod sched;
pub mod spawn;
pub mod sync;
pub mod thread;
pub mod timers;
pub mod trace;
pub mod waitq;

pub use clock::{sys_clk_freq, ticks_per_ms, update_sys_clk_freq, Clock};
pub use current::{
    current_rt_thread_runtime, current_thread, current_thread_id, msleepyi,
    set_rt_thread_start_time, yieldyi,
};
pub use kernel::{Core, Kernel};
pub use ktimer::{RtKTimer, RtTiming};
pub use platform::{
    critical_section, dwt_cycle_count, get_elapse_cycles, get_elapse_msec, get_elapse_msec_since,
    reset_elapse_counter, AlignedStack, ContextSwitchPort, CriticalSectionPort, CycleCounterPort,
    ElapseCounter, HostPlatform, InitialThreadContext, Platform, SchedulerTimerPort,
    ThreadStackPort,
};
pub use print::set_print_fn;
pub use runq::{dequeue_cfs_thread_to_waitq, traverse_run_queue_fn};
pub use sched::{
    can_schedule, handle_sched_tick, init_cfs, register_idle_thread, schedule, spawn_main_thread,
    traverse_idle_thread_fn,
};
pub use spawn::{
    forkyi, CfsThreadBuilder, RtThreadBuilder, ThreadControlBlock, ThreadEntry, ThreadStart,
    ThreadStorage,
};
pub use sync::{
    BinarySemaphore, CountingSemaphore, Mutex, MutexError, MutexGuard, SemaphoreError, SyncType,
};
pub use thread::{
    CfsThread, RtThread, SchedInfo, ThreadCtx, ThreadHandle, ThreadId, ThreadRef, ThreadSpawnError,
    ThreadState,
};
pub use timers::{
    dequeue_rt_thread_to_waitq, enqueue_rt_thread_from_waitq, init_ktimer_queue, is_active_ktimer,
    next_ktimer_reload, traverse_ktimer_queue, traverse_ktimer_queue_fn,
};
pub use trace::{
    clear_trace_fn, reset_trace_counters, set_trace_fn, trace_counters, TraceCounters, TraceEvent,
    TraceThread,
};
pub use waitq::{traverse_wait_queue_fn, WaitQueueError};
use vstd::prelude::*;

verus! {

/// Version of the crate.
pub const VERSION: &'static str = "0.1.0";

} // verus!
