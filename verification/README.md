# rtsched

A runtime scheduler for threads on a single microcontroller core: earliest
deadline first for real-time threads, fair scheduling by virtual runtime for the
rest, sleeping, semaphores and mutexes with deadline inheritance. The scheduler is
verified with Verus.

## Layout

- `src/` is the verified library. Scheduler state is one value of type `Kernel`;
  threads and timers live in arenas and are named by slots.
  - `rbtree` and `list` are the intrusive containers.
  - `ktimer`, `dispatch` and `timers` are the timer queue and what happens when
    timers expire; `runq` and `waitq` are the run queue and the wait queue.
  - `sched` selects the thread to run; `spawn`, `thread` and `current` are the life
    of threads; `sync` holds semaphores and mutexes.
  - `clock`, `platform`, `trace`, `print`, `render` and `diag` are the clock, the
    platform ports, tracing and diagnostics.
  - `lifecycle` holds the laws that span operations.
- `tests/` runs the library.
- `app/` is the runtime for Cortex-M boards around the library: registers,
  exception handlers, callbacks.

## Reading the contracts

Each operation is described by a function on abstract states, such as
`KernelView::slept` for `msleepyi`, and its contract says that the state after the
call is that function of the state before. Laws are public proof functions over
those descriptions.

A missed deadline is fatal: the thread is recorded in `Core::fault`, and operations
that report errors return `WaitQueueError::DeadlineMiss`. No operation is allowed on a
stopped scheduler; the runtime in `app/` panics. `KTimerQueue::dispatch_expired` is for
queues without a missed deadline, `KTimerQueue::dispatch_until_miss` for all others.
