//! A minimal, generic, priority-ordered event execution engine.
//!
//! The engine repeatedly pops the highest-priority pending event from a
//! queue, executes it against a mutable shared context, lets the execution
//! enqueue further events, and produces a final result once the queue is
//! drained.  Callers supply the concrete event type, its ordering, and the
//! context; the engine supplies the drive loop and the queue discipline.

mod events;
mod event_loop;
mod laws;
mod math;
mod order;
mod queue;

pub use event_loop::{execute, hook_step, run_from, safe_for, step_of, EventLoop};
pub use events::{Entity, Event};
pub use laws::{
    hooks_fold, lemma_context_threading, lemma_max_first, lemma_no_resurrection,
    lemma_run_from_suffix, lemma_total_work, produced_count, state_at,
};
pub use math::{
    countdown_pending, example_events, lemma_countdown_run, lemma_countdown_safe,
    lemma_example_run, lemma_example_safe, lemma_math_order, run_countdown, run_example, Countdown,
    MathEnt, MathLoop,
};
pub use order::{event_lt, is_max_of, valid_order};
pub use queue::EventQueue;
