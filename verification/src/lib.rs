//! A fine-grained reactive core: mutable signal slots, re-runnable effects, and
//! automatic dependency tracking.
//!
//! A signal is a slot in an append-only value store, addressed by a typed,
//! copyable handle. An effect is a re-runnable body; while it runs, every
//! signal it reads records it as a subscriber, and every later write to such a
//! signal re-runs it. The engine is single-threaded and synchronous: a write
//! propagates to completion before the call returns.
//!
//! The mathematical model of the engine is a deterministic small-step machine
//! (`machine`); every public operation's contract states which machine run the
//! operation performs, and `laws` proves the headline properties of that
//! machine: read-after-write, dependency registration, self-exclusion,
//! absence of spurious re-runs, and re-entrant nesting.

pub mod context;
pub mod laws;
pub mod machine;
pub mod types;
