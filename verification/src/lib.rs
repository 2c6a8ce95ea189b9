//! A fine-grained reactive engine: signal cells with change notification,
//! dependency tracking, cached derived (memo) nodes, a batching effect
//! scheduler with a bounded flush pass, and a keyed list reconciler that
//! turns two keyed snapshots into an ordered sequence of edit operations.
//!
//! The engine is host-agnostic: a rendering layer drives it through the
//! `Runtime` methods and interprets the `Op` sequences produced by
//! `reconcile`; the engine itself performs no I/O.

pub mod error;
pub mod reconcile;
pub mod runtime;
