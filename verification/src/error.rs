use vstd::prelude::*;

verus! {

/// Errors surfaced by the reactive runtime and the keyed reconciler.
///
/// All three are local, recoverable conditions: none of them leaves the
/// reactive graph in a corrupted state, and none is swallowed silently.
#[derive(Clone, Copy, Debug, PartialEq, Eq, Structural)]
pub enum ReactiveError {
    /// A flush pass exceeded its iteration bound: the effect graph keeps
    /// re-triggering itself. Fatal to that batch only; the graph stays
    /// usable for later batches.
    CycleExceeded,
    /// A keyed collection handed to the reconciler holds the same key twice.
    DuplicateKey,
    /// A read, write or run was attempted through a disposed handle.
    UseAfterDispose,
}

} // verus!
