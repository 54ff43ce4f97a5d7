//! Where a request stands in a distributed trace.

use vstd::prelude::*;

use crate::fd::NoFds;

verus! {

/// The trace to which a request belongs, and its place in it.
#[derive(Debug, Clone, Copy, PartialEq, Eq, Structural)]
pub struct Context {
    /// The trace that the request is part of.
    pub trace_id: u128,
    /// The span that the request is part of.
    pub span_id: u64,
    /// Whether the trace is recorded.
    pub sampled: bool,
}

impl NoFds for Context {

}

} // verus!
