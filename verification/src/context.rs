//! What accompanies a request besides its message.

use vstd::prelude::*;

use crate::fd::NoFds;
use crate::trace;

verus! {

/// The context in which a request is made.
#[derive(Debug, Clone, Copy, PartialEq, Eq, Structural)]
pub struct Context {
    /// How many milliseconds the request may still take.
    pub deadline_millis: u64,
    /// The trace that the request is part of.
    pub trace_context: trace::Context,
}

impl NoFds for Context {

}

} // verus!
