//! The error kinds that the core distinguishes.
use vstd::prelude::*;

verus! {

/// The earliest instant at which a denied admission could succeed, in
/// nanoseconds on the timeline of the pool's clock.
#[derive(Clone, Copy, Debug, PartialEq, Eq, Structural)]
pub struct NotUntil {
    pub earliest_nanos: u64,
}

impl NotUntil {
    /// The earliest instant of a possible retry.
    pub fn earliest_possible(&self) -> (r: u64)
        ensures
            r == self.earliest_nanos,
    {
        self.earliest_nanos
    }
}

/// The failures of the core's own decisions.
#[derive(Clone, Copy, Debug, PartialEq, Eq, Structural)]
pub enum Web3ProxyError {
    /// No upstream is in sync.
    NoServers,
    /// The caller's deadline comes before the earliest possible admission.
    Deadline,
    /// A block lacks its hash, number or total difficulty.
    IncompleteBlock,
    /// A block above the current head was asked for.
    FutureBlock,
    /// A histogram could not take a value.
    Histogram,
}

} // verus!
