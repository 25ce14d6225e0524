//! Compact in-memory storage for integer time series.
//!
//! Many independently updated integer metrics share one discretized time
//! axis: a monotonically increasing "age" counter held by a timestamp
//! series.  Each metric stores its most recent value directly and all the
//! older transitions in a compact delta buffer, so that a metric which is
//! not updated on every tick costs almost nothing.

use vstd::prelude::*;

pub mod mem;

verus! {

/// Measure the true size of objects.
pub trait ByteSize {
    /// Model of the reported footprint, in bytes.
    spec fn size_spec(&self) -> nat;

    /// Exact marginal memory footprint of this value: fixed fields plus the
    /// bytes currently consumed by stored history entries.
    fn size(&self) -> (r: usize)
        requires
            self.size_spec() <= usize::MAX as nat,
        ensures
            r as nat == self.size_spec(),
    ;
}

} // verus!
