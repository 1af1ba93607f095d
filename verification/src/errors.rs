//! Fatal conditions the aggregation core can report.

use vstd::prelude::*;

verus! {

/// Failure kinds of the engine.  Every one of them is fatal to the stream
/// it arises on: the caller is expected to stop the computation.
#[derive(Clone, Copy, Debug, PartialEq, Eq, Structural)]
pub enum EngineError {
    /// Decimal arithmetic left the representable range in a reduction.
    Overflow,
    /// A retraction named a trade that is not present at its key (it would
    /// drive a multiplicity negative).
    MissingTrade,
    /// The configuration was rejected (a window length of zero would make a
    /// feedback summary of zero).
    BadConfig,
}

} // verus!
