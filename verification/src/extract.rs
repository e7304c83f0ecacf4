//! The extract stage of the pipeline: sampling the module grid of one
//! detected symbol out of the prepared image.

use vstd::prelude::*;

verus! {

/// The extract capability of the pipeline: what data an implementation
/// samples for a detected symbol, and the method that samples it.
pub trait Extract<PREPD, LOC, DATA, ERROR> {
    /// The outcome an implementation produces for a location; an
    /// implementation that states nothing of itself leaves it
    /// unspecified.
    open spec fn extract_spec(&self, prepared: PREPD, loc: LOC) -> Result<DATA, ERROR> {
        vstd::pervasive::arbitrary()
    }

    /// Samples the symbol at the given location out of the prepared
    /// image.
    fn extract(&self, prepared: &PREPD, loc: LOC) -> (r: Result<DATA, ERROR>)
        ensures
            r == self.extract_spec(*prepared, loc),
    ;
}

} // verus!
