//! The prepare stage of the pipeline: turning a source image into the
//! representation the detector works on, such as a binarized raster.

use vstd::prelude::*;

verus! {

/// The prepare capability of the pipeline: what an implementation turns
/// a source image into, and the method that computes it.
pub trait Prepare<IMG, PREPD> {
    /// The prepared image an implementation produces from a source; an
    /// implementation that states nothing of itself leaves it
    /// unspecified.
    open spec fn prepare_spec(&self, source: IMG) -> PREPD {
        vstd::pervasive::arbitrary()
    }

    /// Turns the source image into the prepared representation.
    fn prepare(&self, source: &IMG) -> (r: PREPD)
        ensures
            r == self.prepare_spec(*source),
    ;
}

} // verus!
