//! The detect stage of the pipeline: finding candidate symbols in a
//! prepared image and describing where each one sits.

use vstd::prelude::*;

verus! {

/// A point of the source raster, in pixel coordinates.
#[derive(Clone, Copy, Debug, PartialEq, Eq, Structural)]
pub struct Point {
    pub x: i32,
    pub y: i32,
}

/// Where a detected QR symbol sits: its three finder centers, the module
/// pitch in pixels, and the version its geometry implies.
#[derive(Clone, Copy, Debug, PartialEq, Eq, Structural)]
pub struct QRLocation {
    pub top_left: Point,
    pub top_right: Point,
    pub bottom_left: Point,
    pub module_size: u32,
    pub version: u32,
}

/// A detected symbol of any supported symbology.
#[derive(Clone, Copy, Debug, PartialEq, Eq, Structural)]
pub enum Location {
    QR(QRLocation),
}

/// The detect capability of the pipeline: what candidates an
/// implementation finds in a prepared image, and the method that finds
/// them.
pub trait Detect<PREPD> {
    /// The candidates an implementation reports for a prepared image;
    /// an implementation that states nothing of itself leaves it
    /// unspecified.
    open spec fn detect_spec(&self, prepared: PREPD) -> Seq<Location> {
        vstd::pervasive::arbitrary()
    }

    /// Finds every candidate symbol in the prepared image; an image
    /// without candidates yields the empty list.
    fn detect(&self, prepared: &PREPD) -> (r: Vec<Location>)
        ensures
            r@ == self.detect_spec(*prepared),
    ;
}

} // verus!
