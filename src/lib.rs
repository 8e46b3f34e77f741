//! Converts raster images into tile-hardware data: a deduplicated 4bpp tile
//! atlas, a tile-index map and an RGB555 palette.
pub mod convert;
pub mod raster;
pub mod lemmas;
pub mod search;

use vstd::prelude::*;

verus! {

/// What went wrong while serialising or scanning.
#[derive(Debug, Clone, Copy, PartialEq, Eq, Structural)]
pub enum ErrorKind {
    /// A palette index that does not fit in four bits.
    TooManyColors { index: usize },
    /// An atlas index that does not fit in one byte.
    TooManyTiles { index: usize },
    /// A hardware-tile region of the scan reaches past the edge of the image.
    RegionOutOfBounds,
}

/// The error of every fallible operation of this library.
#[derive(Debug, Clone, Copy, PartialEq, Eq, Structural)]
pub struct Error {
    pub kind: ErrorKind,
}

impl Error {
    pub fn new(kind: ErrorKind) -> (r: Error)
        ensures
            r.kind == kind,
    {
        Error { kind }
    }
}

} // verus!
