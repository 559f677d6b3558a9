//! Photomosaic construction: partition a target image into a grid of square
//! blocks, average each block's color, match every block against a catalog of
//! square-cropped source images by nearest average color, and compose the
//! matched tiles into an output canvas.

use vstd::prelude::*;

pub mod average;
pub mod catalog;
pub mod compose;
pub mod grid;
pub mod matcher;
pub mod mosaic;
pub mod pixel;

verus! {

/// The failures the pipeline can surface.
#[derive(Clone, Copy, Debug, PartialEq, Eq, Structural)]
pub enum MosaicError {
    /// The target image could not be decoded.
    DecodeError,
    /// A zero block side was requested for the grid.
    InvalidBlockSize,
    /// A source image for the catalog could not be decoded.
    SourceReadError,
    /// A tile placement would exceed the canvas bounds.
    OutOfBoundsWrite,
    /// The finished canvas could not be encoded.
    EncodeError,
    /// The finished canvas could not be written out.
    WriteError,
}

} // verus!
