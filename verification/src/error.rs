//! Errors returned by the rHEALPix core.

use vstd::prelude::*;

verus! {

/// Errors returned by the rHEALPix core.
#[derive(Debug, Clone, PartialEq)]
pub enum Error {
    /// A cell identifier could not be parsed or violates the aperture-9 rules.
    InvalidCellId(String),
    /// A traversal index lies outside the finite cell hierarchy.
    InvalidCellIndex {
        /// Invalid zero-based index.
        index: u64,
        /// Traversal order used to interpret the index.
        order: &'static str,
    },
    /// The requested resolution is outside the supported range.
    InvalidResolution(u8),
    /// A requested parent resolution is finer than the cell.
    InvalidParentResolution {
        /// Requested ancestor resolution.
        requested: u8,
        /// Resolution of the input cell.
        cell: u8,
    },
    /// A requested descendant resolution is coarser than the cell.
    InvalidDescendantResolution {
        /// Requested descendant resolution.
        requested: u8,
        /// Resolution of the input cell.
        cell: u8,
    },
    /// Two cells that must share a resolution do not.
    ResolutionMismatch {
        /// Resolution of the first cell.
        origin: u8,
        /// Resolution of the second cell.
        destination: u8,
    },
    /// A grid traversal distance is too large for the resolution.
    GridDistanceTooLarge {
        /// Requested edge-graph distance.
        requested: u32,
        /// Largest distance accepted at this resolution.
        maximum: u32,
    },
    /// Geographic input was non-finite or outside its valid range.
    InvalidCoordinate(String),
    /// A geometry (line or polygon) is degenerate or malformed.
    InvalidGeometry(String),
    /// A planar direction name was not one of left, right, down, or up.
    InvalidDirection(String),
    /// A geographic direction name is not valid for an ellipsoidal cell.
    InvalidEllipsoidalDirection(String),
    /// A densified boundary requested fewer than two points per edge.
    InvalidBoundaryPointCount(usize),
    /// Projected input does not lie inside the rHEALPix image.
    OutsideProjection,
    /// A bulk expansion would allocate an unreasonable number of cells.
    ExpansionTooLarge(u64),
    /// A boundary request would allocate an unreasonable number of points.
    BoundaryTooLarge(u64),
}

/// Convenient result alias for this crate.
pub type Result<T> = core::result::Result<T, Error>;

} // verus!
