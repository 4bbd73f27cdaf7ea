//! Aperture-9 rHEALPix cell identifiers, hierarchy, ordering and topology.
//!
//! The crate holds the exact, integer part of the rHEALPix discrete global
//! grid system: identifiers and their stable integer encodings, hierarchy
//! traversal, post-order, compaction and expansion of cell sets, planar edge
//! adjacency and grid disks.

use vstd::prelude::*;

pub mod cell;
pub mod cell_laws;
pub mod codec;
pub mod compaction;
pub mod dggs;
pub mod disk_rings;
pub mod edge_count;
pub mod edges;
pub mod error;
pub mod expansion;
pub mod expansion_size;
pub mod face;
pub mod grid;
pub mod keys;
pub mod numbering;
pub mod region;
pub mod text;
pub mod topology;
pub mod traversal_laws;

pub use cell::CellId;
pub use compaction::compact_cells;
pub use dggs::RhealpixDggs;
pub use error::{Error, Result};
pub use expansion::uncompact_cells;
pub use face::{CellShape, Direction, EllipsoidalDirection, Face, Region};

verus! {

/// Finest resolution supported by the stable 64-bit identifier encoding.
pub const MAX_RESOLUTION: u8 = 15;

} // verus!
