//! Point-cloud logic for LAS files: a point model with format capabilities,
//! format adaptation, a KD-tree nearest-neighbour index over integer record
//! coordinates, and nearest-neighbour attribute transfer.
use vstd::prelude::*;

pub mod point;
pub mod spatial_index;
pub mod convert;
pub mod transfer;

verus! {

} // verus!
