//! Quadrat-count bookkeeping.
//!
//! A quadrat analysis partitions a bounding box into `nx * ny` rectangles
//! and counts the points falling in each.  The binning itself works on
//! planar coordinates and is carried out by the caller; this type holds
//! the grid shape and the per-point grid assignments.

use vstd::prelude::*;

verus! {

/// The grid of a quadrat analysis: its shape, and one grid-cell id per
/// binned point.
pub struct QuadStats {
    pub nx: usize,
    pub ny: usize,
    pub cells_grid_id: Vec<usize>,
}

impl QuadStats {
    /// A fresh grid with the default `10 * 10` shape and no points binned.
    pub fn new() -> (q: QuadStats)
        ensures
            q.nx == 10,
            q.ny == 10,
            q.cells_grid_id@.len() == 0,
    {
        QuadStats { nx: 10, ny: 10, cells_grid_id: Vec::new() }
    }
}

} // verus!
