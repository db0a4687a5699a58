//! A placement: where, how large, how turned and in what colour a fragment
//! is stamped.

use vstd::prelude::*;
use crate::geometry::{origin, rotated_edge, stamp_edge, stamp_origin};
use crate::raster::Rgba;

verus! {

/// The parameters of one stamp.
///
/// `rotation` counts the angle in parts of a full turn: `rotation` out of
/// `u32::MAX`, clockwise. `size` is the edge of the silhouette before it is
/// turned, at least 1. `source` tells which vector source document draws the
/// fragment.
#[derive(Clone, Copy, Debug, PartialEq, Eq, Structural)]
pub struct Placement {
    pub source: usize,
    pub center_x: u32,
    pub center_y: u32,
    pub size: u32,
    pub rotation: u32,
    pub color: Rgba,
}

impl Placement {
    /// The silhouette has a size: at least 1.
    pub open spec fn well_formed(self) -> bool {
        self.size >= 1
    }

    /// The edge of the placement's stamp.
    pub open spec fn edge(self) -> nat {
        rotated_edge(self.size as nat)
    }

    /// The canvas column of the stamp's first column.
    pub open spec fn left(self) -> int {
        origin(self.center_x as int, self.edge())
    }

    /// The canvas row of the stamp's first row.
    pub open spec fn top(self) -> int {
        origin(self.center_y as int, self.edge())
    }

    /// The canvas column of the unturned silhouette's first column.
    pub open spec fn silhouette_left(self) -> int {
        self.center_x - self.size / 2
    }

    /// The canvas row of the unturned silhouette's first row.
    pub open spec fn silhouette_top(self) -> int {
        self.center_y - self.size / 2
    }

    /// The canvas coordinates of the first pixel of the placement's stamp,
    /// which centre the stamp at the placement's centre.
    pub fn stamp_corner(&self) -> (corner: (i64, i64))
        ensures
            corner.0 == self.left(),
            corner.1 == self.top(),
    {
        let edge: u64 = stamp_edge(self.size);
        (stamp_origin(self.center_x, edge), stamp_origin(self.center_y, edge))
    }

    /// The canvas coordinates of the first pixel of the silhouette as it
    /// lies before it is turned about the placement's centre.
    pub fn silhouette_corner(&self) -> (corner: (i64, i64))
        ensures
            corner.0 == self.silhouette_left(),
            corner.1 == self.silhouette_top(),
    {
        let half: i64 = (self.size / 2) as i64;
        ((self.center_x as i64) - half, (self.center_y as i64) - half)
    }
}

} // verus!
