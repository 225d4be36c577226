//! The integer part of a polygon navmesh: grid vertices and polygons given as
//! fixed-size runs of vertex indices.

use vstd::prelude::*;
use crate::contours::GridVertex;
use crate::region::RegionId;

verus! {

/// Marks an unused slot of a polygon's run of vertex indices.
pub const NO_INDEX: u16 = 0xffff;

/// Polygons over grid vertices. Polygon `i` is the run
/// `polygons[i * nvp .. (i + 1) * nvp]` of vertex indices, with
/// `nvp = max_vertices_per_polygon`; unused slots hold [`NO_INDEX`].
#[derive(Clone, Debug)]
pub struct PolygonNavmesh {
    /// The vertices, in cells (without the heightfield border).
    pub vertices: Vec<GridVertex>,
    /// The polygons' vertex indices, `max_vertices_per_polygon` per polygon.
    pub polygons: Vec<u16>,
    /// Region of each polygon.
    pub regions: Vec<RegionId>,
    /// Slots per polygon.
    pub max_vertices_per_polygon: u16,
    /// Size of the heightfield border the mesh was built with.
    pub border_size: u16,
}

impl PolygonNavmesh {
    /// Slots per polygon.
    pub open spec fn nvp(&self) -> int {
        self.max_vertices_per_polygon as int
    }

    /// Number of polygons.
    pub open spec fn count(&self) -> int {
        (self.polygons@.len() as int) / self.nvp()
    }

    /// Slot `j` of polygon `i`.
    pub open spec fn slot(&self, i: int, j: int) -> u16 {
        self.polygons@[i * self.nvp() + j]
    }

    /// Number of polygons.
    pub fn polygon_count(&self) -> (r: usize)
        requires
            self.max_vertices_per_polygon > 0,
        ensures
            r == self.count(),
    {
        self.polygons.len() / self.max_vertices_per_polygon as usize
    }

    /// Slots of polygon `i` lie inside `polygons`.
    pub proof fn lemma_slot_index(&self, i: int, j: int)
        requires
            self.nvp() > 0,
            0 <= i < self.count(),
            0 <= j < self.nvp(),
        ensures
            0 <= i * self.nvp() + j < self.polygons@.len(),
            0 <= i * self.nvp(),
    {
        let n = self.nvp();
        let len = self.polygons@.len() as int;
        vstd::arithmetic::div_mod::lemma_fundamental_div_mod(len, n);
        vstd::arithmetic::div_mod::lemma_mod_bound(len, n);
        assert(0 <= i * n && i * n + j < len) by (nonlinear_arith)
            requires
                0 <= i < len / n,
                0 <= j < n,
                len == n * (len / n) + len % n,
                0 <= len % n,
        ;
    }

    /// Index of the first unused slot of polygon `i` at `j` or later (`nvp`
    /// when there is none).
    pub open spec fn first_unused_from(&self, i: int, j: int) -> int
        decreases self.nvp() - j,
    {
        if j >= self.nvp() {
            self.nvp()
        } else if self.slot(i, j) == NO_INDEX {
            j
        } else {
            self.first_unused_from(i, j + 1)
        }
    }

    /// Number of vertices of polygon `i`: the slots before the first unused one.
    pub open spec fn poly_len(&self, i: int) -> int {
        self.first_unused_from(i, 0)
    }

    /// The slots before the first unused one are used.
    pub proof fn lemma_first_unused(&self, i: int, j: int)
        requires
            0 <= j <= self.nvp(),
        ensures
            j <= self.first_unused_from(i, j) <= self.nvp(),
            forall|t: int| j <= t < self.first_unused_from(i, j) ==> self.slot(i, t) != NO_INDEX,
            self.first_unused_from(i, j) < self.nvp() ==> self.slot(
                i,
                self.first_unused_from(i, j),
            ) == NO_INDEX,
        decreases self.nvp() - j,
    {
        if j < self.nvp() && self.slot(i, j) != NO_INDEX {
            self.lemma_first_unused(i, j + 1);
        }
    }

    /// The vertices of every polygon are vertices of the mesh.
    pub open spec fn indices_ok(&self) -> bool {
        forall|i: int, j: int|
            0 <= i < self.count() && 0 <= j < self.poly_len(i) ==> (#[trigger] self.slot(i, j) as int)
                < self.vertices@.len()
    }
}

} // verus!
