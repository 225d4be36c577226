//! Integer parts of building detail meshes: hull-edge flags of triangles,
//! polygon bounds, and the height patch sampled from the heightfield.

use vstd::prelude::*;
use crate::polygon_mesh::{NO_INDEX, PolygonNavmesh};

verus! {

/// Flag of a triangle edge that lies on the hull of its sub-mesh.
pub const DETAIL_EDGE_BOUNDARY: u8 = 0x1;

/// Whether `a` → `b` is an edge of the hull `hull[..nhull]` (from a hull vertex
/// to the next one).
pub open spec fn on_hull_spec(a: usize, b: usize, nhull: int, hull: Seq<usize>) -> bool {
    a < nhull && b < nhull && exists|i: int|
        0 <= i < nhull && #[trigger] hull_edge(hull, nhull, i, a, b)
}

/// Position before `i` in a cycle of length `n`.
pub open spec fn prev_index(i: int, n: int) -> int {
    if i == 0 {
        n - 1
    } else {
        i - 1
    }
}

/// Whether the hull edge ending at hull position `i` goes from `a` to `b`.
pub open spec fn hull_edge(hull: Seq<usize>, nhull: int, i: int, a: usize, b: usize) -> bool {
    hull[i] == b && hull[prev_index(i, nhull)] == a
}

/// Whether `a` → `b` is an edge of the hull. Vertices past `nhull` are sampled
/// interior points and never on the hull.
pub fn on_hull(a: usize, b: usize, nhull: usize, hull: &Vec<usize>) -> (r: bool)
    requires
        nhull <= hull@.len(),
    ensures
        r == on_hull_spec(a, b, nhull as int, hull@),
{
    // All internal sampled points come after the hull so we can early out for those.
    if a >= nhull || b >= nhull {
        return false;
    }
    let mut j = nhull - 1;
    let mut i: usize = 0;
    while i < nhull
        invariant
            0 < nhull <= hull@.len(),
            a < nhull,
            b < nhull,
            i <= nhull,
            j == if i == 0 {
                nhull - 1
            } else {
                i - 1
            },
            forall|k: int| 0 <= k < i ==> !#[trigger] hull_edge(hull@, nhull as int, k, a, b),
        decreases nhull - i,
    {
        if a == hull[j] && b == hull[i] {
            assert(hull_edge(hull@, nhull as int, i as int, a, b));
            return true;
        }
        j = i;
        i += 1;
    }
    false
}

/// Hull flags of a triangle: [`DETAIL_EDGE_BOUNDARY`] in bits 0, 2 and 4 for
/// edges AB, BC and CA when they lie on the hull.
pub open spec fn tri_flags_spec(tri: [u8; 3], nhull: int, hull: Seq<usize>) -> u8 {
    ((if on_hull_spec(tri[0] as usize, tri[1] as usize, nhull, hull) {
        DETAIL_EDGE_BOUNDARY
    } else {
        0u8
    }) | ((if on_hull_spec(tri[1] as usize, tri[2] as usize, nhull, hull) {
        DETAIL_EDGE_BOUNDARY
    } else {
        0u8
    }) << 2u8)) | ((if on_hull_spec(tri[2] as usize, tri[0] as usize, nhull, hull) {
        DETAIL_EDGE_BOUNDARY
    } else {
        0u8
    }) << 4u8)
}

/// Marks, for each triangle, which of its edges lie on the hull.
pub fn set_tri_flags(tris: &Vec<[u8; 3]>, flags: &mut Vec<u8>, nhull: usize, hull: &Vec<usize>)
    requires
        nhull <= hull@.len(),
    ensures
        final(flags)@.len() == old(flags)@.len(),
        forall|k: int|
            0 <= k < final(flags)@.len() ==> #[trigger] final(flags)@[k] == if k < tris@.len() {
                tri_flags_spec(tris@[k], nhull as int, hull@)
            } else {
                old(flags)@[k]
            },
{
    let mut k: usize = 0;
    while k < tris.len() && k < flags.len()
        invariant
            nhull <= hull@.len(),
            flags@.len() == old(flags)@.len(),
            k <= flags@.len(),
            k <= tris@.len(),
            forall|j: int|
                0 <= j < flags@.len() ==> #[trigger] flags@[j] == if j < k {
                    tri_flags_spec(tris@[j], nhull as int, hull@)
                } else {
                    old(flags)@[j]
                },
        decreases flags@.len() - k,
    {
        let tri = tris[k];
        let ab = if on_hull(tri[0] as usize, tri[1] as usize, nhull, hull) {
            DETAIL_EDGE_BOUNDARY
        } else {
            0u8
        };
        let bc = if on_hull(tri[1] as usize, tri[2] as usize, nhull, hull) {
            DETAIL_EDGE_BOUNDARY
        } else {
            0u8
        };
        let ca = if on_hull(tri[2] as usize, tri[0] as usize, nhull, hull) {
            DETAIL_EDGE_BOUNDARY
        } else {
            0u8
        };
        let f = (ab | (bc << 2u8)) | (ca << 4u8);
        flags.set(k, f);
        k += 1;
    }
}

/// Edge `p` of triangle `tri` (0: AB, 1: BC, 2: CA) lies on the hull.
pub open spec fn tri_edge_on_hull(tri: [u8; 3], p: int, nhull: int, hull: Seq<usize>) -> bool {
    on_hull_spec(tri[p] as usize, tri[(p + 1) % 3] as usize, nhull, hull)
}

proof fn lemma_flag_fields(x: u8, y: u8, z: u8)
    by (bit_vector)
    requires
        x <= 1,
        y <= 1,
        z <= 1,
    ensures
        ((((x | (y << 2u8)) | (z << 4u8)) >> 0u8) & 3u8) == x,
        ((((x | (y << 2u8)) | (z << 4u8)) >> 2u8) & 3u8) == y,
        ((((x | (y << 2u8)) | (z << 4u8)) >> 4u8) & 3u8) == z,
        (((x | (y << 2u8)) | (z << 4u8)) >> 6u8) == 0,
{
}

/// Reading a triangle's hull flags as its documentation says, two bits per
/// edge (`(flags >> 2 * p) & 0x3` for edge `p` = AB, BC, CA), tells exactly
/// whether that edge lies on the hull, and the two top bits are unused.
pub proof fn lemma_tri_flag_fields(tri: [u8; 3], nhull: int, hull: Seq<usize>)
    ensures
        forall|p: int|
            0 <= p < 3 ==> (((tri_flags_spec(tri, nhull, hull) >> #[trigger] ((2 * p) as u8)) & 3u8
                != 0) <==> tri_edge_on_hull(tri, p, nhull, hull)),
        tri_flags_spec(tri, nhull, hull) >> 6u8 == 0,
{
    let x: u8 = if on_hull_spec(tri[0] as usize, tri[1] as usize, nhull, hull) { 1 } else { 0 };
    let y: u8 = if on_hull_spec(tri[1] as usize, tri[2] as usize, nhull, hull) { 1 } else { 0 };
    let z: u8 = if on_hull_spec(tri[2] as usize, tri[0] as usize, nhull, hull) { 1 } else { 0 };
    lemma_flag_fields(x, y, z);
    assert(tri_flags_spec(tri, nhull, hull) == ((x | (y << 2u8)) | (z << 4u8)));
    assert forall|p: int| 0 <= p < 3 implies (((tri_flags_spec(tri, nhull, hull)
        >> #[trigger] ((2 * p) as u8)) & 3u8 != 0) <==> tri_edge_on_hull(tri, p, nhull, hull)) by {
        if p == 0 {
            assert(((2 * p) as u8) == 0u8);
        } else if p == 1 {
            assert(((2 * p) as u8) == 2u8);
        } else {
            assert(((2 * p) as u8) == 4u8);
        }
    }
}

/// The grid cells a polygon covers, grown by one cell and clamped to the grid.
#[derive(Clone, Copy, Debug, PartialEq, Eq, Structural)]
pub struct Bounds {
    /// Smallest x.
    pub xmin: u16,
    /// One past the largest x.
    pub xmax: u16,
    /// Smallest z.
    pub zmin: u16,
    /// One past the largest z.
    pub zmax: u16,
}

impl Bounds {
    /// Cells along x.
    pub fn width(&self) -> (r: u16)
        requires
            self.xmin <= self.xmax,
        ensures
            r == self.xmax - self.xmin,
    {
        self.xmax - self.xmin
    }

    /// Cells along z.
    pub fn height(&self) -> (r: u16)
        requires
            self.zmin <= self.zmax,
        ensures
            r == self.zmax - self.zmin,
    {
        self.zmax - self.zmin
    }

    /// Whether the bounds hold no cell.
    pub open spec fn is_empty(&self) -> bool {
        self.xmin >= self.xmax || self.zmin >= self.zmax
    }
}

/// The smaller of two integers.
pub open spec fn min_int(a: int, b: int) -> int {
    if a <= b {
        a
    } else {
        b
    }
}

/// The larger of two integers.
pub open spec fn max_int(a: int, b: int) -> int {
    if a >= b {
        a
    } else {
        b
    }
}

/// Coordinate `axis` (0: x, 2: z) of a grid vertex.
pub open spec fn vertex_coord(v: crate::contours::GridVertex, axis: int) -> int {
    if axis == 0 {
        v.x as int
    } else {
        v.z as int
    }
}

/// Smallest (`low`) or largest coordinate `axis` among `init` and the first
/// `n` vertices of polygon `i`.
pub open spec fn fold_extent(mesh: &PolygonNavmesh, i: int, n: int, axis: int, low: bool, init: int) -> int
    decreases n,
{
    if n <= 0 {
        init
    } else {
        let prev = fold_extent(mesh, i, n - 1, axis, low, init);
        let c = vertex_coord(mesh.vertices@[mesh.slot(i, n - 1) as int], axis);
        if low {
            min_int(prev, c)
        } else {
            max_int(prev, c)
        }
    }
}

/// The bounds of polygon `i` on a grid of `width` by `height` cells: the
/// cells of its vertices, grown by one cell on each side and clamped to the
/// grid.
pub open spec fn polygon_rect(mesh: &PolygonNavmesh, i: int, width: int, height: int) -> Bounds {
    let n = mesh.poly_len(i);
    let xmin = fold_extent(mesh, i, n, 0, true, width);
    let xmax = fold_extent(mesh, i, n, 0, false, 0);
    let zmin = fold_extent(mesh, i, n, 2, true, height);
    let zmax = fold_extent(mesh, i, n, 2, false, 0);
    Bounds {
        xmin: (if xmin > 0 { xmin - 1 } else { 0 }) as u16,
        xmax: min_int(width, xmax + 1) as u16,
        zmin: (if zmin > 0 { zmin - 1 } else { 0 }) as u16,
        zmax: min_int(height, zmax + 1) as u16,
    }
}

/// Largest width and height among the non-empty bounds of the first `n`
/// polygons.
pub open spec fn max_extent(mesh: &PolygonNavmesh, width: int, height: int, n: int) -> (int, int)
    decreases n,
{
    if n <= 0 {
        (0, 0)
    } else {
        let prev = max_extent(mesh, width, height, n - 1);
        let b = polygon_rect(mesh, n - 1, width, height);
        if b.is_empty() {
            prev
        } else {
            (max_int(prev.0, b.xmax - b.xmin), max_int(prev.1, b.zmax - b.zmin))
        }
    }
}

/// Number of vertices of the first `n` polygons.
pub open spec fn vertex_total(mesh: &PolygonNavmesh, n: int) -> int
    decreases n,
{
    if n <= 0 {
        0
    } else {
        vertex_total(mesh, n - 1) + mesh.poly_len(n - 1)
    }
}

/// The vertices of the polygons lie short of the last grid position, so that
/// one cell can be added past them.
pub open spec fn vertices_below_limit(mesh: &PolygonNavmesh) -> bool {
    forall|i: int, j: int|
        0 <= i < mesh.count() && 0 <= j < mesh.poly_len(i) ==> {
            let v = mesh.vertices@[#[trigger] mesh.slot(i, j) as int];
            v.x < 0xffff && v.z < 0xffff
        }
}

/// The bounds of every polygon (see [`polygon_rect`]), the largest width and
/// height among the non-empty ones, and the number of polygon vertices.
pub fn polygon_bounds(mesh: &PolygonNavmesh, width: u16, height: u16) -> (r: (
    Vec<Bounds>,
    u16,
    u16,
    usize,
))
    requires
        mesh.max_vertices_per_polygon > 0,
        mesh.indices_ok(),
        vertices_below_limit(mesh),
    ensures
        r.0@.len() == mesh.count(),
        forall|i: int|
            0 <= i < mesh.count() ==> #[trigger] r.0@[i] == polygon_rect(
                mesh,
                i,
                width as int,
                height as int,
            ),
        (r.1 as int, r.2 as int) == max_extent(mesh, width as int, height as int, mesh.count()),
        r.3 == vertex_total(mesh, mesh.count()),
{
    let count = mesh.polygon_count();
    let nvp = mesh.max_vertices_per_polygon as usize;
    let plen = mesh.polygons.len();
    let mut bounds: Vec<Bounds> = Vec::new();
    let mut maxhw: u16 = 0;
    let mut maxhh: u16 = 0;
    let mut poly_vert_count: usize = 0;
    let mut i: usize = 0;
    while i < count
        invariant
            count == mesh.count(),
            nvp == mesh.nvp(),
            nvp > 0,
            plen == mesh.polygons@.len(),
            mesh.indices_ok(),
            vertices_below_limit(mesh),
            i <= count,
            bounds@.len() == i,
            forall|t: int|
                0 <= t < i ==> #[trigger] bounds@[t] == polygon_rect(
                    mesh,
                    t,
                    width as int,
                    height as int,
                ),
            (maxhw as int, maxhh as int) == max_extent(mesh, width as int, height as int, i as int),
            poly_vert_count == vertex_total(mesh, i as int),
            poly_vert_count <= i * nvp,
        decreases count - i,
    {
        proof {
            mesh.lemma_first_unused(i as int, 0);
            mesh.lemma_slot_index(i as int, 0);
            mesh.lemma_slot_index(i as int, nvp - 1);
        }
        let base = i * nvp;
        let mut xmin: u16 = width;
        let mut xmax: u16 = 0;
        let mut zmin: u16 = height;
        let mut zmax: u16 = 0;
        let mut j: usize = 0;
        let mut open = true;
        while j < nvp && open
            invariant
                count == mesh.count(),
                nvp == mesh.nvp(),
                mesh.indices_ok(),
                vertices_below_limit(mesh),
                0 <= i < count,
                plen == mesh.polygons@.len(),
                base == i * nvp,
                j <= mesh.poly_len(i as int),
                open ==> forall|t: int| 0 <= t < j ==> mesh.slot(i as int, t) != NO_INDEX,
                !open ==> j == mesh.poly_len(i as int),
                open && j == nvp ==> j == mesh.poly_len(i as int),
                mesh.poly_len(i as int) <= nvp,
                forall|t: int| 0 <= t < mesh.poly_len(i as int) ==> mesh.slot(i as int, t) != NO_INDEX,
                mesh.poly_len(i as int) < nvp ==> mesh.slot(i as int, mesh.poly_len(i as int))
                    == NO_INDEX,
                xmin as int == fold_extent(mesh, i as int, j as int, 0, true, width as int),
                xmax as int == fold_extent(mesh, i as int, j as int, 0, false, 0),
                zmin as int == fold_extent(mesh, i as int, j as int, 2, true, height as int),
                zmax as int == fold_extent(mesh, i as int, j as int, 2, false, 0),
                xmax < 0xffff,
                zmax < 0xffff,
            decreases nvp - j + (if open {
                1int
            } else {
                0int
            }),
        {
            proof {
                mesh.lemma_slot_index(i as int, j as int);
            }
            let pj = mesh.polygons[base + j];
            assert(mesh.slot(i as int, j as int) == pj);
            if pj == NO_INDEX {
                open = false;
            } else {
                assert(j < mesh.poly_len(i as int));
                assert(mesh.slot(i as int, j as int) == pj);
                let v = mesh.vertices[pj as usize];
                if v.x < xmin {
                    xmin = v.x;
                }
                if v.x > xmax {
                    xmax = v.x;
                }
                if v.z < zmin {
                    zmin = v.z;
                }
                if v.z > zmax {
                    zmax = v.z;
                }
                j += 1;
            }
        }
        let b = Bounds {
            xmin: if xmin > 0 {
                xmin - 1
            } else {
                0
            },
            xmax: if width < xmax + 1 {
                width
            } else {
                xmax + 1
            },
            zmin: if zmin > 0 {
                zmin - 1
            } else {
                0
            },
            zmax: if height < zmax + 1 {
                height
            } else {
                zmax + 1
            },
        };
        assert(b == polygon_rect(mesh, i as int, width as int, height as int));
        if !(b.xmin >= b.xmax || b.zmin >= b.zmax) {
            let w = b.xmax - b.xmin;
            let h = b.zmax - b.zmin;
            if w > maxhw {
                maxhw = w;
            }
            if h > maxhh {
                maxhh = h;
            }
        }
        poly_vert_count = poly_vert_count + j;
        assert((i + 1) * nvp == i * nvp + nvp) by (nonlinear_arith);
        bounds.push(b);
        i += 1;
    }
    (bounds, maxhw, maxhh, poly_vert_count)
}

/// The most vertices a sub-mesh can have.
pub const MAX_VERTICES_PER_SUBMESH: usize = 127;

/// The most triangles a sub-mesh can have.
pub const MAX_TRIANGLES_PER_SUBMESH: usize = 255;

/// The most samples taken along one polygon edge.
pub const MAX_VERTS_PER_EDGE: usize = 32;

/// A sub-mesh in [`DetailNavmesh::meshes`]: where its vertices and triangles
/// lie in the shared arrays.
#[derive(Clone, Copy, Debug, PartialEq, Eq, Structural)]
pub struct SubMesh {
    /// Index in [`DetailNavmesh::vertices`] of the sub-mesh's first vertex.
    pub base_vertex_index: u32,
    /// Number of vertices of the sub-mesh.
    pub vertex_count: u32,
    /// Index in [`DetailNavmesh::triangles`] of the sub-mesh's first triangle.
    pub base_triangle_index: u32,
    /// Number of triangles of the sub-mesh.
    pub triangle_count: u32,
}

impl Default for SubMesh {
    fn default() -> (r: SubMesh)
        ensures
            r.base_vertex_index == 0,
            r.vertex_count == 0,
            r.base_triangle_index == 0,
            r.triangle_count == 0,
    {
        SubMesh { base_vertex_index: 0, vertex_count: 0, base_triangle_index: 0, triangle_count: 0 }
    }
}

/// Triangle meshes that add height detail to the polygons of a polygon
/// navmesh: one sub-mesh per polygon, in the polygons' order, over vertices
/// of type `V`. Triangle vertex indices are local to their sub-mesh.
#[derive(Clone, Debug)]
pub struct DetailNavmesh<V> {
    /// The sub-meshes, one per polygon.
    pub meshes: Vec<SubMesh>,
    /// The vertices, grouped by sub-mesh.
    pub vertices: Vec<V>,
    /// The triangles, grouped by sub-mesh; indices are relative to the
    /// sub-mesh's first vertex.
    pub triangles: Vec<[u8; 3]>,
    /// For each triangle, which of its edges lie on the sub-mesh's hull (see
    /// [`DETAIL_EDGE_BOUNDARY`]).
    pub triangle_flags: Vec<u8>,
}

impl<V: Copy> DetailNavmesh<V> {
    /// The vertices of sub-mesh `i`.
    pub open spec fn submesh_vertices(&self, i: int) -> Seq<V> {
        let m = self.meshes@[i];
        self.vertices@.subrange(
            m.base_vertex_index as int,
            m.base_vertex_index + m.vertex_count,
        )
    }

    /// The triangles of sub-mesh `i`.
    pub open spec fn submesh_triangles(&self, i: int) -> Seq<[u8; 3]> {
        let m = self.meshes@[i];
        self.triangles@.subrange(
            m.base_triangle_index as int,
            m.base_triangle_index + m.triangle_count,
        )
    }

    /// Whether sub-mesh `i` lies within the vertex and triangle arrays.
    pub open spec fn submesh_in_bounds(&self, i: int) -> bool {
        let m = self.meshes@[i];
        &&& m.base_vertex_index + m.vertex_count <= self.vertices@.len()
        &&& m.base_triangle_index + m.triangle_count <= self.triangles@.len()
    }

    /// An empty detail mesh with `count` empty sub-meshes, one per polygon.
    pub fn with_submesh_count(count: usize) -> (r: Self)
        ensures
            r.meshes@.len() == count,
            forall|i: int| 0 <= i < count ==> #[trigger] r.meshes@[i] == (SubMesh {
                base_vertex_index: 0,
                vertex_count: 0,
                base_triangle_index: 0,
                triangle_count: 0,
            }),
            r.vertices@.len() == 0,
            r.triangles@.len() == 0,
            r.triangle_flags@.len() == 0,
    {
        let mut meshes: Vec<SubMesh> = Vec::new();
        let mut i: usize = 0;
        while i < count
            invariant
                i <= count,
                meshes@.len() == i,
                forall|t: int| 0 <= t < i ==> #[trigger] meshes@[t] == (SubMesh {
                    base_vertex_index: 0,
                    vertex_count: 0,
                    base_triangle_index: 0,
                    triangle_count: 0,
                }),
            decreases count - i,
        {
            meshes.push(SubMesh::default());
            i += 1;
        }
        DetailNavmesh { meshes, vertices: Vec::new(), triangles: Vec::new(), triangle_flags: Vec::new() }
    }

    /// Stores the detail of polygon `i`: records where its vertices and
    /// triangles start and how many there are (counts and offsets taken
    /// modulo 2^32), and appends them, with the triangles' flags.
    pub fn store_submesh(&mut self, i: usize, verts: &[V], tris: &[[u8; 3]], flags: &[u8])
        requires
            i < old(self).meshes@.len(),
        ensures
            final(self).meshes@ == old(self).meshes@.update(
                i as int,
                (SubMesh {
                    base_vertex_index: old(self).vertices@.len() as u32,
                    vertex_count: verts@.len() as u32,
                    base_triangle_index: old(self).triangles@.len() as u32,
                    triangle_count: tris@.len() as u32,
                }),
            ),
            final(self).vertices@ == old(self).vertices@ + verts@,
            final(self).triangles@ == old(self).triangles@ + tris@,
            final(self).triangle_flags@ == old(self).triangle_flags@ + flags@,
            old(self).vertices@.len() + verts@.len() <= u32::MAX && old(self).triangles@.len()
                + tris@.len() <= u32::MAX ==> {
                &&& final(self).submesh_vertices(i as int) == verts@
                &&& final(self).submesh_triangles(i as int) == tris@
            },
            forall|k: int|
                0 <= k < old(self).meshes@.len() && k != i && old(self).submesh_in_bounds(k) ==> {
                    &&& #[trigger] final(self).submesh_vertices(k) == old(self).submesh_vertices(k)
                    &&& final(self).submesh_triangles(k) == old(self).submesh_triangles(k)
                    &&& final(self).submesh_in_bounds(k)
                },
    {
        let base_vertex_index = #[verifier::truncate] (self.vertices.len() as u32);
        let vertex_count = #[verifier::truncate] (verts.len() as u32);
        let base_triangle_index = #[verifier::truncate] (self.triangles.len() as u32);
        let triangle_count = #[verifier::truncate] (tris.len() as u32);
        let m = SubMesh { base_vertex_index, vertex_count, base_triangle_index, triangle_count };
        self.meshes.set(i, m);
        let ghost meshes1 = self.meshes@;
        let mut k: usize = 0;
        assert(self.vertices@ =~= old(self).vertices@ + verts@.take(0));
        while k < verts.len()
            invariant
                self.vertices@ == old(self).vertices@ + verts@.take(k as int),
                self.triangles@ == old(self).triangles@,
                self.triangle_flags@ == old(self).triangle_flags@,
                self.meshes@ == meshes1,
                k <= verts@.len(),
            decreases verts@.len() - k,
        {
            self.vertices.push(verts[k]);
            k += 1;
            assert(self.vertices@ =~= old(self).vertices@ + verts@.take(k as int));
        }
        assert(verts@.take(verts@.len() as int) =~= verts@);
        let mut k: usize = 0;
        assert(tris@.take(0) =~= Seq::<[u8; 3]>::empty());
        assert(self.triangles@ =~= old(self).triangles@ + tris@.take(0));
        while k < tris.len()
            invariant
                self.triangles@ == old(self).triangles@ + tris@.take(k as int),
                self.vertices@ == old(self).vertices@ + verts@,
                self.triangle_flags@ == old(self).triangle_flags@,
                self.meshes@ == meshes1,
                k <= tris@.len(),
            decreases tris@.len() - k,
        {
            self.triangles.push(tris[k]);
            k += 1;
            assert(self.triangles@ =~= old(self).triangles@ + tris@.take(k as int));
        }
        assert(tris@.take(tris@.len() as int) =~= tris@);
        let mut k: usize = 0;
        assert(self.triangle_flags@ =~= old(self).triangle_flags@ + flags@.take(0));
        while k < flags.len()
            invariant
                self.triangle_flags@ == old(self).triangle_flags@ + flags@.take(k as int),
                self.vertices@ == old(self).vertices@ + verts@,
                self.triangles@ == old(self).triangles@ + tris@,
                self.meshes@ == meshes1,
                k <= flags@.len(),
            decreases flags@.len() - k,
        {
            self.triangle_flags.push(flags[k]);
            k += 1;
            assert(self.triangle_flags@ =~= old(self).triangle_flags@ + flags@.take(k as int));
        }
        assert(flags@.take(flags@.len() as int) =~= flags@);
        proof {
            if old(self).vertices@.len() + verts@.len() <= u32::MAX && old(self).triangles@.len()
                + tris@.len() <= u32::MAX {
                assert(self.submesh_vertices(i as int) =~= verts@);
                assert(self.submesh_triangles(i as int) =~= tris@);
            }
            assert forall|k: int|
                0 <= k < old(self).meshes@.len() && k != i && old(self).submesh_in_bounds(
                    k,
                ) implies {
                &&& #[trigger] self.submesh_vertices(k) == old(self).submesh_vertices(k)
                &&& self.submesh_triangles(k) == old(self).submesh_triangles(k)
                &&& self.submesh_in_bounds(k)
            } by {
                assert(self.submesh_vertices(k) =~= old(self).submesh_vertices(k));
                assert(self.submesh_triangles(k) =~= old(self).submesh_triangles(k));
            }
        }
    }
}

proof fn lemma_fold_extent_range(mesh: &PolygonNavmesh, i: int, n: int, axis: int, low: bool, init: int)
    ensures
        low ==> fold_extent(mesh, i, n, axis, low, init) <= init,
        !low ==> fold_extent(mesh, i, n, axis, low, init) >= init,
        forall|j: int|
            0 <= j < n ==> {
                let c = vertex_coord(mesh.vertices@[#[trigger] mesh.slot(i, j) as int], axis);
                if low {
                    fold_extent(mesh, i, n, axis, low, init) <= c
                } else {
                    fold_extent(mesh, i, n, axis, low, init) >= c
                }
            },
        fold_extent(mesh, i, n, axis, low, init) == init || exists|j: int|
            0 <= j < n && fold_extent(mesh, i, n, axis, low, init) == vertex_coord(
                mesh.vertices@[#[trigger] mesh.slot(i, j) as int],
                axis,
            ),
    decreases n,
{
    if n > 0 {
        lemma_fold_extent_range(mesh, i, n - 1, axis, low, init);
        let f = fold_extent(mesh, i, n, axis, low, init);
        let c = vertex_coord(mesh.vertices@[mesh.slot(i, n - 1) as int], axis);
        if f == c {
            assert(0 <= n - 1 < n && f == vertex_coord(mesh.vertices@[mesh.slot(i, n - 1) as int], axis));
        }
    }
}

/// The bounds of a polygon are the tightest cell box around its vertices,
/// grown by one cell on each side and clamped to the grid: the low ends lie
/// one cell below every vertex coordinate (stopping at 0) and are reached by
/// one of them, unless no vertex is inside the grid on that axis; the high ends
/// lie one cell past every vertex coordinate (stopping at the grid's size) and
/// are reached by one of them. Bounds on x depend on the grid's width only and
/// bounds on z on its height only.
pub proof fn lemma_polygon_rect_tight(mesh: &PolygonNavmesh, i: int, width: u16, height: u16)
    ensures
        ({
            let b = polygon_rect(mesh, i, width as int, height as int);
            let n = mesh.poly_len(i);
            &&& forall|j: int|
                0 <= j < n ==> {
                    let v = mesh.vertices@[#[trigger] mesh.slot(i, j) as int];
                    &&& b.xmin as int <= (if v.x > 0 { v.x - 1 } else { 0 })
                    &&& b.zmin as int <= (if v.z > 0 { v.z - 1 } else { 0 })
                    &&& min_int(width as int, v.x + 1) <= b.xmax
                    &&& min_int(height as int, v.z + 1) <= b.zmax
                }
            &&& b.xmin as int <= (if width > 0 { width - 1 } else { 0 })
            &&& b.zmin as int <= (if height > 0 { height - 1 } else { 0 })
            &&& b.xmax <= width
            &&& b.zmax <= height
            &&& b.xmin as int == (if width > 0 { width - 1 } else { 0 }) || exists|j: int|
                0 <= j < n && b.xmin as int == (if mesh.vertices@[#[trigger] mesh.slot(i, j) as int].x
                    > 0 {
                    mesh.vertices@[mesh.slot(i, j) as int].x - 1
                } else {
                    0
                })
            &&& b.zmin as int == (if height > 0 { height - 1 } else { 0 }) || exists|j: int|
                0 <= j < n && b.zmin as int == (if mesh.vertices@[#[trigger] mesh.slot(i, j) as int].z
                    > 0 {
                    mesh.vertices@[mesh.slot(i, j) as int].z - 1
                } else {
                    0
                })
            &&& b.xmax as int == min_int(width as int, 1) || exists|j: int|
                0 <= j < n && b.xmax as int == min_int(
                    width as int,
                    mesh.vertices@[#[trigger] mesh.slot(i, j) as int].x + 1,
                )
            &&& b.zmax as int == min_int(height as int, 1) || exists|j: int|
                0 <= j < n && b.zmax as int == min_int(
                    height as int,
                    mesh.vertices@[#[trigger] mesh.slot(i, j) as int].z + 1,
                )
        }),
{
    let n = mesh.poly_len(i);
    lemma_fold_extent_range(mesh, i, n, 0, true, width as int);
    lemma_fold_extent_range(mesh, i, n, 0, false, 0);
    lemma_fold_extent_range(mesh, i, n, 2, true, height as int);
    lemma_fold_extent_range(mesh, i, n, 2, false, 0);
}

/// The largest patch size is the largest extent among the polygons whose
/// bounds hold a cell, on each axis separately: no such polygon is wider
/// (or deeper), and the size is 0 or reached by one of them.
pub proof fn lemma_max_extent_is_largest(mesh: &PolygonNavmesh, width: int, height: int, n: int)
    requires
        0 <= n,
    ensures
        ({
            let (mw, mh) = max_extent(mesh, width, height, n);
            &&& forall|i: int|
                0 <= i < n && !(#[trigger] polygon_rect(mesh, i, width, height)).is_empty() ==> {
                    let b = polygon_rect(mesh, i, width, height);
                    b.xmax - b.xmin <= mw && b.zmax - b.zmin <= mh
                }
            &&& mw == 0 || exists|i: int|
                0 <= i < n && !(#[trigger] polygon_rect(mesh, i, width, height)).is_empty()
                    && polygon_rect(mesh, i, width, height).xmax - polygon_rect(
                    mesh,
                    i,
                    width,
                    height,
                ).xmin == mw
            &&& mh == 0 || exists|i: int|
                0 <= i < n && !(#[trigger] polygon_rect(mesh, i, width, height)).is_empty()
                    && polygon_rect(mesh, i, width, height).zmax - polygon_rect(
                    mesh,
                    i,
                    width,
                    height,
                ).zmin == mh
        }),
    decreases n,
{
    if n > 0 {
        lemma_max_extent_is_largest(mesh, width, height, n - 1);
        let b = polygon_rect(mesh, n - 1, width, height);
        let (mw, mh) = max_extent(mesh, width, height, n);
        if !b.is_empty() {
            if mw == b.xmax - b.xmin {
                assert(!polygon_rect(mesh, n - 1, width, height).is_empty());
            }
            if mh == b.zmax - b.zmin {
                assert(!polygon_rect(mesh, n - 1, width, height).is_empty());
            }
        }
    }
}

} // verus!
