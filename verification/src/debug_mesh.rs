//! Geometry for drawing navmeshes: outlines of polygons and triangles, and
//! triangle lists (vertices and a `u32` index buffer) to fill them with.

use vstd::prelude::*;
use crate::contours::GridVertex;
use crate::detail_mesh::{DetailNavmesh, SubMesh};
use crate::polygon_mesh::{NO_INDEX, PolygonNavmesh};

verus! {

/// The indices of `tris[..n]`, offset by `off`, three per triangle.
pub open spec fn offset_indices(tris: Seq<[u8; 3]>, off: int, n: int) -> Seq<u32>
    decreases n,
{
    if n <= 0 {
        Seq::empty()
    } else {
        let t = tris[n - 1];
        offset_indices(tris, off, n - 1) + seq![
            (t[0] + off) as u32,
            (t[1] + off) as u32,
            (t[2] + off) as u32,
        ]
    }
}

/// Three indices per triangle.
pub proof fn lemma_offset_indices_len(tris: Seq<[u8; 3]>, off: int, n: int)
    requires
        0 <= n,
    ensures
        offset_indices(tris, off, n).len() == 3 * n,
    decreases n,
{
    if n > 0 {
        lemma_offset_indices_len(tris, off, n - 1);
    }
}

/// Entry `3 * t + c` is corner `c` of triangle `t`, offset.
pub proof fn lemma_offset_indices_at(tris: Seq<[u8; 3]>, off: int, n: int, t: int, c: int)
    requires
        0 <= t < n,
        0 <= c < 3,
    ensures
        offset_indices(tris, off, n).len() == 3 * n,
        offset_indices(tris, off, n)[3 * t + c] == (tris[t][c] + off) as u32,
    decreases n,
{
    lemma_offset_indices_len(tris, off, n);
    lemma_offset_indices_len(tris, off, n - 1);
    if t < n - 1 {
        lemma_offset_indices_at(tris, off, n - 1, t, c);
    }
}

/// The triangle list of the first `n` sub-meshes: their vertices one after
/// the other, and their triangles' indices moved to match.
pub open spec fn detail_visual<V>(mesh: &DetailNavmesh<V>, n: int) -> (Seq<V>, Seq<u32>)
    decreases n,
{
    if n <= 0 {
        (Seq::empty(), Seq::empty())
    } else {
        let prev = detail_visual(mesh, n - 1);
        let m = mesh.meshes@[n - 1];
        let verts = mesh.vertices@.subrange(
            m.base_vertex_index as int,
            m.base_vertex_index + m.vertex_count,
        );
        let tris = mesh.triangles@.subrange(
            m.base_triangle_index as int,
            m.base_triangle_index + m.triangle_count,
        );
        (prev.0 + verts, prev.1 + offset_indices(tris, prev.0.len() as int, tris.len() as int))
    }
}

/// Number of vertices of the first `n` sub-meshes.
pub open spec fn submesh_vertex_total(meshes: Seq<SubMesh>, n: int) -> int
    decreases n,
{
    if n <= 0 {
        0
    } else {
        submesh_vertex_total(meshes, n - 1) + meshes[n - 1].vertex_count
    }
}

/// The triangle list has as many vertices as the sub-meshes together.
pub proof fn lemma_detail_visual_len<V: Copy>(mesh: &DetailNavmesh<V>, n: int)
    requires
        0 <= n <= mesh.meshes@.len(),
        forall|k: int| 0 <= k < mesh.meshes@.len() ==> #[trigger] mesh.submesh_in_bounds(k),
    ensures
        detail_visual(mesh, n).0.len() == submesh_vertex_total(mesh.meshes@, n),
    decreases n,
{
    if n > 0 {
        lemma_detail_visual_len(mesh, n - 1);
        assert(mesh.submesh_in_bounds(n - 1));
    }
}

/// Vertex totals grow with the number of sub-meshes.
pub proof fn lemma_vertex_total_monotone(meshes: Seq<SubMesh>, a: int, b: int)
    requires
        0 <= a <= b,
    ensures
        submesh_vertex_total(meshes, a) <= submesh_vertex_total(meshes, b),
    decreases b - a,
{
    if a < b {
        lemma_vertex_total_monotone(meshes, a, b - 1);
    }
}

impl<V: Copy> DetailNavmesh<V> {
    /// Every sub-mesh lies within the vertex and triangle arrays.
    pub open spec fn all_in_bounds(&self) -> bool {
        forall|k: int| 0 <= k < self.meshes@.len() ==> #[trigger] self.submesh_in_bounds(k)
    }

    /// Every triangle corner names a vertex of its own sub-mesh.
    pub open spec fn corners_ok(&self) -> bool {
        forall|k: int, t: int, c: int|
            0 <= k < self.meshes@.len() && 0 <= t < self.meshes@[k].triangle_count && 0 <= c < 3
                ==> (#[trigger] self.submesh_triangles(k)[t][c] as int)
                < self.meshes@[k].vertex_count
    }
}

/// The triangle list that fills a detail mesh: the sub-meshes' vertices one
/// after the other, and a `u32` index buffer with three entries per triangle.
pub fn detail_visual_mesh<V: Copy>(mesh: &DetailNavmesh<V>) -> (r: (Vec<V>, Vec<u32>))
    requires
        mesh.all_in_bounds(),
        submesh_vertex_total(mesh.meshes@, mesh.meshes@.len() as int) + 255 <= u32::MAX,
    ensures
        (r.0@, r.1@) == detail_visual(mesh, mesh.meshes@.len() as int),
{
    let mut verts: Vec<V> = Vec::new();
    let mut indices: Vec<u32> = Vec::new();
    let tl = mesh.triangles.len();
    let vl = mesh.vertices.len();
    let mut k: usize = 0;
    while k < mesh.meshes.len()
        invariant
            mesh.all_in_bounds(),
            submesh_vertex_total(mesh.meshes@, mesh.meshes@.len() as int) + 255 <= u32::MAX,
            k <= mesh.meshes@.len(),
            tl == mesh.triangles@.len(),
            vl == mesh.vertices@.len(),
            (verts@, indices@) == detail_visual(mesh, k as int),
        decreases mesh.meshes@.len() - k,
    {
        let m = mesh.meshes[k];
        assert(mesh.submesh_in_bounds(k as int));
        proof {
            lemma_detail_visual_len(mesh, k as int);
            lemma_vertex_total_monotone(mesh.meshes@, k as int, mesh.meshes@.len() as int);
        }
        let off = verts.len() as u32;
        let tb = m.base_triangle_index as usize;
        let tc = m.triangle_count as usize;
        let ghost tris = mesh.triangles@.subrange(tb as int, tb + tc);
        let ghost idx0 = indices@;
        let mut t: usize = 0;
        while t < tc
            invariant
                tb + tc <= mesh.triangles@.len(),
                tl == mesh.triangles@.len(),
                tris == mesh.triangles@.subrange(tb as int, tb + tc),
                off as int + 255 <= u32::MAX,
                t <= tc,
                indices@ == idx0 + offset_indices(tris, off as int, t as int),
            decreases tc - t,
        {
            let tri = mesh.triangles[tb + t];
            assert(tri == tris[t as int]);
            indices.push(tri[0] as u32 + off);
            indices.push(tri[1] as u32 + off);
            indices.push(tri[2] as u32 + off);
            t += 1;
            assert(indices@ =~= idx0 + offset_indices(tris, off as int, t as int));
        }
        let vb = m.base_vertex_index as usize;
        let vc = m.vertex_count as usize;
        let ghost v0 = verts@;
        let mut j: usize = 0;
        while j < vc
            invariant
                vb + vc <= mesh.vertices@.len(),
                vl == mesh.vertices@.len(),
                j <= vc,
                verts@ == v0 + mesh.vertices@.subrange(vb as int, vb + j),
            decreases vc - j,
        {
            verts.push(mesh.vertices[vb + j]);
            j += 1;
            assert(verts@ =~= v0 + mesh.vertices@.subrange(vb as int, vb + j));
        }
        k += 1;
    }
    (verts, indices)
}

/// Number of triangles of the first `n` sub-meshes.
pub open spec fn submesh_triangle_total(meshes: Seq<SubMesh>, n: int) -> int
    decreases n,
{
    if n <= 0 {
        0
    } else {
        submesh_triangle_total(meshes, n - 1) + meshes[n - 1].triangle_count
    }
}

/// Triangle totals grow with the number of sub-meshes.
pub proof fn lemma_triangle_total_monotone(meshes: Seq<SubMesh>, a: int, b: int)
    requires
        0 <= a <= b,
    ensures
        submesh_triangle_total(meshes, a) <= submesh_triangle_total(meshes, b),
    decreases b - a,
{
    if a < b {
        lemma_triangle_total_monotone(meshes, a, b - 1);
    }
}

/// The index buffer has three entries per triangle.
pub proof fn lemma_detail_visual_index_len<V: Copy>(mesh: &DetailNavmesh<V>, n: int)
    requires
        0 <= n <= mesh.meshes@.len(),
        mesh.all_in_bounds(),
    ensures
        detail_visual(mesh, n).1.len() == 3 * submesh_triangle_total(mesh.meshes@, n),
    decreases n,
{
    if n > 0 {
        lemma_detail_visual_index_len(mesh, n - 1);
        assert(mesh.submesh_in_bounds(n - 1));
        let m = mesh.meshes@[n - 1];
        let tris = mesh.triangles@.subrange(
            m.base_triangle_index as int,
            m.base_triangle_index + m.triangle_count,
        );
        lemma_offset_indices_len(
            tris,
            detail_visual(mesh, n - 1).0.len() as int,
            tris.len() as int,
        );
    }
}

/// Corner `c` of triangle `t` of sub-mesh `s` is drawn right by the triangle
/// list of the first `n` sub-meshes: its index entry points into the list's
/// vertices, at a copy of the corner's vertex.
pub open spec fn visual_corner_ok<V: Copy>(mesh: &DetailNavmesh<V>, n: int, s: int, t: int, c: int) -> bool {
    let vis = detail_visual(mesh, n);
    let p = 3 * submesh_triangle_total(mesh.meshes@, s) + 3 * t + c;
    &&& 0 <= p < vis.1.len()
    &&& (vis.1[p] as int) < vis.0.len()
    &&& vis.0[vis.1[p] as int] == mesh.vertices@[mesh.meshes@[s].base_vertex_index
        + mesh.submesh_triangles(s)[t][c]]
}

/// The triangle list of a detail mesh draws exactly the mesh's triangles: when
/// every triangle corner names a vertex of its own sub-mesh, the index of
/// corner `c` of triangle `t` of sub-mesh `s` points into the list's
/// vertices, at a copy of that corner's vertex.
pub proof fn lemma_detail_visual_corners<V: Copy>(mesh: &DetailNavmesh<V>, n: int)
    requires
        0 <= n <= mesh.meshes@.len(),
        mesh.all_in_bounds(),
        mesh.corners_ok(),
        submesh_vertex_total(mesh.meshes@, mesh.meshes@.len() as int) + 255 <= u32::MAX,
    ensures
        forall|s: int, t: int, c: int|
            0 <= s < n && 0 <= t < mesh.meshes@[s].triangle_count && 0 <= c < 3
                ==> #[trigger] visual_corner_ok(mesh, n, s, t, c),
    decreases n,
{
    if n > 0 {
        lemma_detail_visual_corners(mesh, n - 1);
        lemma_detail_visual_index_len(mesh, n - 1);
        lemma_detail_visual_index_len(mesh, n);
        lemma_detail_visual_len(mesh, n - 1);
        lemma_vertex_total_monotone(mesh.meshes@, n - 1, mesh.meshes@.len() as int);
        let prev = detail_visual(mesh, n - 1);
        let vis = detail_visual(mesh, n);
        let m = mesh.meshes@[n - 1];
        assert(mesh.submesh_in_bounds(n - 1));
        let verts = mesh.vertices@.subrange(
            m.base_vertex_index as int,
            m.base_vertex_index + m.vertex_count,
        );
        let tris = mesh.submesh_triangles(n - 1);
        let off = prev.0.len() as int;
        assert(vis.0 == prev.0 + verts);
        assert(vis.1 == prev.1 + offset_indices(tris, off, tris.len() as int));
        assert forall|s: int, t: int, c: int|
            0 <= s < n && 0 <= t < mesh.meshes@[s].triangle_count && 0 <= c
                < 3 implies #[trigger] visual_corner_ok(mesh, n, s, t, c) by {
            let p = 3 * submesh_triangle_total(mesh.meshes@, s) + 3 * t + c;
            lemma_triangle_total_monotone(mesh.meshes@, 0, s);
            if s < n - 1 {
                lemma_triangle_total_monotone(mesh.meshes@, s + 1, n - 1);
                assert(submesh_triangle_total(mesh.meshes@, s + 1) == submesh_triangle_total(
                    mesh.meshes@,
                    s,
                ) + mesh.meshes@[s].triangle_count);
                assert(p < prev.1.len());
                assert(visual_corner_ok(mesh, n - 1, s, t, c));
                assert((prev.1[p] as int) < prev.0.len());
                assert(vis.1[p] == prev.1[p]);
                assert(vis.0[vis.1[p] as int] == prev.0[prev.1[p] as int]);
            } else {
                lemma_offset_indices_at(tris, off, tris.len() as int, t, c);
                assert(vis.1[p] == offset_indices(tris, off, tris.len() as int)[3 * t + c]);
                assert((tris[t][c] as int) < m.vertex_count);
                assert(vis.1[p] as int == tris[t][c] + off);
                assert(vis.0[vis.1[p] as int] == verts[tris[t][c] as int]);
            }
        }
    }
}

/// The outlines of the first `n` sub-meshes' triangles: each triangle's three
/// corners and its first corner again.
pub open spec fn detail_outline_seq<V: Copy>(mesh: &DetailNavmesh<V>, n: int) -> Seq<[V; 4]>
    decreases n,
{
    if n <= 0 {
        Seq::empty()
    } else {
        let verts = mesh.submesh_vertices(n - 1);
        let tris = mesh.submesh_triangles(n - 1);
        detail_outline_seq(mesh, n - 1) + Seq::new(
            tris.len(),
            |t: int|
                {
                    let tri = tris[t];
                    [
                        verts[tri[0] as int],
                        verts[tri[1] as int],
                        verts[tri[2] as int],
                        verts[tri[0] as int],
                    ]
                },
        )
    }
}

/// The outline of every triangle of a detail mesh, as a closed line strip
/// through its three corners.
pub fn detail_outlines<V: Copy>(mesh: &DetailNavmesh<V>) -> (r: Vec<[V; 4]>)
    requires
        mesh.all_in_bounds(),
        mesh.corners_ok(),
    ensures
        r@ == detail_outline_seq(mesh, mesh.meshes@.len() as int),
{
    let mut out: Vec<[V; 4]> = Vec::new();
    let tl = mesh.triangles.len();
    let vl = mesh.vertices.len();
    let mut k: usize = 0;
    while k < mesh.meshes.len()
        invariant
            mesh.all_in_bounds(),
            mesh.corners_ok(),
            tl == mesh.triangles@.len(),
            vl == mesh.vertices@.len(),
            k <= mesh.meshes@.len(),
            out@ == detail_outline_seq(mesh, k as int),
        decreases mesh.meshes@.len() - k,
    {
        let m = mesh.meshes[k];
        assert(mesh.submesh_in_bounds(k as int));
        let vb = m.base_vertex_index as usize;
        let tb = m.base_triangle_index as usize;
        let tc = m.triangle_count as usize;
        let ghost verts = mesh.submesh_vertices(k as int);
        let ghost tris = mesh.submesh_triangles(k as int);
        let ghost prev = out@;
        let mut t: usize = 0;
        while t < tc
            invariant
                mesh.corners_ok(),
                k < mesh.meshes@.len(),
                m == mesh.meshes@[k as int],
                tb == m.base_triangle_index,
                vb == m.base_vertex_index,
                tc == m.triangle_count,
                tb + tc <= mesh.triangles@.len(),
                vb + m.vertex_count <= mesh.vertices@.len(),
                tl == mesh.triangles@.len(),
                vl == mesh.vertices@.len(),
                verts == mesh.submesh_vertices(k as int),
                tris == mesh.submesh_triangles(k as int),
                t <= tc,
                out@ == prev + Seq::new(
                    t as nat,
                    |u: int|
                        {
                            let tri = tris[u];
                            [
                                verts[tri[0] as int],
                                verts[tri[1] as int],
                                verts[tri[2] as int],
                                verts[tri[0] as int],
                            ]
                        },
                ),
            decreases tc - t,
        {
            let tri = mesh.triangles[tb + t];
            assert(tri == tris[t as int]);
            assert((tris[t as int][0] as int) < m.vertex_count);
            assert((tris[t as int][1] as int) < m.vertex_count);
            assert((tris[t as int][2] as int) < m.vertex_count);
            let a = mesh.vertices[vb + tri[0] as usize];
            let b = mesh.vertices[vb + tri[1] as usize];
            let c = mesh.vertices[vb + tri[2] as usize];
            out.push([a, b, c, a]);
            t += 1;
            assert(out@ =~= prev + Seq::new(
                t as nat,
                |u: int|
                    {
                        let tri = tris[u];
                        [
                            verts[tri[0] as int],
                            verts[tri[1] as int],
                            verts[tri[2] as int],
                            verts[tri[0] as int],
                        ]
                    },
            ));
        }
        k += 1;
    }
    out
}

impl PolygonNavmesh {
    /// The vertex indices in the used slots among the first `n` slots of
    /// polygon `i`, in slot order.
    pub open spec fn used_slots(&self, i: int, n: int) -> Seq<u16>
        decreases n,
    {
        if n <= 0 {
            Seq::empty()
        } else {
            let prev = self.used_slots(i, n - 1);
            if self.slot(i, n - 1) == NO_INDEX {
                prev
            } else {
                prev.push(self.slot(i, n - 1))
            }
        }
    }

    /// Every used slot names a vertex of the mesh.
    pub open spec fn slots_ok(&self) -> bool {
        forall|i: int, j: int|
            0 <= i < self.count() && 0 <= j < self.nvp() && #[trigger] self.slot(i, j) != NO_INDEX
                ==> (self.slot(i, j) as int) < self.vertices@.len()
    }

    /// The closed outline of polygon `i`: the vertices of its used slots and
    /// the first of them again.
    pub open spec fn outline(&self, i: int) -> Seq<GridVertex> {
        let used = self.used_slots(i, self.nvp());
        used.map_values(|s: u16| self.vertices@[s as int]).push(self.vertices@[used[0] as int])
    }
}

/// The closed outline of every polygon: the vertices of its used slots, then
/// the first of them again.
pub fn polygon_outlines(mesh: &PolygonNavmesh) -> (r: Vec<Vec<GridVertex>>)
    requires
        mesh.max_vertices_per_polygon > 0,
        mesh.slots_ok(),
        forall|i: int| 0 <= i < mesh.count() ==> #[trigger] mesh.used_slots(i, mesh.nvp()).len() > 0,
    ensures
        r@.len() == mesh.count(),
        forall|i: int| 0 <= i < mesh.count() ==> #[trigger] r@[i]@ == mesh.outline(i),
{
    let count = mesh.polygon_count();
    let nvp = mesh.max_vertices_per_polygon as usize;
    let plen = mesh.polygons.len();
    let mut out: Vec<Vec<GridVertex>> = Vec::new();
    let mut i: usize = 0;
    while i < count
        invariant
            count == mesh.count(),
            nvp == mesh.nvp(),
            nvp > 0,
            plen == mesh.polygons@.len(),
            mesh.slots_ok(),
            forall|i: int| 0 <= i < mesh.count() ==> #[trigger] mesh.used_slots(i, mesh.nvp()).len() > 0,
            i <= count,
            out@.len() == i,
            forall|t: int| 0 <= t < i ==> #[trigger] out@[t]@ == mesh.outline(t),
        decreases count - i,
    {
        proof {
            mesh.lemma_slot_index(i as int, 0);
        }
        let base = i * nvp;
        let mut verts: Vec<GridVertex> = Vec::new();
        let mut j: usize = 0;
        while j < nvp
            invariant
                count == mesh.count(),
                nvp == mesh.nvp(),
                plen == mesh.polygons@.len(),
                mesh.slots_ok(),
                i < count,
                base == i * nvp,
                j <= nvp,
                verts@ == mesh.used_slots(i as int, j as int).map_values(
                    |s: u16| mesh.vertices@[s as int],
                ),
            decreases nvp - j,
        {
            proof {
                mesh.lemma_slot_index(i as int, j as int);
            }
            let s = mesh.polygons[base + j];
            assert(mesh.slot(i as int, j as int) == s);
            if s != NO_INDEX {
                verts.push(mesh.vertices[s as usize]);
            }
            j += 1;
            assert(verts@ =~= mesh.used_slots(i as int, j as int).map_values(
                |s: u16| mesh.vertices@[s as int],
            ));
        }
        assert(mesh.used_slots(i as int, nvp as int).len() > 0);
        let first = verts[0];
        verts.push(first);
        assert(verts@ =~= mesh.outline(i as int));
        out.push(verts);
        i += 1;
    }
    out
}

/// A triangle list under construction: vertices and `u32` indices.
pub type VisualMesh = (Seq<GridVertex>, Seq<u32>);

/// Fan triangles of polygon `i` from the windows `1..k` of its slots: window
/// `w` pairs slots `w` and `w + 1`; when both are used, their vertices are
/// added and a triangle joins them to the polygon's first vertex `a_idx`.
pub open spec fn fan_windows(mesh: &PolygonNavmesh, i: int, a_idx: u32, st: VisualMesh, k: int) -> VisualMesh
    decreases k,
{
    if k <= 1 {
        st
    } else {
        let prev = fan_windows(mesh, i, a_idx, st, k - 1);
        let b = mesh.slot(i, k - 1);
        let c = mesh.slot(i, k);
        if b == NO_INDEX || c == NO_INDEX {
            prev
        } else {
            let b_vi = prev.0.len() as u32;
            let c_vi = (prev.0.len() + 1) as u32;
            (
                prev.0.push(mesh.vertices@[b as int]).push(mesh.vertices@[c as int]),
                prev.1.push(a_idx).push(b_vi).push(c_vi),
            )
        }
    }
}

/// The triangle list of the first `n` polygons: each polygon adds its first
/// slot's vertex, then a fan triangle for each pair of used neighbouring
/// slots after it, with fresh copies of their vertices.
pub open spec fn polygon_visual(mesh: &PolygonNavmesh, n: int) -> VisualMesh
    decreases n,
{
    if n <= 0 {
        (Seq::empty(), Seq::empty())
    } else {
        let prev = polygon_visual(mesh, n - 1);
        let a_idx = prev.0.len() as u32;
        let st = (prev.0.push(mesh.vertices@[mesh.slot(n - 1, 0) as int]), prev.1);
        fan_windows(mesh, n - 1, a_idx, st, mesh.nvp() - 1)
    }
}

/// The triangle list that fills the polygons of a polygon navmesh, each
/// polygon triangulated as a fan around its first slot.
pub fn polygon_visual_mesh(mesh: &PolygonNavmesh) -> (r: (Vec<GridVertex>, Vec<u32>))
    requires
        mesh.max_vertices_per_polygon > 0,
        mesh.slots_ok(),
        forall|i: int| 0 <= i < mesh.count() ==> (#[trigger] mesh.slot(i, 0) as int) < mesh.vertices@.len(),
    ensures
        (r.0@, r.1@) == polygon_visual(mesh, mesh.count()),
{
    let count = mesh.polygon_count();
    let nvp = mesh.max_vertices_per_polygon as usize;
    let plen = mesh.polygons.len();
    let vl = mesh.vertices.len();
    let mut verts: Vec<GridVertex> = Vec::new();
    let mut indices: Vec<u32> = Vec::new();
    let mut i: usize = 0;
    while i < count
        invariant
            count == mesh.count(),
            nvp == mesh.nvp(),
            nvp > 0,
            plen == mesh.polygons@.len(),
            vl == mesh.vertices@.len(),
            mesh.slots_ok(),
            forall|i: int| 0 <= i < mesh.count() ==> (#[trigger] mesh.slot(i, 0) as int) < mesh.vertices@.len(),
            i <= count,
            (verts@, indices@) == polygon_visual(mesh, i as int),
        decreases count - i,
    {
        proof {
            mesh.lemma_slot_index(i as int, 0);
        }
        let base = i * nvp;
        let s0 = mesh.polygons[base];
        assert(mesh.slot(i as int, 0) == s0);
        let a_idx = #[verifier::truncate] (verts.len() as u32);
        verts.push(mesh.vertices[s0 as usize]);
        let ghost st: VisualMesh = (verts@, indices@);
        let mut w: usize = 1;
        while w + 1 < nvp
            invariant
                count == mesh.count(),
                nvp == mesh.nvp(),
                plen == mesh.polygons@.len(),
                vl == mesh.vertices@.len(),
                mesh.slots_ok(),
                i < count,
                base == i * nvp,
                1 <= w,
                w < nvp || w == 1,
                (verts@, indices@) == fan_windows(mesh, i as int, a_idx, st, w as int),
            decreases nvp - w,
        {
            proof {
                mesh.lemma_slot_index(i as int, w as int);
                mesh.lemma_slot_index(i as int, w + 1);
            }
            let b = mesh.polygons[base + w];
            let c = mesh.polygons[base + w + 1];
            assert(mesh.slot(i as int, w as int) == b);
            assert(mesh.slot(i as int, w + 1) == c);
            if b != NO_INDEX && c != NO_INDEX {
                let b_vi = #[verifier::truncate] (verts.len() as u32);
                verts.push(mesh.vertices[b as usize]);
                let c_vi = #[verifier::truncate] (verts.len() as u32);
                verts.push(mesh.vertices[c as usize]);
                indices.push(a_idx);
                indices.push(b_vi);
                indices.push(c_vi);
            }
            w += 1;
        }
        assert((verts@, indices@) == fan_windows(mesh, i as int, a_idx, st, nvp - 1));
        i += 1;
    }
    (verts, indices)
}

/// Fan triangles only point at vertices added before them.
pub proof fn lemma_fan_windows_indices(
    mesh: &PolygonNavmesh,
    i: int,
    a_idx: u32,
    st: VisualMesh,
    k: int,
)
    requires
        (a_idx as int) < st.0.len(),
        forall|t: int| 0 <= t < st.1.len() ==> (#[trigger] st.1[t] as int) < st.0.len(),
        fan_windows(mesh, i, a_idx, st, k).0.len() <= u32::MAX,
    ensures
        fan_windows(mesh, i, a_idx, st, k).0.len() >= st.0.len(),
        forall|t: int|
            0 <= t < fan_windows(mesh, i, a_idx, st, k).1.len() ==> (#[trigger] fan_windows(
                mesh,
                i,
                a_idx,
                st,
                k,
            ).1[t] as int) < fan_windows(mesh, i, a_idx, st, k).0.len(),
    decreases k,
{
    if k > 1 {
        let prev = fan_windows(mesh, i, a_idx, st, k - 1);
        assert(fan_windows(mesh, i, a_idx, st, k).0.len() >= prev.0.len());
        lemma_fan_windows_indices(mesh, i, a_idx, st, k - 1);
        let cur = fan_windows(mesh, i, a_idx, st, k);
        assert forall|t: int| 0 <= t < cur.1.len() implies (#[trigger] cur.1[t] as int) < cur.0.len() by {
            if t < prev.1.len() {
                assert(cur.1[t] == prev.1[t] || cur == prev);
            }
        }
    }
}

/// The vertex list of the polygons' triangle list only grows.
pub proof fn lemma_polygon_visual_grows(mesh: &PolygonNavmesh, a: int, b: int)
    requires
        0 <= a <= b,
    ensures
        polygon_visual(mesh, a).0.len() <= polygon_visual(mesh, b).0.len(),
    decreases b - a,
{
    if a < b {
        lemma_polygon_visual_grows(mesh, a, b - 1);
        let prev = polygon_visual(mesh, b - 1);
        let a_idx = prev.0.len() as u32;
        let st = (prev.0.push(mesh.vertices@[mesh.slot(b - 1, 0) as int]), prev.1);
        lemma_fan_windows_grows(mesh, b - 1, a_idx, st, mesh.nvp() - 1);
    }
}

/// Fan triangles only add vertices.
pub proof fn lemma_fan_windows_grows(mesh: &PolygonNavmesh, i: int, a_idx: u32, st: VisualMesh, k: int)
    ensures
        fan_windows(mesh, i, a_idx, st, k).0.len() >= st.0.len(),
    decreases k,
{
    if k > 1 {
        lemma_fan_windows_grows(mesh, i, a_idx, st, k - 1);
    }
}

/// The polygons' triangle list is a valid index buffer: while it has fewer
/// than 2^32 vertices, every index names one of its vertices.
pub proof fn lemma_polygon_visual_indices(mesh: &PolygonNavmesh, n: int)
    requires
        0 <= n,
        polygon_visual(mesh, n).0.len() <= u32::MAX,
    ensures
        forall|t: int|
            0 <= t < polygon_visual(mesh, n).1.len() ==> (#[trigger] polygon_visual(mesh, n).1[t] as int)
                < polygon_visual(mesh, n).0.len(),
    decreases n,
{
    if n > 0 {
        let prev = polygon_visual(mesh, n - 1);
        let a_idx = prev.0.len() as u32;
        let st = (prev.0.push(mesh.vertices@[mesh.slot(n - 1, 0) as int]), prev.1);
        lemma_fan_windows_grows(mesh, n - 1, a_idx, st, mesh.nvp() - 1);
        lemma_polygon_visual_indices(mesh, n - 1);
        assert forall|t: int| 0 <= t < st.1.len() implies (#[trigger] st.1[t] as int) < st.0.len() by {
            assert(st.1[t] == prev.1[t]);
        }
        lemma_fan_windows_indices(mesh, n - 1, a_idx, st, mesh.nvp() - 1);
    }
}

/// A triangle by the positions of its three corners.
pub type Triangle = (GridVertex, GridVertex, GridVertex);

/// The triangles an index buffer draws: corners `3t`, `3t + 1`, `3t + 2` of
/// triangle `t`, looked up in `verts`.
pub open spec fn drawn_triangles(verts: Seq<GridVertex>, indices: Seq<u32>) -> Seq<Triangle> {
    Seq::new(
        (indices.len() / 3) as nat,
        |t: int|
            (
                verts[indices[3 * t] as int],
                verts[indices[3 * t + 1] as int],
                verts[indices[3 * t + 2] as int],
            ),
    )
}

/// The fan triangles of polygon `i` around its first slot, from the first
/// `k` slots: one triangle (first, `w`, `w + 1`) for each `w >= 1` with
/// `w + 1 < k` where slots `w` and `w + 1` are both used.
pub open spec fn fan_of(mesh: &PolygonNavmesh, i: int, k: int) -> Seq<Triangle>
    decreases k,
{
    if k <= 2 {
        Seq::empty()
    } else {
        let prev = fan_of(mesh, i, k - 1);
        let b = mesh.slot(i, k - 2);
        let c = mesh.slot(i, k - 1);
        if b != NO_INDEX && c != NO_INDEX {
            prev.push(
                (
                    mesh.vertices@[mesh.slot(i, 0) as int],
                    mesh.vertices@[b as int],
                    mesh.vertices@[c as int],
                ),
            )
        } else {
            prev
        }
    }
}

/// The fans of the first `n` polygons, one after the other.
pub open spec fn fans_of(mesh: &PolygonNavmesh, n: int) -> Seq<Triangle>
    decreases n,
{
    if n <= 0 {
        Seq::empty()
    } else {
        fans_of(mesh, n - 1) + fan_of(mesh, n - 1, mesh.nvp())
    }
}

proof fn lemma_drawn_extend(v1: Seq<GridVertex>, v2: Seq<GridVertex>, ix: Seq<u32>)
    requires
        v1.len() <= v2.len(),
        forall|t: int| 0 <= t < v1.len() ==> v2[t] == v1[t],
        forall|t: int| 0 <= t < ix.len() ==> (#[trigger] ix[t] as int) < v1.len(),
    ensures
        drawn_triangles(v2, ix) == drawn_triangles(v1, ix),
{
    let a = drawn_triangles(v2, ix);
    let b = drawn_triangles(v1, ix);
    assert forall|t: int| 0 <= t < a.len() implies a[t] == b[t] by {
        assert(3 * t + 2 < ix.len());
        assert((ix[3 * t] as int) < v1.len());
        assert((ix[3 * t + 1] as int) < v1.len());
        assert((ix[3 * t + 2] as int) < v1.len());
    }
    assert(a =~= b);
}

proof fn lemma_fan_windows_draws(mesh: &PolygonNavmesh, i: int, a_idx: u32, st: VisualMesh, k: int)
    requires
        st.1.len() % 3 == 0,
        (a_idx as int) < st.0.len(),
        st.0[a_idx as int] == mesh.vertices@[mesh.slot(i, 0) as int],
        forall|t: int| 0 <= t < st.1.len() ==> (#[trigger] st.1[t] as int) < st.0.len(),
        fan_windows(mesh, i, a_idx, st, k).0.len() <= u32::MAX,
    ensures
        ({
            let r = fan_windows(mesh, i, a_idx, st, k);
            &&& r.0.len() >= st.0.len()
            &&& forall|t: int| 0 <= t < st.0.len() ==> r.0[t] == st.0[t]
            &&& r.1.len() % 3 == 0
            &&& forall|t: int| 0 <= t < r.1.len() ==> (#[trigger] r.1[t] as int) < r.0.len()
            &&& drawn_triangles(r.0, r.1) == drawn_triangles(st.0, st.1) + fan_of(mesh, i, k + 1)
        }),
    decreases k,
{
    if k <= 1 {
        assert(fan_of(mesh, i, k + 1) =~= Seq::<Triangle>::empty());
        assert(drawn_triangles(st.0, st.1) + fan_of(mesh, i, k + 1) =~= drawn_triangles(st.0, st.1));
    } else {
        lemma_fan_windows_grows(mesh, i, a_idx, st, k);
        let prev = fan_windows(mesh, i, a_idx, st, k - 1);
        let b = mesh.slot(i, k - 1);
        let c = mesh.slot(i, k);
        if !(b == NO_INDEX || c == NO_INDEX) {
            assert(fan_windows(mesh, i, a_idx, st, k).0.len() == prev.0.len() + 2);
        }
        lemma_fan_windows_draws(mesh, i, a_idx, st, k - 1);
        let r = fan_windows(mesh, i, a_idx, st, k);
        if !(b == NO_INDEX || c == NO_INDEX) {
            let vb = mesh.vertices@[b as int];
            let vc = mesh.vertices@[c as int];
            let b_vi = prev.0.len() as u32;
            let c_vi = (prev.0.len() + 1) as u32;
            assert(b_vi as int == prev.0.len());
            assert(c_vi as int == prev.0.len() + 1);
            assert(r.0 == prev.0.push(vb).push(vc));
            assert(r.1 == prev.1.push(a_idx).push(b_vi).push(c_vi));
            assert forall|t: int| 0 <= t < r.1.len() implies (#[trigger] r.1[t] as int) < r.0.len() by {
                if t < prev.1.len() {
                    assert(r.1[t] == prev.1[t]);
                }
            }
            lemma_drawn_extend(prev.0, r.0, prev.1);
            let dr = drawn_triangles(r.0, r.1);
            let dp = drawn_triangles(prev.0, prev.1);
            let tri = (mesh.vertices@[mesh.slot(i, 0) as int], vb, vc);
            assert(r.0[a_idx as int] == prev.0[a_idx as int]);
            assert(r.0[b_vi as int] == vb);
            assert(r.0[c_vi as int] == vc);
            assert(dr.len() == dp.len() + 1);
            assert forall|t: int| 0 <= t < dr.len() implies dr[t] == dp.push(tri)[t] by {
                if t < dp.len() {
                    assert(3 * t + 2 < prev.1.len());
                    assert(r.1[3 * t] == prev.1[3 * t]);
                    assert(r.1[3 * t + 1] == prev.1[3 * t + 1]);
                    assert(r.1[3 * t + 2] == prev.1[3 * t + 2]);
                    assert(drawn_triangles(r.0, prev.1)[t] == dp[t]);
                } else {
                    assert(t == dp.len());
                    assert(3 * t == prev.1.len());
                }
            }
            assert(dr =~= dp.push(tri));
            assert(fan_of(mesh, i, k + 1) == fan_of(mesh, i, k).push(tri));
            assert(drawn_triangles(st.0, st.1) + fan_of(mesh, i, k + 1) =~= (drawn_triangles(
                st.0,
                st.1,
            ) + fan_of(mesh, i, k)).push(tri));
        } else {
            assert(fan_of(mesh, i, k + 1) == fan_of(mesh, i, k));
        }
    }
}

/// The triangle list of a polygon navmesh draws exactly the fans of its
/// polygons: polygon by polygon, one triangle (first slot, slot `w`, slot
/// `w + 1`) for every pair of used neighbouring slots `w`, `w + 1` after the
/// first, with the corners at those slots' vertices; so a polygon of `m`
/// used slots is drawn as `m - 2` triangles covering it. Holds while the
/// list has fewer than 2^32 vertices.
pub proof fn lemma_polygon_visual_draws_fans(mesh: &PolygonNavmesh, n: int)
    requires
        0 <= n,
        polygon_visual(mesh, n).0.len() <= u32::MAX,
    ensures
        polygon_visual(mesh, n).1.len() % 3 == 0,
        drawn_triangles(polygon_visual(mesh, n).0, polygon_visual(mesh, n).1) == fans_of(mesh, n),
    decreases n,
{
    lemma_polygon_visual_indices(mesh, n);
    if n > 0 {
        let prev = polygon_visual(mesh, n - 1);
        let a_idx = prev.0.len() as u32;
        let st = (prev.0.push(mesh.vertices@[mesh.slot(n - 1, 0) as int]), prev.1);
        lemma_fan_windows_grows(mesh, n - 1, a_idx, st, mesh.nvp() - 1);
        lemma_polygon_visual_draws_fans(mesh, n - 1);
        lemma_polygon_visual_indices(mesh, n - 1);
        assert(a_idx as int == prev.0.len());
        assert forall|t: int| 0 <= t < st.1.len() implies (#[trigger] st.1[t] as int) < st.0.len() by {
            assert(st.1[t] == prev.1[t]);
        }
        lemma_drawn_extend(prev.0, st.0, prev.1);
        lemma_fan_windows_draws(mesh, n - 1, a_idx, st, mesh.nvp() - 1);
    }
}

/// Number of used slots among the first `j` slots of polygon `i`.
pub open spec fn used_count(mesh: &PolygonNavmesh, i: int, j: int) -> int
    decreases j,
{
    if j <= 0 {
        0
    } else {
        used_count(mesh, i, j - 1) + if mesh.slot(i, j - 1) != NO_INDEX {
            1int
        } else {
            0int
        }
    }
}

proof fn lemma_used_slots_positions(mesh: &PolygonNavmesh, i: int, n: int)
    requires
        0 <= n,
    ensures
        mesh.used_slots(i, n).len() == used_count(mesh, i, n),
        forall|j: int|
            0 <= j < n && #[trigger] mesh.slot(i, j) != NO_INDEX ==> 0 <= used_count(mesh, i, j)
                < used_count(mesh, i, n) && mesh.used_slots(i, n)[used_count(mesh, i, j)]
                == mesh.slot(i, j),
    decreases n,
{
    if n > 0 {
        lemma_used_slots_positions(mesh, i, n - 1);
        assert forall|j: int|
            0 <= j < n && #[trigger] mesh.slot(i, j) != NO_INDEX implies 0 <= used_count(
                mesh,
                i,
                j,
            ) < used_count(mesh, i, n) && mesh.used_slots(i, n)[used_count(mesh, i, j)]
                == mesh.slot(i, j) by {
            if j < n - 1 {
                lemma_used_count_monotone(mesh, i, j + 1, n - 1);
            }
        }
    }
}

proof fn lemma_used_count_monotone(mesh: &PolygonNavmesh, i: int, a: int, b: int)
    requires
        0 <= a <= b,
    ensures
        used_count(mesh, i, a) <= used_count(mesh, i, b),
    decreases b - a,
{
    if a < b {
        lemma_used_count_monotone(mesh, i, a, b - 1);
    }
}

/// The outline of a polygon visits the vertices of its used slots in slot
/// order and closes on the first: the used slot `j` is point number "used
/// slots before `j`", there is one point per used slot plus the closing one,
/// and the last point repeats the first.
pub proof fn lemma_outline_visits_used_slots(mesh: &PolygonNavmesh, i: int)
    requires
        used_count(mesh, i, mesh.nvp()) > 0,
    ensures
        mesh.outline(i).len() == used_count(mesh, i, mesh.nvp()) + 1,
        mesh.outline(i).last() == mesh.outline(i)[0],
        forall|j: int|
            0 <= j < mesh.nvp() && #[trigger] mesh.slot(i, j) != NO_INDEX ==> mesh.outline(
                i,
            )[used_count(mesh, i, j)] == mesh.vertices@[mesh.slot(i, j) as int],
{
    lemma_used_slots_positions(mesh, i, mesh.nvp());
}

} // verus!
