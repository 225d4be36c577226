use rerecast::contours::GridVertex;
use rerecast::debug_mesh::{detail_outlines, detail_visual_mesh, polygon_outlines, polygon_visual_mesh};
use rerecast::delaunay::{
    add_edge, add_hull_edges, commit_facet, facet_endpoints, find_edge, triangles_from_edges,
    update_left_face, Edge, Edges,
};
use rerecast::detail_mesh::{
    on_hull, polygon_bounds, set_tri_flags, Bounds, DetailNavmesh, SubMesh, DETAIL_EDGE_BOUNDARY,
};
use rerecast::height_patch::{check_unset_spans_apart, HeightDataError, HeightPatch, UNSET_HEIGHT};
use rerecast::heightfield::{CompactCell, CompactHeightfield, CompactSpan, NOT_CONNECTED};
use rerecast::polygon_mesh::{PolygonNavmesh, NO_INDEX};
use rerecast::region::{AreaType, RegionId};

fn filled_edges(n: usize) -> Vec<Edges> {
    vec![
        Edges {
            start: Edge::Regular(0),
            end: Edge::Regular(0),
            left: Edge::Regular(0),
            right: Edge::Regular(0),
        };
        n
    ]
}

#[test]
fn square_hull_triangulates_into_two_triangles() {
    let mut edges = filled_edges(40);
    let mut nedges = 0usize;
    let mut nfaces = 0usize;
    let hull = vec![0usize, 1, 2, 3];
    add_hull_edges(&mut edges, &mut nedges, 40, &hull, 4);
    assert_eq!(nedges, 4);
    assert_eq!(edges[0].start, Edge::Regular(3));
    assert_eq!(edges[0].end, Edge::Regular(0));
    assert_eq!(edges[0].left, Edge::Hull);
    assert_eq!(edges[0].right, Edge::Undefined);

    assert_eq!(facet_endpoints(edges[0]), Some((0, 3)));
    commit_facet(&mut edges, &mut nedges, 40, &mut nfaces, 0, 0, 3, 1, 4);
    assert_eq!(nfaces, 1);
    assert_eq!(nedges, 5);
    assert_eq!(facet_endpoints(edges[1]), None);
    assert_eq!(facet_endpoints(edges[2]), Some((2, 1)));
    commit_facet(&mut edges, &mut nedges, 40, &mut nfaces, 2, 2, 1, 3, 4);
    assert_eq!(nfaces, 2);
    assert_eq!(nedges, 5);
    for e in &edges[..5] {
        assert_eq!(facet_endpoints(*e), None);
    }

    let (tris, flags) = triangles_from_edges(&edges, nedges, nfaces);
    assert_eq!(tris, vec![[3, 0, 1], [1, 2, 3]]);
    assert_eq!(flags, vec![0, 0]);

    let mut flags = flags;
    set_tri_flags(&tris, &mut flags, 4, &hull);
    let both = DETAIL_EDGE_BOUNDARY | (DETAIL_EDGE_BOUNDARY << 2);
    assert_eq!(flags, vec![both, both]);
}

#[test]
fn facet_without_point_marks_hull() {
    let mut edges = filled_edges(10);
    let mut nedges = 0usize;
    let mut nfaces = 0usize;
    let r = add_edge(&mut edges, &mut nedges, 10, Edge::Regular(0), Edge::Regular(1), Edge::Undefined, Edge::Undefined);
    assert_eq!(r, Edge::Regular(0));
    commit_facet(&mut edges, &mut nedges, 10, &mut nfaces, 0, 0, 1, 5, 5);
    assert_eq!(edges[0].left, Edge::Hull);
    assert_eq!(nfaces, 0);
}

#[test]
fn edge_lookup_and_duplicates() {
    let mut edges = filled_edges(3);
    let mut nedges = 0usize;
    let a = add_edge(&mut edges, &mut nedges, 3, Edge::Regular(4), Edge::Regular(7), Edge::Hull, Edge::Undefined);
    assert_eq!(a, Edge::Regular(0));
    let dup = add_edge(&mut edges, &mut nedges, 3, Edge::Regular(7), Edge::Regular(4), Edge::Hull, Edge::Undefined);
    assert_eq!(dup, Edge::Undefined);
    assert_eq!(nedges, 1);
    assert_eq!(find_edge(&edges, nedges, Edge::Regular(7), Edge::Regular(4)), Edge::Regular(0));
    assert_eq!(find_edge(&edges, nedges, Edge::Regular(7), Edge::Regular(5)), Edge::Undefined);
    add_edge(&mut edges, &mut nedges, 3, Edge::Regular(1), Edge::Regular(2), Edge::Hull, Edge::Undefined);
    add_edge(&mut edges, &mut nedges, 3, Edge::Regular(2), Edge::Regular(3), Edge::Hull, Edge::Undefined);
    let full = add_edge(&mut edges, &mut nedges, 3, Edge::Regular(3), Edge::Regular(4), Edge::Hull, Edge::Undefined);
    assert_eq!(full, Edge::Undefined);
    assert_eq!(nedges, 3);
}

#[test]
fn left_face_update_follows_direction() {
    let mut e = Edges::undefined();
    e.start = Edge::Regular(1);
    e.end = Edge::Regular(2);
    update_left_face(&mut e, Edge::Regular(1), Edge::Regular(2), Edge::Regular(9));
    assert_eq!(e.left, Edge::Regular(9));
    update_left_face(&mut e, Edge::Regular(2), Edge::Regular(1), Edge::Regular(8));
    assert_eq!(e.right, Edge::Regular(8));
    update_left_face(&mut e, Edge::Regular(2), Edge::Regular(1), Edge::Regular(7));
    assert_eq!(e.right, Edge::Regular(8));
}

#[test]
fn edge_entries() {
    assert_eq!(Edge::from_index(3), Edge::Regular(3));
    assert_eq!(Edge::Regular(3).unwrap(), 3);
    assert_eq!(Edge::Hull.unwrap_or_zero(), 0);
    assert!(Edge::Undefined.is_undefined());
    assert!(!Edge::Hull.is_undefined());
    assert_eq!(Edge::default(), Edge::Regular(0));
}

#[test]
fn hull_edges_are_recognised() {
    let hull = vec![0usize, 1, 2, 3];
    assert!(on_hull(3, 0, 4, &hull));
    assert!(on_hull(0, 1, 4, &hull));
    assert!(!on_hull(1, 0, 4, &hull));
    assert!(!on_hull(1, 3, 4, &hull));
    assert!(!on_hull(0, 5, 4, &hull));
}

fn triangle_mesh() -> PolygonNavmesh {
    PolygonNavmesh {
        vertices: vec![
            GridVertex { x: 1, y: 0, z: 1 },
            GridVertex { x: 4, y: 0, z: 1 },
            GridVertex { x: 4, y: 0, z: 3 },
            GridVertex { x: 6, y: 0, z: 6 },
        ],
        polygons: vec![0, 1, 2, NO_INDEX, 2, 1, 3, NO_INDEX],
        regions: vec![RegionId(1), RegionId(1)],
        max_vertices_per_polygon: 4,
        border_size: 0,
    }
}

#[test]
fn polygon_bounds_grow_by_one_cell() {
    let mesh = triangle_mesh();
    assert_eq!(mesh.polygon_count(), 2);
    let (bounds, maxhw, maxhh, nverts) = polygon_bounds(&mesh, 6, 10);
    assert_eq!(bounds[0], Bounds { xmin: 0, xmax: 5, zmin: 0, zmax: 4 });
    assert_eq!(bounds[1], Bounds { xmin: 3, xmax: 6, zmin: 0, zmax: 7 });
    assert_eq!(bounds[0].width(), 5);
    assert_eq!(bounds[1].height(), 7);
    assert_eq!((maxhw, maxhh), (5, 7));
    assert_eq!(nverts, 6);
}

#[test]
fn polygon_outlines_close_on_first_vertex() {
    let mesh = triangle_mesh();
    let outlines = polygon_outlines(&mesh);
    assert_eq!(outlines.len(), 2);
    let v = &mesh.vertices;
    assert_eq!(outlines[0], vec![v[0], v[1], v[2], v[0]]);
    assert_eq!(outlines[1], vec![v[2], v[1], v[3], v[2]]);
}

#[test]
fn polygon_visual_mesh_is_a_fan() {
    let mesh = triangle_mesh();
    let (verts, indices) = polygon_visual_mesh(&mesh);
    let v = &mesh.vertices;
    assert_eq!(verts, vec![v[0], v[1], v[2], v[2], v[1], v[3]]);
    assert_eq!(indices, vec![0, 1, 2, 3, 4, 5]);
}

#[test]
fn submeshes_keep_their_ranges() {
    let mut dmesh: DetailNavmesh<[f32; 3]> = DetailNavmesh::with_submesh_count(2);
    assert_eq!(dmesh.meshes, vec![SubMesh::default(); 2]);
    let a = [0.0, 0.0, 0.0];
    let b = [1.0, 0.0, 0.0];
    let c = [1.0, 0.0, 1.0];
    let d = [2.0, 0.5, 0.0];
    let e = [3.0, 0.5, 0.0];
    let f = [3.0, 0.5, 1.0];
    let g = [2.0, 0.5, 1.0];
    dmesh.store_submesh(0, &[a, b, c], &[[0, 1, 2]], &[5]);
    dmesh.store_submesh(1, &[d, e, f, g], &[[0, 1, 2], [0, 2, 3]], &[1, 2]);
    assert_eq!(
        dmesh.meshes[1],
        SubMesh { base_vertex_index: 3, vertex_count: 4, base_triangle_index: 1, triangle_count: 2 }
    );
    assert_eq!(dmesh.meshes[0].vertex_count, 3);
    assert_eq!(dmesh.triangle_flags, vec![5, 1, 2]);
    let m = dmesh.meshes[1];
    let verts = &dmesh.vertices[m.base_vertex_index as usize..][..m.vertex_count as usize];
    assert_eq!(verts, &[d, e, f, g]);

    let (vis_verts, indices) = detail_visual_mesh(&dmesh);
    assert_eq!(vis_verts, vec![a, b, c, d, e, f, g]);
    assert_eq!(indices, vec![0, 1, 2, 3, 4, 5, 3, 5, 6]);

    let outlines = detail_outlines(&dmesh);
    assert_eq!(outlines, vec![[a, b, c, a], [d, e, f, d], [d, f, g, d]]);
}

/// A grid with one span per cell at height `ys[i]`, region `regions[i]`,
/// linked to its neighbours except across `cut` cells.
fn patch_grid(width: u16, height: u16, ys: &[u16], regions: &[u16], cut: &[usize]) -> CompactHeightfield {
    let mut cells = Vec::new();
    let mut spans = Vec::new();
    let mut areas = Vec::new();
    for z in 0..height as i32 {
        for x in 0..width as i32 {
            let i = spans.len();
            cells.push(CompactCell { index: i as u32, count: 1 });
            let mut con = [NOT_CONNECTED; 4];
            let offsets = [(-1, 0), (0, 1), (1, 0), (0, -1)];
            for (dir, (dx, dz)) in offsets.iter().enumerate() {
                let nx = x + dx;
                let nz = z + dz;
                if nx >= 0 && nz >= 0 && nx < width as i32 && nz < height as i32 {
                    let j = (nx + nz * width as i32) as usize;
                    if !cut.contains(&i) && !cut.contains(&j) {
                        con[dir] = 0;
                    }
                }
            }
            spans.push(CompactSpan { y: ys[i], region: RegionId(regions[i]), con, height: 20 });
            areas.push(AreaType(63));
        }
    }
    CompactHeightfield {
        width,
        height,
        border_size: 0,
        max_region: RegionId(2),
        cells,
        spans,
        areas,
    }
}

fn patch(width: u16, height: u16) -> HeightPatch {
    HeightPatch { data: vec![0; width as usize * height as usize], xmin: 0, zmin: 0, width, height }
}

#[test]
fn heights_of_the_polygon_region_are_copied() {
    let ys = [1, 2, 3, 4, 5, 6, 7, 8, 9];
    let chf = patch_grid(3, 3, &ys, &[1; 9], &[]);
    let mut hp = patch(3, 3);
    assert_eq!(hp.get_height_data(&chf, &[0, 1, 2], 3, &[[0, 0, 0], [2, 0, 0], [2, 0, 2]], 0, RegionId(1)), Ok(()));
    assert_eq!(hp.data, ys.to_vec());
}

#[test]
fn heights_flood_from_the_region_border() {
    let ys = [1, 2, 3, 4, 5, 6, 7, 8, 9];
    let regions = [1, 1, 2, 1, 1, 2, 2, 2, 2];
    let chf = patch_grid(3, 3, &ys, &regions, &[]);
    let mut hp = patch(3, 3);
    assert_eq!(hp.get_height_data(&chf, &[0, 1, 2], 3, &[[0, 0, 0], [2, 0, 0], [2, 0, 2]], 0, RegionId(1)), Ok(()));
    assert_eq!(hp.data, ys.to_vec());
}

#[test]
fn unreachable_cells_stay_unset() {
    let ys = [1, 2, 3, 4, 5, 6, 7, 8, 9];
    let regions = [1, 1, 1, 1, 1, 1, 1, 1, 2];
    let chf = patch_grid(3, 3, &ys, &regions, &[8]);
    let mut hp = patch(3, 3);
    assert_eq!(hp.get_height_data(&chf, &[0, 1, 2], 3, &[[0, 0, 0], [2, 0, 0], [2, 0, 2]], 0, RegionId(1)), Ok(()));
    assert_eq!(hp.data, vec![1, 2, 3, 4, 5, 6, 7, 8, UNSET_HEIGHT]);
}

#[test]
fn missing_region_seeds_at_the_polygon_centre() {
    let ys = [1, 2, 3, 4, 10, 6, 7, 8, 9];
    let chf = patch_grid(3, 3, &ys, &[2; 9], &[]);
    let mut hp = patch(3, 3);
    // One polygon vertex at cell (1, 1), at the height of its span.
    assert_eq!(hp.get_height_data(&chf, &[0], 1, &[[1, 10, 1]], 0, RegionId(1)), Ok(()));
    assert_eq!(hp.data, ys.to_vec());
}

#[test]
fn missing_region_floods_only_what_the_centre_reaches() {
    let ys = [1, 2, 3, 4, 10, 6, 7, 8, 9];
    let chf = patch_grid(3, 3, &ys, &[2; 9], &[0]);
    let mut hp = patch(3, 3);
    assert_eq!(hp.get_height_data(&chf, &[0], 1, &[[1, 10, 1]], 0, RegionId(1)), Ok(()));
    assert_eq!(hp.data, vec![UNSET_HEIGHT, 2, 3, 4, 10, 6, 7, 8, 9]);
}

#[test]
fn missing_region_without_start_span_is_an_error() {
    let ys = [1, 2, 3, 4, 10, 6, 7, 8, 9];
    let chf = patch_grid(3, 3, &ys, &[2; 9], &[]);
    let mut hp = patch(3, 3);
    // The polygon's only vertex lies far outside the patch.
    let r = hp.get_height_data(&chf, &[0], 1, &[[100, 10, 100]], 0, RegionId(1));
    assert_eq!(r, Err(HeightDataError::NoStartSpan));
    assert_eq!(hp.data, vec![UNSET_HEIGHT; 9]);
    let r = hp.get_height_data(&chf, &[0], 0, &[[1, 10, 1]], 0, RegionId(1));
    assert_eq!(r, Err(HeightDataError::NoStartSpan));
}

#[test]
fn heightfield_well_formedness_is_checked() {
    let ys = [1, 2, 3, 4, 5, 6, 7, 8, 9];
    let chf = patch_grid(3, 3, &ys, &[1; 9], &[]);
    assert!(chf.is_well_formed());
    let mut bad = chf.clone();
    bad.spans[0].con[0] = 0;
    assert!(!bad.is_well_formed());
    let mut short = chf.clone();
    short.cells.pop();
    assert!(!short.is_well_formed());
    let mut overlong = chf.clone();
    overlong.cells[8].count = 2;
    assert!(!overlong.is_well_formed());
}

#[test]
fn triangle_flags_read_two_bits_per_edge() {
    // hull 0 → 1 → 2 → 3; vertex 4 is an interior sample.
    let hull = vec![0usize, 1, 2, 3];
    let tris = vec![[0u8, 1, 4], [4, 2, 3], [3, 0, 1]];
    let mut flags = vec![0u8; 3];
    set_tri_flags(&tris, &mut flags, 4, &hull);
    let external = |f: u8, edge: u32| (f >> (2 * edge)) & 0x3 != 0;
    assert!(external(flags[0], 0) && !external(flags[0], 1) && !external(flags[0], 2));
    assert!(!external(flags[1], 0) && external(flags[1], 1) && !external(flags[1], 2));
    assert!(external(flags[2], 0) && external(flags[2], 1) && !external(flags[2], 2));
    assert!(flags.iter().all(|f| f >> 6 == 0));
}

#[test]
fn edges_are_never_duplicated() {
    let mut edges = vec![Edges::undefined(); 20];
    let mut nedges = 0usize;
    let mut nfaces = 0usize;
    // A hull that walks back over its own edge adds it once.
    add_hull_edges(&mut edges, &mut nedges, 20, &vec![0, 1, 0, 1], 4);
    assert_eq!(nedges, 1);
    // Completing the facet left of 1 → 0 with point 2 adds 2–1 and 0–2 once.
    commit_facet(&mut edges, &mut nedges, 20, &mut nfaces, 0, 1, 0, 2, 3);
    commit_facet(&mut edges, &mut nedges, 20, &mut nfaces, 0, 0, 1, 2, 3);
    assert_eq!(nedges, 3);
    for i in 0..nedges {
        for j in i + 1..nedges {
            let (a, b) = (edges[i].start, edges[i].end);
            let (c, d) = (edges[j].start, edges[j].end);
            assert!(!((a == c && b == d) || (a == d && b == c)));
        }
    }
}

#[test]
fn a_span_at_the_unset_height_is_flooded_past() {
    let ys = [1, 2, 3, 4, UNSET_HEIGHT, 6, 7, 8, 9];
    let regions = [1, 1, 2, 1, 2, 2, 2, 2, 2];
    let chf = patch_grid(3, 3, &ys, &regions, &[]);
    assert!(check_unset_spans_apart(&chf));
    let mut hp = patch(3, 3);
    assert_eq!(hp.get_height_data(&chf, &[0, 1, 2], 3, &[[0, 0, 0], [2, 0, 0], [2, 0, 2]], 0, RegionId(1)), Ok(()));
    assert_eq!(hp.data, ys.to_vec());
}

#[test]
fn linked_spans_at_the_unset_height_are_detected() {
    let ys = [1, 2, 3, 4, UNSET_HEIGHT, UNSET_HEIGHT, 7, 8, 9];
    let chf = patch_grid(3, 3, &ys, &[1; 9], &[]);
    assert!(!check_unset_spans_apart(&chf));
    let ys = [1, 2, 3, 4, UNSET_HEIGHT, 6, 7, 8, UNSET_HEIGHT];
    let chf = patch_grid(3, 3, &ys, &[1; 9], &[]);
    assert!(check_unset_spans_apart(&chf));
}
