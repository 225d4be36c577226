use rerecast::contours::GridVertex;
use rerecast::region::RegionVertexId;
use rerecast::simplify::{
    remove_degenerate_segments, simplify_contour, BuildContoursFlags, SquaredErrorBound,
    THRESHOLD_CAP, TESSELLATE_SOLID_WALL_EDGES,
};

fn v(x: u16, z: u16) -> GridVertex {
    GridVertex { x, y: 0, z }
}

fn bound(e: f32) -> SquaredErrorBound {
    SquaredErrorBound::from_f32_bits((e * e).to_bits())
}

#[test]
fn square_simplifies_to_corners() {
    let raw: Vec<(GridVertex, RegionVertexId)> = [
        (1, 1),
        (1, 2),
        (1, 3),
        (2, 3),
        (3, 3),
        (3, 2),
        (3, 1),
        (2, 1),
    ]
    .iter()
    .map(|&(x, z)| (v(x, z), RegionVertexId(0)))
    .collect();
    let mut out = Vec::new();
    simplify_contour(&raw, &mut out, bound(1.3), 0, BuildContoursFlags::default());
    let mut corners: Vec<(u16, u16)> = out.iter().map(|(p, _)| (p.x, p.z)).collect();
    corners.sort();
    assert_eq!(corners, vec![(1, 1), (1, 3), (3, 1), (3, 3)]);
}

#[test]
fn thin_strip_keeps_only_its_extreme_corners() {
    // A long thin strip: every point lies within the error bound of the
    // segments between the lower-left and upper-right corners.
    let mut raw = Vec::new();
    for z in 0..6 {
        raw.push((v(0, z), RegionVertexId(0)));
    }
    raw.push((v(0, 6), RegionVertexId(0)));
    raw.push((v(1, 6), RegionVertexId(0)));
    for z in (1..6).rev() {
        raw.push((v(1, z), RegionVertexId(0)));
    }
    raw.push((v(1, 0), RegionVertexId(0)));
    let mut out = Vec::new();
    simplify_contour(&raw, &mut out, bound(1.3), 0, BuildContoursFlags::default());
    let mut corners: Vec<(u16, u16)> = out.iter().map(|(p, _)| (p.x, p.z)).collect();
    corners.sort();
    assert_eq!(corners, vec![(0, 0), (1, 6)]);
}

#[test]
fn long_wall_edges_are_split() {
    // A long strip with wall edges (no neighbour region) and splitting on:
    // no simplified edge along a wall may be longer than 2 cells.
    let mut raw = Vec::new();
    for z in 0..8 {
        raw.push((v(0, z), RegionVertexId(0)));
    }
    raw.push((v(0, 8), RegionVertexId(0)));
    raw.push((v(1, 8), RegionVertexId(0)));
    for z in (1..8).rev() {
        raw.push((v(1, z), RegionVertexId(0)));
    }
    raw.push((v(1, 0), RegionVertexId(0)));
    let mut out = Vec::new();
    simplify_contour(
        &raw,
        &mut out,
        bound(1.3),
        2,
        BuildContoursFlags(TESSELLATE_SOLID_WALL_EDGES),
    );
    assert!(out.len() > 4);
    for k in 0..out.len() {
        let a = out[k].0;
        let b = out[(k + 1) % out.len()].0;
        let dx = a.x as i32 - b.x as i32;
        let dz = a.z as i32 - b.z as i32;
        assert!(dx * dx + dz * dz <= 4);
    }
}

#[test]
fn degenerate_segments_are_removed() {
    let mut s = vec![
        (v(0, 0), 0u32),
        (v(0, 0), 1u32),
        (v(2, 0), 2u32),
        (v(2, 2), 3u32),
    ];
    remove_degenerate_segments(&mut s);
    let pts: Vec<(u16, u16)> = s.iter().map(|(p, _)| (p.x, p.z)).collect();
    assert_eq!(pts, vec![(0, 0), (2, 0), (2, 2)]);
    assert_eq!(s[0].1, 1);
}

#[test]
fn degenerate_wraparound_is_removed() {
    let mut s = vec![(v(0, 0), 0u32), (v(2, 0), 1u32), (v(0, 0), 2u32)];
    remove_degenerate_segments(&mut s);
    assert_eq!(s.len(), 2);
}

#[test]
fn error_bound_from_float_bits() {
    let one = SquaredErrorBound::from_f32_bits(1.0f32.to_bits());
    assert_eq!((one.num, one.den), (0x80_0000, 0x80_0000));
    let two = SquaredErrorBound::from_f32_bits(2.0f32.to_bits());
    assert_eq!((two.num, two.den), (0x80_0000, 0x40_0000));
    let big = SquaredErrorBound::from_f32_bits(1024.0f32.to_bits());
    assert_eq!((big.num, big.den), (0x80_0000, 0x2000));
    let zero = SquaredErrorBound::from_f32_bits(0.0f32.to_bits());
    assert_eq!((zero.num, zero.den), (0, 1));
    let inf = SquaredErrorBound::from_f32_bits(f32::INFINITY.to_bits());
    assert_eq!((inf.num, inf.den), (THRESHOLD_CAP, 1));
    let nan = SquaredErrorBound::from_f32_bits(f32::NAN.to_bits());
    assert_eq!((nan.num, nan.den), (THRESHOLD_CAP, 1));
    let huge = SquaredErrorBound::from_f32_bits(1.0e20f32.to_bits());
    assert_eq!((huge.num, huge.den), (THRESHOLD_CAP, 1));
    let tiny = SquaredErrorBound::from_f32_bits(1.0e-30f32.to_bits());
    assert_eq!((tiny.num, tiny.den), (0, 1));
    let sq = 1.3f32 * 1.3f32;
    let b = SquaredErrorBound::from_f32_bits(sq.to_bits());
    assert_eq!(b.num as f64 / b.den as f64, sq as f64);
}

#[test]
fn default_flags_split_wall_edges() {
    assert_eq!(BuildContoursFlags::default().bits(), TESSELLATE_SOLID_WALL_EDGES);
    assert!(BuildContoursFlags::default().intersects(TESSELLATE_SOLID_WALL_EDGES));
}

#[test]
fn simplified_vertices_follow_the_raw_order() {
    // An L-shaped outline with a portal along its left side.
    let outline = [
        (0, 0), (0, 1), (0, 2), (0, 3), (0, 4), (1, 4), (2, 4), (2, 3),
        (2, 2), (3, 2), (4, 2), (4, 1), (4, 0), (3, 0), (2, 0), (1, 0),
    ];
    let raw: Vec<(GridVertex, RegionVertexId)> = outline
        .iter()
        .enumerate()
        .map(|(k, &(x, z))| (v(x, z), RegionVertexId(if k < 4 { 7 } else { 0 })))
        .collect();
    for max_edge_len in [0u16, 1, 2] {
        let mut out = Vec::new();
        simplify_contour(&raw, &mut out, bound(0.5), max_edge_len, BuildContoursFlags::default());
        let positions: Vec<usize> = out
            .iter()
            .map(|(p, _)| raw.iter().position(|(r, _)| r == p).unwrap())
            .collect();
        // Going once around the raw contour: forward steps sum to its length.
        let n = raw.len();
        let steps: usize = (0..positions.len())
            .map(|j| {
                let d = (positions[(j + 1) % positions.len()] + n - positions[j]) % n;
                if d == 0 { n } else { d }
            })
            .sum();
        assert_eq!(steps, n);
        assert!(positions.len() >= 4);
    }
}

#[test]
fn edge_lengths_above_255_are_accepted() {
    // A 1000 x 2 rectangle outline: the long wall edges are split until no
    // piece is longer than 300 cells.
    let mut raw = Vec::new();
    for x in 0..1000u16 {
        raw.push((v(x, 0), RegionVertexId(0)));
    }
    raw.push((v(1000, 0), RegionVertexId(0)));
    raw.push((v(1000, 1), RegionVertexId(0)));
    for x in (1..=1000u16).rev() {
        raw.push((v(x, 2), RegionVertexId(0)));
    }
    raw.push((v(0, 2), RegionVertexId(0)));
    raw.push((v(0, 1), RegionVertexId(0)));
    let mut out = Vec::new();
    simplify_contour(&raw, &mut out, bound(1.3), 300, BuildContoursFlags::default());
    let n = out.len();
    assert!(n > 2);
    for j in 0..n {
        let (a, b) = (out[j].0, out[(j + 1) % n].0);
        let dx = a.x as i64 - b.x as i64;
        let dz = a.z as i64 - b.z as i64;
        assert!(dx * dx + dz * dz <= 300 * 300);
    }
}
