use rerecast::contours::GridVertex;
use rerecast::heightfield::{CompactCell, CompactHeightfield, CompactSpan, NOT_CONNECTED};
use rerecast::region::{AreaType, RegionId};
use rerecast::simplify::{BuildContoursFlags, SquaredErrorBound};

/// A heightfield with one span per cell, linked to every neighbour inside the grid.
fn grid(width: u16, height: u16, border: u16, regions: &[u16]) -> CompactHeightfield {
    let mut cells = Vec::new();
    let mut spans = Vec::new();
    let mut areas = Vec::new();
    for z in 0..height as i32 {
        for x in 0..width as i32 {
            let i = spans.len();
            cells.push(CompactCell { index: i as u32, count: 1 });
            let mut con = [NOT_CONNECTED; 4];
            let offsets = [(-1, 0), (0, 1), (1, 0), (0, -1)];
            for (dir, (dx, dz)) in offsets.iter().enumerate() {
                let nx = x + dx;
                let nz = z + dz;
                if nx >= 0 && nz >= 0 && nx < width as i32 && nz < height as i32 {
                    con[dir] = 0;
                }
            }
            let region = regions[i];
            spans.push(CompactSpan { y: 5, region: RegionId(region), con, height: 10 });
            areas.push(if region == 0 { AreaType(0) } else { AreaType(63) });
        }
    }
    CompactHeightfield {
        width,
        height,
        border_size: border,
        max_region: RegionId(1),
        cells,
        spans,
        areas,
    }
}

fn error_bound() -> SquaredErrorBound {
    let e = 1.3f32;
    SquaredErrorBound::from_f32_bits((e * e).to_bits())
}

#[test]
fn square_region_gives_one_contour() {
    let regions = [
        0, 0, 0, 0,
        0, 1, 1, 0,
        0, 1, 1, 0,
        0, 0, 0, 0,
    ];
    let chf = grid(4, 4, 0, &regions);
    let set = chf.build_contours(error_bound(), 0, BuildContoursFlags::default());
    assert_eq!(set.width, 4);
    assert_eq!(set.height, 4);
    assert_eq!(set.border_size, 0);
    assert_eq!(set.contours.len(), 1);
    let c = &set.contours[0];
    assert_eq!(c.region, RegionId(1));
    assert_eq!(c.area, AreaType(63));
    assert_eq!(c.raw_vertices.len(), 8);
    assert_eq!(c.vertices.len(), 4);
    let mut corners: Vec<(u16, u16)> = c.vertices.iter().map(|(v, _)| (v.x, v.z)).collect();
    corners.sort();
    assert_eq!(corners, vec![(1, 1), (1, 3), (3, 1), (3, 3)]);
    for (v, _) in &c.vertices {
        assert_eq!(v.y, 5);
    }
}

#[test]
fn no_region_gives_no_contour() {
    let regions = [0u16; 9];
    let chf = grid(3, 3, 0, &regions);
    let set = chf.build_contours(error_bound(), 0, BuildContoursFlags::default());
    assert!(set.contours.is_empty());
    assert_eq!(set.width, 3);
}

#[test]
fn border_is_removed_from_contours() {
    let regions = [
        0, 0, 0, 0, 0,
        0, 1, 1, 1, 0,
        0, 1, 1, 1, 0,
        0, 1, 1, 1, 0,
        0, 0, 0, 0, 0,
    ];
    let chf = grid(5, 5, 1, &regions);
    let set = chf.build_contours(error_bound(), 0, BuildContoursFlags::default());
    assert_eq!(set.width, 3);
    assert_eq!(set.height, 3);
    assert_eq!(set.border_size, 1);
    assert_eq!(set.contours.len(), 1);
    let mut corners: Vec<(u16, u16)> =
        set.contours[0].vertices.iter().map(|(v, _)| (v.x, v.z)).collect();
    corners.sort();
    assert_eq!(corners, vec![(0, 0), (0, 3), (3, 0), (3, 3)]);
}

#[test]
fn two_regions_give_two_contours() {
    let regions = [
        0, 0, 0, 0, 0, 0,
        0, 1, 1, 2, 2, 0,
        0, 1, 1, 2, 2, 0,
        0, 0, 0, 0, 0, 0,
    ];
    let chf = grid(6, 4, 0, &regions);
    let set = chf.build_contours(error_bound(), 0, BuildContoursFlags::default());
    assert_eq!(set.contours.len(), 2);
    let mut regions_found: Vec<u16> = set.contours.iter().map(|c| c.region.0).collect();
    regions_found.sort();
    assert_eq!(regions_found, vec![1, 2]);
    for c in &set.contours {
        assert!(c.vertices.len() >= 3);
    }
    // The portal edge between the regions keeps its vertices.
    let c1 = set.contours.iter().find(|c| c.region.0 == 1).unwrap();
    assert!(c1.vertices.iter().any(|(_, flags)| flags & 0xffff == 2));
}

#[test]
fn grid_vertex_fields() {
    let v = GridVertex { x: 1, y: 2, z: 3 };
    assert_eq!((v.x, v.y, v.z), (1, 2, 3));
}

#[test]
fn simplified_vertices_are_raw_vertices() {
    let regions = [
        0, 0, 0, 0, 0, 0, 0,
        0, 1, 1, 1, 2, 2, 0,
        0, 1, 1, 1, 2, 2, 0,
        0, 1, 1, 0, 2, 2, 0,
        0, 1, 1, 1, 1, 2, 0,
        0, 0, 0, 0, 0, 0, 0,
    ];
    for border in [0u16, 1] {
        let chf = grid(7, 6, border, &regions);
        for flags in [BuildContoursFlags::default(), BuildContoursFlags(0)] {
            let set = chf.build_contours(error_bound(), 1, flags);
            assert!(!set.contours.is_empty());
            for c in &set.contours {
                assert!(c.vertices.len() <= c.raw_vertices.len());
                for (v, _) in &c.vertices {
                    assert!(c.raw_vertices.iter().any(|(r, _)| r == v));
                }
            }
        }
    }
}

#[test]
fn large_error_bound_can_make_a_contour_cross_itself() {
    fn orient(a: (i64, i64), b: (i64, i64), c: (i64, i64)) -> i64 {
        ((b.0 - a.0) * (c.1 - a.1) - (b.1 - a.1) * (c.0 - a.0)).signum()
    }
    fn proper_cross(a: (i64, i64), b: (i64, i64), c: (i64, i64), d: (i64, i64)) -> bool {
        let (o1, o2, o3, o4) = (orient(a, b, c), orient(a, b, d), orient(c, d, a), orient(c, d, b));
        o1 * o2 < 0 && o3 * o4 < 0
    }
    let regions = [
        0, 0, 0, 0, 0, 0, 0, 0, 0, 0,
        0, 1, 1, 1, 1, 1, 1, 1, 0, 0,
        0, 0, 0, 1, 0, 1, 0, 1, 0, 0,
        0, 1, 1, 1, 0, 0, 1, 1, 1, 0,
        0, 1, 1, 1, 0, 1, 0, 1, 0, 0,
        0, 1, 1, 1, 1, 1, 1, 0, 0, 0,
        0, 0, 0, 0, 0, 0, 0, 0, 0, 0,
    ];
    let chf = grid(10, 7, 0, &regions);
    let e = 3.0f32;
    let set = chf.build_contours(
        SquaredErrorBound::from_f32_bits((e * e).to_bits()),
        0,
        BuildContoursFlags(0),
    );
    let crossing = set.contours.iter().any(|c| {
        let pts: Vec<(i64, i64)> = c.vertices.iter().map(|(v, _)| (v.x as i64, v.z as i64)).collect();
        let n = pts.len();
        (0..n).any(|i| {
            (i + 2..n).any(|j| {
                !(i == 0 && j == n - 1)
                    && proper_cross(pts[i], pts[(i + 1) % n], pts[j], pts[(j + 1) % n])
            })
        })
    });
    assert!(crossing);
}

#[test]
fn zero_edge_length_ignores_the_flags() {
    let regions = [
        0, 0, 0, 0, 0, 0,
        0, 1, 1, 2, 2, 0,
        0, 1, 1, 2, 2, 0,
        0, 1, 1, 1, 1, 0,
        0, 0, 0, 0, 0, 0,
    ];
    let chf = grid(6, 5, 0, &regions);
    let outline = |flags: u8| -> Vec<Vec<(GridVertex, u32)>> {
        chf.build_contours(error_bound(), 0, BuildContoursFlags(flags))
            .contours
            .iter()
            .map(|c| c.vertices.clone())
            .collect()
    };
    assert_eq!(outline(0), outline(1));
    assert_eq!(outline(0), outline(3));
}
