use rerecast::config::{voxel_sizes, VoxelSizes, BORDER_PADDING};

#[test]
fn sizes_follow_the_agent_radius() {
    let s = voxel_sizes(3, false, 32, 8, 8, 20);
    assert_eq!(
        s,
        VoxelSizes {
            border_size: 3 + BORDER_PADDING,
            tile_field_size: None,
            max_edge_len: 24,
            min_region_area: 64,
            merge_region_area: 400,
        }
    );
}

#[test]
fn tiled_fields_hold_the_border_twice() {
    let s = voxel_sizes(4, true, 32, 8, 8, 20);
    assert_eq!(s.border_size, 7);
    assert_eq!(s.tile_field_size, Some(46));
    assert_eq!(s.max_edge_len, 32);
}

#[test]
fn zero_factor_disables_edge_splitting() {
    let s = voxel_sizes(5, false, 0, 0, 0, 0);
    assert_eq!(s.max_edge_len, 0);
    assert_eq!(s.min_region_area, 0);
}
