use rerecast::region::{AreaType, RegionId, RegionVertexId, AREA_BORDER, BORDER_VERTEX};

#[test]
fn region_ids_round_trip_through_vertex_flags() {
    for r in [0u16, 1, 0x7fff, 0x8000, 0xffff] {
        assert_eq!(RegionVertexId::from_region(RegionId(r)).to_region(), RegionId(r));
    }
    let flags = RegionVertexId::from_region(RegionId(5)).union(RegionVertexId(BORDER_VERTEX | AREA_BORDER));
    assert_eq!(flags.to_region(), RegionId(5));
    assert!(flags.intersects(BORDER_VERTEX));
    assert_eq!(flags.bits(), 5 | BORDER_VERTEX | AREA_BORDER);
}

#[test]
fn border_regions_are_flagged() {
    assert!(RegionId(0x8001).is_border_region());
    assert!(!RegionId(1).is_border_region());
    assert_eq!(RegionId::none(), RegionId(0));
    assert_eq!(AreaType::not_walkable(), AreaType(0));
    assert_eq!(AreaType::default_walkable(), AreaType(63));
}
