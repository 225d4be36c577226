use rerecast::editor::{accepts_decimal_char, AvailableGizmos, GizmosToDraw, InteractionPalette};

#[test]
fn default_gizmos_are_detail_and_visual() {
    let g = GizmosToDraw::new();
    assert!(g.contains(AvailableGizmos::DetailMesh));
    assert!(g.contains(AvailableGizmos::Visual));
    assert!(!g.contains(AvailableGizmos::PolyMesh));
    assert!(!g.contains(AvailableGizmos::Obstacles));
}

#[test]
fn setting_gizmos_toggles_them() {
    let mut g = GizmosToDraw::new();
    g.set(AvailableGizmos::PolyMesh, true);
    assert!(g.contains(AvailableGizmos::PolyMesh));
    assert!(g.toggled_on(true, AvailableGizmos::PolyMesh));
    assert!(!g.toggled_on(false, AvailableGizmos::PolyMesh));
    g.set(AvailableGizmos::Visual, false);
    assert!(!g.contains(AvailableGizmos::Visual));
    assert!(g.toggled_off(true, AvailableGizmos::Visual));
    assert!(!g.toggled_off(true, AvailableGizmos::DetailMesh));
    assert!(g.contains(AvailableGizmos::DetailMesh));
}

#[test]
fn palette_prefers_disabled_then_pressed_then_hovered() {
    let p = InteractionPalette { none: 0u8, disabled: 1, hovered: 2, pressed: 3 };
    assert_eq!(p.color_for(Some(false), true, Some(true)), 1);
    assert_eq!(p.color_for(Some(true), true, Some(true)), 3);
    assert_eq!(p.color_for(None, false, Some(true)), 2);
    assert_eq!(p.color_for(None, false, Some(false)), 0);
    assert_eq!(p.color_for(None, false, None), 0);
}

#[test]
fn decimal_fields_accept_digits_point_and_minus() {
    let accepted: String = "-12.5e+3 x9".chars().filter(|&c| accepts_decimal_char(c)).collect();
    assert_eq!(accepted, "-12.539");
    assert!(!accepts_decimal_char('\u{663}'));
}
