use rerecast::gizmo_updates::{gizmo_updates, GizmoUpdate, NavmeshAssetEvent};

#[test]
fn modified_navmesh_redraws_its_gizmos() {
    // polygon gizmos of navmeshes 3 and 5, then detail gizmos of 5 and 3
    let drawn = vec![3u64, 5, 5, 3];
    assert_eq!(
        gizmo_updates(NavmeshAssetEvent::Modified(5), &drawn),
        vec![(1, GizmoUpdate::Redraw), (2, GizmoUpdate::Redraw)]
    );
    assert_eq!(
        gizmo_updates(NavmeshAssetEvent::Added(3), &drawn),
        vec![(0, GizmoUpdate::Redraw), (3, GizmoUpdate::Redraw)]
    );
    assert_eq!(
        gizmo_updates(NavmeshAssetEvent::LoadedWithDependencies(3), &drawn),
        vec![(0, GizmoUpdate::Redraw), (3, GizmoUpdate::Redraw)]
    );
}

#[test]
fn removed_navmesh_despawns_its_gizmos() {
    let drawn = vec![3u64, 5, 5, 3];
    assert_eq!(
        gizmo_updates(NavmeshAssetEvent::Removed(3), &drawn),
        vec![(0, GizmoUpdate::Despawn), (3, GizmoUpdate::Despawn)]
    );
    assert_eq!(
        gizmo_updates(NavmeshAssetEvent::Unused(5), &drawn),
        vec![(1, GizmoUpdate::Despawn), (2, GizmoUpdate::Despawn)]
    );
    assert_eq!(gizmo_updates(NavmeshAssetEvent::Removed(9), &drawn), vec![]);
}
