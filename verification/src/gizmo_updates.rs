//! Which navmesh gizmos an asset event touches, and how: a gizmo whose
//! navmesh was added, loaded or modified is redrawn; one whose navmesh was
//! removed or is no longer used is despawned.

use vstd::prelude::*;

verus! {

/// What happened to the navmesh asset with the given id.
#[derive(Clone, Copy, Debug, PartialEq, Eq, Structural)]
pub enum NavmeshAssetEvent {
    /// The navmesh was added.
    Added(u64),
    /// The navmesh and everything it depends on were loaded.
    LoadedWithDependencies(u64),
    /// The navmesh was modified.
    Modified(u64),
    /// The navmesh was removed.
    Removed(u64),
    /// The navmesh is no longer used.
    Unused(u64),
}

/// What becomes of a gizmo drawing a navmesh.
#[derive(Clone, Copy, Debug, PartialEq, Eq, Structural)]
pub enum GizmoUpdate {
    /// Mark it dirty, so that it is drawn again.
    Redraw,
    /// Despawn it.
    Despawn,
}

impl NavmeshAssetEvent {
    /// The navmesh the event is about.
    pub open spec fn id_spec(self) -> u64 {
        match self {
            NavmeshAssetEvent::Added(id) => id,
            NavmeshAssetEvent::LoadedWithDependencies(id) => id,
            NavmeshAssetEvent::Modified(id) => id,
            NavmeshAssetEvent::Removed(id) => id,
            NavmeshAssetEvent::Unused(id) => id,
        }
    }

    /// What the event does to the gizmos of its navmesh.
    pub open spec fn update_spec(self) -> GizmoUpdate {
        match self {
            NavmeshAssetEvent::Removed(_) | NavmeshAssetEvent::Unused(_) => GizmoUpdate::Despawn,
            _ => GizmoUpdate::Redraw,
        }
    }

    /// The navmesh the event is about.
    pub fn id(self) -> (r: u64)
        ensures
            r == self.id_spec(),
    {
        match self {
            NavmeshAssetEvent::Added(id) => id,
            NavmeshAssetEvent::LoadedWithDependencies(id) => id,
            NavmeshAssetEvent::Modified(id) => id,
            NavmeshAssetEvent::Removed(id) => id,
            NavmeshAssetEvent::Unused(id) => id,
        }
    }

    /// What the event does to the gizmos of its navmesh.
    pub fn update(self) -> (r: GizmoUpdate)
        ensures
            r == self.update_spec(),
    {
        match self {
            NavmeshAssetEvent::Removed(_) | NavmeshAssetEvent::Unused(_) => GizmoUpdate::Despawn,
            _ => GizmoUpdate::Redraw,
        }
    }
}

/// The positions in `ids[..n]` that hold `id`, in order.
pub open spec fn positions_of(ids: Seq<u64>, id: u64, n: int) -> Seq<usize>
    decreases n,
{
    if n <= 0 {
        Seq::empty()
    } else if ids[n - 1] == id {
        positions_of(ids, id, n - 1).push((n - 1) as usize)
    } else {
        positions_of(ids, id, n - 1)
    }
}

/// Every position listed holds `id` and lies below `n`, in increasing order.
pub proof fn lemma_positions_of(ids: Seq<u64>, id: u64, n: int)
    requires
        0 <= n <= ids.len(),
        n <= usize::MAX + 1,
    ensures
        forall|k: int|
            0 <= k < positions_of(ids, id, n).len() ==> {
                let p = #[trigger] positions_of(ids, id, n)[k];
                p < n && ids[p as int] == id
            },
        forall|k1: int, k2: int|
            0 <= k1 < k2 < positions_of(ids, id, n).len() ==> #[trigger] positions_of(
                ids,
                id,
                n,
            )[k1] < #[trigger] positions_of(ids, id, n)[k2],
        forall|p: int| 0 <= p < n && ids[p] == id ==> positions_of(ids, id, n).contains(p as usize),
    decreases n,
{
    if n > 0 {
        lemma_positions_of(ids, id, n - 1);
        let prev = positions_of(ids, id, n - 1);
        if ids[n - 1] == id {
            assert forall|p: int| 0 <= p < n && ids[p] == id implies positions_of(
                ids,
                id,
                n,
            ).contains(p as usize) by {
                if p == n - 1 {
                    assert(positions_of(ids, id, n)[prev.len() as int] == p as usize);
                } else {
                    let k = choose|k: int| 0 <= k < prev.len() && prev[k] == p as usize;
                    assert(positions_of(ids, id, n)[k] == p as usize);
                }
            }
        }
    }
}

/// The gizmos an asset event touches and how: `gizmo_navmeshes[g]` is the
/// navmesh drawn by gizmo `g`; each gizmo of the event's navmesh is listed,
/// in order, with the event's update.
pub fn gizmo_updates(event: NavmeshAssetEvent, gizmo_navmeshes: &Vec<u64>) -> (r: Vec<
    (usize, GizmoUpdate),
>)
    ensures
        r@.len() == positions_of(gizmo_navmeshes@, event.id_spec(), gizmo_navmeshes@.len() as int).len(),
        forall|k: int|
            0 <= k < r@.len() ==> #[trigger] r@[k] == (
                positions_of(gizmo_navmeshes@, event.id_spec(), gizmo_navmeshes@.len() as int)[k],
                event.update_spec(),
            ),
{
    let id = event.id();
    let update = event.update();
    let mut r: Vec<(usize, GizmoUpdate)> = Vec::new();
    let mut g: usize = 0;
    while g < gizmo_navmeshes.len()
        invariant
            g <= gizmo_navmeshes@.len(),
            id == event.id_spec(),
            update == event.update_spec(),
            r@.len() == positions_of(gizmo_navmeshes@, id, g as int).len(),
            forall|k: int|
                0 <= k < r@.len() ==> #[trigger] r@[k] == (
                    positions_of(gizmo_navmeshes@, id, g as int)[k],
                    update,
                ),
        decreases gizmo_navmeshes@.len() - g,
    {
        if gizmo_navmeshes[g] == id {
            r.push((g, update));
        }
        g += 1;
    }
    r
}

} // verus!
