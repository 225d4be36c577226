//! Editor state: which gizmos are drawn, and which colour a widget takes in
//! each interaction state.

use vstd::prelude::*;

verus! {

/// The gizmos the editor can draw.
#[derive(Clone, Copy, Debug, PartialEq, Eq, Structural)]
pub enum AvailableGizmos {
    /// The level's visual meshes.
    Visual,
    /// Outlines of the obstacles the navmesh is built from.
    Obstacles,
    /// The polygon navmesh.
    PolyMesh,
    /// The detail navmesh.
    DetailMesh,
}

/// The set of gizmos to draw.
#[derive(Clone, Copy, Debug, PartialEq, Eq, Structural)]
pub struct GizmosToDraw {
    visual: bool,
    obstacles: bool,
    poly_mesh: bool,
    detail_mesh: bool,
}

impl GizmosToDraw {
    /// Whether `gizmo` is drawn.
    pub closed spec fn has(&self, gizmo: AvailableGizmos) -> bool {
        match gizmo {
            AvailableGizmos::Visual => self.visual,
            AvailableGizmos::Obstacles => self.obstacles,
            AvailableGizmos::PolyMesh => self.poly_mesh,
            AvailableGizmos::DetailMesh => self.detail_mesh,
        }
    }

    /// The gizmos drawn.
    pub open spec fn view(&self) -> Set<AvailableGizmos> {
        Set::new(|g: AvailableGizmos| self.has(g))
    }

    /// By default the detail mesh and the visual meshes are drawn.
    pub fn new() -> (r: GizmosToDraw)
        ensures
            r.view() == set![AvailableGizmos::DetailMesh, AvailableGizmos::Visual],
    {
        let r = GizmosToDraw { visual: true, obstacles: false, poly_mesh: false, detail_mesh: true };
        assert(r.view() =~= set![AvailableGizmos::DetailMesh, AvailableGizmos::Visual]);
        r
    }

    /// Whether `gizmo` is drawn.
    pub fn contains(&self, gizmo: AvailableGizmos) -> (r: bool)
        ensures
            r == self.view().contains(gizmo),
    {
        match gizmo {
            AvailableGizmos::Visual => self.visual,
            AvailableGizmos::Obstacles => self.obstacles,
            AvailableGizmos::PolyMesh => self.poly_mesh,
            AvailableGizmos::DetailMesh => self.detail_mesh,
        }
    }

    /// Draws `gizmo` when `enabled`, else stops drawing it.
    pub fn set(&mut self, gizmo: AvailableGizmos, enabled: bool)
        ensures
            final(self).view() == if enabled {
                old(self).view().insert(gizmo)
            } else {
                old(self).view().remove(gizmo)
            },
    {
        match gizmo {
            AvailableGizmos::Visual => self.visual = enabled,
            AvailableGizmos::Obstacles => self.obstacles = enabled,
            AvailableGizmos::PolyMesh => self.poly_mesh = enabled,
            AvailableGizmos::DetailMesh => self.detail_mesh = enabled,
        }
        proof {
            if enabled {
                assert(self.view() =~= old(self).view().insert(gizmo));
            } else {
                assert(self.view() =~= old(self).view().remove(gizmo));
            }
        }
    }

    /// Whether `gizmo` has just been switched on: the set changed and holds it.
    pub fn toggled_on(&self, changed: bool, gizmo: AvailableGizmos) -> (r: bool)
        ensures
            r == (changed && self.view().contains(gizmo)),
    {
        changed && self.contains(gizmo)
    }

    /// Whether `gizmo` has just been switched off: the set changed and lacks it.
    pub fn toggled_off(&self, changed: bool, gizmo: AvailableGizmos) -> (r: bool)
        ensures
            r == (changed && !self.view().contains(gizmo)),
    {
        changed && !self.contains(gizmo)
    }
}

/// Colours of a widget for each interaction state.
#[derive(Clone, Copy, Debug)]
pub struct InteractionPalette<C> {
    /// Colour when idle.
    pub none: C,
    /// Colour when disabled.
    pub disabled: C,
    /// Colour under the pointer.
    pub hovered: C,
    /// Colour while pressed.
    pub pressed: C,
}

impl<C: Copy> InteractionPalette<C> {
    /// The colour of a widget: disabled when it is pickable but lets picks
    /// through (`blocks_lower` is `Some(false)`), else pressed, else hovered,
    /// else idle.
    pub fn color_for(&self, blocks_lower: Option<bool>, pressed: bool, hovered: Option<bool>) -> (r: C)
        ensures
            r == if blocks_lower == Some(false) {
                self.disabled
            } else if pressed {
                self.pressed
            } else if hovered == Some(true) {
                self.hovered
            } else {
                self.none
            },
    {
        let disabled = match blocks_lower {
            Some(b) => !b,
            None => false,
        };
        let is_hovered = match hovered {
            Some(h) => h,
            None => false,
        };
        if disabled {
            self.disabled
        } else if pressed {
            self.pressed
        } else if is_hovered {
            self.hovered
        } else {
            self.none
        }
    }
}

/// Marks meshes that are not sent to the editor to preview the level.
#[derive(Clone, Copy, Debug, PartialEq, Eq, Structural)]
pub struct EditorExluded;

/// Whether the editor's decimal text fields accept the character `c`: an
/// ASCII digit, the decimal point or the minus sign.
pub fn accepts_decimal_char(c: char) -> (r: bool)
    ensures
        r == (('0' <= c && c <= '9') || c == '.' || c == '-'),
{
    ('0' <= c && c <= '9') || c == '.' || c == '-'
}

} // verus!
