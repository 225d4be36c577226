//! The sizes of a build configuration that are counted in cells and follow
//! from the agent's radius in cells.

use vstd::prelude::*;

verus! {

/// Cells of padding kept around the walkable area beyond the agent's radius.
pub const BORDER_PADDING: u16 = 3;

/// Sizes of a build configuration, in cells.
#[derive(Clone, Copy, Debug, PartialEq, Eq, Structural)]
pub struct VoxelSizes {
    /// The non-navigable border around the heightfield: the agent's radius
    /// plus [`BORDER_PADDING`].
    pub border_size: u16,
    /// Width and height of the field of one tile with its border on both
    /// sides, when the navmesh is tiled.
    pub tile_field_size: Option<u16>,
    /// Longest contour edge along the mesh border: the agent's radius times
    /// the edge-length factor.
    pub max_edge_len: u16,
    /// Smallest area of an isolated region: the square of the minimum region
    /// size.
    pub min_region_area: u16,
    /// Largest area of a region that may be merged into another: the square of
    /// the merge region size.
    pub merge_region_area: u16,
}

/// The cell-unit sizes of a configuration for an agent `walkable_radius`
/// cells wide.
pub fn voxel_sizes(
    walkable_radius: u16,
    tiling: bool,
    tile_size: u16,
    edge_max_len_factor: u16,
    min_region_size: u16,
    merge_region_size: u16,
) -> (r: VoxelSizes)
    requires
        walkable_radius + BORDER_PADDING <= u16::MAX,
        tiling ==> tile_size + (walkable_radius + BORDER_PADDING) * 2 <= u16::MAX,
        walkable_radius * edge_max_len_factor <= u16::MAX,
        min_region_size * min_region_size <= u16::MAX,
        merge_region_size * merge_region_size <= u16::MAX,
    ensures
        r.border_size == walkable_radius + BORDER_PADDING,
        r.tile_field_size == if tiling {
            Some((tile_size + (walkable_radius + BORDER_PADDING) * 2) as u16)
        } else {
            None::<u16>
        },
        r.max_edge_len == walkable_radius * edge_max_len_factor,
        r.min_region_area == min_region_size * min_region_size,
        r.merge_region_area == merge_region_size * merge_region_size,
{
    let border_size = walkable_radius + BORDER_PADDING;
    VoxelSizes {
        border_size,
        tile_field_size: if tiling {
            Some(tile_size + border_size * 2)
        } else {
            None
        },
        max_edge_len: walkable_radius * edge_max_len_factor,
        min_region_area: min_region_size * min_region_size,
        merge_region_area: merge_region_size * merge_region_size,
    }
}

} // verus!
