//! Region identifiers, area types and the per-vertex region flags used by contours.

use vstd::prelude::*;

verus! {

/// Bit of a [`RegionId`] that marks a span lying in the border of a tile.
pub const BORDER_REGION_BITS: u16 = 0x8000;

/// The largest region id; also the mask that extracts a region id from a
/// [`RegionVertexId`].
pub const MAX_REGION_BITS: u16 = 0xffff;

/// Identifies the region a span belongs to. `0` is "no region"; the bit
/// [`BORDER_REGION_BITS`] marks border regions.
#[derive(Clone, Copy, Debug, PartialEq, Eq, Structural)]
pub struct RegionId(pub u16);

impl RegionId {
    /// The "no region" id.
    pub fn none() -> (r: RegionId)
        ensures
            r.0 == 0,
    {
        RegionId(0)
    }

    /// The raw bits.
    pub fn bits(self) -> (b: u16)
        ensures
            b == self.0,
    {
        self.0
    }

    /// Whether the region is "no region" or a border region: such spans never
    /// start a contour.
    pub open spec fn is_null_or_border(self) -> bool {
        self.0 == 0 || self.0 & BORDER_REGION_BITS == BORDER_REGION_BITS
    }

    /// Whether the border-region bit is set.
    pub fn is_border_region(self) -> (b: bool)
        ensures
            b == (self.0 & BORDER_REGION_BITS == BORDER_REGION_BITS),
    {
        self.0 & BORDER_REGION_BITS == BORDER_REGION_BITS
    }
}

/// The area type of a span (which kind of ground it is).
#[derive(Clone, Copy, Debug, PartialEq, Eq, Structural)]
pub struct AreaType(pub u8);

impl AreaType {
    /// Area type of unwalkable spans.
    pub fn not_walkable() -> (a: AreaType)
        ensures
            a.0 == 0,
    {
        AreaType(0)
    }

    /// Area type given to walkable spans by default.
    pub fn default_walkable() -> (a: AreaType)
        ensures
            a.0 == 63,
    {
        AreaType(63)
    }
}

/// Mask of the region-id part of a [`RegionVertexId`].
pub const REGION_MASK: u32 = 0xffff;

/// Flag of a contour vertex that lies on a tile border; such vertices are
/// later removed so that tiles match up.
pub const BORDER_VERTEX: u32 = 0x10000;

/// Flag of a contour vertex that lies on the border between two areas.
pub const AREA_BORDER: u32 = 0x20000;

/// Region and connection flags of a raw contour vertex: the neighbouring
/// region id in the low 16 bits, plus [`BORDER_VERTEX`] and [`AREA_BORDER`].
#[derive(Clone, Copy, Debug, PartialEq, Eq, Structural)]
pub struct RegionVertexId(pub u32);

impl RegionVertexId {
    /// No flags.
    pub fn none() -> (r: RegionVertexId)
        ensures
            r.0 == 0,
    {
        RegionVertexId(0)
    }

    /// The raw bits.
    pub fn bits(self) -> (b: u32)
        ensures
            b == self.0,
    {
        self.0
    }

    /// The flags with the given region id in the low bits and nothing else.
    pub fn from_region(region: RegionId) -> (r: RegionVertexId)
        ensures
            r.0 == region.0 as u32,
    {
        RegionVertexId(region.0 as u32)
    }

    /// The region id held in the low bits.
    pub fn to_region(self) -> (r: RegionId)
        ensures
            r.0 == (self.0 & REGION_MASK) as u16,
            r.0 as u32 == self.0 & REGION_MASK,
    {
        let v = self.0;
        let bits = v & REGION_MASK;
        assert(bits <= 0xffff) by (bit_vector)
            requires
                bits == v & 0xffffu32,
        ;
        RegionId(bits as u16)
    }

    /// Bitwise union of two flag sets.
    pub fn union(self, other: RegionVertexId) -> (r: RegionVertexId)
        ensures
            r.0 == self.0 | other.0,
    {
        RegionVertexId(self.0 | other.0)
    }

    /// Whether the two flag sets share a bit.
    pub fn intersects(self, mask: u32) -> (b: bool)
        ensures
            b == (self.0 & mask != 0),
    {
        self.0 & mask != 0
    }
}

/// Converting a region id into vertex flags and back gives the region id back.
pub proof fn lemma_region_roundtrip(region: RegionId)
    ensures
        ((region.0 as u32) & REGION_MASK) as u16 == region.0,
{
    let r = region.0;
    assert(((r as u32) & 0xffffu32) as u16 == r) by (bit_vector);
}

} // verus!
