//! Tracing region outlines of a compact heightfield into contours.

use vstd::prelude::*;
use crate::heightfield::{dir_dx, dir_dz, CompactHeightfield};
use crate::region::{AreaType, RegionVertexId, AREA_BORDER, BORDER_VERTEX};
use crate::heightfield::{cell_index, dir_offset_x, lemma_cell_index_bound, CompactCell};
use crate::region::RegionId;
use crate::simplify::{
    lemma_remove_degenerate_on_raw, lemma_simplified_vertices_on_raw,
    lemma_zero_edge_len_disables_splitting, remove_degenerate,
    remove_degenerate_segments, simplify, simplify_contour, tessellation_enabled, vertex_on_raw,
    vertices_on_raw, BuildContoursFlags, SimplePoints, SquaredErrorBound, MAX_THRESHOLD_DEN,
};

verus! {

/// A vertex on the heightfield grid, in cell units.
#[derive(Clone, Copy, Debug, PartialEq, Eq, Structural)]
pub struct GridVertex {
    /// Position along x.
    pub x: u16,
    /// Height.
    pub y: u16,
    /// Position along z.
    pub z: u16,
}

/// The larger of two heights.
pub open spec fn max_u16(a: u16, b: u16) -> u16 {
    if a >= b {
        a
    } else {
        b
    }
}

fn max16(a: u16, b: u16) -> (r: u16)
    ensures
        r == max_u16(a, b),
{
    if a >= b {
        a
    } else {
        b
    }
}

/// The bit of direction `dir` in a span's boundary flags.
pub open spec fn dir_bit(dir: int) -> u8 {
    if dir == 0 {
        1
    } else if dir == 1 {
        2
    } else if dir == 2 {
        4
    } else {
        8
    }
}

fn exec_dir_bit(dir: u8) -> (r: u8)
    requires
        dir < 4,
    ensures
        r == dir_bit(dir as int),
{
    if dir == 0 {
        1
    } else if dir == 1 {
        2
    } else if dir == 2 {
        4
    } else {
        8
    }
}

/// Whether boundary flags `f` mark the edge in direction `dir` as a contour edge.
pub open spec fn has_dir(f: u8, dir: int) -> bool {
    f & dir_bit(dir) != 0
}

/// The first direction whose edge is marked in `f`.
pub open spec fn first_dir(f: u8) -> int {
    if has_dir(f, 0) {
        0
    } else if has_dir(f, 1) {
        1
    } else if has_dir(f, 2) {
        2
    } else {
        3
    }
}

/// Region and area of span `i` packed as `region | area << 16`.
pub open spec fn region_code(chf: &CompactHeightfield, i: int) -> u32 {
    (chf.spans@[i].region.0 as u32) | ((chf.areas@[i].0 as u32) << 16u32)
}

/// Height of the corner between the edge of span `i` in direction `dir` and the
/// next edge (clockwise), together with the region codes of the four spans
/// around the corner (0 where there is none).
pub open spec fn corner_info(chf: &CompactHeightfield, x: int, z: int, i: int, dir: int) -> (
    u16,
    u32,
    u32,
    u32,
    u32,
) {
    let s = chf.spans@[i];
    let dp = (dir + 1) % 4;
    let r0 = region_code(chf, i);
    let (ch1, r1, r2a) = match s.link(dir) {
        Some(c) => {
            let ai = chf.neighbour(x, z, dir, c as int);
            let ax = x + dir_dx(dir);
            let az = z + dir_dz(dir);
            let ch = max_u16(s.y, chf.spans@[ai].y);
            match chf.spans@[ai].link(dp) {
                Some(c2) => {
                    let bi = chf.neighbour(ax, az, dp, c2 as int);
                    (max_u16(ch, chf.spans@[bi].y), region_code(chf, ai), region_code(chf, bi))
                },
                None => (ch, region_code(chf, ai), 0u32),
            }
        },
        None => (s.y, 0u32, 0u32),
    };
    match s.link(dp) {
        Some(c) => {
            let ai = chf.neighbour(x, z, dp, c as int);
            let ax = x + dir_dx(dp);
            let az = z + dir_dz(dp);
            let ch = max_u16(ch1, chf.spans@[ai].y);
            match chf.spans@[ai].link(dir) {
                Some(c2) => {
                    let bi = chf.neighbour(ax, az, dir, c2 as int);
                    (
                        max_u16(ch, chf.spans@[bi].y),
                        r0,
                        r1,
                        region_code(chf, bi),
                        region_code(chf, ai),
                    )
                },
                None => (ch, r0, r1, r2a, region_code(chf, ai)),
            }
        },
        None => (ch1, r0, r1, r2a, 0u32),
    }
}

/// The corner seen from position `d` is a border vertex: two equal exterior
/// (border-region) codes in a row, followed by two interior codes of the same
/// area, none of them empty.
pub open spec fn border_vertex_at(regs: Seq<u32>, d: int) -> bool {
    let a = regs[d];
    let b = regs[(d + 1) % 4];
    let c = regs[(d + 2) % 4];
    let e = regs[(d + 3) % 4];
    &&& a == b && a & 0x8000u32 == 0x8000u32
    &&& !((c | e) & 0x8000u32 == 0x8000u32)
    &&& a != 0 && b != 0 && c != 0 && e != 0
    &&& (c >> 16u32) == (e >> 16u32)
}

/// Whether a corner with region codes `regs` is a border vertex.
pub open spec fn is_border_vertex(regs: Seq<u32>) -> bool {
    border_vertex_at(regs, 0) || border_vertex_at(regs, 1) || border_vertex_at(regs, 2)
        || border_vertex_at(regs, 3)
}

/// Height of the corner and whether it is a border vertex.
pub open spec fn corner(chf: &CompactHeightfield, x: int, z: int, i: int, dir: int) -> (u16, bool) {
    let (ch, r0, r1, r2, r3) = corner_info(chf, x, z, i, dir);
    (ch, is_border_vertex(seq![r0, r1, r2, r3]))
}

fn exec_border_vertex_at(r0: u32, r1: u32, r2: u32, r3: u32, d: u8) -> (b: bool)
    requires
        d < 4,
    ensures
        b == border_vertex_at(seq![r0, r1, r2, r3], d as int),
{
    let ghost regs = seq![r0, r1, r2, r3];
    let (a, b, c, e) = if d == 0 {
        (r0, r1, r2, r3)
    } else if d == 1 {
        (r1, r2, r3, r0)
    } else if d == 2 {
        (r2, r3, r0, r1)
    } else {
        (r3, r0, r1, r2)
    };
    assert(a == regs[d as int] && b == regs[(d + 1) % 4] && c == regs[(d + 2) % 4] && e == regs[(d
        + 3) % 4]);
    let two_same_exts = a == b && a & 0x8000u32 == 0x8000u32;
    let two_ints = !((c | e) & 0x8000u32 == 0x8000u32);
    let ints_same_area = (c >> 16u32) == (e >> 16u32);
    let no_zeros = a != 0 && b != 0 && c != 0 && e != 0;
    two_same_exts && two_ints && no_zeros && ints_same_area
}

/// A state of the contour walk: the current cell and span, the direction of the
/// edge under consideration, the boundary flags and the points emitted so far.
pub struct WalkState {
    pub x: int,
    pub z: int,
    pub i: int,
    pub dir: int,
    pub flags: Seq<u8>,
    pub points: Seq<(GridVertex, RegionVertexId)>,
}

/// The grid corner at the clockwise end of the edge of cell `(x, z)` in direction `dir`.
pub open spec fn corner_xz(x: int, z: int, dir: int) -> (int, int) {
    if dir == 0 {
        (x, z + 1)
    } else if dir == 1 {
        (x + 1, z + 1)
    } else if dir == 2 {
        (x + 1, z)
    } else {
        (x, z)
    }
}

/// Region flags recorded for the edge of span `i` in direction `dir`: the region
/// across the edge, plus [`BORDER_VERTEX`] and [`AREA_BORDER`] where they apply.
/// `area` is the area of the span the walk started from.
pub open spec fn edge_flags(
    chf: &CompactHeightfield,
    area: AreaType,
    x: int,
    z: int,
    i: int,
    dir: int,
) -> u32 {
    let (r, area_border) = match chf.spans@[i].link(dir) {
        Some(c) => {
            let ai = chf.neighbour(x, z, dir, c as int);
            (chf.spans@[ai].region.0 as u32, area != chf.areas@[ai])
        },
        None => (0u32, false),
    };
    let r1 = if corner(chf, x, z, i, dir).1 {
        r | BORDER_VERTEX
    } else {
        r
    };
    if area_border {
        r1 | AREA_BORDER
    } else {
        r1
    }
}

/// One step of the contour walk. On a marked edge, emit its corner, unmark it
/// and turn clockwise; otherwise cross the edge to the neighbour span and turn
/// counter-clockwise. `None` when the edge to cross has no neighbour.
pub open spec fn walk_step(chf: &CompactHeightfield, area: AreaType, st: WalkState) -> Option<
    WalkState,
> {
    let f = st.flags[st.i];
    if has_dir(f, st.dir) {
        let (px, pz) = corner_xz(st.x, st.z, st.dir);
        let p = GridVertex {
            x: px as u16,
            y: corner(chf, st.x, st.z, st.i, st.dir).0,
            z: pz as u16,
        };
        let r = RegionVertexId(edge_flags(chf, area, st.x, st.z, st.i, st.dir));
        Some(
            WalkState {
                flags: st.flags.update(st.i, f & !dir_bit(st.dir)),
                points: st.points.push((p, r)),
                dir: (st.dir + 1) % 4,
                ..st
            },
        )
    } else {
        match chf.spans@[st.i].link(st.dir) {
            Some(c) => Some(
                WalkState {
                    x: st.x + dir_dx(st.dir),
                    z: st.z + dir_dz(st.dir),
                    i: chf.neighbour(st.x, st.z, st.dir, c as int),
                    dir: (st.dir + 3) % 4,
                    ..st
                },
            ),
            None => None,
        }
    }
}

/// Runs the walk for at most `fuel` steps, stopping when it is back at span
/// `start_i` facing `start_dir`, or when a step is impossible.
pub open spec fn walk_run(
    chf: &CompactHeightfield,
    area: AreaType,
    start_i: int,
    start_dir: int,
    st: WalkState,
    fuel: nat,
) -> WalkState
    decreases fuel,
{
    if fuel == 0 {
        st
    } else {
        match walk_step(chf, area, st) {
            None => st,
            Some(next) => if next.i == start_i && next.dir == start_dir {
                next
            } else {
                walk_run(chf, area, start_i, start_dir, next, (fuel - 1) as nat)
            },
        }
    }
}

/// The most steps a contour walk takes.
pub const MAX_WALK_STEPS: u32 = 40000;

/// The contour walk starting at span `i` of cell `(x, z)` with boundary flags
/// `flags`, appending to `points`: the final state.
pub open spec fn walk_contour(
    chf: &CompactHeightfield,
    x: int,
    z: int,
    i: int,
    flags: Seq<u8>,
    points: Seq<(GridVertex, RegionVertexId)>,
) -> WalkState {
    let d = first_dir(flags[i]);
    walk_run(
        chf,
        chf.areas@[i],
        i,
        d,
        WalkState { x, z, i, dir: d, flags, points },
        MAX_WALK_STEPS as nat,
    )
}

/// Boundary flags use only the four direction bits.
pub open spec fn flags_ok(flags: Seq<u8>) -> bool {
    forall|k: int| 0 <= k < flags.len() ==> #[trigger] flags[k] <= 15
}

/// A walk state is on a real span of the grid with valid flags.
pub open spec fn walk_state_ok(chf: &CompactHeightfield, st: WalkState) -> bool {
    &&& chf.span_in_cell(st.x, st.z, st.i)
    &&& 0 <= st.dir < 4
    &&& st.flags.len() == chf.spans@.len()
    &&& flags_ok(st.flags)
}

proof fn lemma_clear_bit(f: u8, b: u8)
    ensures
        f & !b <= f,
{
    assert(f & !b <= f) by (bit_vector);
}

proof fn lemma_first_dir(f: u8)
    requires
        f != 0,
        f <= 15,
    ensures
        has_dir(f, first_dir(f)),
        forall|d: int| 0 <= d < first_dir(f) ==> !has_dir(f, d),
{
    assert(f & 1 != 0 || f & 2 != 0 || f & 4 != 0 || f & 8 != 0) by (bit_vector)
        requires
            f != 0,
            f <= 15,
    ;
}

proof fn lemma_walk_step_ok(chf: &CompactHeightfield, area: AreaType, st: WalkState)
    requires
        chf.wf(),
        walk_state_ok(chf, st),
    ensures
        walk_step(chf, area, st) matches Some(next) ==> walk_state_ok(chf, next),
{
    chf.lemma_span_index(st.x, st.z, st.i);
    let f = st.flags[st.i];
    if has_dir(f, st.dir) {
        lemma_clear_bit(f, dir_bit(st.dir));
        let nf = st.flags.update(st.i, f & !dir_bit(st.dir));
        assert(flags_ok(nf));
    } else if chf.spans@[st.i].link(st.dir) is Some {
        chf.lemma_neighbour(st.x, st.z, st.i, st.dir);
    }
}

impl CompactHeightfield {
    /// Height of the corner at the clockwise end of the edge of span `i` in
    /// direction `dir`, and whether that corner is a border vertex.
    fn get_corner_height(&self, x: u16, z: u16, i: usize, dir: u8) -> (r: (u16, bool))
        requires
            self.wf(),
            self.span_in_cell(x as int, z as int, i as int),
            dir < 4,
        ensures
            r == corner(self, x as int, z as int, i as int, dir as int),
    {
        proof {
            self.lemma_span_index(x as int, z as int, i as int);
        }
        let s = &self.spans[i];
        let mut ch = s.y;
        let dir_p = (dir + 1) % 4;
        let r0 = self.spans[i].region.bits() as u32 | ((self.areas[i].0 as u32) << 16u32);
        let mut r1 = 0u32;
        let mut r2 = 0u32;
        let mut r3 = 0u32;
        if let Some(con) = s.con(dir) {
            proof {
                self.lemma_neighbour(x as int, z as int, i as int, dir as int);
            }
            let (a_x, a_z, a_i) = self.con_indices(x as i32, z as i32, dir, con);
            let a_s = &self.spans[a_i];
            ch = max16(ch, a_s.y);
            r1 = self.spans[a_i].region.bits() as u32 | ((self.areas[a_i].0 as u32) << 16u32);
            if let Some(con2) = a_s.con(dir_p) {
                proof {
                    self.lemma_neighbour(a_x as int, a_z as int, a_i as int, dir_p as int);
                }
                let (_b_x, _b_z, b_i) = self.con_indices(a_x, a_z, dir_p, con2);
                let b_s = &self.spans[b_i];
                ch = max16(ch, b_s.y);
                r2 = self.spans[b_i].region.bits() as u32 | ((self.areas[b_i].0 as u32)
                    << 16u32);
            }
        }
        if let Some(con) = s.con(dir_p) {
            proof {
                self.lemma_neighbour(x as int, z as int, i as int, dir_p as int);
            }
            let (a_x, a_z, a_i) = self.con_indices(x as i32, z as i32, dir_p, con);
            let a_s = &self.spans[a_i];
            ch = max16(ch, a_s.y);
            r3 = self.spans[a_i].region.bits() as u32 | ((self.areas[a_i].0 as u32) << 16u32);
            if let Some(con2) = a_s.con(dir) {
                proof {
                    self.lemma_neighbour(a_x as int, a_z as int, a_i as int, dir as int);
                }
                let (_b_x, _b_z, b_i) = self.con_indices(a_x, a_z, dir, con2);
                let b_s = &self.spans[b_i];
                ch = max16(ch, b_s.y);
                r2 = self.spans[b_i].region.bits() as u32 | ((self.areas[b_i].0 as u32)
                    << 16u32);
            }
        }
        // A vertex is a border vertex when there are two equal exterior cells in
        // a row, followed by two interior cells, none of them out of bounds.
        let mut is_border_vertex = false;
        let mut d: u8 = 0;
        let ghost regs = seq![r0, r1, r2, r3];
        while d < 4
            invariant
                d <= 4,
                regs == seq![r0, r1, r2, r3],
                is_border_vertex ==> crate::contours::is_border_vertex(regs),
                !is_border_vertex ==> forall|k: int|
                    0 <= k < d ==> !#[trigger] border_vertex_at(regs, k),
            ensures
                !is_border_vertex ==> d == 4,
            decreases 4 - d,
        {
            if exec_border_vertex_at(r0, r1, r2, r3, d) {
                is_border_vertex = true;
                break;
            }
            d += 1;
        }
        proof {
            if !is_border_vertex {
                assert(!border_vertex_at(regs, 0) && !border_vertex_at(regs, 1) && !border_vertex_at(
                    regs,
                    2,
                ) && !border_vertex_at(regs, 3));
            }
        }
        (ch, is_border_vertex)
    }
}


impl CompactHeightfield {
    /// Walks the outline of the region of span `i` (in cell `(x, z)`), clockwise,
    /// appending a point for each boundary edge met and unmarking that edge in
    /// `flags`.
    fn walk_contour_build(
        &self,
        x: u16,
        z: u16,
        i: usize,
        flags: &mut Vec<u8>,
        points: &mut Vec<(GridVertex, RegionVertexId)>,
    )
        requires
            self.wf(),
            self.span_in_cell(x as int, z as int, i as int),
            old(flags)@.len() == self.spans@.len(),
            flags_ok(old(flags)@),
            old(flags)@[i as int] != 0,
        ensures
            final(flags)@ == walk_contour(self, x as int, z as int, i as int, old(flags)@, old(points)@).flags,
            final(points)@ == walk_contour(self, x as int, z as int, i as int, old(flags)@, old(points)@).points,
            final(flags)@.len() == self.spans@.len(),
            flags_ok(final(flags)@),
    {
        proof {
            self.lemma_span_index(x as int, z as int, i as int);
            lemma_first_dir(flags@[i as int]);
        }
        // Choose the first non-connected edge.
        let mut dir: u8 = 0;
        while flags[i] & exec_dir_bit(dir) == 0
            invariant
                i < flags@.len(),
                flags@[i as int] != 0,
                flags@[i as int] <= 15,
                dir <= first_dir(flags@[i as int]),
                first_dir(flags@[i as int]) < 4,
                has_dir(flags@[i as int], first_dir(flags@[i as int])),
                forall|d: int|
                    0 <= d < first_dir(flags@[i as int]) ==> !has_dir(flags@[i as int], d),
            decreases first_dir(flags@[i as int]) - dir,
        {
            dir += 1;
        }
        let start_dir = dir;
        let start_i = i;
        let area = self.areas[i];
        assert(dir as int == first_dir(flags@[i as int]));
        let ghost init = WalkState {
            x: x as int,
            z: z as int,
            i: i as int,
            dir: dir as int,
            flags: flags@,
            points: points@,
        };
        let mut cx = x;
        let mut cz = z;
        let mut ci = i;
        let mut iter: u32 = 0;
        while iter < MAX_WALK_STEPS
            invariant_except_break
                walk_run(
                    self,
                    area,
                    start_i as int,
                    start_dir as int,
                    WalkState {
                        x: cx as int,
                        z: cz as int,
                        i: ci as int,
                        dir: dir as int,
                        flags: flags@,
                        points: points@,
                    },
                    (MAX_WALK_STEPS - iter) as nat,
                ) == walk_run(
                    self,
                    area,
                    start_i as int,
                    start_dir as int,
                    init,
                    MAX_WALK_STEPS as nat,
                ),
            invariant
                self.wf(),
                walk_run(self, area, start_i as int, start_dir as int, init, MAX_WALK_STEPS as nat)
                    == walk_contour(self, x as int, z as int, i as int, old(flags)@, old(points)@),
                start_i < self.spans@.len(),
                area == self.areas@[start_i as int],
                walk_state_ok(
                    self,
                    WalkState {
                        x: cx as int,
                        z: cz as int,
                        i: ci as int,
                        dir: dir as int,
                        flags: flags@,
                        points: points@,
                    },
                ),
                iter <= MAX_WALK_STEPS,
            ensures
                walk_run(
                    self,
                    area,
                    start_i as int,
                    start_dir as int,
                    init,
                    MAX_WALK_STEPS as nat,
                ) == (WalkState {
                    x: cx as int,
                    z: cz as int,
                    i: ci as int,
                    dir: dir as int,
                    flags: flags@,
                    points: points@,
                }),
                walk_state_ok(
                    self,
                    WalkState {
                        x: cx as int,
                        z: cz as int,
                        i: ci as int,
                        dir: dir as int,
                        flags: flags@,
                        points: points@,
                    },
                ),
            decreases MAX_WALK_STEPS - iter,
        {
            let ghost cur = WalkState {
                x: cx as int,
                z: cz as int,
                i: ci as int,
                dir: dir as int,
                flags: flags@,
                points: points@,
            };
            proof {
                self.lemma_span_index(cx as int, cz as int, ci as int);
                lemma_walk_step_ok(self, area, cur);
            }
            let bit = exec_dir_bit(dir);
            if flags[ci] & bit != 0 {
                // Choose the edge corner.
                let mut is_area_border = false;
                let mut p_x = cx;
                let (p_y, is_border_vertex) = self.get_corner_height(cx, cz, ci, dir);
                let mut p_z = cz;
                if dir == 0 {
                    p_z += 1;
                } else if dir == 1 {
                    p_x += 1;
                    p_z += 1;
                } else if dir == 2 {
                    p_x += 1;
                }
                let mut r = RegionVertexId::none();
                if let Some(con) = self.spans[ci].con(dir) {
                    proof {
                        self.lemma_neighbour(cx as int, cz as int, ci as int, dir as int);
                    }
                    let (_a_x, _a_z, a_i) = self.con_indices(cx as i32, cz as i32, dir, con);
                    r = RegionVertexId::from_region(self.spans[a_i].region);
                    if area != self.areas[a_i] {
                        is_area_border = true;
                    }
                }
                if is_border_vertex {
                    r = r.union(RegionVertexId(BORDER_VERTEX));
                }
                if is_area_border {
                    r = r.union(RegionVertexId(AREA_BORDER));
                }
                points.push((GridVertex { x: p_x, y: p_y, z: p_z }, r));
                let cleared = flags[ci] & !bit;
                flags.set(ci, cleared);
                dir = (dir + 1) % 4;
            } else {
                match self.spans[ci].con(dir) {
                    Some(con) => {
                        proof {
                            self.lemma_neighbour(cx as int, cz as int, ci as int, dir as int);
                        }
                        let (n_x, n_z, n_i) = self.con_indices(cx as i32, cz as i32, dir, con);
                        cx = n_x as u16;
                        cz = n_z as u16;
                        ci = n_i;
                        // Rotate counterclockwise.
                        dir = (dir + 3) % 4;
                    },
                    None => {
                        assert(walk_step(self, area, cur) is None);
                        assert(walk_run(self, area, start_i as int, start_dir as int, cur, (MAX_WALK_STEPS - iter) as nat) == cur);
                        assert(walk_run(self, area, start_i as int, start_dir as int, init, MAX_WALK_STEPS as nat) == cur);
                        return ;
                    },
                }
            }
            assert(walk_step(self, area, cur) == Some(
                WalkState {
                    x: cx as int,
                    z: cz as int,
                    i: ci as int,
                    dir: dir as int,
                    flags: flags@,
                    points: points@,
                },
            ));
            if start_i == ci && start_dir == dir {
                break;
            }
            iter += 1;
        }
    }
}


proof fn lemma_walk_run_len(
    chf: &CompactHeightfield,
    area: AreaType,
    start_i: int,
    start_dir: int,
    st: WalkState,
    fuel: nat,
)
    ensures
        st.points.len() <= walk_run(chf, area, start_i, start_dir, st, fuel).points.len()
            <= st.points.len() + fuel,
    decreases fuel,
{
    if fuel > 0 {
        match walk_step(chf, area, st) {
            None => {},
            Some(next) => {
                assert(next.points.len() <= st.points.len() + 1);
                if !(next.i == start_i && next.dir == start_dir) {
                    lemma_walk_run_len(chf, area, start_i, start_dir, next, (fuel - 1) as nat);
                }
            },
        }
    }
}

/// A contour walk from a span with a marked edge emits between one and
/// [`MAX_WALK_STEPS`] points.
pub proof fn lemma_walk_contour_len(
    chf: &CompactHeightfield,
    x: int,
    z: int,
    i: int,
    flags: Seq<u8>,
)
    requires
        chf.wf(),
        chf.span_in_cell(x, z, i),
        flags.len() == chf.spans@.len(),
        flags_ok(flags),
        flags[i] != 0,
    ensures
        1 <= walk_contour(chf, x, z, i, flags, seq![]).points.len() <= MAX_WALK_STEPS,
{
    chf.lemma_span_index(x, z, i);
    lemma_first_dir(flags[i]);
    let d = first_dir(flags[i]);
    let area = chf.areas@[i];
    let init = WalkState { x, z, i, dir: d, flags, points: seq![] };
    let next = walk_step(chf, area, init)->0;
    assert(next.points.len() == 1);
    if !(next.i == i && next.dir == d) {
        lemma_walk_run_len(chf, area, i, d, next, (MAX_WALK_STEPS - 1) as nat);
    }
}


/// Whether span `i` in cell `(x, z)` has a neighbour of its own region in
/// direction `dir`.
pub open spec fn same_region_across(chf: &CompactHeightfield, x: int, z: int, i: int, dir: int) -> bool {
    match chf.spans@[i].link(dir) {
        Some(c) => chf.spans@[chf.neighbour(x, z, dir, c as int)].region == chf.spans@[i].region,
        None => chf.spans@[i].region.0 == 0,
    }
}

/// Bits of the directions `0 .. d` in which span `i` has a neighbour of its
/// own region.
pub open spec fn connected_bits(chf: &CompactHeightfield, x: int, z: int, i: int, d: int) -> u8
    decreases d,
{
    if d <= 0 {
        0
    } else {
        let prev = connected_bits(chf, x, z, i, d - 1);
        if same_region_across(chf, x, z, i, d - 1) {
            prev | dir_bit(d - 1)
        } else {
            prev
        }
    }
}

/// Boundary flags of span `i` in cell `(x, z)`: the directions without a
/// neighbour of the same region; none for spans without a region or in a
/// border region.
pub open spec fn span_boundary_flags(chf: &CompactHeightfield, x: int, z: int, i: int) -> u8 {
    if chf.spans@[i].region.is_null_or_border() {
        0
    } else {
        connected_bits(chf, x, z, i, 4) ^ 0xfu8
    }
}

/// Boundary flags after marking the first `j` spans of cell `(x, z)`.
pub open spec fn mark_cell(chf: &CompactHeightfield, flags: Seq<u8>, x: int, z: int, j: int) -> Seq<
    u8,
>
    decreases j,
{
    if j <= 0 {
        flags
    } else {
        let i = chf.cell(x, z).index + j - 1;
        mark_cell(chf, flags, x, z, j - 1).update(i, span_boundary_flags(chf, x, z, i))
    }
}

/// Boundary flags after marking the first `x` cells of row `z`.
pub open spec fn mark_row(chf: &CompactHeightfield, flags: Seq<u8>, z: int, x: int) -> Seq<u8>
    decreases x,
{
    if x <= 0 {
        flags
    } else {
        mark_cell(chf, mark_row(chf, flags, z, x - 1), x - 1, z, chf.cell(x - 1, z).count as int)
    }
}

/// Boundary flags after marking the first `z` rows.
pub open spec fn mark_rows(chf: &CompactHeightfield, flags: Seq<u8>, z: int) -> Seq<u8>
    decreases z,
{
    if z <= 0 {
        flags
    } else {
        mark_row(chf, mark_rows(chf, flags, z - 1), z - 1, chf.width as int)
    }
}

/// The boundary flags of every span of the heightfield.
pub open spec fn boundary_flags(chf: &CompactHeightfield) -> Seq<u8> {
    mark_rows(chf, Seq::new(chf.spans@.len(), |k: int| 0u8), chf.height as int)
}

/// A grid vertex moved by the border size towards the origin (saturating at 0).
pub open spec fn remove_border(v: GridVertex, border: u16) -> GridVertex {
    GridVertex {
        x: if v.x >= border {
            (v.x - border) as u16
        } else {
            0
        },
        y: v.y,
        z: if v.z >= border {
            (v.z - border) as u16
        } else {
            0
        },
    }
}

/// Contour points with the border offset removed.
pub open spec fn remove_border_points<T>(s: Seq<(GridVertex, T)>, border: u16) -> Seq<(GridVertex, T)> {
    if border == 0 {
        s
    } else {
        Seq::new(s.len(), |k: int| (remove_border(s[k].0, border), s[k].1))
    }
}

/// A contour as mathematical values.
pub struct ContourView {
    pub vertices: SimplePoints,
    pub raw_vertices: Seq<(GridVertex, RegionVertexId)>,
    pub region: RegionId,
    pub area: AreaType,
}

/// A polygon outlining a region, in grid coordinates.
///
/// Its vertices are some of the raw outline's points, in the raw outline's
/// order (see [`contour_on_raw`] and
/// [`lemma_simplified_in_raw_order`](crate::simplify::lemma_simplified_in_raw_order)).
/// It is not promised to be simple on the xz-plane: simplification only keeps
/// each left-out raw point within the error bound of its segment, so with a
/// large bound a segment can cut across a nearby part of the same outline.
#[derive(Debug, Clone)]
pub struct Contour {
    /// Simplified vertices; the `u32` holds the flags of the edge starting at
    /// the vertex: the neighbouring region id (low 16 bits), [`BORDER_VERTEX`]
    /// and [`AREA_BORDER`].
    pub vertices: Vec<(GridVertex, u32)>,
    /// Raw vertices with the flags of the edge starting at each.
    pub raw_vertices: Vec<(GridVertex, RegionVertexId)>,
    /// Region of the contour.
    pub region: RegionId,
    /// Area type of the contour.
    pub area: AreaType,
}

impl View for Contour {
    type V = ContourView;

    open spec fn view(&self) -> ContourView {
        ContourView {
            vertices: self.vertices@,
            raw_vertices: self.raw_vertices@,
            region: self.region,
            area: self.area,
        }
    }
}

/// The contours of a heightfield, with the grid size they live in.
#[derive(Debug, Clone)]
pub struct ContourSet {
    /// The contours.
    pub contours: Vec<Contour>,
    /// Width of the set along x, in cells (without the border).
    pub width: u16,
    /// Height of the set along z, in cells (without the border).
    pub height: u16,
    /// Border size of the heightfield the contours come from.
    pub border_size: u16,
}

/// The contours traced so far and the boundary flags left.
pub struct TraceState {
    pub flags: Seq<u8>,
    pub contours: Seq<ContourView>,
}

/// Tracing from span `i` of cell `(x, z)`: spans with all or none of their
/// edges on the boundary are unmarked; spans of a real region have their
/// outline walked, simplified and, with at least three vertices left, kept.
pub open spec fn trace_span(
    chf: &CompactHeightfield,
    thr: (int, int),
    max_edge_len: int,
    tflags: u8,
    st: TraceState,
    x: int,
    z: int,
    i: int,
) -> TraceState {
    let f = st.flags[i];
    if f == 0 || f == 0xf {
        TraceState { flags: st.flags.update(i, 0), ..st }
    } else if chf.spans@[i].region.is_null_or_border() {
        st
    } else {
        let w = walk_contour(chf, x, z, i, st.flags, seq![]);
        let simp = remove_degenerate(simplify(w.points, thr, max_edge_len, tflags), 0);
        if simp.len() >= 3 {
            let c = ContourView {
                vertices: remove_border_points(simp, chf.border_size),
                raw_vertices: remove_border_points(w.points, chf.border_size),
                region: chf.spans@[i].region,
                area: chf.areas@[i],
            };
            TraceState { flags: w.flags, contours: st.contours.push(c) }
        } else {
            TraceState { flags: w.flags, ..st }
        }
    }
}

/// Tracing the first `j` spans of cell `(x, z)`.
pub open spec fn trace_cell(
    chf: &CompactHeightfield,
    thr: (int, int),
    max_edge_len: int,
    tflags: u8,
    st: TraceState,
    x: int,
    z: int,
    j: int,
) -> TraceState
    decreases j,
{
    if j <= 0 {
        st
    } else {
        trace_span(
            chf,
            thr,
            max_edge_len,
            tflags,
            trace_cell(chf, thr, max_edge_len, tflags, st, x, z, j - 1),
            x,
            z,
            chf.cell(x, z).index + j - 1,
        )
    }
}

/// Tracing the first `x` cells of row `z`.
pub open spec fn trace_row(
    chf: &CompactHeightfield,
    thr: (int, int),
    max_edge_len: int,
    tflags: u8,
    st: TraceState,
    z: int,
    x: int,
) -> TraceState
    decreases x,
{
    if x <= 0 {
        st
    } else {
        trace_cell(
            chf,
            thr,
            max_edge_len,
            tflags,
            trace_row(chf, thr, max_edge_len, tflags, st, z, x - 1),
            x - 1,
            z,
            chf.cell(x - 1, z).count as int,
        )
    }
}

/// Tracing the first `z` rows.
pub open spec fn trace_rows(
    chf: &CompactHeightfield,
    thr: (int, int),
    max_edge_len: int,
    tflags: u8,
    st: TraceState,
    z: int,
) -> TraceState
    decreases z,
{
    if z <= 0 {
        st
    } else {
        trace_row(
            chf,
            thr,
            max_edge_len,
            tflags,
            trace_rows(chf, thr, max_edge_len, tflags, st, z - 1),
            z - 1,
            chf.width as int,
        )
    }
}

/// The contours of a heightfield: every span's outline is traced in cell
/// order, starting from the boundary flags of all spans.
pub open spec fn contours_of(
    chf: &CompactHeightfield,
    thr: (int, int),
    max_edge_len: int,
    tflags: u8,
) -> Seq<ContourView> {
    trace_rows(
        chf,
        thr,
        max_edge_len,
        tflags,
        TraceState { flags: boundary_flags(chf), contours: seq![] },
        chf.height as int,
    ).contours
}

proof fn lemma_bits_small(a: u8, b: u8)
    requires
        a <= 15,
        b <= 15,
    ensures
        a | b <= 15,
        a ^ 0xfu8 <= 15,
{
    assert(a | b <= 15) by (bit_vector)
        requires
            a <= 15,
            b <= 15,
    ;
    assert(a ^ 0xfu8 <= 15) by (bit_vector)
        requires
            a <= 15,
    ;
}

proof fn lemma_connected_bits_small(chf: &CompactHeightfield, x: int, z: int, i: int, d: int)
    requires
        0 <= d <= 4,
    ensures
        connected_bits(chf, x, z, i, d) <= 15,
    decreases d,
{
    if d > 0 {
        lemma_connected_bits_small(chf, x, z, i, d - 1);
        lemma_bits_small(connected_bits(chf, x, z, i, d - 1), dir_bit(d - 1));
    }
}

impl CompactHeightfield {
    /// Boundary flags of span `i` of cell `(x, z)`.
    fn boundary_flags_of(&self, x: u16, z: u16, i: usize) -> (r: u8)
        requires
            self.wf(),
            self.span_in_cell(x as int, z as int, i as int),
        ensures
            r == span_boundary_flags(self, x as int, z as int, i as int),
            r <= 15,
    {
        proof {
            self.lemma_span_index(x as int, z as int, i as int);
        }
        let span = &self.spans[i];
        if span.region.0 == 0 || span.region.is_border_region() {
            return 0;
        }
        let mut res: u8 = 0;
        let mut dir: u8 = 0;
        while dir < 4
            invariant
                self.wf(),
                self.span_in_cell(x as int, z as int, i as int),
                i < self.spans@.len(),
                *span == self.spans@[i as int],
                dir <= 4,
                res == connected_bits(self, x as int, z as int, i as int, dir as int),
            decreases 4 - dir,
        {
            let mut r = RegionId::none();
            if let Some(con) = span.con(dir) {
                proof {
                    self.lemma_neighbour(x as int, z as int, i as int, dir as int);
                }
                let (_a_x, _a_z, a_i) = self.con_indices(x as i32, z as i32, dir, con);
                r = self.spans[a_i].region;
            }
            if r == self.spans[i].region {
                res = res | exec_dir_bit(dir);
            }
            dir += 1;
        }
        proof {
            lemma_connected_bits_small(self, x as int, z as int, i as int, 4);
            lemma_bits_small(res, 0);
        }
        // Inverse: mark non-connected edges.
        res ^ 0xf
    }

    /// Traces the outlines of all regions into contours.
    ///
    /// The raw contours follow the region outlines exactly; the simplified ones
    /// deviate from them by at most `max_error` along walls and area borders,
    /// and such edges longer than `max_edge_len` are split (zero disables
    /// splitting). Vertices where the neighbouring region or area changes are
    /// always kept, so that portals between regions match up.
    pub fn build_contours(
        &self,
        max_error: SquaredErrorBound,
        max_edge_len: u16,
        build_flags: BuildContoursFlags,
    ) -> (cset: ContourSet)
        requires
            self.wf(),
            2 * self.border_size <= self.width,
            2 * self.border_size <= self.height,
            max_error.den <= MAX_THRESHOLD_DEN,
        ensures
            cset.width == self.width - 2 * self.border_size,
            cset.height == self.height - 2 * self.border_size,
            cset.border_size == self.border_size,
            cset.contours@.map_values(|c: Contour| c@) == contours_of(
                self,
                max_error.value(),
                max_edge_len as int,
                build_flags.0,
            ),
            forall|k: int|
                0 <= k < cset.contours@.len() ==> contour_on_raw(#[trigger] cset.contours@[k]@),
    {
        let n_spans = self.spans.len();
        let mut flags: Vec<u8> = Vec::new();
        let mut k: usize = 0;
        while k < n_spans
            invariant
                n_spans == self.spans@.len(),
                k <= n_spans,
                flags@ == Seq::new(k as nat, |j: int| 0u8),
            decreases n_spans - k,
        {
            flags.push(0);
            k += 1;
        }
        assert(flags@ == Seq::new(self.spans@.len(), |j: int| 0u8));
        let ghost zeros = flags@;
        // Mark boundaries.
        let mut z: u16 = 0;
        while z < self.height
            invariant
                self.wf(),
                z <= self.height,
                flags@ == mark_rows(self, zeros, z as int),
                flags@.len() == self.spans@.len(),
                flags_ok(flags@),
            decreases self.height - z,
        {
            let ghost row_start = flags@;
            let mut x: u16 = 0;
            while x < self.width
                invariant
                    self.wf(),
                    z < self.height,
                    x <= self.width,
                    flags@ == mark_row(self, row_start, z as int, x as int),
                    flags@.len() == self.spans@.len(),
                    flags_ok(flags@),
                decreases self.width - x,
            {
                let ghost cell_start = flags@;
                let cell = *self.cell_at(x, z);
                proof {
                    lemma_cell_index_bound(self.width as int, self.height as int, x as int, z as int);
                    assert(self.cells@[cell_index(self.width as int, x as int, z as int)].end()
                        <= self.spans@.len());
                }
                let mut i = cell.index as usize;
                let end = cell.index as usize + cell.count as usize;
                while i < end
                    invariant
                        self.wf(),
                        x < self.width,
                        z < self.height,
                        cell == self.cell(x as int, z as int),
                        end == cell.end(),
                        end <= self.spans@.len(),
                        cell.index <= i <= end,
                        flags@ == mark_cell(
                            self,
                            cell_start,
                            x as int,
                            z as int,
                            i - cell.index,
                        ),
                        flags@.len() == self.spans@.len(),
                        flags_ok(flags@),
                    decreases end - i,
                {
                    let f = self.boundary_flags_of(x, z, i);
                    flags.set(i, f);
                    i += 1;
                }
                x += 1;
            }
            z += 1;
        }
        assert(flags@ == boundary_flags(self));
        let ghost thr = max_error.value();
        let ghost mel = max_edge_len as int;
        let ghost tf = build_flags.0;
        let mut contours: Vec<Contour> = Vec::new();
        assert(contours@.map_values(|c: Contour| c@) =~= seq![]);
        let mut z: u16 = 0;
        while z < self.height
            invariant
                self.wf(),
                z <= self.height,
                max_error.den <= MAX_THRESHOLD_DEN,
                thr == max_error.value(),
                max_error.den <= MAX_THRESHOLD_DEN,
                mel == max_edge_len as int,
                tf == build_flags.0,
                (TraceState { flags: flags@, contours: contours@.map_values(|c: Contour| c@) })
                    == trace_rows(
                    self,
                    thr,
                    mel,
                    tf,
                    TraceState { flags: boundary_flags(self), contours: seq![] },
                    z as int,
                ),
                flags@.len() == self.spans@.len(),
                flags_ok(flags@),
                forall|k: int| 0 <= k < contours@.len() ==> contour_on_raw(#[trigger] contours@[k]@),
            decreases self.height - z,
        {
            let ghost row_start = TraceState {
                flags: flags@,
                contours: contours@.map_values(|c: Contour| c@),
            };
            let mut x: u16 = 0;
            while x < self.width
                invariant
                    self.wf(),
                    z < self.height,
                    x <= self.width,
                    thr == max_error.value(),
                    max_error.den <= MAX_THRESHOLD_DEN,
                    mel == max_edge_len as int,
                    tf == build_flags.0,
                    (TraceState { flags: flags@, contours: contours@.map_values(|c: Contour| c@) })
                        == trace_row(self, thr, mel, tf, row_start, z as int, x as int),
                    flags@.len() == self.spans@.len(),
                    flags_ok(flags@),
                    forall|k: int| 0 <= k < contours@.len() ==> contour_on_raw(#[trigger] contours@[k]@),
                decreases self.width - x,
            {
                let ghost cell_start = TraceState {
                    flags: flags@,
                    contours: contours@.map_values(|c: Contour| c@),
                };
                let cell = *self.cell_at(x, z);
                proof {
                    lemma_cell_index_bound(self.width as int, self.height as int, x as int, z as int);
                    assert(self.cells@[cell_index(self.width as int, x as int, z as int)].end()
                        <= self.spans@.len());
                }
                let mut i = cell.index as usize;
                let end = cell.index as usize + cell.count as usize;
                while i < end
                    invariant
                        self.wf(),
                        x < self.width,
                        z < self.height,
                        thr == max_error.value(),
                        max_error.den <= MAX_THRESHOLD_DEN,
                        mel == max_edge_len as int,
                        tf == build_flags.0,
                        cell == self.cell(x as int, z as int),
                        end == cell.end(),
                        end <= self.spans@.len(),
                        cell.index <= i <= end,
                        (TraceState {
                            flags: flags@,
                            contours: contours@.map_values(|c: Contour| c@),
                        }) == trace_cell(
                            self,
                            thr,
                            mel,
                            tf,
                            cell_start,
                            x as int,
                            z as int,
                            i - cell.index,
                        ),
                        flags@.len() == self.spans@.len(),
                        flags_ok(flags@),
                        forall|k: int| 0 <= k < contours@.len() ==> contour_on_raw(#[trigger] contours@[k]@),
                    decreases end - i,
                {
                    self.trace_span_exec(
                        x,
                        z,
                        i,
                        &mut flags,
                        &mut contours,
                        max_error,
                        max_edge_len,
                        build_flags,
                    );
                    i += 1;
                }
                x += 1;
            }
            z += 1;
        }
        ContourSet {
            contours,
            width: self.width - self.border_size * 2,
            height: self.height - self.border_size * 2,
            border_size: self.border_size,
        }
    }

    /// One span of the tracing pass of [`Self::build_contours`].
    fn trace_span_exec(
        &self,
        x: u16,
        z: u16,
        i: usize,
        flags: &mut Vec<u8>,
        contours: &mut Vec<Contour>,
        max_error: SquaredErrorBound,
        max_edge_len: u16,
        build_flags: BuildContoursFlags,
    )
        requires
            self.wf(),
            self.span_in_cell(x as int, z as int, i as int),
            old(flags)@.len() == self.spans@.len(),
            flags_ok(old(flags)@),
            max_error.den <= MAX_THRESHOLD_DEN,
            forall|k: int| 0 <= k < old(contours)@.len() ==> contour_on_raw(#[trigger] old(contours)@[k]@),
        ensures
            final(flags)@.len() == self.spans@.len(),
            flags_ok(final(flags)@),
            forall|k: int| 0 <= k < final(contours)@.len() ==> contour_on_raw(#[trigger] final(contours)@[k]@),
            (TraceState { flags: final(flags)@, contours: final(contours)@.map_values(|c: Contour| c@) })
                == trace_span(
                self,
                max_error.value(),
                max_edge_len as int,
                build_flags.0,
                TraceState { flags: old(flags)@, contours: old(contours)@.map_values(|c: Contour| c@) },
                x as int,
                z as int,
                i as int,
            ),
    {
        proof {
            self.lemma_span_index(x as int, z as int, i as int);
        }
        if flags[i] == 0 || flags[i] == 0xf {
            flags.set(i, 0);
            return ;
        }
        let reg = self.spans[i].region;
        if reg.0 == 0 || reg.is_border_region() {
            return ;
        }
        let area = self.areas[i];
        let mut verts: Vec<(GridVertex, RegionVertexId)> = Vec::new();
        let mut simplified: Vec<(GridVertex, u32)> = Vec::new();
        proof {
            lemma_walk_contour_len(self, x as int, z as int, i as int, flags@);
        }
        self.walk_contour_build(x, z, i, flags, &mut verts);
        simplify_contour(&verts, &mut simplified, max_error, max_edge_len, build_flags);
        proof {
            lemma_simplified_vertices_on_raw(verts@, max_error.value(), max_edge_len as int, build_flags.0);
            lemma_remove_degenerate_on_raw(simplified@, 0, verts@);
        }
        remove_degenerate_segments(&mut simplified);
        if simplified.len() >= 3 {
            if self.border_size > 0 {
                // Remove the offset of the heightfield's border.
                let ghost before_simplified = simplified@;
                let ghost before_verts = verts@;
                remove_border_offset(&mut simplified, self.border_size);
                remove_border_offset(&mut verts, self.border_size);
                proof {
                    lemma_remove_border_on_raw(before_simplified, before_verts, self.border_size);
                }
            }
            let ghost old_contours = contours@;
            contours.push(Contour { vertices: simplified, raw_vertices: verts, region: reg, area });
            assert(contours@.map_values(|c: Contour| c@) =~= old_contours.map_values(
                |c: Contour| c@,
            ).push(contours@.last()@));
            assert forall|k: int| 0 <= k < contours@.len() implies contour_on_raw(
                #[trigger] contours@[k]@,
            ) by {
                if k < old_contours.len() {
                    assert(contours@[k] == old_contours[k]);
                }
            }
        }
    }
}

/// Removes the border offset from contour points (saturating at 0).
fn remove_border_offset<T: Copy>(points: &mut Vec<(GridVertex, T)>, border: u16)
    requires
        border > 0,
    ensures
        final(points)@ == remove_border_points(old(points)@, border),
{
    let mut k: usize = 0;
    while k < points.len()
        invariant
            border > 0,
            points@.len() == old(points)@.len(),
            k <= points@.len(),
            forall|j: int|
                0 <= j < k ==> #[trigger] points@[j] == (
                    remove_border(old(points)@[j].0, border),
                    old(points)@[j].1,
                ),
            forall|j: int| k <= j < points@.len() ==> #[trigger] points@[j] == old(points)@[j],
        decreases points@.len() - k,
    {
        let (v, t) = points[k];
        let moved = GridVertex {
            x: v.x.saturating_sub(border),
            y: v.y,
            z: v.z.saturating_sub(border),
        };
        points.set(k, (moved, t));
        k += 1;
    }
    assert(points@ =~= remove_border_points(old(points)@, border));
}


/// Every simplified vertex of a contour is the position of one of its raw
/// vertices.
pub open spec fn contour_on_raw(c: ContourView) -> bool {
    vertices_on_raw(c.vertices, c.raw_vertices)
}

proof fn lemma_remove_border_on_raw<A, B>(
    s: Seq<(GridVertex, A)>,
    raw: Seq<(GridVertex, B)>,
    border: u16,
)
    requires
        vertices_on_raw(s, raw),
    ensures
        vertices_on_raw(remove_border_points(s, border), remove_border_points(raw, border)),
{
    let t = remove_border_points(s, border);
    let traw = remove_border_points(raw, border);
    assert forall|j: int| 0 <= j < t.len() implies #[trigger] vertex_on_raw(t[j].0, traw) by {
        assert(vertex_on_raw(s[j].0, raw));
        let k = choose|k: int| 0 <= k < raw.len() && #[trigger] raw[k].0 == s[j].0;
        assert(traw[k].0 == t[j].0);
    }
}

/// A traced contour has at least three vertices and belongs to a real,
/// non-border region.
pub open spec fn contour_ok(c: ContourView) -> bool {
    c.vertices.len() >= 3 && !c.region.is_null_or_border()
}

/// All contours of a sequence are well-formed.
pub open spec fn all_contours_ok(cs: Seq<ContourView>) -> bool {
    forall|k: int| 0 <= k < cs.len() ==> #[trigger] contour_ok(cs[k])
}

proof fn lemma_trace_span_ok(
    chf: &CompactHeightfield,
    thr: (int, int),
    mel: int,
    tf: u8,
    st: TraceState,
    x: int,
    z: int,
    i: int,
)
    requires
        all_contours_ok(st.contours),
    ensures
        all_contours_ok(trace_span(chf, thr, mel, tf, st, x, z, i).contours),
{
    let r = trace_span(chf, thr, mel, tf, st, x, z, i);
    if r.contours.len() > st.contours.len() {
        assert forall|k: int| 0 <= k < r.contours.len() implies #[trigger] contour_ok(
            r.contours[k],
        ) by {
            if k < st.contours.len() {
                assert(r.contours[k] == st.contours[k]);
            }
        }
    }
}

proof fn lemma_trace_cell_ok(
    chf: &CompactHeightfield,
    thr: (int, int),
    mel: int,
    tf: u8,
    st: TraceState,
    x: int,
    z: int,
    j: int,
)
    requires
        all_contours_ok(st.contours),
    ensures
        all_contours_ok(trace_cell(chf, thr, mel, tf, st, x, z, j).contours),
    decreases j,
{
    if j > 0 {
        lemma_trace_cell_ok(chf, thr, mel, tf, st, x, z, j - 1);
        lemma_trace_span_ok(
            chf,
            thr,
            mel,
            tf,
            trace_cell(chf, thr, mel, tf, st, x, z, j - 1),
            x,
            z,
            chf.cell(x, z).index + j - 1,
        );
    }
}

proof fn lemma_trace_row_ok(
    chf: &CompactHeightfield,
    thr: (int, int),
    mel: int,
    tf: u8,
    st: TraceState,
    z: int,
    x: int,
)
    requires
        all_contours_ok(st.contours),
    ensures
        all_contours_ok(trace_row(chf, thr, mel, tf, st, z, x).contours),
    decreases x,
{
    if x > 0 {
        lemma_trace_row_ok(chf, thr, mel, tf, st, z, x - 1);
        lemma_trace_cell_ok(
            chf,
            thr,
            mel,
            tf,
            trace_row(chf, thr, mel, tf, st, z, x - 1),
            x - 1,
            z,
            chf.cell(x - 1, z).count as int,
        );
    }
}

proof fn lemma_trace_rows_ok(
    chf: &CompactHeightfield,
    thr: (int, int),
    mel: int,
    tf: u8,
    st: TraceState,
    z: int,
)
    requires
        all_contours_ok(st.contours),
    ensures
        all_contours_ok(trace_rows(chf, thr, mel, tf, st, z).contours),
    decreases z,
{
    if z > 0 {
        lemma_trace_rows_ok(chf, thr, mel, tf, st, z - 1);
        lemma_trace_row_ok(
            chf,
            thr,
            mel,
            tf,
            trace_rows(chf, thr, mel, tf, st, z - 1),
            z - 1,
            chf.width as int,
        );
    }
}

/// Every contour of a heightfield has at least three vertices and belongs to
/// a real, non-border region.
pub proof fn lemma_contours_well_formed(
    chf: &CompactHeightfield,
    thr: (int, int),
    max_edge_len: int,
    tflags: u8,
)
    ensures
        all_contours_ok(contours_of(chf, thr, max_edge_len, tflags)),
{
    lemma_trace_rows_ok(
        chf,
        thr,
        max_edge_len,
        tflags,
        TraceState { flags: boundary_flags(chf), contours: seq![] },
        chf.height as int,
    );
}

proof fn lemma_trace_cell_zero_edge(
    chf: &CompactHeightfield,
    thr: (int, int),
    tflags: u8,
    st: TraceState,
    x: int,
    z: int,
    j: int,
)
    ensures
        trace_cell(chf, thr, 0, tflags, st, x, z, j) == trace_cell(chf, thr, 0, 0, st, x, z, j),
    decreases j,
{
    if j > 0 {
        lemma_trace_cell_zero_edge(chf, thr, tflags, st, x, z, j - 1);
        let prev = trace_cell(chf, thr, 0, 0, st, x, z, j - 1);
        let i = chf.cell(x, z).index + j - 1;
        let w = walk_contour(chf, x, z, i, prev.flags, seq![]);
        lemma_zero_edge_len_disables_splitting(w.points, thr, tflags);
    }
}

proof fn lemma_trace_row_zero_edge(
    chf: &CompactHeightfield,
    thr: (int, int),
    tflags: u8,
    st: TraceState,
    z: int,
    x: int,
)
    ensures
        trace_row(chf, thr, 0, tflags, st, z, x) == trace_row(chf, thr, 0, 0, st, z, x),
    decreases x,
{
    if x > 0 {
        lemma_trace_row_zero_edge(chf, thr, tflags, st, z, x - 1);
        lemma_trace_cell_zero_edge(
            chf,
            thr,
            tflags,
            trace_row(chf, thr, 0, 0, st, z, x - 1),
            x - 1,
            z,
            chf.cell(x - 1, z).count as int,
        );
    }
}

proof fn lemma_trace_rows_zero_edge(
    chf: &CompactHeightfield,
    thr: (int, int),
    tflags: u8,
    st: TraceState,
    z: int,
)
    ensures
        trace_rows(chf, thr, 0, tflags, st, z) == trace_rows(chf, thr, 0, 0, st, z),
    decreases z,
{
    if z > 0 {
        lemma_trace_rows_zero_edge(chf, thr, tflags, st, z - 1);
        lemma_trace_row_zero_edge(
            chf,
            thr,
            tflags,
            trace_rows(chf, thr, 0, 0, st, z - 1),
            z - 1,
            chf.width as int,
        );
    }
}

/// With a maximum edge length of zero no edge is split, so the build flags
/// make no difference to the contours of a heightfield.
pub proof fn lemma_contours_zero_edge_len(
    chf: &CompactHeightfield,
    thr: (int, int),
    flags1: u8,
    flags2: u8,
)
    ensures
        contours_of(chf, thr, 0, flags1) == contours_of(chf, thr, 0, flags2),
{
    let st = TraceState { flags: boundary_flags(chf), contours: seq![] };
    lemma_trace_rows_zero_edge(chf, thr, flags1, st, chf.height as int);
    lemma_trace_rows_zero_edge(chf, thr, flags2, st, chf.height as int);
}

/// Removing the border moves every point by `border` cells towards the
/// origin along x and along z, each coordinate on its own axis and stopping
/// at 0; heights, flags, order and count are kept.
pub proof fn lemma_remove_border_axes<T>(s: Seq<(GridVertex, T)>, border: u16)
    ensures
        remove_border_points(s, border).len() == s.len(),
        forall|k: int|
            0 <= k < s.len() ==> {
                let p = s[k].0;
                let q = #[trigger] remove_border_points(s, border)[k];
                &&& q.0.x as int == if p.x >= border {
                    p.x - border
                } else {
                    0
                }
                &&& q.0.y == p.y
                &&& q.0.z as int == if p.z >= border {
                    p.z - border
                } else {
                    0
                }
                &&& q.1 == s[k].1
            },
{
}

} // verus!
