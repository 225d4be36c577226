//! A compact heightfield: a grid of cells, each holding a run of walkable spans
//! that know their neighbours in the four axis directions.

use vstd::prelude::*;
use crate::region::{AreaType, RegionId};

verus! {

/// Marker for "no neighbour in this direction" in [`CompactSpan::con`].
pub const NOT_CONNECTED: u8 = 0x3f;

/// Offset along x of the neighbour in direction `dir` (0: -x, 1: +z, 2: +x, 3: -z).
pub open spec fn dir_dx(dir: int) -> int {
    if dir == 0 {
        -1
    } else if dir == 2 {
        1
    } else {
        0
    }
}

/// Offset along z of the neighbour in direction `dir` (0: -x, 1: +z, 2: +x, 3: -z).
pub open spec fn dir_dz(dir: int) -> int {
    if dir == 1 {
        1
    } else if dir == 3 {
        -1
    } else {
        0
    }
}

/// The x offset of direction `dir`.
pub fn dir_offset_x(dir: u8) -> (r: i32)
    requires
        dir < 4,
    ensures
        r == dir_dx(dir as int),
{
    if dir == 0 {
        -1
    } else if dir == 2 {
        1
    } else {
        0
    }
}

/// The z offset of direction `dir`.
pub fn dir_offset_z(dir: u8) -> (r: i32)
    requires
        dir < 4,
    ensures
        r == dir_dz(dir as int),
{
    if dir == 1 {
        1
    } else if dir == 3 {
        -1
    } else {
        0
    }
}

/// The direction whose offset is `(dx, dz)`, one step along one axis.
pub fn dir_for_offset(dx: i32, dz: i32) -> (r: u8)
    requires
        (dx == 0 && (dz == 1 || dz == -1)) || (dz == 0 && (dx == 1 || dx == -1)),
    ensures
        r < 4,
        dir_dx(r as int) == dx,
        dir_dz(r as int) == dz,
{
    if dx == -1 {
        0
    } else if dz == 1 {
        1
    } else if dx == 1 {
        2
    } else {
        3
    }
}

/// A grid cell: the spans `index .. index + count` lie in it.
#[derive(Clone, Copy, Debug, PartialEq, Eq, Structural)]
pub struct CompactCell {
    /// Index of the first span of the cell.
    pub index: u32,
    /// Number of spans in the cell.
    pub count: u8,
}

impl CompactCell {
    /// One past the last span index of the cell.
    pub open spec fn end(self) -> int {
        self.index + self.count
    }

    /// Index of the first span of the cell.
    pub fn index(&self) -> (r: u32)
        ensures
            r == self.index,
    {
        self.index
    }
}

/// A walkable span: its floor height, region and links to neighbour spans.
#[derive(Clone, Copy, Debug)]
pub struct CompactSpan {
    /// Height of the span's floor.
    pub y: u16,
    /// Region the span belongs to.
    pub region: RegionId,
    /// For each direction, the index of the neighbour span within the
    /// neighbour cell, or [`NOT_CONNECTED`].
    pub con: [u8; 4],
    /// Height of the open space above the floor.
    pub height: u8,
}

impl CompactSpan {
    /// The neighbour link in direction `dir`, if any.
    pub open spec fn link(self, dir: int) -> Option<u8> {
        if self.con[dir] == NOT_CONNECTED {
            None
        } else {
            Some(self.con[dir])
        }
    }

    /// The neighbour link in direction `dir`, if any.
    pub fn con(&self, dir: u8) -> (r: Option<u8>)
        requires
            dir < 4,
        ensures
            r == self.link(dir as int),
    {
        let c = self.con[dir as usize];
        if c == NOT_CONNECTED {
            None
        } else {
            Some(c)
        }
    }
}

/// A compact heightfield.
#[derive(Clone, Debug)]
pub struct CompactHeightfield {
    /// Width of the grid (cells along x).
    pub width: u16,
    /// Height of the grid (cells along z).
    pub height: u16,
    /// Size of the non-walkable border around the grid.
    pub border_size: u16,
    /// The largest region id in use.
    pub max_region: RegionId,
    /// The cells, row by row: cell `(x, z)` is at `x + z * width`.
    pub cells: Vec<CompactCell>,
    /// The spans.
    pub spans: Vec<CompactSpan>,
    /// Area type of each span.
    pub areas: Vec<AreaType>,
}

/// Index of cell `(x, z)` in a grid `width` cells wide.
pub open spec fn cell_index(width: int, x: int, z: int) -> int {
    x + z * width
}

/// A cell index of the grid lies inside the grid.
pub proof fn lemma_cell_index_bound(w: int, h: int, x: int, z: int)
    requires
        0 <= x < w,
        0 <= z < h,
    ensures
        0 <= cell_index(w, x, z) < w * h,
        0 <= z * w <= cell_index(w, x, z),
{
    assert(0 <= z * w && 0 <= x + z * w < w * h) by (nonlinear_arith)
        requires
            0 <= x < w,
            0 <= z < h,
    ;
}

impl CompactHeightfield {
    /// Whether `(x, z)` is a cell of the grid.
    pub open spec fn in_grid(&self, x: int, z: int) -> bool {
        0 <= x < self.width && 0 <= z < self.height
    }

    /// The cell at `(x, z)`.
    pub open spec fn cell(&self, x: int, z: int) -> CompactCell {
        self.cells@[cell_index(self.width as int, x, z)]
    }

    /// Whether span `i` lies in cell `(x, z)`.
    pub open spec fn span_in_cell(&self, x: int, z: int, i: int) -> bool {
        &&& self.in_grid(x, z)
        &&& self.cell(x, z).index <= i < self.cell(x, z).end()
    }

    /// Index of the span that the link `c` of a span in cell `(x, z)` points to
    /// in direction `dir`.
    pub open spec fn neighbour(&self, x: int, z: int, dir: int, c: int) -> int {
        self.cell(x + dir_dx(dir), z + dir_dz(dir)).index + c
    }

    /// Whether every link of span `i` (in cell `(x, z)`) points into the grid,
    /// at a span of the neighbour cell.
    pub open spec fn links_ok(&self, x: int, z: int, i: int) -> bool {
        forall|dir: int|
            #![trigger self.spans@[i].link(dir)]
            0 <= dir < 4 ==> match self.spans@[i].link(dir) {
                Some(c) => {
                    &&& self.in_grid(x + dir_dx(dir), z + dir_dz(dir))
                    &&& (c as int) < self.cell(x + dir_dx(dir), z + dir_dz(dir)).count
                },
                None => true,
            }
    }

    /// Well-formedness: one cell per grid position, one area per span, cells
    /// hold valid span ranges, and every link stays inside the grid.
    pub open spec fn wf(&self) -> bool {
        &&& self.cells@.len() == self.width * self.height
        &&& self.areas@.len() == self.spans@.len()
        &&& self.spans@.len() <= u32::MAX
        &&& forall|k: int|
            0 <= k < self.cells@.len() ==> #[trigger] self.cells@[k].end() <= self.spans@.len()
        &&& forall|x: int, z: int, i: int|
            #[trigger] self.span_in_cell(x, z, i) ==> self.links_ok(x, z, i)
    }

    /// In a well-formed heightfield, the spans of a cell are valid indices.
    pub proof fn lemma_span_index(&self, x: int, z: int, i: int)
        requires
            self.wf(),
            self.span_in_cell(x, z, i),
        ensures
            0 <= i < self.spans@.len(),
            self.links_ok(x, z, i),
            0 <= cell_index(self.width as int, x, z) < self.cells@.len(),
    {
        lemma_cell_index_bound(self.width as int, self.height as int, x, z);
        let k = cell_index(self.width as int, x, z);
        assert(self.cells@[k].end() <= self.spans@.len());
    }

    /// Following a link of a span in a well-formed heightfield lands on a span
    /// of the neighbour cell.
    pub proof fn lemma_neighbour(&self, x: int, z: int, i: int, dir: int)
        requires
            self.wf(),
            self.span_in_cell(x, z, i),
            0 <= dir < 4,
            self.spans@[i].link(dir) is Some,
        ensures
            self.span_in_cell(
                x + dir_dx(dir),
                z + dir_dz(dir),
                self.neighbour(x, z, dir, self.spans@[i].link(dir)->0 as int),
            ),
            0 <= self.neighbour(x, z, dir, self.spans@[i].link(dir)->0 as int)
                < self.spans@.len(),
    {
        self.lemma_span_index(x, z, i);
        assert(self.links_ok(x, z, i));
        let c = self.spans@[i].link(dir)->0;
        let nx = x + dir_dx(dir);
        let nz = z + dir_dz(dir);
        assert(self.in_grid(nx, nz));
        assert((c as int) < self.cell(nx, nz).count);
        self.lemma_span_index(nx, nz, self.neighbour(x, z, dir, c as int));
    }

    /// The cell at `(x, z)`.
    pub fn cell_at(&self, x: u16, z: u16) -> (r: &CompactCell)
        requires
            self.wf(),
            x < self.width,
            z < self.height,
        ensures
            *r == self.cell(x as int, z as int),
    {
        let ncells = self.cells.len();
        proof {
            lemma_cell_index_bound(self.width as int, self.height as int, x as int, z as int);
        }
        &self.cells[x as usize + z as usize * self.width as usize]
    }

    /// Coordinates of the neighbour cell in direction `dir` and index of the
    /// span that link `con` of a span in cell `(x, z)` points to.
    pub fn con_indices(&self, x: i32, z: i32, dir: u8, con: u8) -> (r: (i32, i32, usize))
        requires
            self.wf(),
            dir < 4,
            self.in_grid(x + dir_dx(dir as int), z + dir_dz(dir as int)),
            (con as int) < self.cell(x + dir_dx(dir as int), z + dir_dz(dir as int)).count,
        ensures
            r.0 == x + dir_dx(dir as int),
            r.1 == z + dir_dz(dir as int),
            r.2 == self.neighbour(x as int, z as int, dir as int, con as int),
            r.2 < self.spans@.len(),
    {
        let a_x = x + dir_offset_x(dir);
        let a_z = z + dir_offset_z(dir);
        let ncells = self.cells.len();
        proof {
            lemma_cell_index_bound(self.width as int, self.height as int, a_x as int, a_z as int);
            let k = cell_index(self.width as int, a_x as int, a_z as int);
            assert(self.cells@[k].end() <= self.spans@.len());
        }
        let cell_index = a_x as usize + a_z as usize * self.width as usize;
        let a_i = self.cells[cell_index].index as usize + con as usize;
        (a_x, a_z, a_i)
    }
}

impl CompactHeightfield {
    /// Whether the heightfield is well formed (see [`Self::wf`]).
    pub fn is_well_formed(&self) -> (r: bool)
        ensures
            r == self.wf(),
    {
        let w = self.width as usize;
        let h = self.height as usize;
        assert(w * h <= 0xffff * 0xffff) by (nonlinear_arith)
            requires
                w <= 0xffff,
                h <= 0xffff,
        ;
        if self.cells.len() != w * h || self.areas.len() != self.spans.len() || self.spans.len()
            > 0xffff_ffff {
            return false;
        }
        let nspans = self.spans.len();
        let ncells = self.cells.len();
        let mut k: usize = 0;
        while k < self.cells.len()
            invariant
                k <= self.cells@.len(),
                nspans == self.spans@.len(),
                forall|t: int| 0 <= t < k ==> #[trigger] self.cells@[t].end() <= self.spans@.len(),
            decreases self.cells@.len() - k,
        {
            let c = self.cells[k];
            if c.index as u64 + c.count as u64 > nspans as u64 {
                assert(self.cells@[k as int].end() > self.spans@.len());
                return false;
            }
            k += 1;
        }
        let mut z: u16 = 0;
        while z < self.height
            invariant
                self.cells@.len() == self.width * self.height,
                self.areas@.len() == self.spans@.len(),
                self.spans@.len() <= u32::MAX,
                nspans == self.spans@.len(),
                ncells == self.cells@.len(),
                w == self.width,
                forall|t: int|
                    0 <= t < self.cells@.len() ==> #[trigger] self.cells@[t].end() <= self.spans@.len(),
                z <= self.height,
                forall|x: int, zz: int, i: int|
                    #[trigger] self.span_in_cell(x, zz, i) && zz < z ==> self.links_ok(x, zz, i),
            decreases self.height - z,
        {
            let mut x: u16 = 0;
            while x < self.width
                invariant
                    self.cells@.len() == self.width * self.height,
                    self.areas@.len() == self.spans@.len(),
                    self.spans@.len() <= u32::MAX,
                    nspans == self.spans@.len(),
                    ncells == self.cells@.len(),
                    w == self.width,
                    forall|t: int|
                        0 <= t < self.cells@.len() ==> #[trigger] self.cells@[t].end()
                            <= self.spans@.len(),
                    z < self.height,
                    x <= self.width,
                    forall|xx: int, zz: int, i: int|
                        #[trigger] self.span_in_cell(xx, zz, i) && (zz < z || (zz == z && xx < x))
                            ==> self.links_ok(xx, zz, i),
                decreases self.width - x,
            {
                proof {
                    lemma_cell_index_bound(self.width as int, self.height as int, x as int, z as int);
                }
                let c = self.cells[x as usize + z as usize * w];
                assert(c == self.cell(x as int, z as int));
                assert(c.end() <= self.spans@.len());
                let end = c.index as usize + c.count as usize;
                let mut i = c.index as usize;
                while i < end
                    invariant
                        self.cells@.len() == self.width * self.height,
                        nspans == self.spans@.len(),
                        ncells == self.cells@.len(),
                        w == self.width,
                        forall|t: int|
                            0 <= t < self.cells@.len() ==> #[trigger] self.cells@[t].end()
                                <= self.spans@.len(),
                        z < self.height,
                        x < self.width,
                        c == self.cell(x as int, z as int),
                        end == c.end(),
                        end <= self.spans@.len(),
                        c.index <= i <= end,
                        forall|j: int| c.index <= j < i ==> self.links_ok(x as int, z as int, j),
                    decreases end - i,
                {
                    let s = self.spans[i];
                    let mut dir: u8 = 0;
                    while dir < 4
                        invariant
                            self.cells@.len() == self.width * self.height,
                            ncells == self.cells@.len(),
                            w == self.width,
                            z < self.height,
                            c == self.cell(x as int, z as int),
                            c.index <= i < c.end(),
                            x < self.width,
                            i < self.spans@.len(),
                            s == self.spans@[i as int],
                            dir <= 4,
                            forall|d: int|
                                0 <= d < dir ==> match #[trigger] s.link(d) {
                                    Some(cc) => {
                                        &&& self.in_grid(x + dir_dx(d), z + dir_dz(d))
                                        &&& (cc as int) < self.cell(x + dir_dx(d), z + dir_dz(d)).count
                                    },
                                    None => true,
                                },
                        decreases 4 - dir,
                    {
                        if let Some(con) = s.con(dir) {
                            let nx = x as i32 + dir_offset_x(dir);
                            let nz = z as i32 + dir_offset_z(dir);
                            if nx < 0 || nz < 0 || nx >= self.width as i32 || nz >= self.height as i32 {
                                proof {
                                    assert(self.spans@[i as int].link(dir as int) is Some);
                                    assert(!self.links_ok(x as int, z as int, i as int));
                                    assert(self.span_in_cell(x as int, z as int, i as int));
                                }
                                return false;
                            }
                            proof {
                                lemma_cell_index_bound(
                                    self.width as int,
                                    self.height as int,
                                    nx as int,
                                    nz as int,
                                );
                            }
                            let nc = self.cells[nx as usize + nz as usize * w];
                            assert(nc == self.cell(nx as int, nz as int));
                            if con >= nc.count {
                                proof {
                                    assert(self.spans@[i as int].link(dir as int) is Some);
                                    assert(!self.links_ok(x as int, z as int, i as int));
                                    assert(self.span_in_cell(x as int, z as int, i as int));
                                }
                                return false;
                            }
                        }
                        dir += 1;
                    }
                    assert(self.links_ok(x as int, z as int, i as int));
                    i += 1;
                }
                x += 1;
            }
            z += 1;
        }
        true
    }
}

} // verus!
