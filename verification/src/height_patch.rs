//! Height patches: the floor heights under one polygon, sampled from the
//! compact heightfield by a flood fill that starts inside the polygon and
//! never leaves the polygon's bounding rectangle.

use vstd::prelude::*;
use crate::heightfield::{
    CompactHeightfield, cell_index, dir_dx, dir_dz, dir_for_offset, dir_offset_x, dir_offset_z,
    lemma_cell_index_bound,
};
use crate::region::RegionId;

verus! {

/// Marks a patch cell whose height is not known.
pub const UNSET_HEIGHT: u16 = 0xffff;

/// Once this many queue entries have been consumed, the flood fill drops them
/// from the front of its queue.
pub const RETRACT_SIZE: usize = 256;

/// A grid position and one of its spans: `(x, z, span index)`.
pub type SpanRef = (i32, i32, usize);

/// A rectangle of the heightfield with one height per cell, stored row by row.
#[derive(Clone, Debug)]
pub struct HeightPatch {
    /// Heights, row by row; `data[hx + hz * width]` is cell `(hx, hz)`.
    pub data: Vec<u16>,
    /// Smallest x of the rectangle (without the heightfield border).
    pub xmin: u16,
    /// Smallest z of the rectangle (without the heightfield border).
    pub zmin: u16,
    /// Cells along x.
    pub width: u16,
    /// Cells along z.
    pub height: u16,
}

/// The rectangle of a height patch: its corner (without the heightfield
/// border) and its size in cells.
#[derive(Clone, Copy, Debug, PartialEq, Eq, Structural)]
pub struct PatchRect {
    /// Smallest x.
    pub xmin: u16,
    /// Smallest z.
    pub zmin: u16,
    /// Cells along x.
    pub width: u16,
    /// Cells along z.
    pub height: u16,
}

/// Number of entries among the first `n` of `data` that hold `v`.
pub open spec fn count_value(data: Seq<u16>, v: u16, n: int) -> nat
    decreases n,
{
    if n <= 0 {
        0
    } else {
        count_value(data, v, n - 1) + if data[n - 1] == v {
            1nat
        } else {
            0nat
        }
    }
}

/// At most `n` of the first `n` entries hold a value.
pub proof fn lemma_count_value_bound(data: Seq<u16>, v: u16, n: int)
    requires
        0 <= n,
    ensures
        count_value(data, v, n) <= n,
    decreases n,
{
    if n > 0 {
        lemma_count_value_bound(data, v, n - 1);
    }
}

/// Replacing an entry that holds `v` by another value, among the first `n`,
/// lowers the count of `v` by one; entries past `n` do not count.
pub proof fn lemma_count_value_update(data: Seq<u16>, v: u16, n: int, k: int, w: u16)
    requires
        0 <= n <= data.len(),
        0 <= k < data.len(),
        w != v,
    ensures
        count_value(data.update(k, w), v, n) == if k < n && data[k] == v {
            count_value(data, v, n) - 1
        } else {
            count_value(data, v, n) as int
        },
    decreases n,
{
    if n > 0 {
        lemma_count_value_update(data, v, n - 1, k, w);
    }
}

/// Setting the first `n` entries to `v` makes all of them count.
pub proof fn lemma_count_value_all(data: Seq<u16>, v: u16, n: int)
    requires
        0 <= n <= data.len(),
        forall|k: int| 0 <= k < n ==> data[k] == v,
    ensures
        count_value(data, v, n) == n,
    decreases n,
{
    if n > 0 {
        lemma_count_value_all(data, v, n - 1);
    }
}

/// Span `i` of column `(x, z)` at the unset height is not linked in direction
/// `dir` to another span at the unset height.
pub open spec fn unset_apart_at(chf: &CompactHeightfield, x: int, z: int, i: int, dir: int) -> bool {
    chf.spans@[i].y == UNSET_HEIGHT ==> match chf.spans@[i].link(dir) {
        Some(c) => chf.spans@[chf.neighbour(x, z, dir, c as int)].y != UNSET_HEIGHT,
        None => true,
    }
}

/// No two linked spans both have their floor at the unset height. (A span
/// whose floor is the unset height does not mark its cell as filled, so two
/// such linked spans would keep queueing each other in a flood fill.)
pub open spec fn unset_spans_apart(chf: &CompactHeightfield) -> bool {
    forall|x: int, z: int, i: int, dir: int|
        chf.span_in_cell(x, z, i) && 0 <= dir < 4 ==> #[trigger] unset_apart_at(chf, x, z, i, dir)
}

/// Whether span `i` of column `(x, z)` meets [`unset_apart_at`] in direction `dir`.
fn span_apart_in(chf: &CompactHeightfield, x: u16, z: u16, i: usize, dir: u8) -> (r: bool)
    requires
        chf.wf(),
        chf.span_in_cell(x as int, z as int, i as int),
        dir < 4,
    ensures
        r == unset_apart_at(chf, x as int, z as int, i as int, dir as int),
{
    proof {
        chf.lemma_span_index(x as int, z as int, i as int);
    }
    if chf.spans[i].y != UNSET_HEIGHT {
        return true;
    }
    match chf.spans[i].con(dir) {
        None => true,
        Some(con) => {
            proof {
                chf.lemma_neighbour(x as int, z as int, i as int, dir as int);
            }
            let (_nx, _nz, ai) = chf.con_indices(x as i32, z as i32, dir, con);
            chf.spans[ai].y != UNSET_HEIGHT
        },
    }
}

/// Whether no two linked spans of `chf` both have their floor at the unset
/// height; see [`unset_spans_apart`].
pub fn check_unset_spans_apart(chf: &CompactHeightfield) -> (r: bool)
    requires
        chf.wf(),
    ensures
        r == unset_spans_apart(chf),
{
    let mut z: u16 = 0;
    while z < chf.height
        invariant
            chf.wf(),
            z <= chf.height,
            forall|xx: int, zz: int, ii: int, dd: int|
                zz < z && chf.span_in_cell(xx, zz, ii) && 0 <= dd < 4 ==> #[trigger] unset_apart_at(
                    chf,
                    xx,
                    zz,
                    ii,
                    dd,
                ),
        decreases chf.height - z,
    {
        let mut x: u16 = 0;
        while x < chf.width
            invariant
                chf.wf(),
                z < chf.height,
                x <= chf.width,
                forall|xx: int, zz: int, ii: int, dd: int|
                    (zz < z || (zz == z && xx < x)) && chf.span_in_cell(xx, zz, ii) && 0 <= dd < 4
                        ==> #[trigger] unset_apart_at(chf, xx, zz, ii, dd),
            decreases chf.width - x,
        {
            let cell = *chf.cell_at(x, z);
            proof {
                lemma_cell_index_bound(chf.width as int, chf.height as int, x as int, z as int);
                assert(chf.cells@[cell_index(chf.width as int, x as int, z as int)].end()
                    <= chf.spans@.len());
            }
            let mut i = cell.index as usize;
            let end = cell.index as usize + cell.count as usize;
            while i < end
                invariant
                    chf.wf(),
                    z < chf.height,
                    x < chf.width,
                    cell == chf.cell(x as int, z as int),
                    end == cell.end(),
                    cell.index <= i <= end,
                    forall|xx: int, zz: int, ii: int, dd: int|
                        (zz < z || (zz == z && xx < x) || (zz == z && xx == x && ii < i))
                            && chf.span_in_cell(xx, zz, ii) && 0 <= dd < 4 ==> #[trigger] unset_apart_at(
                            chf,
                            xx,
                            zz,
                            ii,
                            dd,
                        ),
                decreases end - i,
            {
                let mut dir: u8 = 0;
                while dir < 4
                    invariant
                        chf.wf(),
                        z < chf.height,
                        x < chf.width,
                        cell == chf.cell(x as int, z as int),
                        end == cell.end(),
                        cell.index <= i < end,
                        dir <= 4,
                        forall|xx: int, zz: int, ii: int, dd: int|
                            (zz < z || (zz == z && xx < x) || (zz == z && xx == x && ii < i) || (zz
                                == z && xx == x && ii == i && dd < dir)) && chf.span_in_cell(
                                xx,
                                zz,
                                ii,
                            ) && 0 <= dd < 4 ==> #[trigger] unset_apart_at(chf, xx, zz, ii, dd),
                    decreases 4 - dir,
                {
                    if !span_apart_in(chf, x, z, i, dir) {
                        assert(chf.span_in_cell(x as int, z as int, i as int));
                        assert(!unset_apart_at(chf, x as int, z as int, i as int, dir as int));
                        return false;
                    }
                    dir += 1;
                }
                i += 1;
            }
            x += 1;
        }
        z += 1;
    }
    true
}

/// Weight of a queued span in the flood fill's termination measure: a span at
/// the unset height may be queued again, so it weighs less.
pub open spec fn ref_weight(chf: &CompactHeightfield, r: SpanRef) -> int {
    if chf.spans@[r.2 as int].y == UNSET_HEIGHT {
        1
    } else {
        5
    }
}

/// Total weight of a queue.
pub open spec fn queue_weight(chf: &CompactHeightfield, q: Seq<SpanRef>) -> int
    decreases q.len(),
{
    if q.len() == 0 {
        0
    } else {
        queue_weight(chf, q.drop_last()) + ref_weight(chf, q.last())
    }
}

/// Pushing a span adds its weight.
pub proof fn lemma_queue_weight_push(chf: &CompactHeightfield, q: Seq<SpanRef>, r: SpanRef)
    ensures
        queue_weight(chf, q.push(r)) == queue_weight(chf, q) + ref_weight(chf, r),
{
    assert(q.push(r).drop_last() =~= q);
}

/// Taking the first span off removes its weight; weights are nonnegative.
pub proof fn lemma_queue_weight_first(chf: &CompactHeightfield, q: Seq<SpanRef>)
    ensures
        queue_weight(chf, q) >= 0,
        q.len() > 0 ==> queue_weight(chf, q) == ref_weight(chf, q[0]) + queue_weight(
            chf,
            q.drop_first(),
        ),
    decreases q.len(),
{
    if q.len() > 0 {
        lemma_queue_weight_first(chf, q.drop_last());
        if q.len() > 1 {
            assert(q.drop_last().drop_first() =~= q.drop_first().drop_last());
            assert(q.drop_first().last() == q.last());
        } else {
            assert(q.drop_first().len() == 0);
        }
    }
}

impl PatchRect {
    /// Number of cells of the rectangle.
    pub open spec fn area(&self) -> int {
        self.width * self.height
    }

    /// Index in `data` of cell `(hx, hz)`.
    pub open spec fn index_of(&self, hx: int, hz: int) -> int {
        hx + hz * self.width
    }

    /// Whether `(hx, hz)` is a cell of the rectangle.
    pub open spec fn inside(&self, hx: int, hz: int) -> bool {
        0 <= hx < self.width && 0 <= hz < self.height
    }

    /// A cell of the rectangle has a valid index in `data`.
    pub proof fn lemma_index_of(&self, hx: int, hz: int)
        requires
            self.inside(hx, hz),
        ensures
            0 <= self.index_of(hx, hz) < self.area(),
    {
        lemma_cell_index_bound(self.width as int, self.height as int, hx, hz);
    }

    /// One direction of a flood-fill step from `c` (in grid coordinates): an
    /// unset cell of the rectangle reached through a link of `c` takes the
    /// height of the linked span, which joins the queue.
    pub open spec fn flood_dir(
        &self,
        chf: &CompactHeightfield,
        bs: int,
        data: Seq<u16>,
        pending: Seq<SpanRef>,
        c: SpanRef,
        dir: int,
    ) -> (Seq<u16>, Seq<SpanRef>) {
        match chf.spans@[c.2 as int].link(dir) {
            None => (data, pending),
            Some(con) => {
                let ax = c.0 + dir_dx(dir);
                let az = c.1 + dir_dz(dir);
                let hx = ax - self.xmin - bs;
                let hz = az - self.zmin - bs;
                if !self.inside(hx, hz) || data[self.index_of(hx, hz)] != UNSET_HEIGHT {
                    (data, pending)
                } else {
                    let ai = chf.neighbour(c.0 as int, c.1 as int, dir, con as int);
                    (
                        data.update(self.index_of(hx, hz), chf.spans@[ai].y),
                        pending.push((ax as i32, az as i32, ai as usize)),
                    )
                }
            },
        }
    }

    /// The first `n` directions of a flood-fill step from `c`.
    pub open spec fn flood_dirs(
        &self,
        chf: &CompactHeightfield,
        bs: int,
        data: Seq<u16>,
        pending: Seq<SpanRef>,
        c: SpanRef,
        n: int,
    ) -> (Seq<u16>, Seq<SpanRef>)
        decreases n,
    {
        if n <= 0 {
            (data, pending)
        } else {
            let s = self.flood_dirs(chf, bs, data, pending, c, n - 1);
            self.flood_dir(chf, bs, s.0, s.1, c, n - 1)
        }
    }

    /// One flood-fill step: take the first queued span and visit its four
    /// directions.
    pub open spec fn flood_step(
        &self,
        chf: &CompactHeightfield,
        bs: int,
        data: Seq<u16>,
        pending: Seq<SpanRef>,
    ) -> (Seq<u16>, Seq<SpanRef>) {
        self.flood_dirs(chf, bs, data, pending.drop_first(), pending[0], 4)
    }

    /// At most `fuel` flood-fill steps, stopping when the queue is empty.
    pub open spec fn flood(
        &self,
        chf: &CompactHeightfield,
        bs: int,
        data: Seq<u16>,
        pending: Seq<SpanRef>,
        fuel: nat,
    ) -> (Seq<u16>, Seq<SpanRef>)
        decreases fuel,
    {
        if fuel == 0 || pending.len() == 0 {
            (data, pending)
        } else {
            let s = self.flood_step(chf, bs, data, pending);
            self.flood(chf, bs, s.0, s.1, (fuel - 1) as nat)
        }
    }

    /// The heights left by a flood fill that starts from the queue `pending`:
    /// enough steps are allowed for the queue to run dry.
    pub open spec fn flooded(
        &self,
        chf: &CompactHeightfield,
        bs: int,
        data: Seq<u16>,
        pending: Seq<SpanRef>,
    ) -> Seq<u16> {
        self.flood(chf, bs, data, pending, (queue_weight(chf, pending) + 6 * self.area()) as nat).0
    }

    /// Running the flood fill for `a` steps and then `b` more is running it
    /// for `a + b` steps.
    pub proof fn lemma_flood_split(
        &self,
        chf: &CompactHeightfield,
        bs: int,
        data: Seq<u16>,
        pending: Seq<SpanRef>,
        a: nat,
        b: nat,
    )
        ensures
            ({
                let s = self.flood(chf, bs, data, pending, a);
                self.flood(chf, bs, s.0, s.1, b)
            }) == self.flood(chf, bs, data, pending, a + b),
        decreases a,
    {
        if a > 0 && pending.len() > 0 {
            let s = self.flood_step(chf, bs, data, pending);
            self.lemma_flood_split(chf, bs, s.0, s.1, (a - 1) as nat, b);
            assert((a - 1) as nat + b == (a + b - 1) as nat);
        }
    }
}

impl HeightPatch {
    /// The rectangle of the patch.
    pub open spec fn rect(&self) -> PatchRect {
        PatchRect { xmin: self.xmin, zmin: self.zmin, width: self.width, height: self.height }
    }

    /// The rectangle, moved by the heightfield border `bs`, lies in the grid of
    /// `chf`, and `data` has room for all its cells.
    pub open spec fn placed(&self, chf: &CompactHeightfield, bs: int) -> bool {
        &&& self.data@.len() >= self.rect().area()
        &&& 0 <= bs
        &&& self.xmin + self.width + bs <= chf.width
        &&& self.zmin + self.height + bs <= chf.height
    }

    /// `e` names a span of the grid cell it claims to be in.
    pub open spec fn valid_ref(chf: &CompactHeightfield, e: SpanRef) -> bool {
        chf.span_in_cell(e.0 as int, e.1 as int, e.2 as int)
    }
}

/// Drops the first `n` entries of `queue`, moving the rest to the front.
fn drop_front(queue: &mut Vec<SpanRef>, n: usize)
    requires
        n <= old(queue)@.len(),
    ensures
        final(queue)@ == old(queue)@.subrange(n as int, old(queue)@.len() as int),
{
    let len = queue.len();
    let mut k = n;
    while k < len
        invariant
            n <= k <= len,
            len == old(queue)@.len(),
            queue@.len() == len,
            forall|t: int| 0 <= t < k - n ==> queue@[t] == old(queue)@[t + n],
            forall|t: int| k - n <= t < len && t >= k ==> queue@[t] == old(queue)@[t],
        decreases len - k,
    {
        let e = queue[k];
        queue.set(k - n, e);
        k += 1;
    }
    queue.truncate(len - n);
    assert(queue@ =~= old(queue)@.subrange(n as int, len as int));
}

impl HeightPatch {
    /// Visits direction `dir` of a flood-fill step from `c`.
    fn flood_visit(
        &mut self,
        chf: &CompactHeightfield,
        bs: u16,
        queue: &mut Vec<SpanRef>,
        head: usize,
        c: SpanRef,
        dir: u8,
    )
        requires
            chf.wf(),
            old(self).placed(chf, bs as int),
            dir < 4,
            head <= old(queue)@.len(),
            HeightPatch::valid_ref(chf, c),
            unset_spans_apart(chf),
        ensures
            final(self).xmin == old(self).xmin,
            final(self).zmin == old(self).zmin,
            final(self).width == old(self).width,
            final(self).height == old(self).height,
            final(self).data@.len() == old(self).data@.len(),
            final(queue)@.subrange(0, head as int) == old(queue)@.subrange(0, head as int),
            final(queue)@.len() >= old(queue)@.len(),
            ({
                let s = old(self).rect().flood_dir(
                    chf,
                    bs as int,
                    old(self).data@,
                    old(queue)@.subrange(head as int, old(queue)@.len() as int),
                    c,
                    dir as int,
                );
                &&& final(self).data@ == s.0
                &&& final(queue)@.subrange(head as int, final(queue)@.len() as int) == s.1
            }),
            6 * count_value(final(self).data@, UNSET_HEIGHT, old(self).rect().area())
                + queue_weight(chf, final(queue)@.subrange(head as int, final(queue)@.len() as int))
                <= 6 * count_value(old(self).data@, UNSET_HEIGHT, old(self).rect().area())
                + queue_weight(chf, old(queue)@.subrange(head as int, old(queue)@.len() as int)) + (
            if chf.spans@[c.2 as int].y == UNSET_HEIGHT {
                0int
            } else {
                1int
            }),
            forall|k: int|
                old(queue)@.len() <= k < final(queue)@.len() ==> HeightPatch::valid_ref(
                    chf,
                    #[trigger] final(queue)@[k],
                ),
    {
        let ghost pending = queue@.subrange(head as int, queue@.len() as int);
        proof {
            chf.lemma_span_index(c.0 as int, c.1 as int, c.2 as int);
        }
        let cs = chf.spans[c.2];
        let con = match cs.con(dir) {
            Some(con) => con,
            None => {
                assert(queue@.subrange(head as int, queue@.len() as int) == pending);
                return;
            },
        };
        proof {
            chf.lemma_neighbour(c.0 as int, c.1 as int, c.2 as int, dir as int);
            assert(chf.links_ok(c.0 as int, c.1 as int, c.2 as int));
            assert(chf.spans@[c.2 as int].link(dir as int) is Some);
        }
        let ax = c.0 + dir_offset_x(dir);
        let az = c.1 + dir_offset_z(dir);
        let hx = ax - self.xmin as i32 - bs as i32;
        let hz = az - self.zmin as i32 - bs as i32;
        if hx < 0 || hz < 0 || hx >= self.width as i32 || hz >= self.height as i32 {
            assert(queue@.subrange(head as int, queue@.len() as int) == pending);
            return;
        }
        let dl = self.data.len();
        proof {
            self.rect().lemma_index_of(hx as int, hz as int);
            lemma_cell_index_bound(self.width as int, self.height as int, hx as int, hz as int);
        }
        let idx = hx as usize + hz as usize * self.width as usize;
        if self.data[idx] != UNSET_HEIGHT {
            assert(queue@.subrange(head as int, queue@.len() as int) == pending);
            return;
        }
        let (nx, nz, ai) = chf.con_indices(c.0, c.1, dir, con);
        let y = chf.spans[ai].y;
        proof {
            assert(unset_apart_at(chf, c.0 as int, c.1 as int, c.2 as int, dir as int));
            lemma_queue_weight_push(chf, pending, (nx, nz, ai));
            if y != UNSET_HEIGHT {
                lemma_count_value_update(self.data@, UNSET_HEIGHT, self.rect().area(), idx as int, y);
            } else {
                assert(self.data@.update(idx as int, y) =~= self.data@);
            }
        }
        self.data.set(idx, y);
        queue.push((nx, nz, ai));
        assert(queue@.subrange(head as int, queue@.len() as int) =~= pending.push((nx, nz, ai)));
        assert(queue@.subrange(0, head as int) =~= old(queue)@.subrange(0, head as int));
    }

    /// Runs the flood fill from `queue` until the queue is empty.
    pub fn flood_fill(&mut self, chf: &CompactHeightfield, bs: u16, queue: Vec<SpanRef>)
        requires
            chf.wf(),
            old(self).placed(chf, bs as int),
            unset_spans_apart(chf),
            forall|k: int| 0 <= k < queue@.len() ==> HeightPatch::valid_ref(chf, #[trigger] queue@[k]),
        ensures
            final(self).xmin == old(self).xmin,
            final(self).zmin == old(self).zmin,
            final(self).width == old(self).width,
            final(self).height == old(self).height,
            final(self).data@ == old(self).rect().flooded(chf, bs as int, old(self).data@, queue@),
    {
        let ghost init_data = self.data@;
        let ghost init_pending = queue@;
        let ghost area = self.rect().area();
        let ghost mut steps: nat = 0;
        let mut queue = queue;
        let mut head: usize = 0;
        proof {
            lemma_count_value_bound(self.data@, UNSET_HEIGHT, area);
            assert(queue@.subrange(0, queue@.len() as int) =~= queue@);
            lemma_queue_weight_first(chf, queue@);
        }
        while head < queue.len()
            invariant
                chf.wf(),
                self.placed(chf, bs as int),
                self.xmin == old(self).xmin,
                self.zmin == old(self).zmin,
                self.width == old(self).width,
                self.height == old(self).height,
                area == self.rect().area(),
                self.data@.len() == init_data.len(),
                unset_spans_apart(chf),
                head <= queue@.len(),
                head < RETRACT_SIZE,
                forall|k: int|
                    head <= k < queue@.len() ==> HeightPatch::valid_ref(chf, #[trigger] queue@[k]),
                (self.data@, queue@.subrange(head as int, queue@.len() as int)) == old(self).rect().flood(
                    chf,
                    bs as int,
                    init_data,
                    init_pending,
                    steps,
                ),
                queue_weight(chf, queue@.subrange(head as int, queue@.len() as int)) >= 0,
                steps + 6 * count_value(self.data@, UNSET_HEIGHT, area) + queue_weight(
                    chf,
                    queue@.subrange(head as int, queue@.len() as int),
                ) <= queue_weight(chf, init_pending) + 6 * area,
            decreases 6 * count_value(self.data@, UNSET_HEIGHT, area) + queue_weight(
                chf,
                queue@.subrange(head as int, queue@.len() as int),
            ),
        {
            let ghost before = (self.data@, queue@.subrange(head as int, queue@.len() as int));
            let ghost m_before = 6 * count_value(self.data@, UNSET_HEIGHT, area) + queue_weight(
                chf,
                before.1,
            );
            let c = queue[head];
            head += 1;
            if head >= RETRACT_SIZE {
                drop_front(&mut queue, RETRACT_SIZE);
                head = 0;
            }
            assert(queue@.subrange(head as int, queue@.len() as int) =~= before.1.drop_first());
            let ghost d0 = self.data@;
            let ghost q0 = queue@;
            let ghost extra: int = if chf.spans@[c.2 as int].y == UNSET_HEIGHT {
                0
            } else {
                1
            };
            proof {
                lemma_queue_weight_first(chf, before.1);
                lemma_queue_weight_first(chf, before.1.drop_first());
            }
            let ghost m_popped = m_before - ref_weight(chf, c);
            let mut dir: u8 = 0;
            while dir < 4
                invariant
                    chf.wf(),
                    self.placed(chf, bs as int),
                    self.xmin == old(self).xmin,
                    self.zmin == old(self).zmin,
                    self.width == old(self).width,
                    self.height == old(self).height,
                    area == self.rect().area(),
                    self.data@.len() == init_data.len(),
                    unset_spans_apart(chf),
                    dir <= 4,
                    head <= q0.len() <= queue@.len(),
                    head < RETRACT_SIZE,
                    HeightPatch::valid_ref(chf, c),
                    forall|k: int|
                        head <= k < queue@.len() ==> HeightPatch::valid_ref(
                            chf,
                            #[trigger] queue@[k],
                        ),
                    (self.data@, queue@.subrange(head as int, queue@.len() as int))
                        == old(self).rect().flood_dirs(
                        chf,
                        bs as int,
                        d0,
                        q0.subrange(head as int, q0.len() as int),
                        c,
                        dir as int,
                    ),
                    extra == (if chf.spans@[c.2 as int].y == UNSET_HEIGHT {
                        0int
                    } else {
                        1int
                    }),
                    m_popped == m_before - ref_weight(chf, c),
                    6 * count_value(self.data@, UNSET_HEIGHT, area) + queue_weight(
                        chf,
                        queue@.subrange(head as int, queue@.len() as int),
                    ) <= m_popped + dir * extra,
                decreases 4 - dir,
            {
                let ghost qb = queue@;
                self.flood_visit(chf, bs, &mut queue, head, c, dir);
                proof {
                    assert forall|k: int| head <= k < queue@.len() implies HeightPatch::valid_ref(
                        chf,
                        #[trigger] queue@[k],
                    ) by {
                        if k < qb.len() {
                            assert(queue@.subrange(head as int, queue@.len() as int)[k - head]
                                == queue@[k]);
                            assert(qb.subrange(head as int, qb.len() as int)[k - head] == qb[k]);
                        }
                    }
                }
                dir += 1;
            }
            proof {
                let st = old(self).rect().flood_step(chf, bs as int, before.0, before.1);
                assert(c == before.1[0]);
                assert(old(self).rect().flood(chf, bs as int, before.0, before.1, 1) == old(self).rect().flood(
                    chf,
                    bs as int,
                    st.0,
                    st.1,
                    0,
                ));
                old(self).rect().lemma_flood_split(chf, bs as int, init_data, init_pending, steps, 1);
                steps = steps + 1;
                lemma_queue_weight_first(chf, queue@.subrange(head as int, queue@.len() as int));
            }
        }
        proof {
            old(self).rect().lemma_flood_split(
                chf,
                bs as int,
                init_data,
                init_pending,
                steps,
                (queue_weight(chf, init_pending) + 6 * area - steps) as nat,
            );
        }
    }
}

/// The first span at index `i` or later, and before `end`, that belongs to
/// `region`.
pub open spec fn first_span_in(chf: &CompactHeightfield, region: RegionId, i: int, end: int) -> Option<
    int,
>
    decreases end - i,
{
    if i >= end {
        None
    } else if chf.spans@[i].region == region {
        Some(i)
    } else {
        first_span_in(chf, region, i + 1, end)
    }
}

/// A span found by [`first_span_in`] lies in the searched range and belongs
/// to the region.
pub proof fn lemma_first_span_in(chf: &CompactHeightfield, region: RegionId, i: int, end: int)
    ensures
        match first_span_in(chf, region, i, end) {
            Some(v) => i <= v < end && chf.spans@[v].region == region,
            None => true,
        },
    decreases end - i,
{
    if i < end && chf.spans@[i].region != region {
        lemma_first_span_in(chf, region, i + 1, end);
    }
}

/// The lowest span of grid column `(x, z)` that belongs to `region`.
pub open spec fn region_span(chf: &CompactHeightfield, x: int, z: int, region: RegionId) -> Option<
    int,
> {
    first_span_in(chf, region, chf.cell(x, z).index as int, chf.cell(x, z).end())
}

/// Whether the link of span `i` (in column `(x, z)`) in direction `dir` leads
/// to a span of another region.
pub open spec fn crosses_region(
    chf: &CompactHeightfield,
    x: int,
    z: int,
    i: int,
    region: RegionId,
    dir: int,
) -> bool {
    match chf.spans@[i].link(dir) {
        Some(c) => chf.spans@[chf.neighbour(x, z, dir, c as int)].region != region,
        None => false,
    }
}

/// Whether one of the first `n` directions of span `i` leads to another region.
pub open spec fn crosses_region_before(
    chf: &CompactHeightfield,
    x: int,
    z: int,
    i: int,
    region: RegionId,
    n: int,
) -> bool
    decreases n,
{
    n > 0 && (crosses_region_before(chf, x, z, i, region, n - 1) || crosses_region(
        chf,
        x,
        z,
        i,
        region,
        n - 1,
    ))
}

/// Whether span `i` of column `(x, z)` has a neighbour in another region.
pub open spec fn at_region_border(
    chf: &CompactHeightfield,
    x: int,
    z: int,
    i: int,
    region: RegionId,
) -> bool {
    crosses_region_before(chf, x, z, i, region, 4)
}

/// Whether span `i` of column `(x, z)` has a neighbour in another region.
fn is_region_border(chf: &CompactHeightfield, x: i32, z: i32, i: usize, region: RegionId) -> (r:
    bool)
    requires
        chf.wf(),
        chf.span_in_cell(x as int, z as int, i as int),
    ensures
        r == at_region_border(chf, x as int, z as int, i as int, region),
{
    proof {
        chf.lemma_span_index(x as int, z as int, i as int);
    }
    let s = chf.spans[i];
    let mut dir: u8 = 0;
    while dir < 4
        invariant
            chf.wf(),
            chf.span_in_cell(x as int, z as int, i as int),
            s == chf.spans@[i as int],
            dir <= 4,
            !crosses_region_before(chf, x as int, z as int, i as int, region, dir as int),
        decreases 4 - dir,
    {
        if let Some(con) = s.con(dir) {
            proof {
                chf.lemma_neighbour(x as int, z as int, i as int, dir as int);
                chf.lemma_span_index(x as int, z as int, i as int);
            }
            let (_ax, _az, ai) = chf.con_indices(x, z, dir, con);
            if chf.spans[ai].region != region {
                assert(crosses_region_before(chf, x as int, z as int, i as int, region, dir + 1));
                proof {
                    lemma_crossing_persists(chf, x as int, z as int, i as int, region, dir + 1, 4);
                }
                return true;
            }
        }
        dir += 1;
    }
    false
}

/// Once a crossing is found among the first `m` directions, it is found among
/// the first `n >= m` too.
proof fn lemma_crossing_persists(
    chf: &CompactHeightfield,
    x: int,
    z: int,
    i: int,
    region: RegionId,
    m: int,
    n: int,
)
    requires
        m <= n,
        crosses_region_before(chf, x, z, i, region, m),
    ensures
        crosses_region_before(chf, x, z, i, region, n),
    decreases n - m,
{
    if m < n {
        lemma_crossing_persists(chf, x, z, i, region, m, n - 1);
    }
}

impl PatchRect {
    /// Grid x of patch cell `k` (row by row), moved by the border `bs`.
    pub open spec fn column_x(&self, bs: int, k: int) -> int {
        self.xmin + k % (self.width as int) + bs
    }

    /// Grid z of patch cell `k` (row by row), moved by the border `bs`.
    pub open spec fn column_z(&self, bs: int, k: int) -> int {
        self.zmin + k / (self.width as int) + bs
    }

    /// The span of `region` under patch cell `k`.
    pub open spec fn region_span_at(
        &self,
        chf: &CompactHeightfield,
        bs: int,
        region: RegionId,
        k: int,
    ) -> Option<int> {
        region_span(chf, self.column_x(bs, k), self.column_z(bs, k), region)
    }

    /// Heights after copying the spans of `region` into the patch: every cell
    /// of the rectangle takes the floor of its span of `region`, or
    /// [`UNSET_HEIGHT`] where it has none (every cell when `region` is "no
    /// region"); entries past the rectangle keep their values.
    pub open spec fn region_data(
        &self,
        chf: &CompactHeightfield,
        bs: int,
        region: RegionId,
        data: Seq<u16>,
    ) -> Seq<u16> {
        Seq::new(
            data.len(),
            |k: int|
                if k < self.area() {
                    if region.0 == 0 {
                        UNSET_HEIGHT
                    } else {
                        match self.region_span_at(chf, bs, region, k) {
                            Some(i) => chf.spans@[i].y,
                            None => UNSET_HEIGHT,
                        }
                    }
                } else {
                    data[k]
                },
        )
    }

    /// Spans of `region` on the region's border under the first `n` patch
    /// cells, row by row: the seeds of the flood fill.
    pub open spec fn region_seeds(
        &self,
        chf: &CompactHeightfield,
        bs: int,
        region: RegionId,
        n: int,
    ) -> Seq<SpanRef>
        decreases n,
    {
        if n <= 0 {
            Seq::empty()
        } else {
            let prev = self.region_seeds(chf, bs, region, n - 1);
            let x = self.column_x(bs, n - 1);
            let z = self.column_z(bs, n - 1);
            match self.region_span_at(chf, bs, region, n - 1) {
                Some(i) => if at_region_border(chf, x, z, i, region) {
                    prev.push((x as i32, z as i32, i as usize))
                } else {
                    prev
                },
                None => prev,
            }
        }
    }

    /// Whether some patch cell has a span of `region` ("no region" never has).
    pub open spec fn region_found(&self, chf: &CompactHeightfield, bs: int, region: RegionId) -> bool {
        region.0 != 0 && exists|k: int|
            0 <= k < self.area() && #[trigger] self.region_span_at(chf, bs, region, k) is Some
    }

}

impl HeightPatch {
    /// Copies the heights of `region` into the patch and returns the border
    /// spans of the region, row by row, and whether the region was found.
    fn copy_region(&mut self, chf: &CompactHeightfield, bs: u16, region: RegionId) -> (r: (
        Vec<SpanRef>,
        bool,
    ))
        requires
            chf.wf(),
            old(self).placed(chf, bs as int),
        ensures
            final(self).xmin == old(self).xmin,
            final(self).zmin == old(self).zmin,
            final(self).width == old(self).width,
            final(self).height == old(self).height,
            final(self).data@ == old(self).rect().region_data(chf, bs as int, region, old(self).data@),
            r.0@ == if region.0 == 0 {
                Seq::empty()
            } else {
                old(self).rect().region_seeds(chf, bs as int, region, old(self).rect().area())
            },
            r.1 == old(self).rect().region_found(chf, bs as int, region),
            forall|k: int| 0 <= k < r.0@.len() ==> HeightPatch::valid_ref(chf, #[trigger] r.0@[k]),
    {
        let ghost d0 = self.data@;
        let dl = self.data.len();
        assert(self.rect().area() <= dl);
        let data_len = self.width as usize * self.height as usize;
        let mut k: usize = 0;
        while k < data_len
            invariant
                data_len == self.rect().area(),
                self.data@.len() == d0.len(),
                self.data@.len() >= self.rect().area(),
                self.xmin == old(self).xmin,
                self.zmin == old(self).zmin,
                self.width == old(self).width,
                self.height == old(self).height,
                k <= data_len,
                forall|t: int| 0 <= t < k ==> self.data@[t] == UNSET_HEIGHT,
                forall|t: int| k <= t < d0.len() ==> self.data@[t] == d0[t],
            decreases data_len - k,
        {
            self.data.set(k, UNSET_HEIGHT);
            k += 1;
        }
        let mut queue: Vec<SpanRef> = Vec::new();
        if region.0 == 0 {
            assert(self.data@ =~= old(self).rect().region_data(chf, bs as int, region, d0));
            return (queue, false);
        }
        let ghost d1 = self.data@;
        let mut found = false;
        let mut hz: u16 = 0;
        while hz < self.height
            invariant
                chf.wf(),
                old(self).placed(chf, bs as int),
                region.0 != 0,
                d0 == old(self).data@,
                self.xmin == old(self).xmin,
                self.zmin == old(self).zmin,
                self.width == old(self).width,
                self.height == old(self).height,
                self.data@.len() == d0.len(),
                hz <= self.height,
                forall|t: int|
                    #![trigger self.data@[t]]
                    0 <= t < d0.len() ==> self.data@[t] == if t < hz * self.width {
                        old(self).rect().region_data(chf, bs as int, region, d0)[t]
                    } else if t < old(self).rect().area() {
                        UNSET_HEIGHT
                    } else {
                        d0[t]
                    },
                queue@ == old(self).rect().region_seeds(chf, bs as int, region, hz * self.width),
                found == exists|t: int|
                    0 <= t < hz * self.width && #[trigger] old(self).rect().region_span_at(
                        chf,
                        bs as int,
                        region,
                        t,
                    ) is Some,
                forall|t: int| 0 <= t < queue@.len() ==> HeightPatch::valid_ref(chf, #[trigger] queue@[t]),
            decreases self.height - hz,
        {
            let z = self.zmin + hz + bs;
            let mut hx: u16 = 0;
            while hx < self.width
                invariant
                    chf.wf(),
                    old(self).placed(chf, bs as int),
                    region.0 != 0,
                    d0 == old(self).data@,
                    self.xmin == old(self).xmin,
                    self.zmin == old(self).zmin,
                    self.width == old(self).width,
                    self.height == old(self).height,
                    self.data@.len() == d0.len(),
                    hz < self.height,
                    z == self.zmin + hz + bs,
                    hx <= self.width,
                    forall|t: int|
                        #![trigger self.data@[t]]
                        0 <= t < d0.len() ==> self.data@[t] == if t < hz * self.width + hx {
                            old(self).rect().region_data(chf, bs as int, region, d0)[t]
                        } else if t < old(self).rect().area() {
                            UNSET_HEIGHT
                        } else {
                            d0[t]
                        },
                    queue@ == old(self).rect().region_seeds(chf, bs as int, region, hz * self.width + hx),
                    found == exists|t: int|
                        0 <= t < hz * self.width + hx && #[trigger] old(self).rect().region_span_at(
                            chf,
                            bs as int,
                            region,
                            t,
                        ) is Some,
                    forall|t: int|
                        0 <= t < queue@.len() ==> HeightPatch::valid_ref(chf, #[trigger] queue@[t]),
                decreases self.width - hx,
            {
                let x = self.xmin + hx + bs;
                let ghost k = hz * self.width + hx;
                proof {
                    vstd::arithmetic::div_mod::lemma_fundamental_div_mod_converse_mod(
                        k,
                        self.width as int,
                        hz as int,
                        hx as int,
                    );
                    vstd::arithmetic::div_mod::lemma_fundamental_div_mod_converse_div(
                        k,
                        self.width as int,
                        hz as int,
                        hx as int,
                    );
                    self.rect().lemma_index_of(hx as int, hz as int);
                    assert(self.rect().column_x(bs as int, k) == x);
                    assert(self.rect().column_z(bs as int, k) == z);
                }
                let c = *chf.cell_at(x, z);
                proof {
                    lemma_cell_index_bound(chf.width as int, chf.height as int, x as int, z as int);
                    assert(chf.cells@[cell_index(chf.width as int, x as int, z as int)].end()
                        <= chf.spans@.len());
                }
                let end = c.index as usize + c.count as usize;
                let mut i = c.index as usize;
                let mut hit: Option<usize> = None;
                while i < end
                    invariant_except_break
                        hit is None,
                    invariant
                        chf.wf(),
                        c == chf.cell(x as int, z as int),
                        end == c.end(),
                        end <= chf.spans@.len(),
                        c.index <= i <= end,
                        first_span_in(chf, region, c.index as int, end as int) == first_span_in(
                            chf,
                            region,
                            i as int,
                            end as int,
                        ),
                    ensures
                        match first_span_in(chf, region, c.index as int, end as int) {
                            Some(v) => hit == Some(v as usize),
                            None => hit is None,
                        },
                    decreases end - i,
                {
                    if chf.spans[i].region == region {
                        hit = Some(i);
                        break;
                    }
                    i += 1;
                }
                let dl = self.data.len();
                proof {
                    lemma_cell_index_bound(self.width as int, self.height as int, hx as int, hz as int);
                    assert(old(self).rect().area() == self.rect().area());
                    assert(self.rect().index_of(hx as int, hz as int) < self.rect().area());
                    assert(self.rect().area() <= dl);
                    assert((hx as int + hz as int * self.width as int) < dl);
                    assert((hz as int * self.width as int) <= hx as int + hz as int * self.width as int);
                }
                let idx = hx as usize + hz as usize * self.width as usize;
                proof {
                    lemma_first_span_in(chf, region, c.index as int, end as int);
                }
                if let Some(i) = hit {
                    assert(chf.span_in_cell(x as int, z as int, i as int));
                    let y = chf.spans[i].y;
                    self.data.set(idx, y);
                    found = true;
                    if is_region_border(chf, x as i32, z as i32, i, region) {
                        queue.push((x as i32, z as i32, i));
                    }
                }
                proof {
                    assert(old(self).rect().region_span_at(chf, bs as int, region, k) == first_span_in(
                        chf,
                        region,
                        c.index as int,
                        end as int,
                    ));
                    assert(queue@ == old(self).rect().region_seeds(chf, bs as int, region, k + 1));
                    if hit is None {
                        assert forall|t: int|
                            0 <= t < k + 1 && #[trigger] old(self).rect().region_span_at(
                                chf,
                                bs as int,
                                region,
                                t,
                            ) is Some implies t < k by {}
                    }
                }
                hx += 1;
            }
            assert((hz + 1) * self.width == hz * self.width + self.width) by (nonlinear_arith);
            hz += 1;
        }
        proof {
            assert(hz * self.width == self.width * self.height) by (nonlinear_arith)
                requires
                    hz == self.height,
            ;
            assert(hz * self.width == old(self).rect().area());
            assert(self.data@ =~= old(self).rect().region_data(chf, bs as int, region, d0));
        }
        (queue, found)
    }
}

/// A span near a polygon vertex, with its height distance to the vertex:
/// `(x, z, span index, distance)`.
pub type StartCandidate = (i32, i32, usize, int);

/// Offset along x of the `k`-th cell looked at around a polygon vertex: the
/// vertex's own cell, then its eight neighbours.
pub open spec fn seed_offset_x(k: int) -> int {
    if k == 1 || k == 7 || k == 8 {
        -1
    } else if k == 3 || k == 4 || k == 5 {
        1
    } else {
        0
    }
}

/// Offset along z of the `k`-th cell looked at around a polygon vertex.
pub open spec fn seed_offset_z(k: int) -> int {
    if k == 1 || k == 2 || k == 3 {
        -1
    } else if k == 5 || k == 6 || k == 7 {
        1
    } else {
        0
    }
}

/// The offsets of [`seed_offset_x`] and [`seed_offset_z`].
fn seed_offset(k: usize) -> (r: (i32, i32))
    requires
        k < 9,
    ensures
        r.0 == seed_offset_x(k as int),
        r.1 == seed_offset_z(k as int),
{
    match k {
        0 => (0, 0),
        1 => (-1, -1),
        2 => (0, -1),
        3 => (1, -1),
        4 => (1, 0),
        5 => (1, 1),
        6 => (0, 1),
        7 => (-1, 1),
        _ => (-1, 0),
    }
}

/// Distance between two heights.
pub open spec fn height_distance(a: int, b: int) -> int {
    if a >= b {
        a - b
    } else {
        b - a
    }
}

/// Scans `cands` in order and keeps the first one that is strictly closer
/// than the best so far.
pub open spec fn pick_closest(cands: Seq<StartCandidate>, best: (int, Option<SpanRef>)) -> (
    int,
    Option<SpanRef>,
)
    decreases cands.len(),
{
    if cands.len() == 0 {
        best
    } else {
        let c = cands[0];
        let next = if c.3 < best.0 {
            (c.3, Some((c.0, c.1, c.2)))
        } else {
            best
        };
        pick_closest(cands.drop_first(), next)
    }
}

/// Scanning two sequences one after the other.
pub proof fn lemma_pick_closest_concat(
    a: Seq<StartCandidate>,
    b: Seq<StartCandidate>,
    best: (int, Option<SpanRef>),
)
    ensures
        pick_closest(a + b, best) == pick_closest(b, pick_closest(a, best)),
    decreases a.len(),
{
    if a.len() > 0 {
        let c = a[0];
        let next = if c.3 < best.0 {
            (c.3, Some((c.0, c.1, c.2)))
        } else {
            best
        };
        assert((a + b).drop_first() =~= a.drop_first() + b);
        lemma_pick_closest_concat(a.drop_first(), b, next);
    } else {
        assert(a + b =~= b);
    }
}

/// Nothing beats a distance of zero.
pub proof fn lemma_pick_closest_zero(cands: Seq<StartCandidate>, best: (int, Option<SpanRef>))
    requires
        best.0 <= 0,
        forall|k: int| 0 <= k < cands.len() ==> #[trigger] cands[k].3 >= 0,
    ensures
        pick_closest(cands, best) == best,
    decreases cands.len(),
{
    if cands.len() > 0 {
        assert forall|k: int| 0 <= k < cands.drop_first().len() implies #[trigger] cands.drop_first()[k].3
            >= 0 by {
            assert(cands.drop_first()[k] == cands[k + 1]);
        }
        lemma_pick_closest_zero(cands.drop_first(), best);
    }
}

/// Sum of the x (`axis` 0) or z (`axis` 2) coordinates of the first `n`
/// vertices of a polygon.
pub open spec fn coordinate_sum(poly: Seq<u16>, verts: Seq<[i32; 3]>, axis: int, n: int) -> int
    decreases n,
{
    if n <= 0 {
        0
    } else {
        coordinate_sum(poly, verts, axis, n - 1) + verts[poly[n - 1] as int][axis]
    }
}

/// Integer division rounding towards zero, as `/` on `i32` does.
pub open spec fn div_toward_zero(a: int, b: int) -> int {
    if a >= 0 {
        a / b
    } else {
        -((-a) / b)
    }
}

/// Direction of the step towards `(pcx, pcz)` from `c`: along z when `c` is
/// already at the right x, else along x.
pub open spec fn direct_dir(c: SpanRef, pcx: int, pcz: int) -> int {
    if c.0 == pcx {
        if pcz > c.1 {
            1
        } else {
            3
        }
    } else if pcx > c.0 {
        2
    } else {
        0
    }
}

/// The `idx`-th direction tried from a cell: `0, 1, 2, 3` with the direct
/// direction swapped into the last place.
pub open spec fn dir_order(direct: int, idx: int) -> int {
    if idx == direct {
        3
    } else if idx == 3 {
        direct
    } else {
        idx
    }
}

impl PatchRect {
    /// Spans of the `k`-th cell around vertex `v` (`x, y, z`), if that cell lies
    /// in the rectangle, with their distance to the vertex's height.
    pub open spec fn offset_candidates(
        &self,
        chf: &CompactHeightfield,
        bs: int,
        v: [i32; 3],
        k: int,
    ) -> Seq<StartCandidate> {
        let ax = v[0] + seed_offset_x(k);
        let az = v[2] + seed_offset_z(k);
        if ax < self.xmin || ax >= self.xmin + self.width || az < self.zmin || az >= self.zmin
            + self.height {
            Seq::empty()
        } else {
            let c = chf.cell(ax + bs, az + bs);
            Seq::new(
                c.count as nat,
                |t: int|
                    (
                        ax as i32,
                        az as i32,
                        (c.index + t) as usize,
                        height_distance(v[1] as int, chf.spans@[c.index + t].y as int),
                    ),
            )
        }
    }

    /// Candidates of the cells `k..9` around vertex `v`.
    pub open spec fn offsets_from(
        &self,
        chf: &CompactHeightfield,
        bs: int,
        v: [i32; 3],
        k: int,
    ) -> Seq<StartCandidate>
        decreases 9 - k,
    {
        if k >= 9 {
            Seq::empty()
        } else {
            self.offset_candidates(chf, bs, v, k) + self.offsets_from(chf, bs, v, k + 1)
        }
    }

    /// Candidates around the polygon vertices `j..npoly`.
    pub open spec fn vertices_from(
        &self,
        chf: &CompactHeightfield,
        bs: int,
        poly: Seq<u16>,
        verts: Seq<[i32; 3]>,
        j: int,
        npoly: int,
    ) -> Seq<StartCandidate>
        decreases npoly - j,
    {
        if j >= npoly {
            Seq::empty()
        } else {
            self.offsets_from(chf, bs, verts[poly[j] as int], 0) + self.vertices_from(
                chf,
                bs,
                poly,
                verts,
                j + 1,
                npoly,
            )
        }
    }

    /// The span the walk to the polygon's centre starts from: of the spans
    /// under a polygon vertex's cell or its eight neighbours (inside the
    /// rectangle), the first one whose height is closest to the vertex's,
    /// if any is closer than [`UNSET_HEIGHT`].
    pub open spec fn start_span(
        &self,
        chf: &CompactHeightfield,
        bs: int,
        poly: Seq<u16>,
        verts: Seq<[i32; 3]>,
        npoly: int,
    ) -> Option<SpanRef> {
        pick_closest(
            self.vertices_from(chf, bs, poly, verts, 0, npoly),
            (UNSET_HEIGHT as int, None),
        ).1
    }
}

/// Every candidate distance is nonnegative.
pub proof fn lemma_candidates_nonnegative(
    hp: PatchRect,
    chf: &CompactHeightfield,
    bs: int,
    poly: Seq<u16>,
    verts: Seq<[i32; 3]>,
    j: int,
    npoly: int,
)
    ensures
        forall|t: int|
            0 <= t < hp.vertices_from(chf, bs, poly, verts, j, npoly).len() ==> #[trigger] hp.vertices_from(
                chf,
                bs,
                poly,
                verts,
                j,
                npoly,
            )[t].3 >= 0,
    decreases npoly - j,
{
    if j < npoly {
        lemma_candidates_nonnegative(hp, chf, bs, poly, verts, j + 1, npoly);
        lemma_offsets_nonnegative(hp, chf, bs, verts[poly[j] as int], 0);
        let a = hp.offsets_from(chf, bs, verts[poly[j] as int], 0);
        let b = hp.vertices_from(chf, bs, poly, verts, j + 1, npoly);
        assert forall|t: int| 0 <= t < (a + b).len() implies #[trigger] (a + b)[t].3 >= 0 by {
            if t < a.len() {
                assert((a + b)[t] == a[t]);
            } else {
                assert((a + b)[t] == b[t - a.len()]);
            }
        }
    }
}

/// Every candidate distance around one vertex is nonnegative.
pub proof fn lemma_offsets_nonnegative(
    hp: PatchRect,
    chf: &CompactHeightfield,
    bs: int,
    v: [i32; 3],
    k: int,
)
    ensures
        forall|t: int|
            0 <= t < hp.offsets_from(chf, bs, v, k).len() ==> #[trigger] hp.offsets_from(
                chf,
                bs,
                v,
                k,
            )[t].3 >= 0,
    decreases 9 - k,
{
    if k < 9 {
        lemma_offsets_nonnegative(hp, chf, bs, v, k + 1);
        let a = hp.offset_candidates(chf, bs, v, k);
        let b = hp.offsets_from(chf, bs, v, k + 1);
        assert forall|t: int| 0 <= t < (a + b).len() implies #[trigger] (a + b)[t].3 >= 0 by {
            if t < a.len() {
                assert((a + b)[t] == a[t]);
            } else {
                assert((a + b)[t] == b[t - a.len()]);
            }
        }
    }
}

/// Scanning two candidate lists that cannot beat a distance of zero changes
/// nothing once the best distance is zero.
proof fn lemma_pick_closest_zero_concat(
    a: Seq<StartCandidate>,
    b: Seq<StartCandidate>,
    best: (int, Option<SpanRef>),
)
    requires
        best.0 <= 0,
        forall|k: int| 0 <= k < a.len() ==> #[trigger] a[k].3 >= 0,
        forall|k: int| 0 <= k < b.len() ==> #[trigger] b[k].3 >= 0,
    ensures
        pick_closest(a + b, best) == best,
{
    lemma_pick_closest_concat(a, b, best);
    lemma_pick_closest_zero(a, best);
    lemma_pick_closest_zero(b, best);
}

/// The coordinates of a polygon vertex leave room for the arithmetic done on
/// them: one cell to either side along x and z, and a height difference to
/// any span.
pub open spec fn vertex_in_range(v: [i32; 3]) -> bool {
    &&& i32::MIN < v[0] < i32::MAX
    &&& i32::MIN < v[2] < i32::MAX
    &&& v[1] > i32::MIN + 0xffff
}

impl HeightPatch {
    /// Finds [`Self::start_span`].
    fn find_start_span(
        &self,
        chf: &CompactHeightfield,
        poly: &[u16],
        npoly: usize,
        verts: &[[i32; 3]],
        bs: u16,
    ) -> (r: Option<SpanRef>)
        requires
            chf.wf(),
            self.placed(chf, bs as int),
            npoly <= poly@.len(),
            forall|j: int| 0 <= j < npoly ==> (#[trigger] poly@[j] as int) < verts@.len(),
            forall|j: int| 0 <= j < npoly ==> vertex_in_range(verts@[#[trigger] poly@[j] as int]),
        ensures
            r == self.rect().start_span(chf, bs as int, poly@, verts@, npoly as int),
            r matches Some(e) ==> {
                &&& self.rect().inside(e.0 - self.xmin, e.1 - self.zmin)
                &&& chf.span_in_cell(e.0 + bs, e.1 + bs, e.2 as int)
            },
    {
        let ghost all = self.rect().vertices_from(chf, bs as int, poly@, verts@, 0, npoly as int);
        let ghost init: (int, Option<SpanRef>) = (UNSET_HEIGHT as int, None);
        let mut dmin: i32 = 0xffff;
        let mut start: Option<SpanRef> = None;
        let mut j: usize = 0;
        while j < npoly && dmin > 0
            invariant
                chf.wf(),
                self.placed(chf, bs as int),
                npoly <= poly@.len(),
                forall|j: int| 0 <= j < npoly ==> (#[trigger] poly@[j] as int) < verts@.len(),
                forall|j: int| 0 <= j < npoly ==> vertex_in_range(verts@[#[trigger] poly@[j] as int]),
                j <= npoly,
                dmin >= 0,
                pick_closest(all, init) == pick_closest(
                    self.rect().vertices_from(chf, bs as int, poly@, verts@, j as int, npoly as int),
                    (dmin as int, start),
                ),
                start matches Some(e) ==> {
                    &&& self.rect().inside(e.0 - self.xmin, e.1 - self.zmin)
                    &&& chf.span_in_cell(e.0 + bs, e.1 + bs, e.2 as int)
                },
            decreases npoly - j,
        {
            let v = verts[poly[j] as usize];
            let ghost rest = self.rect().vertices_from(chf, bs as int, poly@, verts@, j + 1, npoly as int);
            let mut k: usize = 0;
            while k < 9 && dmin > 0
                invariant
                    chf.wf(),
                    self.placed(chf, bs as int),
                    vertex_in_range(v),
                    k <= 9,
                    dmin >= 0,
                    pick_closest(all, init) == pick_closest(
                        self.rect().offsets_from(chf, bs as int, v, k as int) + rest,
                        (dmin as int, start),
                    ),
                    start matches Some(e) ==> {
                        &&& self.rect().inside(e.0 - self.xmin, e.1 - self.zmin)
                        &&& chf.span_in_cell(e.0 + bs, e.1 + bs, e.2 as int)
                    },
                decreases 9 - k,
            {
                let (ox, oz) = seed_offset(k);
                let ax = v[0] + ox;
                let ay = v[1];
                let az = v[2] + oz;
                let ghost cands = self.rect().offset_candidates(chf, bs as int, v, k as int);
                let ghost tail = self.rect().offsets_from(chf, bs as int, v, k + 1) + rest;
                assert(self.rect().offsets_from(chf, bs as int, v, k as int) + rest =~= cands + tail);
                if ax < self.xmin as i32 || ax >= self.xmin as i32 + self.width as i32 || az
                    < self.zmin as i32 || az >= self.zmin as i32 + self.height as i32 {
                    assert(cands + tail =~= tail);
                    k += 1;
                    continue;
                }
                let cx = (ax + bs as i32) as u16;
                let cz = (az + bs as i32) as u16;
                let c = *chf.cell_at(cx, cz);
                proof {
                    lemma_cell_index_bound(
                        chf.width as int,
                        chf.height as int,
                        cx as int,
                        cz as int,
                    );
                    assert(chf.cells@[cell_index(chf.width as int, cx as int, cz as int)].end()
                        <= chf.spans@.len());
                }
                let end = c.index as usize + c.count as usize;
                let mut i = c.index as usize;
                assert(cands.skip(0) =~= cands);
                while i < end
                    invariant
                        chf.wf(),
                        self.placed(chf, bs as int),
                        vertex_in_range(v),
                        c == chf.cell(cx as int, cz as int),
                        cx == ax + bs,
                        cz == az + bs,
                        ay == v[1],
                        k < 9,
                        ax == v[0] + seed_offset_x(k as int),
                        az == v[2] + seed_offset_z(k as int),
                        self.rect().inside(ax - self.xmin, az - self.zmin),
                        end == c.end(),
                        end <= chf.spans@.len(),
                        c.index <= i <= end,
                        cands == self.rect().offset_candidates(chf, bs as int, v, k as int),
                        cands.len() == c.count,
                        dmin >= 0,
                        pick_closest(all, init) == pick_closest(
                            cands.skip(i - c.index) + tail,
                            (dmin as int, start),
                        ),
                        start matches Some(e) ==> {
                            &&& self.rect().inside(e.0 - self.xmin, e.1 - self.zmin)
                            &&& chf.span_in_cell(e.0 + bs, e.1 + bs, e.2 as int)
                        },
                    decreases end - i,
                {
                    let y = chf.spans[i].y;
                    let diff = ay - y as i32;
                    let d = if diff >= 0 {
                        diff
                    } else {
                        -diff
                    };
                    let ghost seq_now = cands.skip(i - c.index) + tail;
                    let ghost st = (dmin as int, start);
                    assert(seq_now[0] == cands[i - c.index]);
                    assert(cands[i - c.index] == (
                        ax,
                        az,
                        i,
                        height_distance(v[1] as int, chf.spans@[i as int].y as int),
                    ));
                    assert(seq_now.drop_first() =~= cands.skip(i + 1 - c.index) + tail);
                    let ghost next = if seq_now[0].3 < st.0 {
                        (seq_now[0].3, Some((seq_now[0].0, seq_now[0].1, seq_now[0].2)))
                    } else {
                        st
                    };
                    assert(pick_closest(seq_now, st) == pick_closest(seq_now.drop_first(), next));
                    proof {
                        chf.lemma_span_index(cx as int, cz as int, i as int);
                    }
                    if d < dmin {
                        start = Some((ax, az, i));
                        dmin = d;
                    }
                    i += 1;
                }
                assert(cands.skip(c.count as int) + tail =~= tail);
                k += 1;
            }
            proof {
                if k == 9 {
                    assert(self.rect().offsets_from(chf, bs as int, v, 9) + rest =~= rest);
                } else {
                    lemma_offsets_nonnegative(self.rect(), chf, bs as int, v, k as int);
                    lemma_candidates_nonnegative(
                        self.rect(),
                        chf,
                        bs as int,
                        poly@,
                        verts@,
                        j + 1,
                        npoly as int,
                    );
                    lemma_pick_closest_zero_concat(
                        self.rect().offsets_from(chf, bs as int, v, k as int),
                        rest,
                        (dmin as int, start),
                    );
                    lemma_pick_closest_zero(rest, (dmin as int, start));
                }
            }
            j += 1;
        }
        proof {
            if j < npoly {
                lemma_candidates_nonnegative(
                    self.rect(),
                    chf,
                    bs as int,
                    poly@,
                    verts@,
                    j as int,
                    npoly as int,
                );
                lemma_pick_closest_zero(
                    self.rect().vertices_from(chf, bs as int, poly@, verts@, j as int, npoly as int),
                    (dmin as int, start),
                );
            }
        }
        start
    }
}

/// The polygon's centre cell along `axis` (0: x, 2: z): the vertices'
/// mean, rounded towards zero.
pub open spec fn poly_center(poly: Seq<u16>, verts: Seq<[i32; 3]>, npoly: int, axis: int) -> int {
    div_toward_zero(coordinate_sum(poly, verts, axis, npoly), npoly)
}

/// State of the walk towards a polygon's centre: cell marks, the stack of
/// spans still to visit, the span visited last, and whether the walk is over.
pub type WalkState = (Seq<u16>, Seq<SpanRef>, SpanRef, bool);

impl PatchRect {
    /// One direction of a walk step from `c` (in rectangle coordinates,
    /// without the border): an unmarked cell of the rectangle reached
    /// through a link of `c` is marked and its span pushed.
    pub open spec fn walk_dir(
        &self,
        chf: &CompactHeightfield,
        bs: int,
        marks: Seq<u16>,
        stack: Seq<SpanRef>,
        c: SpanRef,
        dir: int,
    ) -> (Seq<u16>, Seq<SpanRef>) {
        match chf.spans@[c.2 as int].link(dir) {
            None => (marks, stack),
            Some(con) => {
                let nx = c.0 + dir_dx(dir);
                let nz = c.1 + dir_dz(dir);
                let hx = nx - self.xmin;
                let hz = nz - self.zmin;
                if !self.inside(hx, hz) || marks[self.index_of(hx, hz)] != 0 {
                    (marks, stack)
                } else {
                    (
                        marks.update(self.index_of(hx, hz), 1),
                        stack.push(
                            (
                                nx as i32,
                                nz as i32,
                                chf.neighbour(c.0 + bs, c.1 + bs, dir, con as int) as usize,
                            ),
                        ),
                    )
                }
            },
        }
    }

    /// The first `n` directions of a walk step, in the order of [`dir_order`].
    pub open spec fn walk_dirs(
        &self,
        chf: &CompactHeightfield,
        bs: int,
        marks: Seq<u16>,
        stack: Seq<SpanRef>,
        c: SpanRef,
        direct: int,
        n: int,
    ) -> (Seq<u16>, Seq<SpanRef>)
        decreases n,
    {
        if n <= 0 {
            (marks, stack)
        } else {
            let s = self.walk_dirs(chf, bs, marks, stack, c, direct, n - 1);
            self.walk_dir(chf, bs, s.0, s.1, c, dir_order(direct, n - 1))
        }
    }

    /// One step of the walk towards `(pcx, pcz)`: pop the last span; stop if
    /// the stack was empty or the span is at the centre; else push its
    /// unmarked neighbours, the direct direction last.
    pub open spec fn walk_step(
        &self,
        chf: &CompactHeightfield,
        bs: int,
        pcx: int,
        pcz: int,
        st: WalkState,
    ) -> WalkState {
        if st.3 {
            st
        } else if st.1.len() == 0 {
            (st.0, st.1, st.2, true)
        } else {
            let c = st.1.last();
            let rest = st.1.drop_last();
            if c.0 == pcx && c.1 == pcz {
                (st.0, rest, c, true)
            } else {
                let s = self.walk_dirs(chf, bs, st.0, rest, c, direct_dir(c, pcx, pcz), 4);
                (s.0, s.1, c, false)
            }
        }
    }

    /// At most `fuel` walk steps.
    pub open spec fn walk(
        &self,
        chf: &CompactHeightfield,
        bs: int,
        pcx: int,
        pcz: int,
        st: WalkState,
        fuel: nat,
    ) -> WalkState
        decreases fuel,
    {
        if fuel == 0 || st.3 {
            st
        } else {
            self.walk(chf, bs, pcx, pcz, self.walk_step(chf, bs, pcx, pcz, st), (fuel - 1) as nat)
        }
    }

    /// Walking `a` steps and then `b` more is walking `a + b` steps.
    pub proof fn lemma_walk_split(
        &self,
        chf: &CompactHeightfield,
        bs: int,
        pcx: int,
        pcz: int,
        st: WalkState,
        a: nat,
        b: nat,
    )
        ensures
            self.walk(chf, bs, pcx, pcz, self.walk(chf, bs, pcx, pcz, st, a), b) == self.walk(
                chf,
                bs,
                pcx,
                pcz,
                st,
                a + b,
            ),
        decreases a,
    {
        if a > 0 && !st.3 {
            self.lemma_walk_split(
                chf,
                bs,
                pcx,
                pcz,
                self.walk_step(chf, bs, pcx, pcz, st),
                (a - 1) as nat,
                b,
            );
            assert((a - 1) as nat + b == (a + b - 1) as nat);
        }
    }

    /// Cell marks of the walk: the rectangle cleared to zero.
    pub open spec fn cleared(&self, data: Seq<u16>) -> Seq<u16> {
        Seq::new(data.len(), |k: int| if k < self.area() { 0u16 } else { data[k] })
    }

    /// The walk from `start` towards `(pcx, pcz)`, run until it is over.
    pub open spec fn walk_from(
        &self,
        chf: &CompactHeightfield,
        bs: int,
        data: Seq<u16>,
        start: SpanRef,
        pcx: int,
        pcz: int,
    ) -> WalkState {
        self.walk(
            chf,
            bs,
            pcx,
            pcz,
            (self.cleared(data), seq![start], start, false),
            (2 + 2 * self.area()) as nat,
        )
    }

    /// `e` is a span under a cell of the rectangle, given in rectangle
    /// coordinates without the border.
    pub open spec fn valid_local(&self, chf: &CompactHeightfield, bs: int, e: SpanRef) -> bool {
        &&& self.inside(e.0 - self.xmin, e.1 - self.zmin)
        &&& chf.span_in_cell(e.0 + bs, e.1 + bs, e.2 as int)
    }

}

impl HeightPatch {
    /// Visits direction `dir` of a walk step from `c`.
    fn walk_visit(
        &mut self,
        chf: &CompactHeightfield,
        bs: u16,
        stack: &mut Vec<SpanRef>,
        c: SpanRef,
        dir: u8,
    )
        requires
            chf.wf(),
            old(self).placed(chf, bs as int),
            dir < 4,
            old(self).rect().valid_local(chf, bs as int, c),
        ensures
            final(self).xmin == old(self).xmin,
            final(self).zmin == old(self).zmin,
            final(self).width == old(self).width,
            final(self).height == old(self).height,
            final(self).data@.len() == old(self).data@.len(),
            forall|k: int|
                old(self).rect().area() <= k < old(self).data@.len() ==> final(self).data@[k]
                    == old(self).data@[k],
            (final(self).data@, final(stack)@) == old(self).rect().walk_dir(
                chf,
                bs as int,
                old(self).data@,
                old(stack)@,
                c,
                dir as int,
            ),
            final(stack)@.len() - old(stack)@.len() + count_value(
                final(self).data@,
                0,
                old(self).rect().area(),
            ) == count_value(old(self).data@, 0, old(self).rect().area()),
            forall|k: int|
                old(stack)@.len() <= k < final(stack)@.len() ==> old(self).rect().valid_local(
                    chf,
                    bs as int,
                    #[trigger] final(stack)@[k],
                ),
    {
        let gx = c.0 + bs as i32;
        let gz = c.1 + bs as i32;
        proof {
            chf.lemma_span_index(gx as int, gz as int, c.2 as int);
        }
        let cs = chf.spans[c.2];
        let con = match cs.con(dir) {
            Some(con) => con,
            None => {
                return;
            },
        };
        proof {
            chf.lemma_neighbour(gx as int, gz as int, c.2 as int, dir as int);
            assert(chf.links_ok(gx as int, gz as int, c.2 as int));
            assert(chf.spans@[c.2 as int].link(dir as int) is Some);
        }
        let new_x = c.0 + dir_offset_x(dir);
        let new_z = c.1 + dir_offset_z(dir);
        let hpx = new_x - self.xmin as i32;
        let hpz = new_z - self.zmin as i32;
        if hpx < 0 || hpx >= self.width as i32 || hpz < 0 || hpz >= self.height as i32 {
            return;
        }
        let dl = self.data.len();
        proof {
            self.rect().lemma_index_of(hpx as int, hpz as int);
            lemma_cell_index_bound(self.width as int, self.height as int, hpx as int, hpz as int);
        }
        let idx = hpx as usize + hpz as usize * self.width as usize;
        if self.data[idx] != 0 {
            return;
        }
        let (_nx, _nz, ai) = chf.con_indices(gx, gz, dir, con);
        proof {
            lemma_count_value_update(self.data@, 0, self.rect().area(), idx as int, 1);
        }
        self.data.set(idx, 1);
        stack.push((new_x, new_z, ai));
    }

    /// Walks from `start` towards the cell `(pcx, pcz)`, depth first, and
    /// returns the span where the walk ends.
    fn walk_to_center(
        &mut self,
        chf: &CompactHeightfield,
        bs: u16,
        start: SpanRef,
        pcx: i32,
        pcz: i32,
    ) -> (r: SpanRef)
        requires
            chf.wf(),
            old(self).placed(chf, bs as int),
            old(self).rect().valid_local(chf, bs as int, start),
        ensures
            final(self).xmin == old(self).xmin,
            final(self).zmin == old(self).zmin,
            final(self).width == old(self).width,
            final(self).height == old(self).height,
            final(self).data@.len() == old(self).data@.len(),
            forall|k: int|
                old(self).rect().area() <= k < old(self).data@.len() ==> final(self).data@[k]
                    == old(self).data@[k],
            r == old(self).rect().walk_from(chf, bs as int, old(self).data@, start, pcx as int, pcz as int).2,
            old(self).rect().valid_local(chf, bs as int, r),
    {
        let ghost d0 = self.data@;
        let dl = self.data.len();
        assert(self.rect().area() <= dl);
        let data_len = self.width as usize * self.height as usize;
        let mut k: usize = 0;
        while k < data_len
            invariant
                data_len == self.rect().area(),
                self.data@.len() == d0.len(),
                self.data@.len() >= self.rect().area(),
                self.xmin == old(self).xmin,
                self.zmin == old(self).zmin,
                self.width == old(self).width,
                self.height == old(self).height,
                k <= data_len,
                forall|t: int| 0 <= t < k ==> self.data@[t] == 0,
                forall|t: int| k <= t < d0.len() ==> self.data@[t] == d0[t],
            decreases data_len - k,
        {
            self.data.set(k, 0);
            k += 1;
        }
        assert(self.data@ =~= old(self).rect().cleared(d0));
        let ghost init: WalkState = (self.data@, seq![start], start, false);
        let ghost area = self.rect().area();
        let ghost fuel = (2 + 2 * area) as nat;
        let ghost mut steps: nat = 0;
        let mut stack: Vec<SpanRef> = vec![start];
        assert(stack@ =~= seq![start]);
        let mut cur = start;
        let mut done = false;
        proof {
            lemma_count_value_bound(self.data@, 0, area);
        }
        while !done
            invariant
                chf.wf(),
                self.placed(chf, bs as int),
                self.xmin == old(self).xmin,
                self.zmin == old(self).zmin,
                self.width == old(self).width,
                self.height == old(self).height,
                area == self.rect().area(),
                self.data@.len() == d0.len(),
                d0 == old(self).data@,
                forall|k: int| area <= k < d0.len() ==> self.data@[k] == d0[k],
                old(self).rect().valid_local(chf, bs as int, cur),
                forall|k: int|
                    0 <= k < stack@.len() ==> old(self).rect().valid_local(
                        chf,
                        bs as int,
                        #[trigger] stack@[k],
                    ),
                (self.data@, stack@, cur, done) == old(self).rect().walk(
                    chf,
                    bs as int,
                    pcx as int,
                    pcz as int,
                    init,
                    steps,
                ),
                steps + stack@.len() + 2 * count_value(self.data@, 0, area) + (if done {
                    0int
                } else {
                    1int
                }) <= fuel,
            decreases stack@.len() + 2 * count_value(self.data@, 0, area) + (if done {
                0int
            } else {
                1int
            }),
        {
            let ghost before: WalkState = (self.data@, stack@, cur, done);
            proof {
                old(self).rect().lemma_walk_split(
                    chf,
                    bs as int,
                    pcx as int,
                    pcz as int,
                    init,
                    steps,
                    1,
                );
                let nxt = old(self).rect().walk_step(chf, bs as int, pcx as int, pcz as int, before);
                assert(old(self).rect().walk(chf, bs as int, pcx as int, pcz as int, before, 1)
                    == old(self).rect().walk(chf, bs as int, pcx as int, pcz as int, nxt, 0));
                steps = steps + 1;
            }
            if stack.len() == 0 {
                done = true;
                continue;
            }
            let c = stack.pop().unwrap();
            assert(c == before.1.last());
            assert(stack@ == before.1.drop_last());
            cur = c;
            if c.0 == pcx && c.1 == pcz {
                done = true;
                continue;
            }
            let direct = if c.0 == pcx {
                dir_for_offset(
                    0,
                    if pcz > c.1 {
                        1
                    } else {
                        -1
                    },
                )
            } else {
                dir_for_offset(
                    if pcx > c.0 {
                        1
                    } else {
                        -1
                    },
                    0,
                )
            };
            assert(direct as int == direct_dir(c, pcx as int, pcz as int));
            let ghost m0 = self.data@;
            let ghost s0 = stack@;
            let ghost count0 = count_value(self.data@, 0, area);
            let mut idx: u8 = 0;
            while idx < 4
                invariant
                    chf.wf(),
                    self.placed(chf, bs as int),
                    self.xmin == old(self).xmin,
                    self.zmin == old(self).zmin,
                    self.width == old(self).width,
                    self.height == old(self).height,
                    area == self.rect().area(),
                    self.data@.len() == d0.len(),
                    forall|k: int| area <= k < d0.len() ==> self.data@[k] == m0[k],
                    m0.len() == d0.len(),
                    stack@.len() >= s0.len(),
                    idx <= 4,
                    direct < 4,
                    old(self).rect().valid_local(chf, bs as int, c),
                    forall|k: int|
                        0 <= k < stack@.len() ==> old(self).rect().valid_local(
                            chf,
                            bs as int,
                            #[trigger] stack@[k],
                        ),
                    (self.data@, stack@) == old(self).rect().walk_dirs(
                        chf,
                        bs as int,
                        m0,
                        s0,
                        c,
                        direct as int,
                        idx as int,
                    ),
                    stack@.len() - s0.len() + count_value(self.data@, 0, area) == count0,
                decreases 4 - idx,
            {
                let dir = if idx == direct {
                    3
                } else if idx == 3 {
                    direct
                } else {
                    idx
                };
                self.walk_visit(chf, bs, &mut stack, c, dir);
                idx += 1;
            }
            proof {
                assert(stack@.len() + 2 * count_value(self.data@, 0, area) < before.1.len() + 2
                    * count_value(before.0, 0, area) + 1);
            }
        }
        proof {
            old(self).rect().lemma_walk_split(
                chf,
                bs as int,
                pcx as int,
                pcz as int,
                init,
                steps,
                (fuel - steps) as nat,
            );
        }
        cur
    }
}

impl PatchRect {
    /// The span where the walk from [`Self::start_span`] towards the polygon's
    /// centre ends (rectangle coordinates, without the border).
    pub open spec fn center_span(
        &self,
        chf: &CompactHeightfield,
        bs: int,
        data: Seq<u16>,
        poly: Seq<u16>,
        verts: Seq<[i32; 3]>,
        npoly: int,
    ) -> SpanRef {
        self.walk_from(
            chf,
            bs,
            data,
            self.start_span(chf, bs, poly, verts, npoly).unwrap(),
            poly_center(poly, verts, npoly, 0),
            poly_center(poly, verts, npoly, 2),
        ).2
    }

    /// The flood-fill seed at the polygon's centre, in grid coordinates.
    pub open spec fn poly_center_seed(
        &self,
        chf: &CompactHeightfield,
        bs: int,
        data: Seq<u16>,
        poly: Seq<u16>,
        verts: Seq<[i32; 3]>,
        npoly: int,
    ) -> SpanRef {
        let c = self.center_span(chf, bs, data, poly, verts, npoly);
        ((c.0 + bs) as i32, (c.1 + bs) as i32, c.2)
    }

    /// Heights after seeding at the polygon's centre: every cell of the
    /// rectangle unset but the centre, which takes the height of its span.
    pub open spec fn seeded_data(
        &self,
        chf: &CompactHeightfield,
        bs: int,
        data: Seq<u16>,
        poly: Seq<u16>,
        verts: Seq<[i32; 3]>,
        npoly: int,
    ) -> Seq<u16> {
        let c = self.center_span(chf, bs, data, poly, verts, npoly);
        let at = self.index_of(c.0 - self.xmin, c.1 - self.zmin);
        Seq::new(
            data.len(),
            |k: int|
                if k == at {
                    chf.spans@[c.2 as int].y
                } else if k < self.area() {
                    UNSET_HEIGHT
                } else {
                    data[k]
                },
        )
    }

    /// What seeding at the polygon's centre needs: the polygon's vertices
    /// exist and leave room for the arithmetic on them, their coordinate sums
    /// fit in `i32`, and some span lies near a vertex.
    pub open spec fn can_seed(
        &self,
        chf: &CompactHeightfield,
        bs: int,
        poly: Seq<u16>,
        verts: Seq<[i32; 3]>,
        npoly: int,
    ) -> bool {
        &&& seed_inputs_ok(poly, verts, npoly)
        &&& self.start_span(chf, bs, poly, verts, npoly) is Some
    }

}

/// The polygon `poly[..npoly]` names vertices of `verts` that leave room for
/// the arithmetic of seeding, and the sums of their x and of their z
/// coordinates fit in `i32` all along.
pub open spec fn seed_inputs_ok(poly: Seq<u16>, verts: Seq<[i32; 3]>, npoly: int) -> bool {
    &&& 0 < npoly <= poly.len()
    &&& npoly <= i32::MAX
    &&& forall|j: int| 0 <= j < npoly ==> (#[trigger] poly[j] as int) < verts.len()
    &&& forall|j: int| 0 <= j < npoly ==> vertex_in_range(verts[#[trigger] poly[j] as int])
    &&& forall|m: int|
        0 <= m <= npoly ==> i32::MIN < #[trigger] coordinate_sum(poly, verts, 0, m) <= i32::MAX
    &&& forall|m: int|
        0 <= m <= npoly ==> i32::MIN < #[trigger] coordinate_sum(poly, verts, 2, m) <= i32::MAX
}

/// Whether [`seed_inputs_ok`] holds.
fn check_seed_inputs(poly: &[u16], npoly: usize, verts: &[[i32; 3]]) -> (r: bool)
    ensures
        r == seed_inputs_ok(poly@, verts@, npoly as int),
{
    if npoly == 0 || npoly > poly.len() || npoly > 0x7fff_ffff {
        return false;
    }
    let mut sx: i64 = 0;
    let mut sz: i64 = 0;
    let mut j: usize = 0;
    while j < npoly
        invariant
            0 < npoly <= poly@.len(),
            npoly <= i32::MAX,
            j <= npoly,
            forall|t: int| 0 <= t < j ==> (#[trigger] poly@[t] as int) < verts@.len(),
            forall|t: int| 0 <= t < j ==> vertex_in_range(verts@[#[trigger] poly@[t] as int]),
            forall|m: int|
                0 <= m <= j ==> i32::MIN < #[trigger] coordinate_sum(poly@, verts@, 0, m)
                    <= i32::MAX,
            forall|m: int|
                0 <= m <= j ==> i32::MIN < #[trigger] coordinate_sum(poly@, verts@, 2, m)
                    <= i32::MAX,
            sx == coordinate_sum(poly@, verts@, 0, j as int),
            sz == coordinate_sum(poly@, verts@, 2, j as int),
        decreases npoly - j,
    {
        let idx = poly[j] as usize;
        if idx >= verts.len() {
            return false;
        }
        let v = verts[idx];
        if !(v[0] > i32::MIN && v[0] < i32::MAX && v[2] > i32::MIN && v[2] < i32::MAX && v[1]
            > i32::MIN + 0xffff) {
            assert(!vertex_in_range(verts@[poly@[j as int] as int]));
            return false;
        }
        sx = sx + v[0] as i64;
        sz = sz + v[2] as i64;
        assert(sx == coordinate_sum(poly@, verts@, 0, j + 1));
        assert(sz == coordinate_sum(poly@, verts@, 2, j + 1));
        if sx <= i32::MIN as i64 || sx > i32::MAX as i64 || sz <= i32::MIN as i64 || sz
            > i32::MAX as i64 {
            return false;
        }
        j += 1;
    }
    true
}

impl HeightPatch {
    /// Seeds the patch at the span under the polygon's centre: finds the span
    /// nearest a polygon vertex, walks from it towards the centre, unsets the
    /// rectangle but for the cell reached, and returns that cell's span.
    fn seed_array_with_poly_center(
        &mut self,
        chf: &CompactHeightfield,
        poly: &[u16],
        npoly: usize,
        verts: &[[i32; 3]],
        bs: u16,
        start: SpanRef,
    ) -> (seed: SpanRef)
        requires
            chf.wf(),
            old(self).placed(chf, bs as int),
            old(self).rect().can_seed(chf, bs as int, poly@, verts@, npoly as int),
            old(self).rect().start_span(chf, bs as int, poly@, verts@, npoly as int) == Some(start),
            old(self).rect().valid_local(chf, bs as int, start),
        ensures
            final(self).xmin == old(self).xmin,
            final(self).zmin == old(self).zmin,
            final(self).width == old(self).width,
            final(self).height == old(self).height,
            seed == old(self).rect().poly_center_seed(
                chf,
                bs as int,
                old(self).data@,
                poly@,
                verts@,
                npoly as int,
            ),
            final(self).data@ == old(self).rect().seeded_data(
                chf,
                bs as int,
                old(self).data@,
                poly@,
                verts@,
                npoly as int,
            ),
            HeightPatch::valid_ref(chf, seed),
    {
        let ghost d0 = self.data@;
        let mut pcx: i32 = 0;
        let mut pcz: i32 = 0;
        let mut j: usize = 0;
        while j < npoly
            invariant
                old(self).rect().can_seed(chf, bs as int, poly@, verts@, npoly as int),
                j <= npoly,
                pcx == coordinate_sum(poly@, verts@, 0, j as int),
                pcz == coordinate_sum(poly@, verts@, 2, j as int),
            decreases npoly - j,
        {
            let v = verts[poly[j] as usize];
            assert(coordinate_sum(poly@, verts@, 0, j + 1) == pcx + v[0]);
            assert(coordinate_sum(poly@, verts@, 2, j + 1) == pcz + v[2]);
            pcx = pcx + v[0];
            pcz = pcz + v[2];
            j += 1;
        }
        let n = npoly as i32;
        pcx = if pcx >= 0 {
            pcx / n
        } else {
            -((-pcx) / n)
        };
        pcz = if pcz >= 0 {
            pcz / n
        } else {
            -((-pcz) / n)
        };
        let cur = self.walk_to_center(chf, bs, start, pcx, pcz);
        let ghost d1 = self.data@;
        let dl0 = self.data.len();
        assert(self.rect().area() <= dl0);
        let data_len = self.width as usize * self.height as usize;
        let mut k: usize = 0;
        while k < data_len
            invariant
                data_len == self.rect().area(),
                d1.len() == d0.len(),
                self.data@.len() == d0.len(),
                self.data@.len() >= self.rect().area(),
                self.xmin == old(self).xmin,
                self.zmin == old(self).zmin,
                self.width == old(self).width,
                self.height == old(self).height,
                k <= data_len,
                forall|t: int| 0 <= t < k ==> self.data@[t] == UNSET_HEIGHT,
                forall|t: int| k <= t < d0.len() ==> self.data@[t] == d1[t],
            decreases data_len - k,
        {
            self.data.set(k, UNSET_HEIGHT);
            k += 1;
        }
        let hx = cur.0 - self.xmin as i32;
        let hz = cur.1 - self.zmin as i32;
        let dl = self.data.len();
        proof {
            self.rect().lemma_index_of(hx as int, hz as int);
            lemma_cell_index_bound(self.width as int, self.height as int, hx as int, hz as int);
            chf.lemma_span_index(cur.0 + bs, cur.1 + bs, cur.2 as int);
        }
        let at = hx as usize + hz as usize * self.width as usize;
        let y = chf.spans[cur.2].y;
        self.data.set(at, y);
        assert(self.data@ =~= old(self).rect().seeded_data(
            chf,
            bs as int,
            d0,
            poly@,
            verts@,
            npoly as int,
        ));
        (cur.0 + bs as i32, cur.1 + bs as i32, cur.2)
    }

}

impl PatchRect {
    /// The heights of the patch under a polygon of `region`: the floors of the
    /// region's spans, flooded outwards from the region's border (or, when no
    /// span of the region lies under the rectangle, from the span under the
    /// polygon's centre) across the rectangle.
    pub open spec fn height_data(
        &self,
        chf: &CompactHeightfield,
        bs: int,
        data: Seq<u16>,
        poly: Seq<u16>,
        verts: Seq<[i32; 3]>,
        npoly: int,
        region: RegionId,
    ) -> Seq<u16> {
        let d1 = self.region_data(chf, bs, region, data);
        if self.region_found(chf, bs, region) {
            self.flooded(chf, bs, d1, self.region_seeds(chf, bs, region, self.area()))
        } else {
            self.flooded(
                chf,
                bs,
                self.seeded_data(chf, bs, d1, poly, verts, npoly),
                seq![self.poly_center_seed(chf, bs, d1, poly, verts, npoly)],
            )
        }
    }

}

impl HeightPatch {
    /// Fills the patch with the heights under the polygon `poly[..npoly]`
    /// (indices into `verts`) of `region`; see [`PatchRect::height_data`].
    /// Grid reads are moved by the heightfield border `bs`, which the
    /// polygon's coordinates do not include. When no span of the region lies
    /// under the rectangle and the polygon gives no span to start from, the
    /// patch keeps the region's heights (none) and an error is returned.
    pub fn get_height_data(
        &mut self,
        chf: &CompactHeightfield,
        poly: &[u16],
        npoly: usize,
        verts: &[[i32; 3]],
        bs: u16,
        region: RegionId,
    ) -> (r: Result<(), HeightDataError>)
        requires
            chf.wf(),
            old(self).placed(chf, bs as int),
            unset_spans_apart(chf),
        ensures
            final(self).xmin == old(self).xmin,
            final(self).zmin == old(self).zmin,
            final(self).width == old(self).width,
            final(self).height == old(self).height,
            r is Ok <==> (old(self).rect().region_found(chf, bs as int, region) || old(
                self,
            ).rect().can_seed(chf, bs as int, poly@, verts@, npoly as int)),
            r is Ok ==> final(self).data@ == old(self).rect().height_data(
                chf,
                bs as int,
                old(self).data@,
                poly@,
                verts@,
                npoly as int,
                region,
            ),
            r is Err ==> final(self).data@ == old(self).rect().region_data(
                chf,
                bs as int,
                region,
                old(self).data@,
            ),
    {
        let (queue, found) = self.copy_region(chf, bs, region);
        if found {
            self.flood_fill(chf, bs, queue);
            Ok(())
        } else {
            if !check_seed_inputs(poly, npoly, verts) {
                return Err(HeightDataError::NoStartSpan);
            }
            let start = match self.find_start_span(chf, poly, npoly, verts, bs) {
                Some(start) => start,
                None => {
                    return Err(HeightDataError::NoStartSpan);
                },
            };
            let seed = self.seed_array_with_poly_center(chf, poly, npoly, verts, bs, start);
            let seeds = vec![seed];
            assert(seeds@ =~= seq![seed]);
            self.flood_fill(chf, bs, seeds);
            Ok(())
        }
    }
}

/// Why a height patch could not be filled.
#[derive(Clone, Copy, Debug, PartialEq, Eq, Structural)]
pub enum HeightDataError {
    /// No span of the polygon's region lies under the patch, and the polygon
    /// gives no span to start a flood fill from.
    NoStartSpan,
}
impl PatchRect {
    /// Every cell of the rectangle holds [`UNSET_HEIGHT`] or the floor height of
    /// one of the spans of its grid column.
    pub open spec fn sampled(&self, chf: &CompactHeightfield, bs: int, data: Seq<u16>) -> bool {
        forall|hx: int, hz: int|
            #![trigger data[self.index_of(hx, hz)]]
            self.inside(hx, hz) ==> data[self.index_of(hx, hz)] == UNSET_HEIGHT || exists|i: int|
                chf.span_in_cell(self.xmin + hx + bs, self.zmin + hz + bs, i)
                    && #[trigger] chf.spans@[i].y == data[self.index_of(hx, hz)]
    }

    /// The rectangle, moved by the border, lies in the grid.
    pub open spec fn fits(&self, chf: &CompactHeightfield, bs: int) -> bool {
        &&& 0 <= bs
        &&& self.xmin + self.width + bs <= chf.width
        &&& self.zmin + self.height + bs <= chf.height
    }

    /// Distinct cells of the rectangle have distinct indices.
    pub proof fn lemma_index_of_injective(&self, hx: int, hz: int, gx: int, gz: int)
        requires
            self.inside(hx, hz),
            self.inside(gx, gz),
            self.index_of(hx, hz) == self.index_of(gx, gz),
        ensures
            hx == gx,
            hz == gz,
    {
        vstd::arithmetic::div_mod::lemma_fundamental_div_mod_converse_mod(
            self.index_of(hx, hz),
            self.width as int,
            hz,
            hx,
        );
        vstd::arithmetic::div_mod::lemma_fundamental_div_mod_converse_mod(
            self.index_of(gx, gz),
            self.width as int,
            gz,
            gx,
        );
        vstd::arithmetic::div_mod::lemma_fundamental_div_mod_converse_div(
            self.index_of(hx, hz),
            self.width as int,
            hz,
            hx,
        );
        vstd::arithmetic::div_mod::lemma_fundamental_div_mod_converse_div(
            self.index_of(gx, gz),
            self.width as int,
            gz,
            gx,
        );
    }

    /// A flood-fill direction keeps the heights sampled and queues valid spans.
    pub proof fn lemma_flood_dir_sampled(
        &self,
        chf: &CompactHeightfield,
        bs: int,
        data: Seq<u16>,
        pending: Seq<SpanRef>,
        c: SpanRef,
        dir: int,
    )
        requires
            chf.wf(),
            self.fits(chf, bs),
            data.len() >= self.area(),
            0 <= dir < 4,
            HeightPatch::valid_ref(chf, c),
            self.sampled(chf, bs, data),
            forall|k: int| 0 <= k < pending.len() ==> HeightPatch::valid_ref(chf, #[trigger] pending[k]),
        ensures
            ({
                let s = self.flood_dir(chf, bs, data, pending, c, dir);
                &&& s.0.len() == data.len()
                &&& self.sampled(chf, bs, s.0)
                &&& forall|k: int| 0 <= k < s.1.len() ==> HeightPatch::valid_ref(chf, #[trigger] s.1[k])
            }),
    {
        let s = self.flood_dir(chf, bs, data, pending, c, dir);
        if let Some(con) = chf.spans@[c.2 as int].link(dir) {
            let ax = c.0 + dir_dx(dir);
            let az = c.1 + dir_dz(dir);
            let hx = ax - self.xmin - bs;
            let hz = az - self.zmin - bs;
            if self.inside(hx, hz) && data[self.index_of(hx, hz)] == UNSET_HEIGHT {
                chf.lemma_neighbour(c.0 as int, c.1 as int, c.2 as int, dir);
                let ai = chf.neighbour(c.0 as int, c.1 as int, dir, con as int);
                self.lemma_index_of(hx, hz);
                assert forall|gx: int, gz: int| #![trigger s.0[self.index_of(gx, gz)]]
                    self.inside(gx, gz) implies s.0[self.index_of(gx, gz)] == UNSET_HEIGHT
                    || exists|i: int|
                    chf.span_in_cell(self.xmin + gx + bs, self.zmin + gz + bs, i)
                        && #[trigger] chf.spans@[i].y == s.0[self.index_of(gx, gz)] by {
                    self.lemma_index_of(gx, gz);
                    if self.index_of(gx, gz) == self.index_of(hx, hz) {
                        self.lemma_index_of_injective(gx, gz, hx, hz);
                        assert(chf.span_in_cell(self.xmin + gx + bs, self.zmin + gz + bs, ai));
                    } else {
                        assert(s.0[self.index_of(gx, gz)] == data[self.index_of(gx, gz)]);
                    }
                }
                assert forall|k: int| 0 <= k < s.1.len() implies HeightPatch::valid_ref(
                    chf,
                    #[trigger] s.1[k],
                ) by {
                    if k < pending.len() {
                        assert(s.1[k] == pending[k]);
                    }
                }
            }
        }
    }

    /// A whole flood fill keeps the heights sampled.
    pub proof fn lemma_flood_sampled(
        &self,
        chf: &CompactHeightfield,
        bs: int,
        data: Seq<u16>,
        pending: Seq<SpanRef>,
        fuel: nat,
    )
        requires
            chf.wf(),
            self.fits(chf, bs),
            data.len() >= self.area(),
            self.sampled(chf, bs, data),
            forall|k: int| 0 <= k < pending.len() ==> HeightPatch::valid_ref(chf, #[trigger] pending[k]),
        ensures
            self.sampled(chf, bs, self.flood(chf, bs, data, pending, fuel).0),
        decreases fuel,
    {
        if fuel > 0 && pending.len() > 0 {
            let c = pending[0];
            let rest = pending.drop_first();
            assert forall|k: int| 0 <= k < rest.len() implies HeightPatch::valid_ref(
                chf,
                #[trigger] rest[k],
            ) by {
                assert(rest[k] == pending[k + 1]);
            }
            self.lemma_flood_dirs_sampled(chf, bs, data, rest, c, 4);
            let s = self.flood_step(chf, bs, data, pending);
            self.lemma_flood_sampled(chf, bs, s.0, s.1, (fuel - 1) as nat);
        }
    }

    /// Several flood-fill directions keep the heights sampled.
    pub proof fn lemma_flood_dirs_sampled(
        &self,
        chf: &CompactHeightfield,
        bs: int,
        data: Seq<u16>,
        pending: Seq<SpanRef>,
        c: SpanRef,
        n: int,
    )
        requires
            chf.wf(),
            self.fits(chf, bs),
            data.len() >= self.area(),
            n <= 4,
            HeightPatch::valid_ref(chf, c),
            self.sampled(chf, bs, data),
            forall|k: int| 0 <= k < pending.len() ==> HeightPatch::valid_ref(chf, #[trigger] pending[k]),
        ensures
            ({
                let s = self.flood_dirs(chf, bs, data, pending, c, n);
                &&& s.0.len() == data.len()
                &&& self.sampled(chf, bs, s.0)
                &&& forall|k: int| 0 <= k < s.1.len() ==> HeightPatch::valid_ref(chf, #[trigger] s.1[k])
            }),
        decreases n,
    {
        if n > 0 {
            self.lemma_flood_dirs_sampled(chf, bs, data, pending, c, n - 1);
            let s = self.flood_dirs(chf, bs, data, pending, c, n - 1);
            self.lemma_flood_dir_sampled(chf, bs, s.0, s.1, c, n - 1);
        }
    }

    /// Every candidate around vertex `v`, from the `k`-th cell on, is a span
    /// under a cell of the rectangle.
    pub proof fn lemma_offsets_valid(&self, chf: &CompactHeightfield, bs: int, v: [i32; 3], k: int)
        requires
            chf.wf(),
            self.fits(chf, bs),
            vertex_in_range(v),
        ensures
            forall|t: int|
                0 <= t < self.offsets_from(chf, bs, v, k).len() ==> self.valid_local(
                    chf,
                    bs,
                    ({
                        let c = #[trigger] self.offsets_from(chf, bs, v, k)[t];
                        (c.0, c.1, c.2)
                    }),
                ),
        decreases 9 - k,
    {
        if k < 9 {
            self.lemma_offsets_valid(chf, bs, v, k + 1);
            let a = self.offset_candidates(chf, bs, v, k);
            let b = self.offsets_from(chf, bs, v, k + 1);
            let ax = v[0] + seed_offset_x(k);
            let az = v[2] + seed_offset_z(k);
            assert forall|t: int| 0 <= t < (a + b).len() implies self.valid_local(
                chf,
                bs,
                ({
                    let c = #[trigger] (a + b)[t];
                    (c.0, c.1, c.2)
                }),
            ) by {
                if t < a.len() {
                    assert((a + b)[t] == a[t]);
                    let cell = chf.cell(ax + bs, az + bs);
                    lemma_cell_index_bound(chf.width as int, chf.height as int, ax + bs, az + bs);
                    assert(chf.cells@[cell_index(chf.width as int, ax + bs, az + bs)].end()
                        <= chf.spans@.len());
                    assert(chf.span_in_cell(ax + bs, az + bs, cell.index + t));
                } else {
                    assert((a + b)[t] == b[t - a.len()]);
                }
            }
        }
    }

    /// Every start candidate of polygon vertices `j..npoly` is a span under a
    /// cell of the rectangle.
    pub proof fn lemma_vertices_valid(
        &self,
        chf: &CompactHeightfield,
        bs: int,
        poly: Seq<u16>,
        verts: Seq<[i32; 3]>,
        j: int,
        npoly: int,
    )
        requires
            chf.wf(),
            self.fits(chf, bs),
            0 <= j,
            npoly <= poly.len(),
            forall|m: int| 0 <= m < npoly ==> (#[trigger] poly[m] as int) < verts.len(),
            forall|m: int| 0 <= m < npoly ==> vertex_in_range(verts[#[trigger] poly[m] as int]),
        ensures
            forall|t: int|
                0 <= t < self.vertices_from(chf, bs, poly, verts, j, npoly).len() ==> self.valid_local(
                    chf,
                    bs,
                    ({
                        let c = #[trigger] self.vertices_from(chf, bs, poly, verts, j, npoly)[t];
                        (c.0, c.1, c.2)
                    }),
                ),
        decreases npoly - j,
    {
        if j < npoly {
            self.lemma_vertices_valid(chf, bs, poly, verts, j + 1, npoly);
            let v = verts[poly[j] as int];
            self.lemma_offsets_valid(chf, bs, v, 0);
            let a = self.offsets_from(chf, bs, v, 0);
            let b = self.vertices_from(chf, bs, poly, verts, j + 1, npoly);
            assert forall|t: int| 0 <= t < (a + b).len() implies self.valid_local(
                chf,
                bs,
                ({
                    let c = #[trigger] (a + b)[t];
                    (c.0, c.1, c.2)
                }),
            ) by {
                if t < a.len() {
                    assert((a + b)[t] == a[t]);
                } else {
                    assert((a + b)[t] == b[t - a.len()]);
                }
            }
        }
    }

    /// Scanning valid candidates keeps a valid best.
    pub proof fn lemma_pick_closest_valid(
        &self,
        chf: &CompactHeightfield,
        bs: int,
        cands: Seq<StartCandidate>,
        best: (int, Option<SpanRef>),
    )
        requires
            forall|t: int|
                0 <= t < cands.len() ==> self.valid_local(
                    chf,
                    bs,
                    ({
                        let c = #[trigger] cands[t];
                        (c.0, c.1, c.2)
                    }),
                ),
            best.1 matches Some(e) ==> self.valid_local(chf, bs, e),
        ensures
            pick_closest(cands, best).1 matches Some(e) ==> self.valid_local(chf, bs, e),
        decreases cands.len(),
    {
        if cands.len() > 0 {
            let c = cands[0];
            let next = if c.3 < best.0 {
                (c.3, Some((c.0, c.1, c.2)))
            } else {
                best
            };
            assert forall|t: int| 0 <= t < cands.drop_first().len() implies self.valid_local(
                chf,
                bs,
                ({
                    let c = #[trigger] cands.drop_first()[t];
                    (c.0, c.1, c.2)
                }),
            ) by {
                assert(cands.drop_first()[t] == cands[t + 1]);
            }
            self.lemma_pick_closest_valid(chf, bs, cands.drop_first(), next);
        }
    }

    /// A walk direction pushes only spans under cells of the rectangle.
    pub proof fn lemma_walk_dirs_valid(
        &self,
        chf: &CompactHeightfield,
        bs: int,
        marks: Seq<u16>,
        stack: Seq<SpanRef>,
        c: SpanRef,
        direct: int,
        n: int,
    )
        requires
            chf.wf(),
            self.fits(chf, bs),
            0 <= direct < 4,
            n <= 4,
            self.valid_local(chf, bs, c),
            forall|k: int| 0 <= k < stack.len() ==> self.valid_local(chf, bs, #[trigger] stack[k]),
        ensures
            forall|k: int|
                0 <= k < self.walk_dirs(chf, bs, marks, stack, c, direct, n).1.len()
                    ==> self.valid_local(
                    chf,
                    bs,
                    #[trigger] self.walk_dirs(chf, bs, marks, stack, c, direct, n).1[k],
                ),
        decreases n,
    {
        if n > 0 {
            self.lemma_walk_dirs_valid(chf, bs, marks, stack, c, direct, n - 1);
            let s = self.walk_dirs(chf, bs, marks, stack, c, direct, n - 1);
            let dir = dir_order(direct, n - 1);
            let r = self.walk_dir(chf, bs, s.0, s.1, c, dir);
            if let Some(con) = chf.spans@[c.2 as int].link(dir) {
                let nx = c.0 + dir_dx(dir);
                let nz = c.1 + dir_dz(dir);
                if self.inside(nx - self.xmin, nz - self.zmin) && s.0[self.index_of(
                    nx - self.xmin,
                    nz - self.zmin,
                )] == 0 {
                    chf.lemma_neighbour(c.0 + bs, c.1 + bs, c.2 as int, dir);
                    assert forall|k: int| 0 <= k < r.1.len() implies self.valid_local(
                        chf,
                        bs,
                        #[trigger] r.1[k],
                    ) by {
                        if k < s.1.len() {
                            assert(r.1[k] == s.1[k]);
                        }
                    }
                }
            }
        }
    }

    /// The walk keeps its stack and its current span valid.
    pub proof fn lemma_walk_valid(
        &self,
        chf: &CompactHeightfield,
        bs: int,
        pcx: int,
        pcz: int,
        st: WalkState,
        fuel: nat,
    )
        requires
            chf.wf(),
            self.fits(chf, bs),
            self.valid_local(chf, bs, st.2),
            forall|k: int| 0 <= k < st.1.len() ==> self.valid_local(chf, bs, #[trigger] st.1[k]),
        ensures
            self.valid_local(chf, bs, self.walk(chf, bs, pcx, pcz, st, fuel).2),
        decreases fuel,
    {
        if fuel > 0 && !st.3 {
            let nxt = self.walk_step(chf, bs, pcx, pcz, st);
            if st.1.len() > 0 {
                let c = st.1.last();
                let rest = st.1.drop_last();
                assert forall|k: int| 0 <= k < rest.len() implies self.valid_local(
                    chf,
                    bs,
                    #[trigger] rest[k],
                ) by {
                    assert(rest[k] == st.1[k]);
                }
                if !(c.0 == pcx && c.1 == pcz) {
                    let direct = direct_dir(c, pcx, pcz);
                    self.lemma_walk_dirs_valid(chf, bs, st.0, rest, c, direct, 4);
                }
            }
            self.lemma_walk_valid(chf, bs, pcx, pcz, nxt, (fuel - 1) as nat);
        }
    }

    /// Seeding at the polygon's centre leaves sampled heights and a valid seed.
    pub proof fn lemma_seeded_sampled(
        &self,
        chf: &CompactHeightfield,
        bs: int,
        data: Seq<u16>,
        poly: Seq<u16>,
        verts: Seq<[i32; 3]>,
        npoly: int,
    )
        requires
            chf.wf(),
            self.fits(chf, bs),
            data.len() >= self.area(),
            self.can_seed(chf, bs, poly, verts, npoly),
        ensures
            self.sampled(chf, bs, self.seeded_data(chf, bs, data, poly, verts, npoly)),
            HeightPatch::valid_ref(chf, self.poly_center_seed(chf, bs, data, poly, verts, npoly)),
            self.seeded_data(chf, bs, data, poly, verts, npoly).len() == data.len(),
    {
        let cands = self.vertices_from(chf, bs, poly, verts, 0, npoly);
        self.lemma_vertices_valid(chf, bs, poly, verts, 0, npoly);
        self.lemma_pick_closest_valid(chf, bs, cands, (UNSET_HEIGHT as int, None));
        let start = self.start_span(chf, bs, poly, verts, npoly).unwrap();
        let pcx = poly_center(poly, verts, npoly, 0);
        let pcz = poly_center(poly, verts, npoly, 2);
        let init: WalkState = (self.cleared(data), seq![start], start, false);
        self.lemma_walk_valid(chf, bs, pcx, pcz, init, (2 + 2 * self.area()) as nat);
        let c = self.center_span(chf, bs, data, poly, verts, npoly);
        let sd = self.seeded_data(chf, bs, data, poly, verts, npoly);
        let hx0 = c.0 - self.xmin;
        let hz0 = c.1 - self.zmin;
        self.lemma_index_of(hx0, hz0);
        assert forall|gx: int, gz: int| #![trigger sd[self.index_of(gx, gz)]]
            self.inside(gx, gz) implies sd[self.index_of(gx, gz)] == UNSET_HEIGHT || exists|i: int|
            chf.span_in_cell(self.xmin + gx + bs, self.zmin + gz + bs, i)
                && #[trigger] chf.spans@[i].y == sd[self.index_of(gx, gz)] by {
            self.lemma_index_of(gx, gz);
            if self.index_of(gx, gz) == self.index_of(hx0, hz0) {
                self.lemma_index_of_injective(gx, gz, hx0, hz0);
                assert(chf.span_in_cell(self.xmin + gx + bs, self.zmin + gz + bs, c.2 as int));
            }
        }
    }

    /// Copying a region's heights leaves sampled heights.
    pub proof fn lemma_region_data_sampled(
        &self,
        chf: &CompactHeightfield,
        bs: int,
        region: RegionId,
        data: Seq<u16>,
    )
        requires
            chf.wf(),
            self.fits(chf, bs),
            data.len() >= self.area(),
        ensures
            self.sampled(chf, bs, self.region_data(chf, bs, region, data)),
    {
        let rd = self.region_data(chf, bs, region, data);
        assert forall|gx: int, gz: int| #![trigger rd[self.index_of(gx, gz)]]
            self.inside(gx, gz) implies rd[self.index_of(gx, gz)] == UNSET_HEIGHT || exists|i: int|
            chf.span_in_cell(self.xmin + gx + bs, self.zmin + gz + bs, i)
                && #[trigger] chf.spans@[i].y == rd[self.index_of(gx, gz)] by {
            let k = self.index_of(gx, gz);
            self.lemma_index_of(gx, gz);
            vstd::arithmetic::div_mod::lemma_fundamental_div_mod_converse_mod(
                k,
                self.width as int,
                gz,
                gx,
            );
            vstd::arithmetic::div_mod::lemma_fundamental_div_mod_converse_div(
                k,
                self.width as int,
                gz,
                gx,
            );
            let x = self.column_x(bs, k);
            let z = self.column_z(bs, k);
            lemma_first_span_in(chf, region, chf.cell(x, z).index as int, chf.cell(x, z).end());
        }
    }

    /// The region's border spans are valid flood-fill seeds.
    pub proof fn lemma_region_seeds_valid(
        &self,
        chf: &CompactHeightfield,
        bs: int,
        region: RegionId,
        n: int,
    )
        requires
            chf.wf(),
            self.fits(chf, bs),
            n <= self.area(),
        ensures
            forall|k: int|
                0 <= k < self.region_seeds(chf, bs, region, n).len() ==> HeightPatch::valid_ref(
                    chf,
                    #[trigger] self.region_seeds(chf, bs, region, n)[k],
                ),
        decreases n,
    {
        if n > 0 {
            self.lemma_region_seeds_valid(chf, bs, region, n - 1);
            let k = n - 1;
            let x = self.column_x(bs, k);
            let z = self.column_z(bs, k);
            let w = self.width as int;
            let h = self.height as int;
            assert(w > 0) by (nonlinear_arith)
                requires
                    0 <= k < w * h,
                    w >= 0,
                    h >= 0,
            ;
            vstd::arithmetic::div_mod::lemma_mod_bound(k, w);
            vstd::arithmetic::div_mod::lemma_div_pos_is_pos(k, w);
            vstd::arithmetic::div_mod::lemma_fundamental_div_mod(k, w);
            let q = k / w;
            let r = k % w;
            assert(q < self.height) by (nonlinear_arith)
                requires
                    k == w * q + r,
                    0 <= r,
                    k < w * self.height,
                    w > 0,
            ;
            lemma_first_span_in(chf, region, chf.cell(x, z).index as int, chf.cell(x, z).end());
            let prev = self.region_seeds(chf, bs, region, n - 1);
            let cur = self.region_seeds(chf, bs, region, n);
            assert forall|t: int| 0 <= t < cur.len() implies HeightPatch::valid_ref(
                chf,
                #[trigger] cur[t],
            ) by {
                if t < prev.len() {
                    assert(cur[t] == prev[t]);
                } else {
                    lemma_cell_index_bound(chf.width as int, chf.height as int, x, z);
                    assert(chf.cells@[cell_index(chf.width as int, x, z)].end()
                        <= chf.spans@.len());
                }
            }
        }
    }
}

/// The heights of a patch filled for a polygon are sampled from the
/// heightfield: every cell of the patch ends up unset or holding the floor
/// height of one of the spans of its own grid column.
pub proof fn lemma_height_data_sampled(
    rect: PatchRect,
    chf: &CompactHeightfield,
    bs: int,
    data: Seq<u16>,
    poly: Seq<u16>,
    verts: Seq<[i32; 3]>,
    npoly: int,
    region: RegionId,
)
    requires
        chf.wf(),
        rect.fits(chf, bs),
        data.len() >= rect.area(),
        !rect.region_found(chf, bs, region) ==> rect.can_seed(chf, bs, poly, verts, npoly),
    ensures
        rect.sampled(chf, bs, rect.height_data(chf, bs, data, poly, verts, npoly, region)),
{
    let d1 = rect.region_data(chf, bs, region, data);
    rect.lemma_region_data_sampled(chf, bs, region, data);
    if rect.region_found(chf, bs, region) {
        let seeds = rect.region_seeds(chf, bs, region, rect.area());
        rect.lemma_region_seeds_valid(chf, bs, region, rect.area());
        rect.lemma_flood_sampled(chf, bs, d1, seeds, (queue_weight(chf, seeds) + 6 * rect.area()) as nat);
    } else {
        rect.lemma_seeded_sampled(chf, bs, d1, poly, verts, npoly);
        let sd = rect.seeded_data(chf, bs, d1, poly, verts, npoly);
        let seed = rect.poly_center_seed(chf, bs, d1, poly, verts, npoly);
        rect.lemma_flood_sampled(
            chf,
            bs,
            sd,
            seq![seed],
            (queue_weight(chf, seq![seed]) + 6 * rect.area()) as nat,
        );
    }
}

} // verus!
