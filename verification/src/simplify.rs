//! Simplification of raw contours: portal vertices, Ramer–Douglas–Peucker
//! refinement against an error bound, splitting of long edges, and removal of
//! degenerate segments.

use vstd::prelude::*;
use vstd::arithmetic::div_mod::lemma_fundamental_div_mod_converse;
use vstd::arithmetic::power2::pow2;
use crate::contours::GridVertex;
use crate::region::{RegionVertexId, AREA_BORDER, BORDER_VERTEX, REGION_MASK};

verus! {

/// `x % n` is `x - q * n` when that lies in `[0, n)`.
pub proof fn lemma_mod_window(x: int, n: int, q: int)
    requires
        n > 0,
        0 <= x - q * n < n,
    ensures
        x % n == x - q * n,
{
    lemma_fundamental_div_mod_converse(x, n, q, x - q * n);
}

/// `x % n` for `x` in `[-n, 2n)`.
pub proof fn lemma_mod_small(x: int, n: int)
    requires
        n > 0,
        -n <= x < 2 * n,
    ensures
        0 <= x < n ==> x % n == x,
        n <= x ==> x % n == x - n,
        x < 0 ==> x % n == x + n,
{
    if 0 <= x < n {
        lemma_mod_window(x, n, 0);
    } else if n <= x {
        lemma_mod_window(x, n, 1);
    } else {
        lemma_mod_window(x, n, -1);
    }
}

/// Two values that differ by a multiple of `n` have the same remainder.
pub proof fn lemma_mod_same(x: int, y: int, n: int, q: int)
    requires
        n > 0,
        x == y + q * n,
    ensures
        x % n == y % n,
{
    vstd::arithmetic::div_mod::lemma_fundamental_div_mod(y, n);
    let r = y % n;
    let qy = y / n;
    assert(0 <= r < n) by {
        vstd::arithmetic::div_mod::lemma_mod_bound(y, n);
    }
    assert(x == (qy + q) * n + r) by (nonlinear_arith)
        requires
            x == y + q * n,
            y == n * qy + r,
    ;
    lemma_fundamental_div_mod_converse(x, n, qy + q, r);
}

/// Raw contour points: a grid vertex and the region flags of the edge that
/// starts there.
pub type RawPoints = Seq<(GridVertex, RegionVertexId)>;

/// Simplified contour vertices: a grid vertex and an index into the raw
/// points (until the last phase, where it becomes the vertex flags).
pub type SimplePoints = Seq<(GridVertex, u32)>;

/// Squared distance, as the fraction `(numerator, denominator)`, from `p` to the
/// segment `a`–`b` on the xz-plane.
pub open spec fn seg_dist(p: GridVertex, a: GridVertex, b: GridVertex) -> (int, int) {
    let pqx = b.x - a.x;
    let pqz = b.z - a.z;
    let dx = p.x - a.x;
    let dz = p.z - a.z;
    let d = pqx * pqx + pqz * pqz;
    let t = pqx * dx + pqz * dz;
    if d == 0 || t <= 0 {
        (dx * dx + dz * dz, 1)
    } else if t >= d {
        let ex = p.x - b.x;
        let ez = p.z - b.z;
        (ex * ex + ez * ez, 1)
    } else {
        let c = pqx * dz - pqz * dx;
        (c * c, d)
    }
}

/// `a > b` for fractions with positive denominators.
pub open spec fn rat_gt(a: (int, int), b: (int, int)) -> bool {
    a.0 * b.1 > b.0 * a.1
}

/// Whether `b` comes after `a` in (x, z) lexicographic order.
pub open spec fn lex_after(a: GridVertex, b: GridVertex) -> bool {
    b.x > a.x || (b.x == a.x && b.z > a.z)
}

/// Number of raw indices strictly between `a` and `b` going forward around a
/// cycle of length `n` (all others when `a == b`).
pub open spec fn gap(a: int, b: int, n: int) -> int {
    (b - a - 1) % n
}

/// The `t`-th raw index visited when scanning the raw points between `ai` and
/// `bi`: forward from `ai`, or backward from `bi`.
pub open spec fn visit(fwd: bool, ai: int, bi: int, n: int, t: int) -> int {
    if fwd {
        (ai + t) % n
    } else {
        (bi - t) % n
    }
}

/// The largest squared distance from segment `a`–`b` among the first `t`
/// visited raw points, and the first raw index where it is reached (`None`
/// while every distance is zero).
pub open spec fn scan(
    points: RawPoints,
    fwd: bool,
    ai: int,
    bi: int,
    a: GridVertex,
    b: GridVertex,
    t: nat,
) -> ((int, int), Option<int>)
    decreases t,
{
    if t == 0 {
        ((0, 1), None)
    } else {
        let (m, mi) = scan(points, fwd, ai, bi, a, b, (t - 1) as nat);
        let k = visit(fwd, ai, bi, points.len() as int, t as int);
        let d = seg_dist(points[k].0, a, b);
        if rat_gt(d, m) {
            (d, Some(k))
        } else {
            (m, mi)
        }
    }
}

/// All raw indices of a simplified contour lie in `[0, n)`, and there is at
/// least one vertex.
pub open spec fn indices_ok(s: SimplePoints, n: int) -> bool {
    &&& s.len() > 0
    &&& forall|j: int| 0 <= j < s.len() ==> (#[trigger] s[j].1 as int) < n
}

/// The gap after the `j`-th simplified vertex.
pub open spec fn pair_gap(s: SimplePoints, n: int, j: int) -> int {
    gap(s[j].1 as int, s[(j + 1) % (s.len() as int)].1 as int, n)
}

/// Sum of the gaps after the first `k` simplified vertices.
pub open spec fn gap_sum(s: SimplePoints, n: int, k: int) -> int
    decreases k,
{
    if k <= 0 {
        0
    } else {
        gap_sum(s, n, k - 1) + pair_gap(s, n, k - 1)
    }
}

/// Number of raw points not yet between consecutive simplified vertices'
/// indices, counted around the cycle: shrinks by one with each insertion.
pub open spec fn total_gap(s: SimplePoints, n: int) -> int {
    gap_sum(s, n, s.len() as int)
}

/// Gaps are never negative, so neither are their sums.
pub proof fn lemma_gap_sum_nonneg(s: SimplePoints, n: int, k: int)
    requires
        n > 0,
    ensures
        gap_sum(s, n, k) >= 0,
    decreases k,
{
    if k > 0 {
        lemma_gap_sum_nonneg(s, n, k - 1);
        vstd::arithmetic::div_mod::lemma_mod_bound(
            s[k - 1].1 as int - s[(k - 1 + 1) % (s.len() as int)].1 as int,
            n,
        );
        vstd::arithmetic::div_mod::lemma_mod_bound(
            s[(k - 1 + 1) % (s.len() as int)].1 as int - s[k - 1].1 as int - 1,
            n,
        );
    }
}

proof fn lemma_insert_prefix(s: SimplePoints, n: int, i: int, e: (GridVertex, u32), k: int)
    requires
        0 <= i < s.len(),
        0 <= k <= i,
    ensures
        gap_sum(s.insert(i + 1, e), n, k) == gap_sum(s, n, k),
    decreases k,
{
    let t = s.insert(i + 1, e);
    s.insert_ensures(i + 1, e);
    if k > 0 {
        lemma_insert_prefix(s, n, i, e, k - 1);
        let j = k - 1;
        lemma_mod_small(j + 1, t.len() as int);
        lemma_mod_small(j + 1, s.len() as int);
        assert(pair_gap(t, n, j) == pair_gap(s, n, j));
    }
}

proof fn lemma_insert_pair_at(s: SimplePoints, n: int, i: int, e: (GridVertex, u32))
    requires
        0 <= i < s.len(),
    ensures
        pair_gap(s.insert(i + 1, e), n, i) == gap(s[i].1 as int, e.1 as int, n),
        pair_gap(s.insert(i + 1, e), n, i + 1) == gap(
            e.1 as int,
            s[(i + 1) % (s.len() as int)].1 as int,
            n,
        ),
{
    let t = s.insert(i + 1, e);
    let l = s.len() as int;
    s.insert_ensures(i + 1, e);
    lemma_mod_small(i + 1, l + 1);
    lemma_mod_small(i + 2, l + 1);
    lemma_mod_small(i + 1, l);
    assert(t[i] == s[i]);
    assert(t[i + 1] == e);
    if i + 2 <= l {
        assert(t[(i + 2) % (l + 1)] == t[i + 2]);
        assert(t[i + 2] == s[i + 1]);
        assert((i + 1) % l == i + 1);
    } else {
        assert(t[(i + 2) % (l + 1)] == t[0]);
        assert((i + 1) % l == 0);
    }
}

proof fn lemma_insert_pair_after(s: SimplePoints, n: int, i: int, e: (GridVertex, u32), j: int)
    requires
        0 <= i < s.len(),
        i + 2 <= j <= s.len(),
    ensures
        pair_gap(s.insert(i + 1, e), n, j) == pair_gap(s, n, j - 1),
{
    let t = s.insert(i + 1, e);
    let l = s.len() as int;
    s.insert_ensures(i + 1, e);
    lemma_mod_small(j + 1, l + 1);
    lemma_mod_small(j, l);
    assert(t[j] == s[j - 1]);
    if j + 1 <= l {
        assert(t[(j + 1) % (l + 1)] == t[j + 1]);
        assert(t[j + 1] == s[j]);
    } else {
        assert(t[(j + 1) % (l + 1)] == t[0]);
        assert(t[0] == s[0]);
    }
}

proof fn lemma_insert_suffix(s: SimplePoints, n: int, i: int, e: (GridVertex, u32), k: int)
    requires
        0 <= i < s.len(),
        i + 1 <= k <= s.len(),
    ensures
        gap_sum(s.insert(i + 1, e), n, k + 1) == gap_sum(s, n, k) + gap(
            s[i].1 as int,
            e.1 as int,
            n,
        ) + gap(e.1 as int, s[(i + 1) % (s.len() as int)].1 as int, n) - pair_gap(s, n, i),
    decreases k,
{
    let t = s.insert(i + 1, e);
    if k == i + 1 {
        lemma_insert_prefix(s, n, i, e, i);
        lemma_insert_pair_at(s, n, i, e);
        assert(gap_sum(t, n, i + 1) == gap_sum(t, n, i) + pair_gap(t, n, i));
        assert(gap_sum(t, n, i + 2) == gap_sum(t, n, i + 1) + pair_gap(t, n, i + 1));
        assert(gap_sum(s, n, i + 1) == gap_sum(s, n, i) + pair_gap(s, n, i));
    } else {
        lemma_insert_suffix(s, n, i, e, k - 1);
        lemma_insert_pair_after(s, n, i, e, k);
        assert(gap_sum(t, n, k + 1) == gap_sum(t, n, k) + pair_gap(t, n, k));
        assert(gap_sum(s, n, k) == gap_sum(s, n, k - 1) + pair_gap(s, n, k - 1));
    }
}

/// Inserting, after position `i`, a raw index strictly inside the gap after
/// position `i` lowers the total gap by one.
pub proof fn lemma_insert_gap(s: SimplePoints, n: int, i: int, e: (GridVertex, u32))
    requires
        0 <= i < s.len(),
        gap(s[i].1 as int, e.1 as int, n) + 1 + gap(e.1 as int, s[(i + 1) % (s.len() as int)].1 as int, n)
            == gap(s[i].1 as int, s[(i + 1) % (s.len() as int)].1 as int, n),
    ensures
        total_gap(s.insert(i + 1, e), n) == total_gap(s, n) - 1,
{
    s.insert_ensures(i + 1, e);
    lemma_insert_suffix(s, n, i, e, s.len() as int);
}

/// A raw index `t` steps forward from `ai`, with `1 <= t <= gap(ai, bi)`, lies
/// strictly inside the gap between `ai` and `bi`, splitting it.
pub proof fn lemma_gap_split(ai: int, bi: int, n: int, t: int)
    requires
        0 <= ai < n,
        0 <= bi < n,
        1 <= t <= gap(ai, bi, n),
    ensures
        gap(ai, (ai + t) % n, n) + 1 + gap((ai + t) % n, bi, n) == gap(ai, bi, n),
        gap(ai, (ai + t) % n, n) == t - 1,
        0 <= (ai + t) % n < n,
{
    let g = gap(ai, bi, n);
    lemma_mod_small(bi - ai - 1, n);
    assert(g == if bi - ai - 1 >= 0 { bi - ai - 1 } else { bi - ai - 1 + n });
    let k = (ai + t) % n;
    lemma_mod_small(ai + t, n);
    lemma_mod_small(k - ai - 1, n);
    lemma_mod_small(bi - k - 1, n);
}


/// `(x % n + c) % n == (x + c) % n`.
pub proof fn lemma_mod_add(x: int, c: int, n: int)
    requires
        n > 0,
    ensures
        ((x % n) + c) % n == (x + c) % n,
{
    vstd::arithmetic::div_mod::lemma_fundamental_div_mod(x, n);
    let q = x / n;
    let r = x % n;
    assert(x + c == (r + c) + q * n) by (nonlinear_arith)
        requires
            x == n * q + r,
    ;
    lemma_mod_same(x + c, r + c, n, q);
}

/// The raw index visited after the `t`-th one, in the direction of the scan.
pub proof fn lemma_visit_next(fwd: bool, ai: int, bi: int, n: int, t: int)
    requires
        n > 0,
    ensures
        fwd ==> (visit(fwd, ai, bi, n, t) + 1) % n == visit(fwd, ai, bi, n, t + 1),
        !fwd ==> (visit(fwd, ai, bi, n, t) + (n - 1)) % n == visit(fwd, ai, bi, n, t + 1),
        0 <= visit(fwd, ai, bi, n, t) < n,
{
    if fwd {
        lemma_mod_add(ai + t, 1, n);
        vstd::arithmetic::div_mod::lemma_mod_bound(ai + t, n);
    } else {
        lemma_mod_add(bi - t, n - 1, n);
        lemma_mod_same(bi - t + (n - 1), bi - (t + 1), n, 1);
        vstd::arithmetic::div_mod::lemma_mod_bound(bi - t, n);
    }
}

/// The scan reaches its end index exactly after `gap(ai, bi)` visits.
pub proof fn lemma_visit_end(fwd: bool, ai: int, bi: int, n: int, t: int)
    requires
        0 <= ai < n,
        0 <= bi < n,
        0 <= t <= gap(ai, bi, n),
    ensures
        (visit(fwd, ai, bi, n, t + 1) == if fwd {
            bi
        } else {
            ai
        }) <==> t == gap(ai, bi, n),
{
    lemma_mod_small(bi - ai - 1, n);
    if fwd {
        lemma_mod_small(ai + t + 1, n);
    } else {
        lemma_mod_small(bi - t - 1, n);
    }
}

/// The first visited index.
pub proof fn lemma_visit_first(fwd: bool, ai: int, bi: int, n: int)
    requires
        0 <= ai < n,
        0 <= bi < n,
    ensures
        visit(fwd, ai, bi, n, 1) == if fwd {
            (ai + 1) % n
        } else {
            (bi + n - 1) % n
        },
{
    if !fwd {
        lemma_mod_same(bi + n - 1, bi - 1, n, 1);
    }
}

/// The scan's maximum, if any, is at a visited raw index.
pub proof fn lemma_scan_visited(
    points: RawPoints,
    fwd: bool,
    ai: int,
    bi: int,
    a: GridVertex,
    b: GridVertex,
    t: nat,
)
    ensures
        scan(points, fwd, ai, bi, a, b, t).1 matches Some(k) ==> exists|u: int|
            1 <= u <= t && k == #[trigger] visit(fwd, ai, bi, points.len() as int, u),
    decreases t,
{
    if t > 0 {
        lemma_scan_visited(points, fwd, ai, bi, a, b, (t - 1) as nat);
        let k = visit(fwd, ai, bi, points.len() as int, t as int);
        assert(k == visit(fwd, ai, bi, points.len() as int, t as int));
    }
}

/// Any visited raw index `u` (`1 <= u <= gap`) splits the gap between `ai` and `bi`.
pub proof fn lemma_visit_inside(fwd: bool, ai: int, bi: int, n: int, u: int)
    requires
        0 <= ai < n,
        0 <= bi < n,
        1 <= u <= gap(ai, bi, n),
    ensures
        gap(ai, visit(fwd, ai, bi, n, u), n) + 1 + gap(visit(fwd, ai, bi, n, u), bi, n) == gap(
            ai,
            bi,
            n,
        ),
        0 <= visit(fwd, ai, bi, n, u) < n,
{
    let g = gap(ai, bi, n);
    lemma_mod_small(bi - ai - 1, n);
    if fwd {
        lemma_gap_split(ai, bi, n, u);
    } else {
        let v = g + 1 - u;
        if bi - ai - 1 >= 0 {
            lemma_mod_same(bi - u, ai + v, n, 0);
        } else {
            lemma_mod_same(bi - u, ai + v, n, -1);
        }
        lemma_gap_split(ai, bi, n, v);
    }
}

/// Whether the raw edge starting at `first` is a wall or an area border, the
/// edges along which the raw contour is followed closely.
pub open spec fn follows_raw(points: RawPoints, first: int) -> bool {
    let r = points[first].1.0;
    r & REGION_MASK == 0 || r & AREA_BORDER != 0
}

/// The segment from simplified vertex `i` to the next one, with endpoints
/// ordered lexicographically, and the scan direction.
pub open spec fn segment_ends(s: SimplePoints, i: int) -> (bool, GridVertex, GridVertex) {
    let ii = (i + 1) % (s.len() as int);
    let a = s[i].0;
    let b = s[ii].0;
    let fwd = lex_after(a, b);
    if fwd {
        (fwd, a, b)
    } else {
        (fwd, GridVertex { x: b.x, y: a.y, z: b.z }, GridVertex { x: a.x, y: b.y, z: a.z })
    }
}

/// One refinement step at simplified vertex `i`: the raw point farthest from
/// the segment to the next vertex, if it lies farther than `thr` allows and the
/// segment follows a wall or an area border.
pub open spec fn rdp_step(points: RawPoints, thr: (int, int), s: SimplePoints, i: int) -> Option<
    (GridVertex, u32),
> {
    let n = points.len() as int;
    let ii = (i + 1) % (s.len() as int);
    let ai = s[i].1 as int;
    let bi = s[ii].1 as int;
    let (fwd, a, b) = segment_ends(s, i);
    let first = if fwd {
        (ai + 1) % n
    } else {
        (bi + n - 1) % n
    };
    if follows_raw(points, first) {
        let (m, mi) = scan(points, fwd, ai, bi, a, b, gap(ai, bi, n) as nat);
        match mi {
            Some(k) => if rat_gt(m, thr) {
                Some((points[k].0, k as u32))
            } else {
                None
            },
            None => None,
        }
    } else {
        None
    }
}

/// A refinement step inserts a raw index inside the current gap.
pub proof fn lemma_rdp_step_inside(points: RawPoints, thr: (int, int), s: SimplePoints, i: int)
    requires
        0 < points.len() <= u32::MAX,
        indices_ok(s, points.len() as int),
        0 <= i < s.len(),
    ensures
        rdp_step(points, thr, s, i) matches Some(e) ==> {
            &&& e.0 == points[e.1 as int].0
            &&& indices_ok(s.insert(i + 1, e), points.len() as int)
            &&& total_gap(s.insert(i + 1, e), points.len() as int) == total_gap(
                s,
                points.len() as int,
            ) - 1
            &&& total_gap(s.insert(i + 1, e), points.len() as int) >= 0
        },
{
    let n = points.len() as int;
    let ii = (i + 1) % (s.len() as int);
    vstd::arithmetic::div_mod::lemma_mod_bound(i + 1, s.len() as int);
    let ai = s[i].1 as int;
    let bi = s[ii].1 as int;
    let (fwd, a, b) = segment_ends(s, i);
    match rdp_step(points, thr, s, i) {
        Some(e) => {
            let g = gap(ai, bi, n);
            lemma_scan_visited(points, fwd, ai, bi, a, b, g as nat);
            let k = scan(points, fwd, ai, bi, a, b, g as nat).1->0;
            let u = choose|u: int| 1 <= u <= g && k == #[trigger] visit(fwd, ai, bi, n, u);
            lemma_visit_inside(fwd, ai, bi, n, u);
            assert(e.1 as int == k);
            lemma_insert_gap(s, n, i, e);
            let t = s.insert(i + 1, e);
            s.insert_ensures(i + 1, e);
            assert forall|j: int| 0 <= j < t.len() implies (#[trigger] t[j].1 as int) < n by {
                if j > i + 1 {
                    assert(t[j] == s[j - 1]);
                }
            }
            lemma_gap_sum_nonneg(t, n, t.len() as int);
        },
        None => {},
    }
}

/// Refinement from simplified vertex `i` on: keep inserting the farthest raw
/// point into a segment until every segment is within the bound, then move on.
pub open spec fn rdp(points: RawPoints, thr: (int, int), s: SimplePoints, i: int) -> SimplePoints
    decreases total_gap(s, points.len() as int), s.len() - i,
{
    let n = points.len() as int;
    if n == 0 || n > u32::MAX || !indices_ok(s, n) || i < 0 || i >= s.len() {
        s
    } else {
        match rdp_step(points, thr, s, i) {
            Some(e) => {
                proof {
                    lemma_rdp_step_inside(points, thr, s, i);
                }
                rdp(points, thr, s.insert(i + 1, e), i)
            },
            None => {
                proof {
                    lemma_gap_sum_nonneg(s, n, s.len() as int);
                }
                rdp(points, thr, s, i + 1)
            },
        }
    }
}

/// One edge-splitting step at simplified vertex `i`: the middle raw point of a
/// wall or area-border segment longer than `max_edge_len`.
pub open spec fn tess_step(points: RawPoints, max_edge_len: int, flags: u8, s: SimplePoints, i: int) -> Option<
    (GridVertex, u32),
> {
    let n = points.len() as int;
    let ii = (i + 1) % (s.len() as int);
    let a = s[i].0;
    let ai = s[i].1 as int;
    let b = s[ii].0;
    let bi = s[ii].1 as int;
    let area = points[(ai + 1) % n].1.0;
    let is_wall = flags & 1u8 != 0 && area & REGION_MASK == 0;
    let is_area = flags & 2u8 != 0 && area & AREA_BORDER != 0;
    let dx = b.x - a.x;
    let dz = b.z - a.z;
    if (is_wall || is_area) && dx * dx + dz * dz > max_edge_len * max_edge_len {
        let nn = if bi < ai {
            bi + n - ai
        } else {
            bi - ai
        };
        if nn > 1 {
            let k = if lex_after(a, b) {
                (ai + nn / 2) % n
            } else {
                (ai + (nn + 1) / 2) % n
            };
            Some((points[k].0, k as u32))
        } else {
            None
        }
    } else {
        None
    }
}

/// An edge-splitting step inserts a raw index inside the current gap.
pub proof fn lemma_tess_step_inside(
    points: RawPoints,
    max_edge_len: int,
    flags: u8,
    s: SimplePoints,
    i: int,
)
    requires
        0 < points.len() <= u32::MAX,
        indices_ok(s, points.len() as int),
        0 <= i < s.len(),
    ensures
        tess_step(points, max_edge_len, flags, s, i) matches Some(e) ==> {
            &&& e.0 == points[e.1 as int].0
            &&& indices_ok(s.insert(i + 1, e), points.len() as int)
            &&& total_gap(s.insert(i + 1, e), points.len() as int) == total_gap(
                s,
                points.len() as int,
            ) - 1
            &&& total_gap(s.insert(i + 1, e), points.len() as int) >= 0
        },
{
    let n = points.len() as int;
    let ii = (i + 1) % (s.len() as int);
    vstd::arithmetic::div_mod::lemma_mod_bound(i + 1, s.len() as int);
    let a = s[i].0;
    let ai = s[i].1 as int;
    let b = s[ii].0;
    let bi = s[ii].1 as int;
    match tess_step(points, max_edge_len, flags, s, i) {
        Some(e) => {
            let nn = if bi < ai {
                bi + n - ai
            } else {
                bi - ai
            };
            let h = if lex_after(a, b) {
                nn / 2
            } else {
                (nn + 1) / 2
            };
            lemma_mod_small(bi - ai - 1, n);
            assert(1 <= h <= gap(ai, bi, n));
            vstd::arithmetic::div_mod::lemma_mod_bound(ai + h, n);
            assert(e.1 as int == (ai + h) % n);
            lemma_gap_split(ai, bi, n, h);
            lemma_insert_gap(s, n, i, e);
            let t = s.insert(i + 1, e);
            s.insert_ensures(i + 1, e);
            assert forall|j: int| 0 <= j < t.len() implies (#[trigger] t[j].1 as int) < n by {
                if j > i + 1 {
                    assert(t[j] == s[j - 1]);
                }
            }
            lemma_gap_sum_nonneg(t, n, t.len() as int);
        },
        None => {},
    }
}

/// Edge splitting from simplified vertex `i` on.
pub open spec fn tess(points: RawPoints, max_edge_len: int, flags: u8, s: SimplePoints, i: int) -> SimplePoints
    decreases total_gap(s, points.len() as int), s.len() - i,
{
    let n = points.len() as int;
    if n == 0 || n > u32::MAX || !indices_ok(s, n) || i < 0 || i >= s.len() {
        s
    } else {
        match tess_step(points, max_edge_len, flags, s, i) {
            Some(e) => {
                proof {
                    lemma_tess_step_inside(points, max_edge_len, flags, s, i);
                }
                tess(points, max_edge_len, flags, s.insert(i + 1, e), i)
            },
            None => {
                proof {
                    lemma_gap_sum_nonneg(s, n, s.len() as int);
                }
                tess(points, max_edge_len, flags, s, i + 1)
            },
        }
    }
}

/// Whether raw point `k` connects to another region.
pub open spec fn is_connected(points: RawPoints, k: int) -> bool {
    points[k].1.0 & REGION_MASK != 0
}

/// Whether some raw point connects to another region.
pub open spec fn has_connections(points: RawPoints) -> bool {
    exists|k: int| 0 <= k < points.len() && #[trigger] is_connected(points, k)
}

/// Whether the region or the area-border flag changes from raw point `k` to the next.
pub open spec fn is_change(points: RawPoints, k: int) -> bool {
    let r = points[k].1.0;
    let nr = points[(k + 1) % (points.len() as int)].1.0;
    (r & REGION_MASK) != (nr & REGION_MASK) || (r & AREA_BORDER) != (nr & AREA_BORDER)
}

/// The raw points among the first `k` where the region or area changes.
pub open spec fn change_points(points: RawPoints, k: int) -> SimplePoints
    decreases k,
{
    if k <= 0 {
        seq![]
    } else {
        let prev = change_points(points, k - 1);
        if is_change(points, k - 1) {
            prev.push((points[k - 1].0, (k - 1) as u32))
        } else {
            prev
        }
    }
}

/// `p` comes before `q` in (x, z) lexicographic order.
pub open spec fn xz_less(p: GridVertex, q: GridVertex) -> bool {
    p.x < q.x || (p.x == q.x && p.z < q.z)
}

/// Index of the first lexicographically smallest of the first `k` raw points.
pub open spec fn lower_left(points: RawPoints, k: int) -> int
    decreases k,
{
    if k <= 0 {
        0
    } else {
        let prev = lower_left(points, k - 1);
        if xz_less(points[k - 1].0, points[prev].0) {
            k - 1
        } else {
            prev
        }
    }
}

/// Index of the first lexicographically largest of the first `k` raw points.
pub open spec fn upper_right(points: RawPoints, k: int) -> int
    decreases k,
{
    if k <= 0 {
        0
    } else {
        let prev = upper_right(points, k - 1);
        if xz_less(points[prev].0, points[k - 1].0) {
            k - 1
        } else {
            prev
        }
    }
}

/// The starting vertices: every region or area change when the contour
/// touches other regions; otherwise (or when there is no change) the
/// lower-left and upper-right raw points.
pub open spec fn initial_points(points: RawPoints) -> SimplePoints {
    let n = points.len() as int;
    let c = if has_connections(points) {
        change_points(points, n)
    } else {
        seq![]
    };
    if c.len() == 0 {
        let l = lower_left(points, n);
        let u = upper_right(points, n);
        seq![(points[l].0, l as u32), (points[u].0, u as u32)]
    } else {
        c
    }
}

/// Whether long edges are split.
pub open spec fn tessellation_enabled(max_edge_len: int, flags: u8) -> bool {
    max_edge_len > 0 && flags & 3u8 != 0
}

/// The simplified contour, still holding raw indices.
pub open spec fn simplify_indices(points: RawPoints, thr: (int, int), max_edge_len: int, flags: u8) -> SimplePoints {
    let s1 = rdp(points, thr, initial_points(points), 0);
    if tessellation_enabled(max_edge_len, flags) {
        tess(points, max_edge_len, flags, s1, 0)
    } else {
        s1
    }
}

/// Flags of a simplified vertex at raw index `k`: the region and area-border
/// bits of the next raw point, and the border-vertex bit of raw point `k`.
pub open spec fn remap_flags(points: RawPoints, k: int) -> u32 {
    (points[(k + 1) % (points.len() as int)].1.0 & (REGION_MASK | AREA_BORDER)) | (
    points[k].1.0 & BORDER_VERTEX)
}

/// The simplified contour: vertices with their edge flags.
pub open spec fn simplify(points: RawPoints, thr: (int, int), max_edge_len: int, flags: u8) -> SimplePoints {
    let s = simplify_indices(points, thr, max_edge_len, flags);
    Seq::new(s.len(), |j: int| (s[j].0, remap_flags(points, s[j].1 as int)))
}


/// The largest numerator of a squared distance between grid points.
pub const MAX_DIST_NUM: u128 = 0x4_0000_0000_0000_0000;

/// The largest denominator of a squared distance between grid points.
pub const MAX_DIST_DEN: u128 = 0x2_0000_0000;

/// The largest denominator of an error threshold.
pub const MAX_THRESHOLD_DEN: u128 = 0x1000_0000_0000_0000;

proof fn lemma_mul_bound(u: int, v: int, m: int)
    requires
        m >= 0,
        -m <= u <= m,
        -m <= v <= m,
    ensures
        -(m * m) <= u * v <= m * m,
{
    assert(-(m * m) <= u * v <= m * m) by (nonlinear_arith)
        requires
            m >= 0,
            -m <= u <= m,
            -m <= v <= m,
    ;
}

proof fn lemma_sq_nonneg(u: int)
    ensures
        u * u >= 0,
{
    assert(u * u >= 0) by (nonlinear_arith);
}

/// Exact squared distance from `p` to the segment `a`–`b` on the xz-plane.
fn exec_seg_dist(p: GridVertex, a: GridVertex, b: GridVertex) -> (r: (u128, u128))
    ensures
        r.0 as int == seg_dist(p, a, b).0,
        r.1 as int == seg_dist(p, a, b).1,
        r.0 <= MAX_DIST_NUM,
        1 <= r.1 <= MAX_DIST_DEN,
{
    let pqx = b.x as i64 - a.x as i64;
    let pqz = b.z as i64 - a.z as i64;
    let dx = p.x as i64 - a.x as i64;
    let dz = p.z as i64 - a.z as i64;
    proof {
        let m: int = 65535;
        lemma_mul_bound(pqx as int, pqx as int, m);
        lemma_mul_bound(pqz as int, pqz as int, m);
        lemma_mul_bound(pqx as int, dx as int, m);
        lemma_mul_bound(pqz as int, dz as int, m);
        lemma_mul_bound(dx as int, dx as int, m);
        lemma_mul_bound(dz as int, dz as int, m);
        lemma_mul_bound(pqx as int, dz as int, m);
        lemma_mul_bound(pqz as int, dx as int, m);
        lemma_sq_nonneg(pqx as int);
        lemma_sq_nonneg(pqz as int);
        lemma_sq_nonneg(dx as int);
        lemma_sq_nonneg(dz as int);
    }
    let d = pqx * pqx + pqz * pqz;
    let t = pqx * dx + pqz * dz;
    if d == 0 || t <= 0 {
        ((dx * dx + dz * dz) as u128, 1)
    } else if t >= d {
        let ex = p.x as i64 - b.x as i64;
        let ez = p.z as i64 - b.z as i64;
        proof {
            let m: int = 65535;
            lemma_mul_bound(ex as int, ex as int, m);
            lemma_mul_bound(ez as int, ez as int, m);
            lemma_sq_nonneg(ex as int);
            lemma_sq_nonneg(ez as int);
        }
        ((ex * ex + ez * ez) as u128, 1)
    } else {
        let c = (pqx * dz - pqz * dx) as i128;
        proof {
            let m: int = 0x2_0000_0000;
            lemma_mul_bound(c as int, c as int, m);
            lemma_sq_nonneg(c as int);
        }
        ((c * c) as u128, d as u128)
    }
}

/// `a > b` for fractions within the bounds of squared grid distances and
/// error thresholds.
fn exec_rat_gt(a: (u128, u128), b: (u128, u128)) -> (r: bool)
    requires
        a.0 <= MAX_DIST_NUM,
        a.1 <= MAX_THRESHOLD_DEN,
        b.0 <= MAX_DIST_NUM,
        b.1 <= MAX_THRESHOLD_DEN,
    ensures
        r == rat_gt((a.0 as int, a.1 as int), (b.0 as int, b.1 as int)),
{
    proof {
        assert(a.0 * b.1 <= MAX_DIST_NUM * MAX_THRESHOLD_DEN) by (nonlinear_arith)
            requires
                a.0 <= MAX_DIST_NUM,
                b.1 <= MAX_THRESHOLD_DEN,
        ;
        assert(b.0 * a.1 <= MAX_DIST_NUM * MAX_THRESHOLD_DEN) by (nonlinear_arith)
            requires
                b.0 <= MAX_DIST_NUM,
                a.1 <= MAX_THRESHOLD_DEN,
        ;
    }
    a.0 * b.1 > b.0 * a.1
}

/// An upper bound on the squared deviation of a simplified contour from the
/// raw contour, as the fraction `num / den`.
#[derive(Clone, Copy, Debug, PartialEq, Eq, Structural)]
pub struct SquaredErrorBound {
    /// Numerator.
    pub num: u64,
    /// Denominator.
    pub den: u64,
}

/// A threshold that no squared distance between grid points reaches: 2^40.
pub const THRESHOLD_CAP: u64 = 0x100_0000_0000;

/// Biased exponent of an `f32` given by its bits.
pub open spec fn f32_exponent_bits(bits: u32) -> u32 {
    (bits >> 23u32) & 0xffu32
}

/// Fraction bits of an `f32` given by its bits.
pub open spec fn f32_fraction_bits(bits: u32) -> u32 {
    bits & 0x7f_ffffu32
}

/// The magnitude of a finite `f32`, given by its bits, as a fraction.
pub open spec fn f32_rational(bits: u32) -> (int, int) {
    let e = f32_exponent_bits(bits) as int;
    let f = f32_fraction_bits(bits) as int;
    if e == 0 {
        (f, pow2(149) as int)
    } else {
        let m = f + 0x80_0000;
        let e2 = e - 150;
        if e2 >= 0 {
            (m * pow2(e2 as nat), 1)
        } else {
            (m, pow2((-e2) as nat) as int)
        }
    }
}

/// The error threshold that stands for an `f32`, given by its bits: its
/// magnitude when that fits (below 2^40 and with a denominator of at most
/// 2^60); [`THRESHOLD_CAP`] for larger values, infinities and NaN; zero for
/// values too small to matter.
pub open spec fn f32_threshold(bits: u32) -> (int, int) {
    let e = f32_exponent_bits(bits) as int;
    let f = f32_fraction_bits(bits) as int;
    if e == 255 {
        (THRESHOLD_CAP as int, 1)
    } else if e == 0 {
        (0, 1)
    } else {
        let m = f + 0x80_0000;
        let e2 = e - 150;
        if e2 >= 17 {
            (THRESHOLD_CAP as int, 1)
        } else if e2 >= 0 {
            (m * pow2(e2 as nat), 1)
        } else if e2 >= -60 {
            (m, pow2((-e2) as nat) as int)
        } else {
            (0, 1)
        }
    }
}

/// `2^k`.
fn pow2_u64(k: u32) -> (r: u64)
    requires
        k <= 62,
    ensures
        r == pow2(k as nat),
{
    let mut r: u64 = 1;
    let mut i: u32 = 0;
    proof {
        vstd::arithmetic::power2::lemma2_to64();
    }
    while i < k
        invariant
            i <= k <= 62,
            r == pow2(i as nat),
        decreases k - i,
    {
        proof {
            vstd::arithmetic::power2::lemma_pow2_unfold((i + 1) as nat);
            vstd::arithmetic::power2::lemma_pow2_strictly_increases((i + 1) as nat, 64);
            vstd::arithmetic::power2::lemma2_to64();
        }
        r = r * 2;
        i += 1;
    }
    r
}

impl SquaredErrorBound {
    /// The bound as a fraction.
    pub open spec fn value(self) -> (int, int) {
        (self.num as int, self.den as int)
    }

    /// The bound that stands for an `f32` threshold, given by its bits (see
    /// [`f32_threshold`]); the sign bit is ignored, as thresholds are squares.
    pub fn from_f32_bits(bits: u32) -> (r: SquaredErrorBound)
        ensures
            r.value() == f32_threshold(bits),
            r.num <= THRESHOLD_CAP,
            1 <= r.den <= MAX_THRESHOLD_DEN,
    {
        let e = (bits >> 23u32) & 0xffu32;
        let f = bits & 0x7f_ffffu32;
        if e == 255 {
            return SquaredErrorBound { num: THRESHOLD_CAP, den: 1 };
        }
        if e == 0 {
            return SquaredErrorBound { num: 0, den: 1 };
        }
        proof {
            assert(f <= 0x7f_ffff) by (bit_vector)
                requires
                    f == bits & 0x7f_ffffu32,
            ;
            assert(e <= 0xff) by (bit_vector)
                requires
                    e == (bits >> 23u32) & 0xffu32,
            ;
            vstd::arithmetic::power2::lemma2_to64();
        }
        let m = f as u64 + 0x80_0000;
        if e >= 167 {
            SquaredErrorBound { num: THRESHOLD_CAP, den: 1 }
        } else if e >= 150 {
            let p = pow2_u64(e - 150);
            proof {
                if e - 150 < 16 {
                    vstd::arithmetic::power2::lemma_pow2_strictly_increases((e - 150) as nat, 16);
                }
                assert(m * p < 0x100_0000 * 0x1_0000) by (nonlinear_arith)
                    requires
                        m < 0x100_0000,
                        p <= 0x1_0000,
                ;
            }
            SquaredErrorBound { num: m * p, den: 1 }
        } else if e >= 90 {
            let p = pow2_u64(150 - e);
            proof {
                vstd::arithmetic::power2::lemma_pow2_strictly_increases((150 - e) as nat, 61);
                vstd::arithmetic::power2::lemma2_to64_rest();
            }
            SquaredErrorBound { num: m, den: p }
        } else {
            SquaredErrorBound { num: 0, den: 1 }
        }
    }
}

/// Lagrange's identity in two dimensions.
proof fn lemma_lagrange(a: int, b: int, x: int, y: int)
    ensures
        (a * y - b * x) * (a * y - b * x) + (a * x + b * y) * (a * x + b * y) == (a * a + b * b) * (
        x * x + y * y),
{
    let u = a * y;
    let v = b * x;
    let w = a * x;
    let z = b * y;
    assert((u - v) * (u - v) == u * u - 2 * (u * v) + v * v) by (nonlinear_arith);
    assert((w + z) * (w + z) == w * w + 2 * (w * z) + z * z) by (nonlinear_arith);
    assert(u * v == w * z) by (nonlinear_arith)
        requires
            u == a * y,
            v == b * x,
            w == a * x,
            z == b * y,
    ;
    assert(u * u == (a * a) * (y * y)) by (nonlinear_arith)
        requires
            u == a * y,
    ;
    assert(v * v == (b * b) * (x * x)) by (nonlinear_arith)
        requires
            v == b * x,
    ;
    assert(w * w == (a * a) * (x * x)) by (nonlinear_arith)
        requires
            w == a * x,
    ;
    assert(z * z == (b * b) * (y * y)) by (nonlinear_arith)
        requires
            z == b * y,
    ;
    let aa = a * a;
    let bb = b * b;
    let xx = x * x;
    let yy = y * y;
    assert((aa + bb) * (xx + yy) == aa * xx + aa * yy + bb * xx + bb * yy) by (nonlinear_arith);
}

/// Squared distances between grid points are fractions `n / d` with
/// `1 <= d <= 2^33` and a value of at most 2^33.
pub proof fn lemma_seg_dist_range(p: GridVertex, a: GridVertex, b: GridVertex)
    ensures
        seg_dist(p, a, b).0 >= 0,
        1 <= seg_dist(p, a, b).1 <= 0x2_0000_0000,
        seg_dist(p, a, b).0 <= 0x2_0000_0000 * seg_dist(p, a, b).1,
{
    let pqx = b.x - a.x;
    let pqz = b.z - a.z;
    let dx = p.x - a.x;
    let dz = p.z - a.z;
    let d = pqx * pqx + pqz * pqz;
    let t = pqx * dx + pqz * dz;
    let m: int = 65535;
    lemma_mul_bound(pqx, pqx, m);
    lemma_mul_bound(pqz, pqz, m);
    lemma_mul_bound(dx, dx, m);
    lemma_mul_bound(dz, dz, m);
    lemma_sq_nonneg(pqx);
    lemma_sq_nonneg(pqz);
    lemma_sq_nonneg(dx);
    lemma_sq_nonneg(dz);
    if d == 0 || t <= 0 {
    } else if t >= d {
        let ex = p.x - b.x;
        let ez = p.z - b.z;
        lemma_mul_bound(ex, ex, m);
        lemma_mul_bound(ez, ez, m);
        lemma_sq_nonneg(ex);
        lemma_sq_nonneg(ez);
    } else {
        let c = pqx * dz - pqz * dx;
        lemma_sq_nonneg(c);
        lemma_sq_nonneg(t);
        lemma_lagrange(pqx, pqz, dx, dz);
        assert(c * c <= d * 0x2_0000_0000) by (nonlinear_arith)
            requires
                c * c + t * t == d * (dx * dx + dz * dz),
                t * t >= 0,
                dx * dx <= 65535 * 65535,
                dz * dz <= 65535 * 65535,
                d >= 0,
        ;
    }
}

/// Comparing a squared grid distance with the bound that stands for a finite
/// `f32` threshold gives the same answer as comparing it with the `f32`'s
/// exact value; an infinite or NaN threshold is never exceeded.
pub proof fn lemma_threshold_agrees(bits: u32, p: GridVertex, a: GridVertex, b: GridVertex)
    ensures
        f32_exponent_bits(bits) != 255 ==> (rat_gt(seg_dist(p, a, b), f32_threshold(bits))
            == rat_gt(seg_dist(p, a, b), f32_rational(bits))),
        f32_exponent_bits(bits) == 255 ==> !rat_gt(seg_dist(p, a, b), f32_threshold(bits)),
{
    lemma_seg_dist_range(p, a, b);
    let n = seg_dist(p, a, b).0;
    let d = seg_dist(p, a, b).1;
    let e = f32_exponent_bits(bits) as int;
    let f = f32_fraction_bits(bits) as int;
    assert(f32_fraction_bits(bits) <= 0x7f_ffff) by (bit_vector);
    assert(f32_exponent_bits(bits) <= 0xff) by (bit_vector);
    vstd::arithmetic::power2::lemma2_to64();
    let cap = THRESHOLD_CAP as int;
    if e == 255 {
        assert(!(n * 1 > cap * d)) by (nonlinear_arith)
            requires
                n <= 0x2_0000_0000 * d,
                d >= 1,
                cap == 0x100_0000_0000,
        ;
    } else if e == 0 {
        let big = pow2(149) as int;
        vstd::arithmetic::power2::lemma_pow2_strictly_increases(64, 149);
        assert((n * 1 > 0 * d) == (n * big > f * d)) by (nonlinear_arith)
            requires
                n >= 0,
                1 <= d <= 0x2_0000_0000,
                0 <= f <= 0x7f_ffff,
                big > 0x1_0000_0000_0000_0000,
        ;
    } else {
        let m = f + 0x80_0000;
        let e2 = e - 150;
        if e2 >= 17 {
            let pw = pow2(e2 as nat) as int;
            if e2 > 17 {
                vstd::arithmetic::power2::lemma_pow2_strictly_increases(17, e2 as nat);
            }
            assert(pow2(17) == 0x2_0000) by {
                vstd::arithmetic::power2::lemma_pow2_unfold(17);
                vstd::arithmetic::power2::lemma_pow2_unfold(16);
            }
            assert(!(n * 1 > cap * d) && !(n * 1 > (m * pw) * d)) by (nonlinear_arith)
                requires
                    n <= 0x2_0000_0000 * d,
                    d >= 1,
                    cap == 0x100_0000_0000,
                    m >= 0x80_0000,
                    pw >= 0x2_0000,
            ;
        } else if e2 < -60 {
            let pw = pow2((-e2) as nat) as int;
            if -e2 > 61 {
                vstd::arithmetic::power2::lemma_pow2_strictly_increases(61, (-e2) as nat);
            }
            vstd::arithmetic::power2::lemma2_to64_rest();
            assert(pw >= 0x2000_0000_0000_0000);
            assert((n * 1 > 0 * d) == (n * pw > m * d)) by (nonlinear_arith)
                requires
                    n >= 0,
                    1 <= d <= 0x2_0000_0000,
                    0 <= m < 0x100_0000,
                    pw >= 0x2000_0000_0000_0000,
            ;
        }
    }
}

/// Contour build flags: which edges get split when they are too long.
#[derive(Clone, Copy, Debug, PartialEq, Eq, Structural)]
pub struct BuildContoursFlags(pub u8);

/// Split long edges along walls (edges to no region).
pub const TESSELLATE_SOLID_WALL_EDGES: u8 = 1;

/// Split long edges between areas.
pub const TESSELLATE_AREA_EDGES: u8 = 2;

impl BuildContoursFlags {
    /// The raw bits.
    pub fn bits(self) -> (b: u8)
        ensures
            b == self.0,
    {
        self.0
    }

    /// Whether any of the bits of `mask` is set.
    pub fn intersects(self, mask: u8) -> (b: bool)
        ensures
            b == (self.0 & mask != 0),
    {
        self.0 & mask != 0
    }
}

impl Default for BuildContoursFlags {
    /// Split long wall edges only.
    fn default() -> (r: Self)
        ensures
            r.0 == TESSELLATE_SOLID_WALL_EDGES,
    {
        BuildContoursFlags(TESSELLATE_SOLID_WALL_EDGES)
    }
}

/// Simplifies the raw contour `points` into `simplified` (which must be empty):
/// starts from the portal vertices, refines with the raw point farthest from
/// each segment until all are within `max_error`, splits wall/area edges longer
/// than `max_edge_len`, and finally replaces raw indices by edge flags.
pub fn simplify_contour(
    points: &Vec<(GridVertex, RegionVertexId)>,
    simplified: &mut Vec<(GridVertex, u32)>,
    max_error: SquaredErrorBound,
    max_edge_len: u16,
    flags: BuildContoursFlags,
)
    requires
        0 < points@.len() < 0x4000_0000,
        old(simplified)@.len() == 0,
        max_error.den <= MAX_THRESHOLD_DEN,
    ensures
        final(simplified)@ == simplify(points@, max_error.value(), max_edge_len as int, flags.0),
{
    let n = points.len();
    let ghost pts = points@;
    // Add initial points.
    let mut connected = false;
    let mut k: usize = 0;
    while k < n
        invariant
            n == pts.len(),
            pts == points@,
            k <= n,
            connected == exists|j: int| 0 <= j < k && #[trigger] is_connected(pts, j),
        decreases n - k,
    {
        if points[k].1.0 & REGION_MASK != 0 {
            connected = true;
            assert(is_connected(pts, k as int));
        }
        k += 1;
    }
    if connected {
        // The contour has some portals to other regions: add a point wherever
        // the region changes.
        let mut k: usize = 0;
        while k < n
            invariant
                n == pts.len(),
                pts == points@,
                0 < n < 0x4000_0000,
                k <= n,
                simplified@ == change_points(pts, k as int),
            decreases n - k,
        {
            let ii = (k + 1) % n;
            let region = points[k].1;
            let next_region = points[ii].1;
            let different_regs = region.0 & REGION_MASK != next_region.0 & REGION_MASK;
            let area_borders = region.0 & AREA_BORDER != next_region.0 & AREA_BORDER;
            if different_regs || area_borders {
                simplified.push((points[k].0, k as u32));
            }
            k += 1;
        }
    }
    if simplified.len() == 0 {
        // No connections at all: start from the lower-left and upper-right
        // vertices of the contour.
        let mut lli: usize = 0;
        let mut uri: usize = 0;
        let mut k: usize = 0;
        while k < n
            invariant
                n == pts.len(),
                pts == points@,
                0 < n,
                k <= n,
                lli == lower_left(pts, k as int),
                uri == upper_right(pts, k as int),
                lli < n,
                uri < n,
            decreases n - k,
        {
            let p = points[k].0;
            let ll = points[lli].0;
            let ur = points[uri].0;
            if p.x < ll.x || (p.x == ll.x && p.z < ll.z) {
                lli = k;
            }
            if p.x > ur.x || (p.x == ur.x && p.z > ur.z) {
                uri = k;
            }
            k += 1;
        }
        simplified.push((points[lli].0, lli as u32));
        simplified.push((points[uri].0, uri as u32));
    }
    assert(simplified@ == initial_points(pts));
    proof {
        let s = simplified@;
        if has_connections(pts) && change_points(pts, n as int).len() > 0 {
            lemma_change_points_indices(pts, n as int);
        }
        assert(indices_ok(s, n as int));
    }
    // Add points until all raw points are within error tolerance to the
    // simplified shape.
    let ghost thr = max_error.value();
    let ghost s0 = simplified@;
    let mut i: usize = 0;
    while i < simplified.len()
        invariant
            n == pts.len(),
            pts == points@,
            0 < n < 0x4000_0000,
            thr == max_error.value(),
            max_error.den <= MAX_THRESHOLD_DEN,
            indices_ok(simplified@, n as int),
            i <= simplified@.len(),
            rdp(pts, thr, simplified@, i as int) == rdp(pts, thr, s0, 0),
        decreases total_gap(simplified@, n as int), simplified@.len() - i,
    {
        let ghost s = simplified@;
        let l = simplified.len();
        let ii = (i + 1) % l;
        let (a, ai) = simplified[i];
        let (b, bi) = simplified[ii];
        let ai = ai as usize;
        let bi = bi as usize;
        let fwd = b.x > a.x || (b.x == a.x && b.z > a.z);
        let mut ci: usize;
        let cinc: usize;
        let endi: usize;
        let a2: GridVertex;
        let b2: GridVertex;
        // Traverse the segment in lexicographic order so that the deviation
        // is computed the same way for opposite segments.
        if fwd {
            cinc = 1;
            ci = (ai + cinc) % n;
            endi = bi;
            a2 = a;
            b2 = b;
        } else {
            cinc = n - 1;
            ci = (bi + cinc) % n;
            endi = ai;
            a2 = GridVertex { x: b.x, y: a.y, z: b.z };
            b2 = GridVertex { x: a.x, y: b.y, z: a.z };
        }
        proof {
            lemma_visit_first(fwd, ai as int, bi as int, n as int);
        }
        let ghost g = gap(ai as int, bi as int, n as int);
        let mut maxd: (u128, u128) = (0, 1);
        let mut maxi: Option<usize> = None;
        // Tessellate only outer edges or edges between areas.
        let region = points[ci].1;
        let follows = region.0 & REGION_MASK == 0 || region.0 & AREA_BORDER != 0;
        if follows {
            let ghost mut t: int = 0;
            while ci != endi
                invariant
                    n == pts.len(),
                    pts == points@,
                    0 < n < 0x4000_0000,
                    ai < n,
                    bi < n,
                    cinc == if fwd {
                        1
                    } else {
                        n - 1
                    },
                    endi == if fwd {
                        bi
                    } else {
                        ai
                    },
                    g == gap(ai as int, bi as int, n as int),
                    0 <= t <= g,
                    ci as int == visit(fwd, ai as int, bi as int, n as int, t + 1),
                    maxd.0 <= MAX_DIST_NUM,
                    1 <= maxd.1 <= MAX_DIST_DEN,
                    (maxd.0 as int, maxd.1 as int) == scan(pts, fwd, ai as int, bi as int, a2, b2, t as nat).0,
                    match maxi {
                        Some(m) => scan(pts, fwd, ai as int, bi as int, a2, b2, t as nat).1 == Some(m as int),
                        None => scan(pts, fwd, ai as int, bi as int, a2, b2, t as nat).1 is None,
                    },
                decreases g - t,
            {
                proof {
                    lemma_visit_end(fwd, ai as int, bi as int, n as int, t);
                    lemma_visit_next(fwd, ai as int, bi as int, n as int, t + 1);
                }
                let point = points[ci].0;
                let d = exec_seg_dist(point, a2, b2);
                if exec_rat_gt(d, maxd) {
                    maxd = d;
                    maxi = Some(ci);
                }
                ci = (ci + cinc) % n;
                proof {
                    t = t + 1;
                }
            }
            proof {
                lemma_visit_end(fwd, ai as int, bi as int, n as int, t);
            }
        }
        // If the max deviation is larger than accepted error, add a new point,
        // else continue to the next segment.
        let mut inserted = false;
        match maxi {
            Some(m) => {
                proof {
                    lemma_scan_visited(pts, fwd, ai as int, bi as int, a2, b2, g as nat);
                    let u = choose|u: int|
                        1 <= u <= g && m as int == #[trigger] visit(
                            fwd,
                            ai as int,
                            bi as int,
                            n as int,
                            u,
                        );
                    lemma_visit_inside(fwd, ai as int, bi as int, n as int, u);
                }
                if exec_rat_gt(maxd, (max_error.num as u128, max_error.den as u128)) {
                    proof {
                        assert(rdp_step(pts, thr, s, i as int) == Some((points@[m as int].0, m as u32)));
                        lemma_rdp_step_inside(pts, thr, s, i as int);
                    }
                    simplified.insert(i + 1, (points[m].0, m as u32));
                    inserted = true;
                }
            },
            None => {},
        }
        if !inserted {
            proof {
                assert(rdp_step(pts, thr, s, i as int) is None);
            }
            i += 1;
        }
    }
    assert(simplified@ == rdp(pts, thr, s0, 0));
    // Split too long edges.
    let ghost s1 = simplified@;
    let ghost mel = max_edge_len as int;
    let mask = TESSELLATE_SOLID_WALL_EDGES | TESSELLATE_AREA_EDGES;
    assert(mask == 3) by (bit_vector)
        requires
            mask == 1u8 | 2u8,
    ;
    if max_edge_len > 0 && flags.intersects(mask) {
        let mut i: usize = 0;
        while i < simplified.len()
            invariant
                n == pts.len(),
                pts == points@,
                0 < n < 0x4000_0000,
                mel == max_edge_len as int,
                indices_ok(simplified@, n as int),
                i <= simplified@.len(),
                tess(pts, mel, flags.0, simplified@, i as int) == tess(pts, mel, flags.0, s1, 0),
            decreases total_gap(simplified@, n as int), simplified@.len() - i,
        {
            let ghost s = simplified@;
            let l = simplified.len();
            let ii = (i + 1) % l;
            let (a, ai) = simplified[i];
            let (b, bi) = simplified[ii];
            let mut maxi: Option<u32> = None;
            let ci = (ai as usize + 1) % n;
            // Tessellate only outer edges or edges between areas.
            let area = points[ci].1;
            let is_wall_edge = flags.intersects(TESSELLATE_SOLID_WALL_EDGES) && area.0 & REGION_MASK
                == 0;
            let is_edge_between_areas = flags.intersects(TESSELLATE_AREA_EDGES) && area.0
                & AREA_BORDER != 0;
            if is_wall_edge || is_edge_between_areas {
                let dx = b.x as i64 - a.x as i64;
                let dz = b.z as i64 - a.z as i64;
                proof {
                    let m: int = 65535;
                    lemma_mul_bound(dx as int, dx as int, m);
                    lemma_mul_bound(dz as int, dz as int, m);
                    lemma_mul_bound(max_edge_len as int, max_edge_len as int, m);
                }
                let mel64 = max_edge_len as i64;
                if dx * dx + dz * dz > mel64 * mel64 {
                    // Round based on the segments in lexicographic order so
                    // that the split is the same whichever way the segment
                    // is traversed.
                    let nn: u32 = if bi < ai {
                        bi + n as u32 - ai
                    } else {
                        bi - ai
                    };
                    if nn > 1 {
                        if b.x > a.x || (b.x == a.x && b.z > a.z) {
                            maxi = Some((ai + nn / 2) % n as u32);
                        } else {
                            maxi = Some((ai + (nn + 1) / 2) % n as u32);
                        }
                    }
                }
            }
            match maxi {
                Some(m) => {
                    proof {
                        assert(tess_step(pts, mel, flags.0, s, i as int) == Some(
                            (points@[m as int].0, m),
                        ));
                        lemma_tess_step_inside(pts, mel, flags.0, s, i as int);
                    }
                    simplified.insert(i + 1, (points[m as usize].0, m));
                },
                None => {
                    assert(tess_step(pts, mel, flags.0, s, i as int) is None);
                    i += 1;
                },
            }
        }
    }
    assert(simplified@ == simplify_indices(pts, thr, mel, flags.0));
    // The edge vertex flag is taken from the current raw point, and the
    // neighbour region from the next raw point.
    let ghost s2 = simplified@;
    let mut j: usize = 0;
    while j < simplified.len()
        invariant
            n == pts.len(),
            pts == points@,
            0 < n < 0x4000_0000,
            indices_ok(s2, n as int),
            simplified@.len() == s2.len(),
            j <= s2.len(),
            forall|k: int|
                0 <= k < j ==> #[trigger] simplified@[k] == (s2[k].0, remap_flags(pts, s2[k].1 as int)),
            forall|k: int| j <= k < s2.len() ==> #[trigger] simplified@[k] == s2[k],
        decreases s2.len() - j,
    {
        let (p, index) = simplified[j];
        let ai = (index as usize + 1) % n;
        let bi = index as usize;
        let a = points[ai].1;
        let b = points[bi].1;
        let v = (a.0 & (REGION_MASK | AREA_BORDER)) | (b.0 & BORDER_VERTEX);
        simplified.set(j, (p, v));
        j += 1;
    }
    assert(simplified@ =~= simplify(pts, thr, mel, flags.0));
}

proof fn lemma_change_points_indices(points: RawPoints, k: int)
    requires
        0 <= k <= points.len(),
    ensures
        forall|j: int|
            0 <= j < change_points(points, k).len() ==> (#[trigger] change_points(points, k)[j].1
                as int) < k,
        change_points(points, k).len() <= k,
    decreases k,
{
    if k > 0 {
        lemma_change_points_indices(points, k - 1);
    }
}


/// Whether two vertices coincide on the xz-plane.
pub open spec fn same_xz(p: GridVertex, q: GridVertex) -> bool {
    p.x == q.x && p.z == q.z
}

/// Walks the vertices from position `i` on, dropping a vertex when it
/// coincides on the xz-plane with the one after it (cyclically), and then
/// moving on past the position of the dropped vertex.
pub open spec fn remove_degenerate(s: SimplePoints, i: int) -> SimplePoints
    decreases s.len() + 1 - i,
{
    if i < 0 || i >= s.len() {
        s
    } else {
        let ni = (i + 1) % (s.len() as int);
        if same_xz(s[i].0, s[ni].0) {
            remove_degenerate(s.remove(i), i + 1)
        } else {
            remove_degenerate(s, i + 1)
        }
    }
}

/// Removes adjacent vertices that are equal on the xz-plane, which would
/// confuse the triangulator.
pub fn remove_degenerate_segments(simplified: &mut Vec<(GridVertex, u32)>)
    ensures
        final(simplified)@ == remove_degenerate(old(simplified)@, 0),
{
    let mut i: usize = 0;
    while i < simplified.len()
        invariant
            remove_degenerate(simplified@, i as int) == remove_degenerate(old(simplified)@, 0),
        decreases simplified@.len() + 1 - i,
    {
        let ni = (i + 1) % simplified.len();
        let p = simplified[i].0;
        let q = simplified[ni].0;
        if p.x == q.x && p.z == q.z {
            // Degenerate segment, remove.
            simplified.remove(i);
        }
        i += 1;
    }
}


proof fn lemma_seg_dist_nonneg(p: GridVertex, a: GridVertex, b: GridVertex)
    ensures
        seg_dist(p, a, b).0 >= 0,
        seg_dist(p, a, b).1 >= 1,
{
    let pqx = b.x - a.x;
    let pqz = b.z - a.z;
    let dx = p.x - a.x;
    let dz = p.z - a.z;
    let ex = p.x - b.x;
    let ez = p.z - b.z;
    let c = pqx * dz - pqz * dx;
    lemma_sq_nonneg(dx);
    lemma_sq_nonneg(dz);
    lemma_sq_nonneg(ex);
    lemma_sq_nonneg(ez);
    lemma_sq_nonneg(c);
    lemma_sq_nonneg(pqx);
    lemma_sq_nonneg(pqz);
}

/// The scan result is at least every visited distance, and is a distance
/// (or zero) with a positive denominator.
proof fn lemma_scan_max(
    points: RawPoints,
    fwd: bool,
    ai: int,
    bi: int,
    a: GridVertex,
    b: GridVertex,
    t: nat,
)
    ensures
        scan(points, fwd, ai, bi, a, b, t).0.0 >= 0,
        scan(points, fwd, ai, bi, a, b, t).0.1 >= 1,
        forall|u: int|
            1 <= u <= t ==> !rat_gt(
                seg_dist(#[trigger] points[visit(fwd, ai, bi, points.len() as int, u)].0, a, b),
                scan(points, fwd, ai, bi, a, b, t).0,
            ),
        scan(points, fwd, ai, bi, a, b, t).1 is None ==> scan(points, fwd, ai, bi, a, b, t).0 == (
        0int, 1int),
    decreases t,
{
    if t > 0 {
        lemma_scan_max(points, fwd, ai, bi, a, b, (t - 1) as nat);
        let (m, mi) = scan(points, fwd, ai, bi, a, b, (t - 1) as nat);
        let k = visit(fwd, ai, bi, points.len() as int, t as int);
        let d = seg_dist(points[k].0, a, b);
        lemma_seg_dist_nonneg(points[k].0, a, b);
        if rat_gt(d, m) {
            assert forall|u: int| 1 <= u <= t implies !rat_gt(
                seg_dist(#[trigger] points[visit(fwd, ai, bi, points.len() as int, u)].0, a, b),
                d,
            ) by {
                if u < t {
                    let du = seg_dist(points[visit(fwd, ai, bi, points.len() as int, u)].0, a, b);
                    lemma_seg_dist_nonneg(points[visit(fwd, ai, bi, points.len() as int, u)].0, a, b);
                    lemma_rat_trans(du, m, d);
                }
            }
        }
    }
}

/// Fractions with positive denominators: `a <= b` and `b < c`, or `a <= b`
/// and `b <= c`, give `a <= c`.
proof fn lemma_rat_trans(a: (int, int), b: (int, int), c: (int, int))
    requires
        a.1 >= 1,
        b.1 >= 1,
        c.1 >= 1,
        !rat_gt(a, b),
        !rat_gt(b, c) || rat_gt(c, b),
    ensures
        !rat_gt(a, c),
{
    assert(a.0 * c.1 <= c.0 * a.1) by (nonlinear_arith)
        requires
            a.1 >= 1,
            b.1 >= 1,
            c.1 >= 1,
            a.0 * b.1 <= b.0 * a.1,
            b.0 * c.1 <= c.0 * b.1,
    ;
}

/// A bound `thr` that a distance does not exceed: `d <= thr` also when `thr`
/// has a zero denominator (then every distance is within).
proof fn lemma_within(d: (int, int), m: (int, int), thr: (int, int))
    requires
        d.0 >= 0,
        d.1 >= 1,
        m.1 >= 1,
        thr.0 >= 0,
        thr.1 >= 0,
        !rat_gt(d, m),
        !rat_gt(m, thr),
    ensures
        !rat_gt(d, thr),
{
    if thr.1 == 0 {
        assert(d.0 * thr.1 == 0);
        assert(thr.0 * d.1 >= 0) by (nonlinear_arith)
            requires
                thr.0 >= 0,
                d.1 >= 1,
        ;
    } else {
        lemma_rat_trans(d, m, thr);
    }
}

/// Every raw point scanned for the segment after vertex `i` lies within the
/// error bound of that segment.
pub open spec fn segment_within(points: RawPoints, thr: (int, int), s: SimplePoints, i: int) -> bool {
    let n = points.len() as int;
    let ii = (i + 1) % (s.len() as int);
    let ai = s[i].1 as int;
    let bi = s[ii].1 as int;
    let (fwd, a, b) = segment_ends(s, i);
    let first = if fwd {
        (ai + 1) % n
    } else {
        (bi + n - 1) % n
    };
    follows_raw(points, first) ==> forall|u: int|
        1 <= u <= gap(ai, bi, n) ==> !rat_gt(
            seg_dist(#[trigger] points[visit(fwd, ai, bi, n, u)].0, a, b),
            thr,
        )
}

/// When no refinement step applies at a segment, the segment is within the bound.
proof fn lemma_step_none_within(points: RawPoints, thr: (int, int), s: SimplePoints, i: int)
    requires
        thr.0 >= 0,
        thr.1 >= 0,
        rdp_step(points, thr, s, i) is None,
    ensures
        segment_within(points, thr, s, i),
{
    let n = points.len() as int;
    let ii = (i + 1) % (s.len() as int);
    let ai = s[i].1 as int;
    let bi = s[ii].1 as int;
    let (fwd, a, b) = segment_ends(s, i);
    let first = if fwd {
        (ai + 1) % n
    } else {
        (bi + n - 1) % n
    };
    if follows_raw(points, first) {
        let g = gap(ai, bi, n) as nat;
        lemma_scan_max(points, fwd, ai, bi, a, b, g);
        let m = scan(points, fwd, ai, bi, a, b, g).0;
        assert forall|u: int| 1 <= u <= gap(ai, bi, n) implies !rat_gt(
            seg_dist(#[trigger] points[visit(fwd, ai, bi, n, u)].0, a, b),
            thr,
        ) by {
            let p = points[visit(fwd, ai, bi, n, u)].0;
            lemma_seg_dist_nonneg(p, a, b);
            if scan(points, fwd, ai, bi, a, b, g).1 is None {
                assert(m == (0int, 1int));
                assert(thr.0 * 1 >= 0);
                assert(!rat_gt(m, thr));
            }
            lemma_within(seg_dist(p, a, b), m, thr);
        }
    }
}

/// Refinement keeps the segments before position `i` unchanged.
proof fn lemma_rdp_keeps_prefix(
    points: RawPoints,
    thr: (int, int),
    s: SimplePoints,
    i: int,
    e: (GridVertex, u32),
    k: int,
)
    requires
        0 <= k < i < s.len(),
    ensures
        rdp_step(points, thr, s.insert(i + 1, e), k) == rdp_step(points, thr, s, k),
{
    let t = s.insert(i + 1, e);
    s.insert_ensures(i + 1, e);
    lemma_mod_small(k + 1, s.len() as int);
    lemma_mod_small(k + 1, t.len() as int);
    assert(t[k] == s[k]);
    assert(t[k + 1] == s[k + 1]);
}

/// After refinement from position `i`, no refinement step applies anywhere,
/// provided none applied before `i`.
proof fn lemma_rdp_done(points: RawPoints, thr: (int, int), s: SimplePoints, i: int)
    requires
        0 < points.len() <= u32::MAX,
        indices_ok(s, points.len() as int),
        0 <= i <= s.len(),
        forall|k: int| 0 <= k < i ==> #[trigger] rdp_step(points, thr, s, k) is None,
    ensures
        forall|k: int|
            0 <= k < rdp(points, thr, s, i).len() ==> #[trigger] rdp_step(
                points,
                thr,
                rdp(points, thr, s, i),
                k,
            ) is None,
        indices_ok(rdp(points, thr, s, i), points.len() as int),
    decreases total_gap(s, points.len() as int), s.len() - i,
{
    let n = points.len() as int;
    if i < s.len() {
        match rdp_step(points, thr, s, i) {
            Some(e) => {
                lemma_rdp_step_inside(points, thr, s, i);
                let t = s.insert(i + 1, e);
                assert forall|k: int| 0 <= k < i implies #[trigger] rdp_step(points, thr, t, k) is None by {
                    lemma_rdp_keeps_prefix(points, thr, s, i, e, k);
                }
                lemma_rdp_done(points, thr, t, i);
            },
            None => {
                lemma_gap_sum_nonneg(s, n, s.len() as int);
                lemma_rdp_done(points, thr, s, i + 1);
            },
        }
    }
}

/// Refinement keeps every vertex it starts from.
proof fn lemma_rdp_keeps(points: RawPoints, thr: (int, int), s: SimplePoints, i: int, e: (GridVertex, u32))
    requires
        s.contains(e),
    ensures
        rdp(points, thr, s, i).contains(e),
    decreases total_gap(s, points.len() as int), s.len() - i,
{
    let n = points.len() as int;
    if !(n == 0 || n > u32::MAX || !indices_ok(s, n) || i < 0 || i >= s.len()) {
        match rdp_step(points, thr, s, i) {
            Some(f) => {
                lemma_rdp_step_inside(points, thr, s, i);
                let t = s.insert(i + 1, f);
                s.insert_ensures(i + 1, f);
                let j = choose|j: int| 0 <= j < s.len() && s[j] == e;
                if j <= i {
                    assert(t[j] == e);
                } else {
                    assert(t[j + 1] == e);
                }
                lemma_rdp_keeps(points, thr, t, i, e);
            },
            None => {
                lemma_gap_sum_nonneg(s, n, s.len() as int);
                lemma_rdp_keeps(points, thr, s, i + 1, e);
            },
        }
    }
}

/// Splitting keeps every vertex it starts from.
proof fn lemma_tess_keeps(
    points: RawPoints,
    max_edge_len: int,
    flags: u8,
    s: SimplePoints,
    i: int,
    e: (GridVertex, u32),
)
    requires
        s.contains(e),
    ensures
        tess(points, max_edge_len, flags, s, i).contains(e),
    decreases total_gap(s, points.len() as int), s.len() - i,
{
    let n = points.len() as int;
    if !(n == 0 || n > u32::MAX || !indices_ok(s, n) || i < 0 || i >= s.len()) {
        match tess_step(points, max_edge_len, flags, s, i) {
            Some(f) => {
                lemma_tess_step_inside(points, max_edge_len, flags, s, i);
                let t = s.insert(i + 1, f);
                s.insert_ensures(i + 1, f);
                let j = choose|j: int| 0 <= j < s.len() && s[j] == e;
                if j <= i {
                    assert(t[j] == e);
                } else {
                    assert(t[j + 1] == e);
                }
                lemma_tess_keeps(points, max_edge_len, flags, t, i, e);
            },
            None => {
                lemma_gap_sum_nonneg(s, n, s.len() as int);
                lemma_tess_keeps(points, max_edge_len, flags, s, i + 1, e);
            },
        }
    }
}

/// Splitting keeps the segments before position `i` unchanged.
proof fn lemma_tess_keeps_prefix(
    points: RawPoints,
    max_edge_len: int,
    flags: u8,
    s: SimplePoints,
    i: int,
    e: (GridVertex, u32),
    k: int,
)
    requires
        0 <= k < i < s.len(),
    ensures
        tess_step(points, max_edge_len, flags, s.insert(i + 1, e), k) == tess_step(
            points,
            max_edge_len,
            flags,
            s,
            k,
        ),
{
    let t = s.insert(i + 1, e);
    s.insert_ensures(i + 1, e);
    lemma_mod_small(k + 1, s.len() as int);
    lemma_mod_small(k + 1, t.len() as int);
    assert(t[k] == s[k]);
    assert(t[k + 1] == s[k + 1]);
}

proof fn lemma_tess_done(points: RawPoints, max_edge_len: int, flags: u8, s: SimplePoints, i: int)
    requires
        0 < points.len() <= u32::MAX,
        indices_ok(s, points.len() as int),
        0 <= i <= s.len(),
        forall|k: int| 0 <= k < i ==> #[trigger] tess_step(points, max_edge_len, flags, s, k) is None,
    ensures
        forall|k: int|
            0 <= k < tess(points, max_edge_len, flags, s, i).len() ==> #[trigger] tess_step(
                points,
                max_edge_len,
                flags,
                tess(points, max_edge_len, flags, s, i),
                k,
            ) is None,
    decreases total_gap(s, points.len() as int), s.len() - i,
{
    let n = points.len() as int;
    if i < s.len() {
        match tess_step(points, max_edge_len, flags, s, i) {
            Some(e) => {
                lemma_tess_step_inside(points, max_edge_len, flags, s, i);
                let t = s.insert(i + 1, e);
                assert forall|k: int| 0 <= k < i implies #[trigger] tess_step(
                    points,
                    max_edge_len,
                    flags,
                    t,
                    k,
                ) is None by {
                    lemma_tess_keeps_prefix(points, max_edge_len, flags, s, i, e, k);
                }
                lemma_tess_done(points, max_edge_len, flags, t, i);
            },
            None => {
                lemma_gap_sum_nonneg(s, n, s.len() as int);
                lemma_tess_done(points, max_edge_len, flags, s, i + 1);
            },
        }
    }
}

proof fn lemma_initial_ok(points: RawPoints)
    requires
        0 < points.len() <= u32::MAX,
    ensures
        indices_ok(initial_points(points), points.len() as int),
{
    let n = points.len() as int;
    if has_connections(points) && change_points(points, n).len() > 0 {
        lemma_change_points_indices(points, n);
    } else {
        lemma_lower_left_range(points, n);
        lemma_upper_right_range(points, n);
    }
}

proof fn lemma_lower_left_range(points: RawPoints, k: int)
    requires
        0 < points.len(),
        0 <= k <= points.len(),
    ensures
        0 <= lower_left(points, k) < points.len(),
    decreases k,
{
    if k > 0 {
        lemma_lower_left_range(points, k - 1);
    }
}

proof fn lemma_upper_right_range(points: RawPoints, k: int)
    requires
        0 < points.len(),
        0 <= k <= points.len(),
    ensures
        0 <= upper_right(points, k) < points.len(),
    decreases k,
{
    if k > 0 {
        lemma_upper_right_range(points, k - 1);
    }
}

/// Error bound of the refinement: with edge splitting disabled, every raw point
/// along a wall or area-border segment of the simplified contour lies within
/// the squared error bound `thr` of that segment.
pub proof fn lemma_simplified_within_error(
    points: RawPoints,
    thr: (int, int),
    max_edge_len: int,
    flags: u8,
)
    requires
        0 < points.len() <= u32::MAX,
        thr.0 >= 0,
        thr.1 >= 0,
        !tessellation_enabled(max_edge_len, flags),
    ensures
        forall|k: int|
            0 <= k < simplify_indices(points, thr, max_edge_len, flags).len()
                ==> #[trigger] segment_within(
                points,
                thr,
                simplify_indices(points, thr, max_edge_len, flags),
                k,
            ),
{
    let s0 = initial_points(points);
    lemma_initial_ok(points);
    lemma_rdp_done(points, thr, s0, 0);
    let r = simplify_indices(points, thr, max_edge_len, flags);
    assert forall|k: int| 0 <= k < r.len() implies #[trigger] segment_within(points, thr, r, k) by {
        lemma_step_none_within(points, thr, r, k);
    }
}

/// Edge length bound: with edge splitting enabled, every wall (or area-border,
/// as `flags` selects) segment of the simplified contour is at most
/// `max_edge_len` long, unless it spans at most one raw step.
pub proof fn lemma_simplified_edges_short(
    points: RawPoints,
    thr: (int, int),
    max_edge_len: int,
    flags: u8,
)
    requires
        0 < points.len() <= u32::MAX,
        tessellation_enabled(max_edge_len, flags),
    ensures
        forall|k: int|
            0 <= k < simplify_indices(points, thr, max_edge_len, flags).len()
                ==> #[trigger] tess_step(
                points,
                max_edge_len,
                flags,
                simplify_indices(points, thr, max_edge_len, flags),
                k,
            ) is None,
{
    let s0 = initial_points(points);
    lemma_initial_ok(points);
    lemma_rdp_done(points, thr, s0, 0);
    let s1 = rdp(points, thr, s0, 0);
    lemma_tess_done(points, max_edge_len, flags, s1, 0);
}

/// Mandatory vertices: every starting vertex (each region or area change of a
/// contour touching other regions) stays in the simplified contour.
pub proof fn lemma_simplified_keeps_portals(
    points: RawPoints,
    thr: (int, int),
    max_edge_len: int,
    flags: u8,
    e: (GridVertex, u32),
)
    requires
        initial_points(points).contains(e),
    ensures
        simplify_indices(points, thr, max_edge_len, flags).contains(e),
{
    let s0 = initial_points(points);
    lemma_rdp_keeps(points, thr, s0, 0, e);
    if tessellation_enabled(max_edge_len, flags) {
        lemma_tess_keeps(points, max_edge_len, flags, rdp(points, thr, s0, 0), 0, e);
    }
}

/// A maximum edge length of zero disables edge splitting.
pub proof fn lemma_zero_edge_len_disables_splitting(points: RawPoints, thr: (int, int), flags: u8)
    ensures
        simplify_indices(points, thr, 0, flags) == rdp(points, thr, initial_points(points), 0),
        simplify(points, thr, 0, flags) == simplify(points, thr, 0, 0),
{
}

/// Each simplified vertex sits at the raw point its index names.
pub open spec fn indexed_on_raw(points: RawPoints, s: SimplePoints) -> bool {
    forall|j: int|
        0 <= j < s.len() ==> (#[trigger] s[j]).1 < points.len() && s[j].0 == points[s[j].1 as int].0
}

/// `v` is the position of one of the raw points.
pub open spec fn vertex_on_raw<B>(v: GridVertex, raw: Seq<(GridVertex, B)>) -> bool {
    exists|k: int| 0 <= k < raw.len() && #[trigger] raw[k].0 == v
}

/// Every vertex of `s` is the position of one of the raw points.
pub open spec fn vertices_on_raw<A, B>(s: Seq<(GridVertex, A)>, raw: Seq<(GridVertex, B)>) -> bool {
    forall|j: int| 0 <= j < s.len() ==> #[trigger] vertex_on_raw(s[j].0, raw)
}

proof fn lemma_indexed_on_raw(points: RawPoints, s: SimplePoints)
    requires
        indexed_on_raw(points, s),
    ensures
        vertices_on_raw(s, points),
{
    assert forall|j: int| 0 <= j < s.len() implies #[trigger] vertex_on_raw(s[j].0, points) by {
        let k = s[j].1 as int;
        assert(points[k].0 == s[j].0);
    }
}

proof fn lemma_change_points_on_raw(points: RawPoints, k: int)
    requires
        0 <= k <= points.len() <= u32::MAX,
    ensures
        indexed_on_raw(points, change_points(points, k)),
    decreases k,
{
    if k > 0 {
        lemma_change_points_on_raw(points, k - 1);
    }
}

proof fn lemma_initial_on_raw(points: RawPoints)
    requires
        0 < points.len() <= u32::MAX,
    ensures
        indexed_on_raw(points, initial_points(points)),
{
    let n = points.len() as int;
    lemma_change_points_on_raw(points, n);
    lemma_lower_left_range(points, n);
    lemma_upper_right_range(points, n);
}

proof fn lemma_insert_on_raw(points: RawPoints, s: SimplePoints, i: int, e: (GridVertex, u32))
    requires
        indexed_on_raw(points, s),
        0 <= i < s.len(),
        e.1 < points.len(),
        e.0 == points[e.1 as int].0,
    ensures
        indexed_on_raw(points, s.insert(i + 1, e)),
{
    let t = s.insert(i + 1, e);
    s.insert_ensures(i + 1, e);
    assert forall|j: int| 0 <= j < t.len() implies (#[trigger] t[j]).1 < points.len() && t[j].0
        == points[t[j].1 as int].0 by {
        if j > i + 1 {
            assert(t[j] == s[j - 1]);
        } else if j < i + 1 {
            assert(t[j] == s[j]);
        }
    }
}

proof fn lemma_rdp_on_raw(points: RawPoints, thr: (int, int), s: SimplePoints, i: int)
    requires
        indexed_on_raw(points, s),
    ensures
        indexed_on_raw(points, rdp(points, thr, s, i)),
    decreases total_gap(s, points.len() as int), s.len() - i,
{
    let n = points.len() as int;
    if !(n == 0 || n > u32::MAX || !indices_ok(s, n) || i < 0 || i >= s.len()) {
        match rdp_step(points, thr, s, i) {
            Some(e) => {
                lemma_rdp_step_inside(points, thr, s, i);
                let t = s.insert(i + 1, e);
                s.insert_ensures(i + 1, e);
                assert(t[i + 1] == e);
                lemma_insert_on_raw(points, s, i, e);
                lemma_rdp_on_raw(points, thr, t, i);
            },
            None => {
                lemma_gap_sum_nonneg(s, n, s.len() as int);
                lemma_rdp_on_raw(points, thr, s, i + 1);
            },
        }
    }
}

proof fn lemma_tess_on_raw(points: RawPoints, max_edge_len: int, flags: u8, s: SimplePoints, i: int)
    requires
        indexed_on_raw(points, s),
    ensures
        indexed_on_raw(points, tess(points, max_edge_len, flags, s, i)),
    decreases total_gap(s, points.len() as int), s.len() - i,
{
    let n = points.len() as int;
    if !(n == 0 || n > u32::MAX || !indices_ok(s, n) || i < 0 || i >= s.len()) {
        match tess_step(points, max_edge_len, flags, s, i) {
            Some(e) => {
                lemma_tess_step_inside(points, max_edge_len, flags, s, i);
                let t = s.insert(i + 1, e);
                s.insert_ensures(i + 1, e);
                assert(t[i + 1] == e);
                lemma_insert_on_raw(points, s, i, e);
                lemma_tess_on_raw(points, max_edge_len, flags, t, i);
            },
            None => {
                lemma_gap_sum_nonneg(s, n, s.len() as int);
                lemma_tess_on_raw(points, max_edge_len, flags, s, i + 1);
            },
        }
    }
}

/// Dropping degenerate vertices keeps only vertices that were there.
pub proof fn lemma_remove_degenerate_on_raw<B>(s: SimplePoints, i: int, raw: Seq<(GridVertex, B)>)
    requires
        vertices_on_raw(s, raw),
    ensures
        vertices_on_raw(remove_degenerate(s, i), raw),
    decreases s.len() + 1 - i,
{
    if !(i < 0 || i >= s.len()) {
        let ni = (i + 1) % (s.len() as int);
        if same_xz(s[i].0, s[ni].0) {
            let t = s.remove(i);
            assert forall|j: int| 0 <= j < t.len() implies #[trigger] vertex_on_raw(t[j].0, raw) by {
                if j < i {
                    assert(t[j] == s[j]);
                } else {
                    assert(t[j] == s[j + 1]);
                }
            }
            lemma_remove_degenerate_on_raw(t, i + 1, raw);
        } else {
            lemma_remove_degenerate_on_raw(s, i + 1, raw);
        }
    }
}

/// The simplified contour keeps a selection of the raw contour's vertices:
/// every simplified vertex is the position of one of the raw points, whatever
/// the error bound, edge length and flags.
pub proof fn lemma_simplified_vertices_on_raw(
    points: RawPoints,
    thr: (int, int),
    max_edge_len: int,
    flags: u8,
)
    requires
        0 < points.len() <= u32::MAX,
    ensures
        vertices_on_raw(simplify(points, thr, max_edge_len, flags), points),
{
    let s0 = initial_points(points);
    lemma_initial_on_raw(points);
    lemma_rdp_on_raw(points, thr, s0, 0);
    let s1 = rdp(points, thr, s0, 0);
    if tessellation_enabled(max_edge_len, flags) {
        lemma_tess_on_raw(points, max_edge_len, flags, s1, 0);
    }
    let si = simplify_indices(points, thr, max_edge_len, flags);
    let r = simplify(points, thr, max_edge_len, flags);
    lemma_indexed_on_raw(points, si);
    assert forall|j: int| 0 <= j < r.len() implies #[trigger] vertex_on_raw(r[j].0, points) by {
        assert(r[j].0 == si[j].0);
        assert(vertex_on_raw(si[j].0, points));
    }
}

/// All raw points coincide on the xz-plane.
pub open spec fn all_same_xz(points: RawPoints) -> bool {
    forall|k: int| 0 <= k < points.len() ==> #[trigger] same_xz(points[k].0, points[0].0)
}

/// Simplification starts from the points where the region or area changes.
pub open spec fn starts_from_portals(points: RawPoints) -> bool {
    has_connections(points) && change_points(points, points.len() as int).len() > 0
}

proof fn lemma_lower_left_min(points: RawPoints, k: int)
    requires
        0 < points.len(),
        0 <= k <= points.len(),
    ensures
        forall|j: int| 0 <= j < k ==> !xz_less(#[trigger] points[j].0, points[lower_left(points, k)].0),
    decreases k,
{
    if k > 0 {
        lemma_lower_left_min(points, k - 1);
    }
}

proof fn lemma_upper_right_max(points: RawPoints, k: int)
    requires
        0 < points.len(),
        0 <= k <= points.len(),
    ensures
        forall|j: int| 0 <= j < k ==> !xz_less(points[upper_right(points, k)].0, #[trigger] points[j].0),
    decreases k,
{
    if k > 0 {
        lemma_upper_right_max(points, k - 1);
    }
}

proof fn lemma_change_points_increasing(points: RawPoints, k: int)
    requires
        0 <= k <= points.len() <= u32::MAX,
    ensures
        forall|a: int, b: int|
            0 <= a < b < change_points(points, k).len() ==> (#[trigger] change_points(points, k)[a]).1
                < (#[trigger] change_points(points, k)[b]).1,
    decreases k,
{
    if k > 0 {
        lemma_change_points_increasing(points, k - 1);
        lemma_change_points_indices(points, k - 1);
    }
}

proof fn lemma_increasing_gap_sum(s: SimplePoints, n: int, j: int)
    requires
        indices_ok(s, n),
        forall|a: int, b: int| 0 <= a < b < s.len() ==> (#[trigger] s[a]).1 < (#[trigger] s[b]).1,
        0 <= j < s.len(),
    ensures
        gap_sum(s, n, j) == s[j].1 - s[0].1 - j,
    decreases j,
{
    if j > 0 {
        lemma_increasing_gap_sum(s, n, j - 1);
        lemma_mod_small(j, s.len() as int);
        assert(s[j - 1].1 < s[j].1);
        lemma_mod_small(s[j].1 - s[j - 1].1 - 1, n);
    }
}

proof fn lemma_increasing_total_gap(s: SimplePoints, n: int)
    requires
        indices_ok(s, n),
        forall|a: int, b: int| 0 <= a < b < s.len() ==> (#[trigger] s[a]).1 < (#[trigger] s[b]).1,
    ensures
        total_gap(s, n) == n - s.len(),
{
    let l = s.len() as int;
    lemma_increasing_gap_sum(s, n, l - 1);
    vstd::arithmetic::div_mod::lemma_mod_self_0(l);
    if l > 1 {
        assert(s[0].1 < s[l - 1].1);
    }
    lemma_mod_small(s[0].1 - s[l - 1].1 - 1, n);
}

proof fn lemma_initial_total_gap(points: RawPoints)
    requires
        0 < points.len() <= u32::MAX,
        starts_from_portals(points) || !all_same_xz(points),
    ensures
        total_gap(initial_points(points), points.len() as int) + initial_points(points).len()
            == points.len(),
        indices_ok(initial_points(points), points.len() as int),
{
    let n = points.len() as int;
    lemma_initial_ok(points);
    let s = initial_points(points);
    if starts_from_portals(points) {
        lemma_change_points_increasing(points, n);
        lemma_increasing_total_gap(s, n);
    } else {
        let l = lower_left(points, n);
        let u = upper_right(points, n);
        lemma_lower_left_range(points, n);
        lemma_upper_right_range(points, n);
        lemma_lower_left_min(points, n);
        lemma_upper_right_max(points, n);
        if l == u {
            assert forall|k: int| 0 <= k < n implies #[trigger] same_xz(points[k].0, points[0].0) by {
                assert(!xz_less(points[k].0, points[l].0));
                assert(!xz_less(points[l].0, points[k].0));
                assert(!xz_less(points[0].0, points[l].0));
                assert(!xz_less(points[l].0, points[0].0));
            }
        }
        assert(l != u);
        assert(s.len() == 2 && s[0].1 == l && s[1].1 == u);
        assert(gap_sum(s, n, 0) == 0);
        assert(gap_sum(s, n, 1) == pair_gap(s, n, 0));
        assert(total_gap(s, n) == gap_sum(s, n, 1) + pair_gap(s, n, 1));
        lemma_mod_small(u - l - 1, n);
        lemma_mod_small(l - u - 1, n);
    }
}

proof fn lemma_rdp_total_gap(points: RawPoints, thr: (int, int), s: SimplePoints, i: int)
    ensures
        total_gap(rdp(points, thr, s, i), points.len() as int) + rdp(points, thr, s, i).len()
            == total_gap(s, points.len() as int) + s.len(),
    decreases total_gap(s, points.len() as int), s.len() - i,
{
    let n = points.len() as int;
    if !(n == 0 || n > u32::MAX || !indices_ok(s, n) || i < 0 || i >= s.len()) {
        match rdp_step(points, thr, s, i) {
            Some(e) => {
                lemma_rdp_step_inside(points, thr, s, i);
                lemma_rdp_total_gap(points, thr, s.insert(i + 1, e), i);
            },
            None => {
                lemma_gap_sum_nonneg(s, n, s.len() as int);
                lemma_rdp_total_gap(points, thr, s, i + 1);
            },
        }
    }
}

proof fn lemma_tess_total_gap(points: RawPoints, max_edge_len: int, flags: u8, s: SimplePoints, i: int)
    ensures
        total_gap(tess(points, max_edge_len, flags, s, i), points.len() as int) + tess(
            points,
            max_edge_len,
            flags,
            s,
            i,
        ).len() == total_gap(s, points.len() as int) + s.len(),
    decreases total_gap(s, points.len() as int), s.len() - i,
{
    let n = points.len() as int;
    if !(n == 0 || n > u32::MAX || !indices_ok(s, n) || i < 0 || i >= s.len()) {
        match tess_step(points, max_edge_len, flags, s, i) {
            Some(e) => {
                lemma_tess_step_inside(points, max_edge_len, flags, s, i);
                lemma_tess_total_gap(points, max_edge_len, flags, s.insert(i + 1, e), i);
            },
            None => {
                lemma_gap_sum_nonneg(s, n, s.len() as int);
                lemma_tess_total_gap(points, max_edge_len, flags, s, i + 1);
            },
        }
    }
}

proof fn lemma_tess_indices_ok(points: RawPoints, max_edge_len: int, flags: u8, s: SimplePoints, i: int)
    requires
        indices_ok(s, points.len() as int),
    ensures
        indices_ok(tess(points, max_edge_len, flags, s, i), points.len() as int),
    decreases total_gap(s, points.len() as int), s.len() - i,
{
    let n = points.len() as int;
    if !(n == 0 || n > u32::MAX || !indices_ok(s, n) || i < 0 || i >= s.len()) {
        match tess_step(points, max_edge_len, flags, s, i) {
            Some(e) => {
                lemma_tess_step_inside(points, max_edge_len, flags, s, i);
                lemma_tess_indices_ok(points, max_edge_len, flags, s.insert(i + 1, e), i);
            },
            None => {
                lemma_gap_sum_nonneg(s, n, s.len() as int);
                lemma_tess_indices_ok(points, max_edge_len, flags, s, i + 1);
            },
        }
    }
}

/// The simplified contour visits some of the raw points in their order
/// around the contour, each once: counted around the cycle, the raw points
/// strictly between consecutive simplified vertices are exactly the raw
/// points left out. (A contour without portals whose raw points all coincide
/// on the xz-plane starts from one point twice and is left out.)
pub proof fn lemma_simplified_in_raw_order(
    points: RawPoints,
    thr: (int, int),
    max_edge_len: int,
    flags: u8,
)
    requires
        0 < points.len() <= u32::MAX,
        starts_from_portals(points) || !all_same_xz(points),
    ensures
        indices_ok(simplify_indices(points, thr, max_edge_len, flags), points.len() as int),
        total_gap(simplify_indices(points, thr, max_edge_len, flags), points.len() as int)
            == points.len() - simplify_indices(points, thr, max_edge_len, flags).len(),
{
    let s0 = initial_points(points);
    lemma_initial_total_gap(points);
    lemma_rdp_total_gap(points, thr, s0, 0);
    lemma_rdp_done(points, thr, s0, 0);
    let s1 = rdp(points, thr, s0, 0);
    if tessellation_enabled(max_edge_len, flags) {
        lemma_tess_total_gap(points, max_edge_len, flags, s1, 0);
        lemma_tess_indices_ok(points, max_edge_len, flags, s1, 0);
    }
}

proof fn lemma_flag_fields(a: u32, b: u32)
    by (bit_vector)
    ensures
        ((a & (0xffffu32 | 0x20000u32)) | (b & 0x10000u32)) & (0xffffu32 | 0x20000u32) == a & (
        0xffffu32 | 0x20000u32),
        ((a & (0xffffu32 | 0x20000u32)) | (b & 0x10000u32)) & 0x10000u32 == b & 0x10000u32,
{
}

/// Each simplified vertex is the raw point `k` it was taken from, and its
/// flags describe the raw edge that leaves that point: the neighbour region
/// and area-border bits are those of raw point `k + 1` (cyclically), the
/// region across that edge, and the border-vertex bit is raw point `k`'s own.
pub proof fn lemma_simplified_flags(points: RawPoints, thr: (int, int), max_edge_len: int, flags: u8)
    requires
        0 < points.len() <= u32::MAX,
    ensures
        simplify(points, thr, max_edge_len, flags).len() == simplify_indices(
            points,
            thr,
            max_edge_len,
            flags,
        ).len(),
        forall|j: int|
            0 <= j < simplify(points, thr, max_edge_len, flags).len() ==> {
                let k = simplify_indices(points, thr, max_edge_len, flags)[j].1 as int;
                let v = #[trigger] simplify(points, thr, max_edge_len, flags)[j];
                &&& 0 <= k < points.len()
                &&& v.0 == points[k].0
                &&& v.1 & (REGION_MASK | AREA_BORDER) == points[(k + 1) % (points.len() as int)].1.0
                    & (REGION_MASK | AREA_BORDER)
                &&& v.1 & BORDER_VERTEX == points[k].1.0 & BORDER_VERTEX
            },
{
    let s0 = initial_points(points);
    lemma_initial_on_raw(points);
    lemma_rdp_on_raw(points, thr, s0, 0);
    let s1 = rdp(points, thr, s0, 0);
    if tessellation_enabled(max_edge_len, flags) {
        lemma_tess_on_raw(points, max_edge_len, flags, s1, 0);
    }
    let si = simplify_indices(points, thr, max_edge_len, flags);
    let r = simplify(points, thr, max_edge_len, flags);
    assert(REGION_MASK == 0xffffu32 && AREA_BORDER == 0x20000u32 && BORDER_VERTEX == 0x10000u32);
    assert forall|j: int| 0 <= j < r.len() implies {
        let k = si[j].1 as int;
        let v = #[trigger] r[j];
        &&& 0 <= k < points.len()
        &&& v.0 == points[k].0
        &&& v.1 & (REGION_MASK | AREA_BORDER) == points[(k + 1) % (points.len() as int)].1.0 & (
        REGION_MASK | AREA_BORDER)
        &&& v.1 & BORDER_VERTEX == points[k].1.0 & BORDER_VERTEX
    } by {
        let k = si[j].1 as int;
        assert(si[j].1 < points.len() && si[j].0 == points[k].0);
        lemma_flag_fields(points[(k + 1) % (points.len() as int)].1.0, points[k].1.0);
    }
}

} // verus!
