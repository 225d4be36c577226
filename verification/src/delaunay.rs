//! Edge bookkeeping of the Delaunay triangulation used for detail meshes: the
//! edge list, face assignment, and turning completed faces into triangles.

use vstd::prelude::*;

verus! {

/// An entry of the edge list: a vertex or face index, or one of two markers.
#[derive(Clone, Copy, Debug, PartialEq, Eq, Structural)]
pub enum Edge {
    /// A vertex index (edge ends) or a face index (edge sides).
    Regular(usize),
    /// Not assigned yet.
    Undefined,
    /// The side of the edge that lies outside the hull.
    Hull,
}

impl Edge {
    /// The index held by a regular entry.
    pub fn unwrap(self) -> (r: usize)
        requires
            self is Regular,
        ensures
            r == self->Regular_0,
    {
        match self {
            Edge::Regular(i) => i,
            _ => 0,
        }
    }

    /// The index held by a regular entry, 0 otherwise.
    pub fn unwrap_or_zero(self) -> (r: usize)
        ensures
            r == match self {
                Edge::Regular(i) => i,
                _ => 0,
            },
    {
        match self {
            Edge::Regular(i) => i,
            _ => 0,
        }
    }

    /// Whether the entry is not assigned yet.
    pub fn is_undefined(self) -> (r: bool)
        ensures
            r == (self is Undefined),
    {
        match self {
            Edge::Undefined => true,
            _ => false,
        }
    }

    /// A regular entry holding `value`.
    pub fn from_index(value: usize) -> (r: Edge)
        ensures
            r == Edge::Regular(value),
    {
        Edge::Regular(value)
    }
}

impl Default for Edge {
    /// The regular entry 0.
    fn default() -> (r: Self)
        ensures
            r == Edge::Regular(0),
    {
        Edge::Regular(0)
    }
}

/// An edge of the triangulation: its two end vertices, and the faces on its
/// left and right side.
#[derive(Clone, Copy, Debug, PartialEq, Eq, Structural)]
pub struct Edges {
    /// Start vertex.
    pub start: Edge,
    /// End vertex.
    pub end: Edge,
    /// Face on the left of start → end.
    pub left: Edge,
    /// Face on the right of start → end.
    pub right: Edge,
}

impl Edges {
    /// An edge with every entry unassigned.
    pub fn undefined() -> (r: Edges)
        ensures
            r == (Edges { start: Edge::Undefined, end: Edge::Undefined, left: Edge::Undefined, right: Edge::Undefined }),
    {
        Edges { start: Edge::Undefined, end: Edge::Undefined, left: Edge::Undefined, right: Edge::Undefined }
    }
}

/// Whether edge `e` joins `s` and `t`, in either direction.
pub open spec fn joins(e: Edges, s: Edge, t: Edge) -> bool {
    (e.start == s && e.end == t) || (e.start == t && e.end == s)
}

/// The first of the first `nedges` edges joining `s` and `t`.
pub open spec fn find_edge_spec(edges: Seq<Edges>, nedges: int, s: Edge, t: Edge) -> Edge {
    if exists|i: int| 0 <= i < nedges && #[trigger] joins(edges[i], s, t) {
        Edge::Regular(
            (choose|i: int|
                0 <= i < nedges && #[trigger] joins(edges[i], s, t) && forall|j: int|
                    0 <= j < i ==> !joins(edges[j], s, t)) as usize,
        )
    } else {
        Edge::Undefined
    }
}

/// Looks up the edge joining `s` and `t` among the first `nedges` edges.
pub fn find_edge(edges: &Vec<Edges>, nedges: usize, s: Edge, t: Edge) -> (r: Edge)
    requires
        nedges <= edges@.len(),
    ensures
        match r {
            Edge::Regular(i) => i < nedges && joins(edges@[i as int], s, t) && forall|j: int|
                0 <= j < i ==> !joins(edges@[j], s, t),
            Edge::Undefined => forall|j: int| 0 <= j < nedges ==> !joins(edges@[j], s, t),
            Edge::Hull => false,
        },
        r == find_edge_spec(edges@, nedges as int, s, t),
{
    let mut i: usize = 0;
    while i < nedges
        invariant
            nedges <= edges@.len(),
            i <= nedges,
            forall|j: int| 0 <= j < i ==> !joins(edges@[j], s, t),
        decreases nedges - i,
    {
        let e = edges[i];
        if (e.start == s && e.end == t) || (e.start == t && e.end == s) {
            proof {
                assert(joins(edges@[i as int], s, t));
                let k = choose|k: int|
                    0 <= k < nedges && #[trigger] joins(edges@[k], s, t) && forall|j: int|
                        0 <= j < k ==> !joins(edges@[j], s, t);
                if k < i {
                } else if k > i {
                    assert(!joins(edges@[i as int], s, t));
                }
            }
            return Edge::Regular(i);
        }
        i += 1;
    }
    Edge::Undefined
}

/// The edge list after adding the edge `s`–`t` (faces `l`, `r`), unless the
/// list is full or already holds such an edge; and the new edge's index.
pub open spec fn add_edge_spec(
    edges: Seq<Edges>,
    nedges: int,
    max_edges: int,
    s: Edge,
    t: Edge,
    l: Edge,
    r: Edge,
) -> (Seq<Edges>, int, Edge) {
    if nedges >= max_edges || find_edge_spec(edges, nedges, s, t) != Edge::Undefined {
        (edges, nedges, Edge::Undefined)
    } else {
        (
            edges.update(nedges, Edges { start: s, end: t, left: l, right: r }),
            nedges + 1,
            Edge::Regular(nedges as usize),
        )
    }
}

/// Adds the edge `s`–`t` with faces `l` (left) and `r` (right) unless the list
/// is full or the edge is already there; returns the new edge, or
/// [`Edge::Undefined`].
pub fn add_edge(
    edges: &mut Vec<Edges>,
    nedges: &mut usize,
    max_edges: usize,
    s: Edge,
    t: Edge,
    l: Edge,
    r: Edge,
) -> (res: Edge)
    requires
        *old(nedges) <= old(edges)@.len(),
        max_edges <= old(edges)@.len(),
    ensures
        (final(edges)@, *final(nedges) as int, res) == add_edge_spec(
            old(edges)@,
            *old(nedges) as int,
            max_edges as int,
            s,
            t,
            l,
            r,
        ),
        final(edges)@.len() == old(edges)@.len(),
        *final(nedges) <= final(edges)@.len(),
{
    if *nedges >= max_edges {
        return Edge::Undefined;
    }
    // Add edge if not already in the triangulation.
    let e = find_edge(edges, *nedges, s, t);
    if e == Edge::Undefined {
        let n = *nedges;
        edges.set(n, Edges { start: s, end: t, left: l, right: r });
        *nedges = n + 1;
        Edge::Regular(n)
    } else {
        Edge::Undefined
    }
}

/// Edge `e` with face `f` recorded on the left of `s` → `t`, if that side is
/// still unassigned.
pub open spec fn update_left_face_spec(e: Edges, s: Edge, t: Edge, f: Edge) -> Edges {
    if e.start == s && e.end == t && e.left is Undefined {
        Edges { left: f, ..e }
    } else if e.end == s && e.start == t && e.right is Undefined {
        Edges { right: f, ..e }
    } else {
        e
    }
}

/// Records face `f` on the left of `s` → `t` if that side is still unassigned.
pub fn update_left_face(e: &mut Edges, s: Edge, t: Edge, f: Edge)
    ensures
        *final(e) == update_left_face_spec(*old(e), s, t, f),
{
    if e.start == s && e.end == t && e.left.is_undefined() {
        e.left = f;
    } else if e.end == s && e.start == t && e.right.is_undefined() {
        e.right = f;
    }
}

fn update_left_face_at(edges: &mut Vec<Edges>, k: usize, s: Edge, t: Edge, f: Edge)
    requires
        k < old(edges)@.len(),
    ensures
        final(edges)@ == old(edges)@.update(
            k as int,
            update_left_face_spec(old(edges)@[k as int], s, t, f),
        ),
{
    let mut e = edges[k];
    update_left_face(&mut e, s, t, f);
    edges.set(k, e);
}

/// The hull of a point set as edges: consecutive hull vertices joined, with the
/// hull outside on their left.
pub open spec fn hull_edges_spec(edges: Seq<Edges>, nedges: int, max_edges: int, hull: Seq<usize>, k: int) -> (
    Seq<Edges>,
    int,
)
    decreases k,
{
    if k <= 0 {
        (edges, nedges)
    } else {
        let (es, ne) = hull_edges_spec(edges, nedges, max_edges, hull, k - 1);
        let i = k - 1;
        let j = if i == 0 {
            hull.len() - 1
        } else {
            i - 1
        };
        let (es2, ne2, _) = add_edge_spec(
            es,
            ne,
            max_edges,
            Edge::Regular(hull[j]),
            Edge::Regular(hull[i]),
            Edge::Hull,
            Edge::Undefined,
        );
        (es2, ne2)
    }
}

/// Adds the edges of the hull `hull[..nhull]` (each from the previous hull
/// vertex to the next) with the hull outside on their left.
pub fn add_hull_edges(
    edges: &mut Vec<Edges>,
    nedges: &mut usize,
    max_edges: usize,
    hull: &Vec<usize>,
    nhull: usize,
)
    requires
        0 < nhull <= hull@.len(),
        *old(nedges) <= old(edges)@.len(),
        max_edges <= old(edges)@.len(),
    ensures
        (final(edges)@, *final(nedges) as int) == hull_edges_spec(
            old(edges)@,
            *old(nedges) as int,
            max_edges as int,
            hull@.subrange(0, nhull as int),
            nhull as int,
        ),
        final(edges)@.len() == old(edges)@.len(),
        *final(nedges) <= final(edges)@.len(),
{
    let ghost h = hull@.subrange(0, nhull as int);
    let mut j = nhull - 1;
    let mut i: usize = 0;
    while i < nhull
        invariant
            0 < nhull <= hull@.len(),
            h == hull@.subrange(0, nhull as int),
            i <= nhull,
            j == if i == 0 {
                nhull - 1
            } else {
                i - 1
            },
            (edges@, *nedges as int) == hull_edges_spec(
                old(edges)@,
                *old(nedges) as int,
                max_edges as int,
                h,
                i as int,
            ),
            edges@.len() == old(edges)@.len(),
            *nedges <= edges@.len(),
            max_edges <= edges@.len(),
        decreases nhull - i,
    {
        add_edge(
            edges,
            nedges,
            max_edges,
            Edge::Regular(hull[j]),
            Edge::Regular(hull[i]),
            Edge::Hull,
            Edge::Undefined,
        );
        j = i;
        i += 1;
    }
}


/// The directed edge `s` → `t` whose left side a facet would complete: the edge
/// itself if its left side is open, reversed if only its right side is open,
/// `None` when both sides are assigned.
pub open spec fn facet_endpoints_spec(e: Edges) -> Option<(usize, usize)> {
    if e.left is Undefined {
        Some((e.start->Regular_0, e.end->Regular_0))
    } else if e.right is Undefined {
        Some((e.end->Regular_0, e.start->Regular_0))
    } else {
        None
    }
}

/// The directed edge whose left side a new facet would complete, or `None`
/// when the edge is complete.
pub fn facet_endpoints(e: Edges) -> (r: Option<(usize, usize)>)
    requires
        e.start is Regular,
        e.end is Regular,
    ensures
        r == facet_endpoints_spec(e),
{
    if e.left.is_undefined() {
        Some((e.start.unwrap(), e.end.unwrap()))
    } else if e.right.is_undefined() {
        Some((e.end.unwrap(), e.start.unwrap()))
    } else {
        None
    }
}

/// Edge list after linking the side `from` → `to` to face `f`: the side is
/// recorded on an existing edge, or added as a new edge.
pub open spec fn link_side_spec(
    edges: Seq<Edges>,
    nedges: int,
    max_edges: int,
    from: usize,
    to: usize,
    f: Edge,
) -> (Seq<Edges>, int) {
    let e = find_edge_spec(edges, nedges, Edge::Regular(from), Edge::Regular(to));
    match e {
        Edge::Regular(k) => (
            edges.update(
                k as int,
                update_left_face_spec(edges[k as int], Edge::Regular(from), Edge::Regular(to), f),
            ),
            nedges,
        ),
        _ => {
            let (es, ne, _) = add_edge_spec(
                edges,
                nedges,
                max_edges,
                Edge::Regular(from),
                Edge::Regular(to),
                f,
                Edge::Undefined,
            );
            (es, ne)
        },
    }
}

fn link_side(
    edges: &mut Vec<Edges>,
    nedges: &mut usize,
    max_edges: usize,
    from: usize,
    to: usize,
    f: Edge,
)
    requires
        *old(nedges) <= old(edges)@.len(),
        max_edges <= old(edges)@.len(),
    ensures
        (final(edges)@, *final(nedges) as int) == link_side_spec(
            old(edges)@,
            *old(nedges) as int,
            max_edges as int,
            from,
            to,
            f,
        ),
        final(edges)@.len() == old(edges)@.len(),
        *final(nedges) <= final(edges)@.len(),
{
    let e = find_edge(edges, *nedges, Edge::Regular(from), Edge::Regular(to));
    match e {
        Edge::Regular(k) => {
            update_left_face_at(edges, k, Edge::Regular(from), Edge::Regular(to), f);
        },
        _ => {
            add_edge(edges, nedges, max_edges, Edge::Regular(from), Edge::Regular(to), f, Edge::Undefined);
        },
    }
}

/// Edge list and face count after completing the facet on the left of edge
/// `e` (`s` → `t`) with the point `pt`: a new face `s`, `t`, `pt` whose other
/// two sides are linked; or, with no point found (`pt >= npts`), the left of
/// the edge marked as hull.
pub open spec fn commit_facet_spec(
    edges: Seq<Edges>,
    nedges: int,
    max_edges: int,
    nfaces: int,
    e: int,
    s: usize,
    t: usize,
    pt: usize,
    npts: usize,
) -> (Seq<Edges>, int, int) {
    if pt < npts {
        let f = Edge::Regular(nfaces as usize);
        let es1 = edges.update(e, update_left_face_spec(edges[e], Edge::Regular(s), Edge::Regular(t), f));
        let (es2, ne2) = link_side_spec(es1, nedges, max_edges, pt, s, f);
        let (es3, ne3) = link_side_spec(es2, ne2, max_edges, t, pt, f);
        (es3, ne3, nfaces + 1)
    } else {
        (
            edges.update(
                e,
                update_left_face_spec(edges[e], Edge::Regular(s), Edge::Regular(t), Edge::Hull),
            ),
            nedges,
            nfaces,
        )
    }
}

/// Completes the facet on the left of edge `e` (`s` → `t`) with the point
/// `pt` found for it, or marks that side as hull when none was found
/// (`pt >= npts`).
pub fn commit_facet(
    edges: &mut Vec<Edges>,
    nedges: &mut usize,
    max_edges: usize,
    nfaces: &mut usize,
    e: usize,
    s: usize,
    t: usize,
    pt: usize,
    npts: usize,
)
    requires
        e < old(edges)@.len(),
        *old(nedges) <= old(edges)@.len(),
        max_edges <= old(edges)@.len(),
        *old(nfaces) < usize::MAX,
    ensures
        (final(edges)@, *final(nedges) as int, *final(nfaces) as int) == commit_facet_spec(
            old(edges)@,
            *old(nedges) as int,
            max_edges as int,
            *old(nfaces) as int,
            e as int,
            s,
            t,
            pt,
            npts,
        ),
        final(edges)@.len() == old(edges)@.len(),
        *final(nedges) <= final(edges)@.len(),
{
    if pt < npts {
        let f = Edge::Regular(*nfaces);
        // Update face information of edge being completed.
        update_left_face_at(edges, e, Edge::Regular(s), Edge::Regular(t), f);
        // Add new edge or update face info of old edge.
        link_side(edges, nedges, max_edges, pt, s, f);
        link_side(edges, nedges, max_edges, t, pt, f);
        *nfaces = *nfaces + 1;
    } else {
        update_left_face_at(edges, e, Edge::Regular(s), Edge::Regular(t), Edge::Hull);
    }
}

/// A face under construction: its three corners as edge-list entries.
pub type Face = (Edge, Edge, Edge);

/// Face `f` after taking edge `e` as one of its sides, with the face on its
/// left going `a` → `b`.
pub open spec fn add_side(f: Face, a: Edge, b: Edge) -> Face {
    if f.0 is Undefined {
        (a, b, f.2)
    } else if f.0 == b {
        (f.0, f.1, a)
    } else if f.1 == a {
        (f.0, f.1, b)
    } else {
        f
    }
}

/// Faces after taking the sides of the first `k` edges into account.
pub open spec fn collect_faces(edges: Seq<Edges>, faces: Seq<Face>, k: int) -> Seq<Face>
    decreases k,
{
    if k <= 0 {
        faces
    } else {
        let fs = collect_faces(edges, faces, k - 1);
        let e = edges[k - 1];
        let fs1 = match e.right {
            Edge::Regular(f) => fs.update(f as int, add_side(fs[f as int], e.start, e.end)),
            _ => fs,
        };
        match e.left {
            Edge::Regular(f) => fs1.update(f as int, add_side(fs1[f as int], e.end, e.start)),
            _ => fs1,
        }
    }
}

/// Whether a face has all three corners.
pub open spec fn face_complete(f: Face) -> bool {
    !(f.0 is Undefined) && !(f.1 is Undefined) && !(f.2 is Undefined)
}

/// Drops incomplete faces from position `i` on, each replaced by the last face.
pub open spec fn drop_dangling(faces: Seq<Face>, i: int) -> Seq<Face>
    decreases faces.len() - i,
{
    if i < 0 || i >= faces.len() {
        faces
    } else if !face_complete(faces[i]) {
        drop_dangling(faces.update(i, faces.last()).drop_last(), i)
    } else {
        drop_dangling(faces, i + 1)
    }
}

/// The triangles of the faces built from the first `nedges` edges.
pub open spec fn triangles_of(edges: Seq<Edges>, nedges: int, nfaces: int) -> Seq<Face> {
    drop_dangling(
        collect_faces(
            edges,
            Seq::new(nfaces as nat, |k: int| (Edge::Undefined, Edge::Undefined, Edge::Undefined)),
            nedges,
        ),
        0,
    )
}

/// Every side of the first `k` edges refers to a face below `nfaces`.
pub open spec fn faces_in_range(edges: Seq<Edges>, k: int, nfaces: int) -> bool {
    forall|j: int|
        0 <= j < k ==> (match #[trigger] edges[j].left {
            Edge::Regular(f) => f < nfaces,
            _ => true,
        }) && (match edges[j].right {
            Edge::Regular(f) => f < nfaces,
            _ => true,
        }) && edges[j].start is Regular && edges[j].end is Regular
}

/// Face corners are edge ends, hence regular or unassigned.
pub open spec fn corners_ok(faces: Seq<Face>) -> bool {
    forall|j: int|
        0 <= j < faces.len() ==> !(#[trigger] faces[j].0 is Hull) && !(faces[j].1 is Hull)
            && !(faces[j].2 is Hull)
}

/// Builds the triangles of the triangulation from its first `nedges` edges and
/// `nfaces` faces, dropping incomplete faces: each triangle's corners as
/// vertex indices, and zero flags.
pub fn triangles_from_edges(edges: &Vec<Edges>, nedges: usize, nfaces: usize) -> (r: (
    Vec<[u8; 3]>,
    Vec<u8>,
))
    requires
        nedges <= edges@.len(),
        faces_in_range(edges@, nedges as int, nfaces as int),
    ensures
        r.0@.len() == triangles_of(edges@, nedges as int, nfaces as int).len(),
        r.1@.len() == r.0@.len(),
        forall|k: int|
            0 <= k < r.0@.len() ==> {
                let f = #[trigger] triangles_of(edges@, nedges as int, nfaces as int)[k];
                r.0@[k] == [
                    f.0->Regular_0 as u8,
                    f.1->Regular_0 as u8,
                    f.2->Regular_0 as u8,
                ]
            },
        forall|k: int| 0 <= k < r.1@.len() ==> #[trigger] r.1@[k] == 0,
{
    let mut tris: Vec<Face> = Vec::new();
    let mut k: usize = 0;
    while k < nfaces
        invariant
            k <= nfaces,
            tris@ == Seq::new(k as nat, |j: int| (Edge::Undefined, Edge::Undefined, Edge::Undefined)),
        decreases nfaces - k,
    {
        tris.push((Edge::Undefined, Edge::Undefined, Edge::Undefined));
        k += 1;
    }
    let ghost init = tris@;
    let mut k: usize = 0;
    while k < nedges
        invariant
            nedges <= edges@.len(),
            faces_in_range(edges@, nedges as int, nfaces as int),
            k <= nedges,
            tris@.len() == nfaces,
            tris@ == collect_faces(edges@, init, k as int),
            corners_ok(tris@),
        decreases nedges - k,
    {
        let e = edges[k];
        assert(faces_in_range(edges@, nedges as int, nfaces as int));
        assert(match edges@[k as int].left {
            Edge::Regular(f) => f < nfaces,
            _ => true,
        });
        if let Edge::Regular(f) = e.right {
            let t = tris[f];
            tris.set(f, add_side_exec(t, e.start, e.end));
        }
        if let Edge::Regular(f) = e.left {
            let t = tris[f];
            tris.set(f, add_side_exec(t, e.end, e.start));
        }
        k += 1;
    }
    let ghost collected = tris@;
    let mut i: usize = 0;
    while i < tris.len()
        invariant
            i <= tris@.len(),
            corners_ok(tris@),
            drop_dangling(tris@, i as int) == drop_dangling(collected, 0),
            forall|j: int| 0 <= j < i ==> #[trigger] face_complete(tris@[j]),
        decreases tris@.len() - i,
    {
        let t = tris[i];
        if t.0.is_undefined() || t.1.is_undefined() || t.2.is_undefined() {
            let ghost before = tris@;
            tris.swap_remove(i);
            assert(tris@ == before.update(i as int, before.last()).drop_last());
            continue;
        }
        i += 1;
    }
    assert(tris@ == triangles_of(edges@, nedges as int, nfaces as int));
    let mut out: Vec<[u8; 3]> = Vec::new();
    let mut flags: Vec<u8> = Vec::new();
    let mut k: usize = 0;
    while k < tris.len()
        invariant
            k <= tris@.len(),
            out@.len() == k,
            flags@.len() == k,
            forall|j: int| 0 <= j < tris@.len() ==> #[trigger] face_complete(tris@[j]),
            corners_ok(tris@),
            forall|j: int|
                0 <= j < k ==> #[trigger] out@[j] == [
                    tris@[j].0->Regular_0 as u8,
                    tris@[j].1->Regular_0 as u8,
                    tris@[j].2->Regular_0 as u8,
                ],
            forall|j: int| 0 <= j < k ==> #[trigger] flags@[j] == 0,
        decreases tris@.len() - k,
    {
        let t = tris[k];
        assert(face_complete(tris@[k as int]));
        out.push([t.0.unwrap() as u8, t.1.unwrap() as u8, t.2.unwrap() as u8]);
        flags.push(0);
        k += 1;
    }
    (out, flags)
}

fn add_side_exec(f: Face, a: Edge, b: Edge) -> (r: Face)
    ensures
        r == add_side(f, a, b),
{
    if f.0.is_undefined() {
        (a, b, f.2)
    } else if f.0 == b {
        (f.0, f.1, a)
    } else if f.1 == a {
        (f.0, f.1, b)
    } else {
        f
    }
}

/// No two of the first `n` edges join the same two vertices (in either
/// direction).
pub open spec fn edges_distinct(edges: Seq<Edges>, n: int) -> bool {
    forall|i: int, j: int|
        0 <= i < j < n ==> !joins(#[trigger] edges[j], (#[trigger] edges[i]).start, edges[i].end)
}

proof fn lemma_find_undefined(edges: Seq<Edges>, n: int, s: Edge, t: Edge, i: int)
    requires
        find_edge_spec(edges, n, s, t) is Undefined,
        0 <= i < n,
    ensures
        !joins(edges[i], s, t),
{
    if joins(edges[i], s, t) {
        lemma_first_joining(edges, n, s, t, i);
    }
}

proof fn lemma_first_joining(edges: Seq<Edges>, n: int, s: Edge, t: Edge, i: int)
    requires
        0 <= i < n,
        joins(edges[i], s, t),
    ensures
        exists|k: int|
            0 <= k < n && #[trigger] joins(edges[k], s, t) && forall|j: int|
                0 <= j < k ==> !joins(edges[j], s, t),
    decreases i,
{
    if exists|j: int| 0 <= j < i && #[trigger] joins(edges[j], s, t) {
        let j = choose|j: int| 0 <= j < i && #[trigger] joins(edges[j], s, t);
        lemma_first_joining(edges, n, s, t, j);
    } else {
        assert(forall|j: int| 0 <= j < i ==> !joins(edges[j], s, t));
    }
}

/// Adding an edge never duplicates one: the live edges stay distinct, and
/// unless the list was full, the edge `s`–`t` is among them afterwards
/// (new, or already there).
pub proof fn lemma_add_edge_distinct(
    edges: Seq<Edges>,
    nedges: int,
    max_edges: int,
    s: Edge,
    t: Edge,
    l: Edge,
    r: Edge,
)
    requires
        0 <= nedges <= edges.len() <= usize::MAX,
        max_edges <= edges.len(),
        edges_distinct(edges, nedges),
    ensures
        ({
            let (es, ne, res) = add_edge_spec(edges, nedges, max_edges, s, t, l, r);
            &&& es.len() == edges.len()
            &&& 0 <= ne <= es.len()
            &&& edges_distinct(es, ne)
            &&& nedges < max_edges ==> find_edge_spec(es, ne, s, t) is Regular
            &&& res is Regular ==> es[res->Regular_0 as int] == (Edges {
                start: s,
                end: t,
                left: l,
                right: r,
            })
        }),
{
    let (es, ne, res) = add_edge_spec(edges, nedges, max_edges, s, t, l, r);
    if nedges < max_edges {
        if find_edge_spec(edges, nedges, s, t) is Undefined {
            assert forall|i: int, j: int| 0 <= i < j < ne implies !joins(
                #[trigger] es[j],
                (#[trigger] es[i]).start,
                es[i].end,
            ) by {
                if j == nedges {
                    lemma_find_undefined(edges, nedges, s, t, i);
                } else {
                    assert(es[j] == edges[j] && es[i] == edges[i]);
                }
            }
            assert(joins(es[nedges], s, t));
        } else {
            assert(find_edge_spec(edges, nedges, s, t) is Regular);
        }
    }
}

proof fn lemma_update_face_distinct(edges: Seq<Edges>, n: int, k: int, s: Edge, t: Edge, f: Edge)
    requires
        edges_distinct(edges, n),
        0 <= n <= edges.len(),
        0 <= k < edges.len(),
    ensures
        edges_distinct(edges.update(k, update_left_face_spec(edges[k], s, t, f)), n),
{
    let es = edges.update(k, update_left_face_spec(edges[k], s, t, f));
    assert forall|i: int, j: int| 0 <= i < j < n implies !joins(
        #[trigger] es[j],
        (#[trigger] es[i]).start,
        es[i].end,
    ) by {
        assert(es[j].start == edges[j].start && es[j].end == edges[j].end);
        assert(es[i].start == edges[i].start && es[i].end == edges[i].end);
    }
}

proof fn lemma_link_side_distinct(
    edges: Seq<Edges>,
    nedges: int,
    max_edges: int,
    from: usize,
    to: usize,
    f: Edge,
)
    requires
        0 <= nedges <= edges.len() <= usize::MAX,
        max_edges <= edges.len(),
        edges_distinct(edges, nedges),
    ensures
        ({
            let (es, ne) = link_side_spec(edges, nedges, max_edges, from, to, f);
            &&& es.len() == edges.len()
            &&& 0 <= ne <= es.len()
            &&& edges_distinct(es, ne)
            &&& nedges < max_edges ==> find_edge_spec(es, ne, Edge::Regular(from), Edge::Regular(to)) is Regular
        }),
{
    let e = find_edge_spec(edges, nedges, Edge::Regular(from), Edge::Regular(to));
    match e {
        Edge::Regular(k) => {
            assert(exists|i: int|
                0 <= i < nedges && #[trigger] joins(edges[i], Edge::Regular(from), Edge::Regular(to)));
            let i0 = choose|i: int|
                0 <= i < nedges && #[trigger] joins(edges[i], Edge::Regular(from), Edge::Regular(to));
            lemma_first_joining(edges, nedges, Edge::Regular(from), Edge::Regular(to), i0);
            let es = edges.update(
                k as int,
                update_left_face_spec(edges[k as int], Edge::Regular(from), Edge::Regular(to), f),
            );
            lemma_update_face_distinct(edges, nedges, k as int, Edge::Regular(from), Edge::Regular(to), f);
            assert(joins(es[k as int], Edge::Regular(from), Edge::Regular(to)));
        },
        _ => {
            lemma_add_edge_distinct(edges, nedges, max_edges, Edge::Regular(from), Edge::Regular(to), f, Edge::Undefined);
        },
    }
}

/// Completing a facet never duplicates an edge: the live edges stay distinct.
pub proof fn lemma_commit_facet_distinct(
    edges: Seq<Edges>,
    nedges: int,
    max_edges: int,
    nfaces: int,
    e: int,
    s: usize,
    t: usize,
    pt: usize,
    npts: usize,
)
    requires
        0 <= nedges <= edges.len() <= usize::MAX,
        max_edges <= edges.len(),
        0 <= e < edges.len(),
        edges_distinct(edges, nedges),
    ensures
        ({
            let (es, ne, nf) = commit_facet_spec(edges, nedges, max_edges, nfaces, e, s, t, pt, npts);
            &&& es.len() == edges.len()
            &&& 0 <= ne <= es.len()
            &&& edges_distinct(es, ne)
        }),
{
    if pt < npts {
        let f = Edge::Regular(nfaces as usize);
        let es1 = edges.update(e, update_left_face_spec(edges[e], Edge::Regular(s), Edge::Regular(t), f));
        lemma_update_face_distinct(edges, nedges, e, Edge::Regular(s), Edge::Regular(t), f);
        lemma_link_side_distinct(es1, nedges, max_edges, pt, s, f);
        let (es2, ne2) = link_side_spec(es1, nedges, max_edges, pt, s, f);
        lemma_link_side_distinct(es2, ne2, max_edges, t, pt, f);
    } else {
        lemma_update_face_distinct(edges, nedges, e, Edge::Regular(s), Edge::Regular(t), Edge::Hull);
    }
}

/// Adding the hull's edges never duplicates an edge: from distinct edges,
/// the live edges stay distinct.
pub proof fn lemma_hull_edges_distinct(
    edges: Seq<Edges>,
    nedges: int,
    max_edges: int,
    hull: Seq<usize>,
    k: int,
)
    requires
        0 <= nedges <= edges.len() <= usize::MAX,
        max_edges <= edges.len(),
        edges_distinct(edges, nedges),
    ensures
        ({
            let (es, ne) = hull_edges_spec(edges, nedges, max_edges, hull, k);
            &&& es.len() == edges.len()
            &&& 0 <= ne <= es.len()
            &&& edges_distinct(es, ne)
        }),
    decreases k,
{
    if k > 0 {
        lemma_hull_edges_distinct(edges, nedges, max_edges, hull, k - 1);
        let (es, ne) = hull_edges_spec(edges, nedges, max_edges, hull, k - 1);
        let i = k - 1;
        let j = if i == 0 {
            hull.len() - 1
        } else {
            i - 1
        };
        lemma_add_edge_distinct(
            es,
            ne,
            max_edges,
            Edge::Regular(hull[j]),
            Edge::Regular(hull[i]),
            Edge::Hull,
            Edge::Undefined,
        );
    }
}

} // verus!
