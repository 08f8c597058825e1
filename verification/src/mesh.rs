//! The half-edge mesh of a subdivided task: its vertices, the half-edges
//! with their links, and the faces, of which the outside and the holes are
//! told apart from the solid ones.

use crate::geom::angle_key;
use crate::geom::Point;
use crate::geom::Pt;
use crate::links::around;
use crate::links::distinct_pairs;
use crate::links::lemma_around;
use crate::links::faces;
use crate::links::find_half_edge;
use crate::links::group_offsets;
use crate::links::grouped;
use crate::links::has_reverse;
use crate::links::is_faces;
use crate::links::is_linked;
use crate::links::is_offsets;
use crate::links::is_opposite;
use crate::links::is_rotation;
use crate::links::link;
use crate::links::opposites;
use crate::links::paired;
use crate::links::reaches;
use crate::links::reverse_of;
use crate::links::walk;
use crate::links::lemma_opposite_involution;
use crate::links::within;
use crate::rational::Rational;
use crate::subdivision::ascending;
use crate::subdivision::insert_sorted;
use crate::task::Segment;
use crate::task::Task;
use crate::task::TaskView;
use crate::tyndex::positions;
use crate::tyndex::typed;
use crate::tyndex::TyVec;
use crate::tyndex::Tyndex;
use vstd::prelude::*;

verus! {

/// Whether `p` is an end of segment `e`.
pub open spec fn touches(e: Segment, p: Point) -> bool {
    e.0 == p || e.1 == p
}

/// Whether `p` is an end of one of `edges`.
pub open spec fn is_end_point(edges: Seq<Segment>, p: Point) -> bool {
    exists|k: int| 0 <= k < edges.len() && #[trigger] touches(edges[k], p)
}

/// Whether segment `e` joins `p` and `q`, one way or the other.
pub open spec fn joins(e: Segment, p: Point, q: Point) -> bool {
    (e.0 == p && e.1 == q) || (e.0 == q && e.1 == p)
}

/// Whether one of `edges` joins `p` and `q`.
pub open spec fn joined(edges: Seq<Segment>, p: Point, q: Point) -> bool {
    exists|k: int| 0 <= k < edges.len() && #[trigger] joins(edges[k], p, q)
}

/// The ends of the segments, each once, in the canonical order.
pub fn collect_points(edges: &[(Pt, Pt)]) -> (r: Vec<Pt>)
    ensures
        ascending(r.deep_view()),
        forall|p: Point| r.deep_view().contains(p) <==> is_end_point(edges.deep_view(), p),
        r.len() <= 2 * edges.len(),
{
    let ghost es = edges.deep_view();
    let n = edges.len();
    let mut pts: Vec<Pt> = Vec::new();
    let mut i: usize = 0;
    assert(ascending(pts.deep_view()));
    assert forall|p: Point| pts.deep_view().contains(p) <==> is_end_point(es.take(0), p) by {
        if pts.deep_view().contains(p) {
            let k = choose|k: int| 0 <= k < pts.deep_view().len() && pts.deep_view()[k] == p;
        }
        if is_end_point(es.take(0), p) {
            let k = choose|k: int| 0 <= k < es.take(0).len() && #[trigger] touches(es.take(0)[k], p);
        }
    }
    while i < n
        invariant
            n == edges.len(),
            es == edges.deep_view(),
            i <= n,
            pts.len() <= 2 * i,
            ascending(pts.deep_view()),
            forall|p: Point| pts.deep_view().contains(p) <==> is_end_point(es.take(i as int), p),
        decreases n - i,
    {
        let e = &edges[i];
        let ghost held = pts.deep_view();
        insert_sorted(&mut pts, e.0.clone());
        insert_sorted(&mut pts, e.1.clone());
        proof {
            let now = es.take(i + 1);
            let was = es.take(i as int);
            assert(es[i as int] == (e.0@, e.1@));
            assert forall|p: Point| pts.deep_view().contains(p) <==> is_end_point(now, p) by {
                if is_end_point(now, p) {
                    let k = choose|k: int| 0 <= k < now.len() && #[trigger] touches(now[k], p);
                    if k < i {
                        assert(touches(was[k], p));
                        assert(is_end_point(was, p));
                    }
                }
                if held.contains(p) {
                    assert(is_end_point(was, p));
                    let k = choose|k: int| 0 <= k < was.len() && #[trigger] touches(was[k], p);
                    assert(touches(now[k], p));
                }
                if p == e.0@ || p == e.1@ {
                    assert(touches(now[i as int], p));
                }
            }
        }
        i = i + 1;
    }
    assert(es.take(n as int) =~= es);
    pts
}

/// Where `p` stands in an ascending list, if it is there.
pub fn find_point(pts: &Vec<Pt>, p: &Pt) -> (r: Option<usize>)
    requires
        ascending(pts.deep_view()),
    ensures
        match r {
            Some(i) => i < pts.len() && pts[i as int]@ == p@,
            None => !pts.deep_view().contains(p@),
        },
{
    let ghost ps = pts.deep_view();
    let mut lo: usize = 0;
    let mut hi: usize = pts.len();
    while lo < hi
        invariant
            ps == pts.deep_view(),
            ascending(ps),
            lo <= hi <= pts.len(),
            forall|k: int| 0 <= k < lo ==> (#[trigger] ps[k]).before(p@),
            forall|k: int| hi <= k < ps.len() ==> p@.before(#[trigger] ps[k]),
        decreases hi - lo,
    {
        let mid = lo + (hi - lo) / 2;
        let q = &pts[mid];
        assert(ps[mid as int] == q@);
        if q.lt(p) {
            proof {
                assert forall|k: int| 0 <= k < mid + 1 implies (#[trigger] ps[k]).before(p@) by {
                    if k < mid {
                        assert(ps[k].before(ps[mid as int]));
                    }
                }
            }
            lo = mid + 1;
        } else if p.lt(q) {
            proof {
                assert forall|k: int| mid <= k < ps.len() implies p@.before(#[trigger] ps[k]) by {
                    if k > mid {
                        assert(ps[mid as int].before(ps[k]));
                    }
                }
            }
            hi = mid;
        } else {
            return Some(mid);
        }
    }
    proof {
        if ps.contains(p@) {
            let k = choose|k: int| 0 <= k < ps.len() && ps[k] == p@;
            if k < lo {
                assert(ps[k].before(p@));
            } else {
                assert(p@.before(ps[k]));
            }
        }
    }
    None
}

/// A half-edge while the mesh is built: the vertex it leaves, the vertex it
/// leads to, and the angle key of its direction.
pub struct Spoke {
    pub start: usize,
    pub end: usize,
    pub key: Rational,
}

/// What a [`Spoke`] holds, as plain mathematical values.
pub ghost struct SpokeView {
    pub start: int,
    pub end: int,
    pub key: real,
}

impl View for Spoke {
    type V = SpokeView;

    open spec fn view(&self) -> SpokeView {
        SpokeView { start: self.start as int, end: self.end as int, key: self.key@ }
    }
}

impl DeepView for Spoke {
    type V = SpokeView;

    open spec fn deep_view(&self) -> SpokeView {
        self@
    }
}

/// `a` may stand before `b`: it leaves an earlier vertex, or the same vertex
/// at no greater an angle.
pub open spec fn may_precede(a: SpokeView, b: SpokeView) -> bool {
    a.start < b.start || (a.start == b.start && a.key <= b.key)
}

/// Vertex after vertex, and round each vertex by ascending angle.
pub open spec fn fan_order(s: Seq<SpokeView>) -> bool {
    forall|i: int, j: int| 0 <= i < j < s.len() ==> may_precede(#[trigger] s[i], #[trigger] s[j])
}

/// The spoke joins two different vertices and carries the angle key of the
/// vector from the first to the second.
pub open spec fn spoke_valid(pts: Seq<Point>, k: SpokeView) -> bool {
    &&& 0 <= k.start < pts.len()
    &&& 0 <= k.end < pts.len()
    &&& k.start != k.end
    &&& k.key == angle_key(pts[k.end].minus(pts[k.start]))
}

/// Whether every spoke is valid.
pub open spec fn spokes_valid(pts: Seq<Point>, s: Seq<SpokeView>) -> bool {
    forall|e: int| 0 <= e < s.len() ==> spoke_valid(pts, #[trigger] s[e])
}

/// Whether the spoke leads from vertex `v` to vertex `w`.
pub open spec fn is_spoke(k: SpokeView, v: int, w: int) -> bool {
    k.start == v && k.end == w
}

/// Whether some spoke leads from vertex `v` to vertex `w`.
pub open spec fn has_spoke(s: Seq<SpokeView>, v: int, w: int) -> bool {
    exists|e: int| 0 <= e < s.len() && #[trigger] is_spoke(s[e], v, w)
}

/// No two spokes lead from the same vertex to the same vertex.
pub open spec fn spokes_distinct(s: Seq<SpokeView>) -> bool {
    forall|e: int, f: int|
        0 <= e < s.len() && 0 <= f < s.len() && is_spoke(#[trigger] s[e], (#[trigger] s[f]).start, s[f].end)
            ==> e == f
}

/// What holds of a list of spokes after one more was put in.
pub proof fn lemma_spoke_inserted(pts: Seq<Point>, s: Seq<SpokeView>, pos: int, k: SpokeView)
    requires
        0 <= pos <= s.len(),
    ensures
        forall|v: int, w: int|
            has_spoke(s.insert(pos, k), v, w) <==> (has_spoke(s, v, w) || is_spoke(k, v, w)),
        spokes_valid(pts, s) && spoke_valid(pts, k) ==> spokes_valid(pts, s.insert(pos, k)),
        spokes_distinct(s) && !has_spoke(s, k.start, k.end) ==> spokes_distinct(s.insert(pos, k)),
{
    let t = s.insert(pos, k);
    assert forall|v: int, w: int| has_spoke(t, v, w) <==> (has_spoke(s, v, w) || is_spoke(k, v, w)) by {
        if has_spoke(t, v, w) {
            let e = choose|e: int| 0 <= e < t.len() && #[trigger] is_spoke(t[e], v, w);
            if e < pos {
                assert(is_spoke(s[e], v, w));
            } else if e > pos {
                assert(is_spoke(s[e - 1], v, w));
            }
        }
        if has_spoke(s, v, w) {
            let e = choose|e: int| 0 <= e < s.len() && #[trigger] is_spoke(s[e], v, w);
            if e < pos {
                assert(is_spoke(t[e], v, w));
            } else {
                assert(is_spoke(t[e + 1], v, w));
            }
        }
        if is_spoke(k, v, w) {
            assert(is_spoke(t[pos], v, w));
        }
    }
    if spokes_valid(pts, s) && spoke_valid(pts, k) {
        assert forall|e: int| 0 <= e < t.len() implies spoke_valid(pts, #[trigger] t[e]) by {
            if e < pos {
                assert(t[e] == s[e]);
            } else if e > pos {
                assert(t[e] == s[e - 1]);
            }
        }
    }
    if spokes_distinct(s) && !has_spoke(s, k.start, k.end) {
        assert forall|e: int, f: int|
            0 <= e < t.len() && 0 <= f < t.len() && is_spoke(
                #[trigger] t[e],
                (#[trigger] t[f]).start,
                t[f].end,
            ) implies e == f by {
            let e0 = if e < pos { e } else { e - 1 };
            let f0 = if f < pos { f } else { f - 1 };
            if e != pos && f != pos {
                assert(t[e] == s[e0] && t[f] == s[f0]);
                assert(is_spoke(s[e0], s[f0].start, s[f0].end));
            } else if e == pos && f != pos {
                assert(t[f] == s[f0]);
                assert(is_spoke(s[f0], k.start, k.end));
            } else if f == pos && e != pos {
                assert(t[e] == s[e0]);
                assert(is_spoke(s[e0], k.start, k.end));
            }
        }
    }
}

/// Puts `k` behind the spokes that may precede it, and says where.
pub fn insert_spoke(v: &mut Vec<Spoke>, k: Spoke) -> (pos: usize)
    requires
        fan_order(old(v).deep_view()),
    ensures
        fan_order(final(v).deep_view()),
        pos <= old(v).len(),
        final(v).deep_view() == old(v).deep_view().insert(pos as int, k@),
        forall|x: int| 0 <= x < pos ==> may_precede(#[trigger] old(v).deep_view()[x], k@),
        forall|x: int|
            pos <= x < old(v).len() ==> !may_precede(#[trigger] old(v).deep_view()[x], k@),
{
    let ghost before = v.deep_view();
    let n = v.len();
    let mut i: usize = 0;
    while i < n && (v[i].start < k.start || (v[i].start == k.start && v[i].key.le(&k.key)))
        invariant
            n == v.len(),
            i <= n,
            v.deep_view() == before,
            fan_order(before),
            forall|x: int| 0 <= x < i ==> may_precede(#[trigger] before[x], k@),
        decreases n - i,
    {
        assert(before[i as int] == v[i as int]@);
        i = i + 1;
    }
    proof {
        if i < n {
            assert(before[i as int] == v[i as int]@);
            assert(!may_precede(before[i as int], k@));
            assert forall|x: int| i <= x < n implies !may_precede(#[trigger] before[x], k@) by {
                if x > i {
                    assert(may_precede(before[i as int], before[x]));
                }
            }
        }
    }
    let ghost kv = k@;
    v.insert(i, k);
    proof {
        let after = v.deep_view();
        assert(after =~= before.insert(i as int, kv));
        assert forall|a: int, b: int| 0 <= a < b < after.len() implies may_precede(
            #[trigger] after[a],
            #[trigger] after[b],
        ) by {
            if b < i {
            } else if b == i {
                assert(after[a] == before[a]);
            } else if a < i {
                assert(after[a] == before[a]);
                assert(after[b] == before[b - 1]);
            } else if a == i {
                assert(after[b] == before[b - 1]);
                if b - 1 > i {
                    assert(may_precede(before[i as int], before[b - 1]));
                }
            } else {
                assert(after[a] == before[a - 1]);
                assert(after[b] == before[b - 1]);
            }
        }
    }
    i
}

/// No segment has its two ends in one point, and no two join the same points.
pub open spec fn simple_edges(edges: Seq<Segment>) -> bool {
    &&& forall|k: int| 0 <= k < edges.len() ==> (#[trigger] edges[k]).0 != edges[k].1
    &&& forall|j: int, k: int|
        0 <= j < k < edges.len() ==> !joins(#[trigger] edges[k], (#[trigger] edges[j]).0, edges[j].1)
}

/// The points of an ascending list are all different.
pub proof fn lemma_ascending_distinct(s: Seq<Point>, i: int, j: int)
    requires
        ascending(s),
        0 <= i < s.len(),
        0 <= j < s.len(),
        s[i] == s[j],
    ensures
        i == j,
{
    if i < j {
        assert(s[i].before(s[j]));
    } else if j < i {
        assert(s[j].before(s[i]));
    }
}

/// The spokes stand for the segments: two for each, one each way.
pub open spec fn spokes_of(pts: Seq<Point>, edges: Seq<Segment>, s: Seq<SpokeView>) -> bool {
    forall|v: int, w: int|
        0 <= v < pts.len() && 0 <= w < pts.len() ==> (#[trigger] has_spoke(s, v, w) <==> joined(
            edges,
            pts[v],
            pts[w],
        ))
}

/// The spokes of one segment more stand for one segment more.
proof fn lemma_spokes_step(
    pts: Seq<Point>,
    edges: Seq<Segment>,
    i: int,
    s: Seq<SpokeView>,
    t: Seq<SpokeView>,
    ia: int,
    ib: int,
)
    requires
        ascending(pts),
        0 <= i < edges.len(),
        0 <= ia < pts.len(),
        0 <= ib < pts.len(),
        pts[ia] == edges[i].0,
        pts[ib] == edges[i].1,
        spokes_of(pts, edges.take(i), s),
        forall|v: int, w: int|
            has_spoke(t, v, w) <==> (has_spoke(s, v, w) || (v == ia && w == ib) || (v == ib && w
                == ia)),
    ensures
        spokes_of(pts, edges.take(i + 1), t),
{
    let was = edges.take(i);
    let now = edges.take(i + 1);
    assert forall|v: int, w: int| 0 <= v < pts.len() && 0 <= w < pts.len() implies (#[trigger] has_spoke(
        t,
        v,
        w,
    ) <==> joined(now, pts[v], pts[w])) by {
        assert(has_spoke(s, v, w) <==> joined(was, pts[v], pts[w]));
        if joined(was, pts[v], pts[w]) {
            let k = choose|k: int| 0 <= k < was.len() && #[trigger] joins(was[k], pts[v], pts[w]);
            assert(joins(now[k], pts[v], pts[w]));
        }
        if (v == ia && w == ib) || (v == ib && w == ia) {
            assert(joins(now[i], pts[v], pts[w]));
        }
        if joined(now, pts[v], pts[w]) {
            let k = choose|k: int| 0 <= k < now.len() && #[trigger] joins(now[k], pts[v], pts[w]);
            if k < i {
                assert(joins(was[k], pts[v], pts[w]));
            } else {
                if pts[v] == pts[ia] {
                    lemma_ascending_distinct(pts, v, ia);
                    lemma_ascending_distinct(pts, w, ib);
                } else {
                    lemma_ascending_distinct(pts, v, ib);
                    lemma_ascending_distinct(pts, w, ia);
                }
            }
        }
    }
}

/// The place in the list of the segment that joins `p` and `q`.
pub open spec fn edge_index(edges: Seq<Segment>, p: Point, q: Point) -> int {
    choose|k: int| 0 <= k < edges.len() && #[trigger] joins(edges[k], p, q)
}

/// Where no two segments join the same points, the segment that joins two
/// points has its place for itself.
pub proof fn lemma_edge_index(edges: Seq<Segment>, k: int, p: Point, q: Point)
    requires
        simple_edges(edges),
        0 <= k < edges.len(),
        joins(edges[k], p, q),
    ensures
        edge_index(edges, p, q) == k,
{
    let x = edge_index(edges, p, q);
    assert(0 <= x < edges.len() && joins(edges[x], p, q));
    if x < k {
        assert(!joins(edges[k], edges[x].0, edges[x].1));
    } else if k < x {
        assert(!joins(edges[x], edges[k].0, edges[k].1));
    }
}

/// The place of the segment for which a spoke stands.
pub open spec fn spoke_index(pts: Seq<Point>, edges: Seq<Segment>, k: SpokeView) -> int {
    edge_index(edges, pts[k.start], pts[k.end])
}

/// Spokes that leave one vertex at one angle stand in the order of their
/// segments.
pub open spec fn ties_in_order(pts: Seq<Point>, edges: Seq<Segment>, s: Seq<SpokeView>) -> bool {
    forall|e: int, f: int|
        0 <= e < f < s.len() && (#[trigger] s[e]).start == (#[trigger] s[f]).start && s[e].key
            == s[f].key ==> spoke_index(pts, edges, s[e]) < spoke_index(pts, edges, s[f])
}

/// A spoke of a later segment, put behind those that may precede it, keeps
/// the ties in order.
proof fn lemma_ties_inserted(
    pts: Seq<Point>,
    edges: Seq<Segment>,
    s: Seq<SpokeView>,
    pos: int,
    k: SpokeView,
)
    requires
        0 <= pos <= s.len(),
        ties_in_order(pts, edges, s),
        forall|x: int| 0 <= x < pos ==> may_precede(#[trigger] s[x], k),
        forall|x: int| pos <= x < s.len() ==> !may_precede(#[trigger] s[x], k),
        forall|x: int|
            0 <= x < s.len() && (#[trigger] s[x]).start == k.start ==> spoke_index(pts, edges, s[x])
                < spoke_index(pts, edges, k),
    ensures
        ties_in_order(pts, edges, s.insert(pos, k)),
{
    let t = s.insert(pos, k);
    assert forall|e: int, f: int|
        0 <= e < f < t.len() && (#[trigger] t[e]).start == (#[trigger] t[f]).start && t[e].key
            == t[f].key implies spoke_index(pts, edges, t[e]) < spoke_index(pts, edges, t[f]) by {
        let e0 = if e < pos { e } else { e - 1 };
        let f0 = if f < pos { f } else { f - 1 };
        if e != pos && f != pos {
            assert(t[e] == s[e0] && t[f] == s[f0]);
        } else if f == pos {
            assert(t[e] == s[e0]);
        } else {
            assert(t[f] == s[f0]);
            assert(!may_precede(s[f0], k));
        }
    }
}

/// Every spoke stands for a segment among the first `i`.
proof fn lemma_spoke_index_bound(
    pts: Seq<Point>,
    edges: Seq<Segment>,
    i: int,
    s: Seq<SpokeView>,
    x: int,
)
    requires
        simple_edges(edges),
        0 <= i <= edges.len(),
        spokes_valid(pts, s),
        spokes_of(pts, edges.take(i), s),
        0 <= x < s.len(),
    ensures
        0 <= spoke_index(pts, edges, s[x]) < i,
{
    let k = s[x];
    assert(spoke_valid(pts, k));
    assert(is_spoke(s[x], k.start, k.end));
    assert(has_spoke(s, k.start, k.end));
    let part = edges.take(i);
    assert(joined(part, pts[k.start], pts[k.end]));
    let j = choose|j: int| 0 <= j < part.len() && #[trigger] joins(part[j], pts[k.start], pts[k.end]);
    assert(part[j] == edges[j]);
    lemma_edge_index(edges, j, pts[k.start], pts[k.end]);
}

/// For every segment its two spokes, in fan order.
pub fn build_spokes(pts: &Vec<Pt>, edges: &[(Pt, Pt)]) -> (r: Vec<Spoke>)
    requires
        ascending(pts.deep_view()),
        forall|p: Point| pts.deep_view().contains(p) <==> is_end_point(edges.deep_view(), p),
        simple_edges(edges.deep_view()),
    ensures
        r.len() == 2 * edges.len(),
        fan_order(r.deep_view()),
        spokes_valid(pts.deep_view(), r.deep_view()),
        spokes_distinct(r.deep_view()),
        spokes_of(pts.deep_view(), edges.deep_view(), r.deep_view()),
        ties_in_order(pts.deep_view(), edges.deep_view(), r.deep_view()),
{
    let ghost ps = pts.deep_view();
    let ghost es = edges.deep_view();
    let n = edges.len();
    let mut spokes: Vec<Spoke> = Vec::new();
    let mut i: usize = 0;
    proof {
        let s = spokes.deep_view();
        assert forall|v: int, w: int| 0 <= v < ps.len() && 0 <= w < ps.len() implies (#[trigger] has_spoke(
            s,
            v,
            w,
        ) <==> joined(es.take(0), ps[v], ps[w])) by {
            if joined(es.take(0), ps[v], ps[w]) {
                let k = choose|k: int|
                    0 <= k < es.take(0).len() && #[trigger] joins(es.take(0)[k], ps[v], ps[w]);
            }
        }
    }
    while i < n
        invariant
            n == edges.len(),
            ps == pts.deep_view(),
            es == edges.deep_view(),
            ascending(ps),
            forall|p: Point| ps.contains(p) <==> is_end_point(es, p),
            simple_edges(es),
            i <= n,
            spokes.len() == 2 * i,
            fan_order(spokes.deep_view()),
            spokes_valid(ps, spokes.deep_view()),
            spokes_distinct(spokes.deep_view()),
            spokes_of(ps, es.take(i as int), spokes.deep_view()),
            ties_in_order(ps, es, spokes.deep_view()),
        decreases n - i,
    {
        let e = &edges[i];
        let ghost s0 = spokes.deep_view();
        proof {
            assert(es[i as int] == (e.0@, e.1@));
            assert(touches(es[i as int], e.0@));
            assert(touches(es[i as int], e.1@));
            assert(ps.contains(e.0@));
            assert(ps.contains(e.1@));
        }
        let ia = match find_point(pts, &e.0) {
            Some(x) => x,
            None => unreached(),
        };
        let ib = match find_point(pts, &e.1) {
            Some(x) => x,
            None => unreached(),
        };
        proof {
            assert(ps[ia as int] == e.0@);
            assert(ps[ib as int] == e.1@);
            assert(ia != ib);
            if has_spoke(s0, ia as int, ib as int) || has_spoke(s0, ib as int, ia as int) {
                let was = es.take(i as int);
                assert(joined(was, e.0@, e.1@) || joined(was, e.1@, e.0@));
                if joined(was, e.0@, e.1@) {
                    let k = choose|k: int| 0 <= k < was.len() && #[trigger] joins(was[k], e.0@, e.1@);
                    assert(was[k] == es[k]);
                    assert(!joins(es[i as int], es[k].0, es[k].1));
                } else {
                    let k = choose|k: int| 0 <= k < was.len() && #[trigger] joins(was[k], e.1@, e.0@);
                    assert(was[k] == es[k]);
                    assert(!joins(es[i as int], es[k].0, es[k].1));
                }
            }
        }
        let out = Spoke { start: ia, end: ib, key: pts[ib].sub(&pts[ia]).angle() };
        let back = Spoke { start: ib, end: ia, key: pts[ia].sub(&pts[ib]).angle() };
        let ghost k1 = out@;
        let ghost k2 = back@;
        let first = insert_spoke(&mut spokes, out);
        let ghost s1 = spokes.deep_view();
        let second = insert_spoke(&mut spokes, back);
        proof {
            let s2 = spokes.deep_view();
            lemma_spoke_inserted(ps, s0, first as int, k1);
            lemma_spoke_inserted(ps, s1, second as int, k2);
            assert(joins(es[i as int], ps[ia as int], ps[ib as int]));
            assert(joins(es[i as int], ps[ib as int], ps[ia as int]));
            lemma_edge_index(es, i as int, ps[ia as int], ps[ib as int]);
            lemma_edge_index(es, i as int, ps[ib as int], ps[ia as int]);
            assert forall|x: int| 0 <= x < s0.len() implies spoke_index(ps, es, #[trigger] s0[x])
                < i by {
                lemma_spoke_index_bound(ps, es, i as int, s0, x);
            }
            lemma_ties_inserted(ps, es, s0, first as int, k1);
            assert forall|x: int|
                0 <= x < s1.len() && (#[trigger] s1[x]).start == k2.start implies spoke_index(
                ps,
                es,
                s1[x],
            ) < spoke_index(ps, es, k2) by {
                if x < first {
                    assert(s1[x] == s0[x]);
                } else if x > first {
                    assert(s1[x] == s0[x - 1]);
                }
            }
            lemma_ties_inserted(ps, es, s1, second as int, k2);
            assert(!has_spoke(s1, ib as int, ia as int));
            assert forall|v: int, w: int|
                has_spoke(s2, v, w) <==> (has_spoke(s0, v, w) || (v == ia && w == ib) || (v == ib
                    && w == ia)) by {
                assert(has_spoke(s2, v, w) <==> (has_spoke(s1, v, w) || is_spoke(k2, v, w)));
                assert(has_spoke(s1, v, w) <==> (has_spoke(s0, v, w) || is_spoke(k1, v, w)));
            }
            lemma_spokes_step(ps, es, i as int, s0, s2, ia as int, ib as int);
        }
        i = i + 1;
    }
    assert(es.take(n as int) =~= es);
    spokes
}

/// The index of a vertex.
#[derive(PartialEq, Eq, Clone, Copy, Debug, Hash)]
pub struct Vertex(u32);

impl Tyndex for Vertex {
    open spec fn fits(i: usize) -> bool {
        i <= u32::MAX
    }

    closed spec fn position(self) -> usize {
        self.0 as usize
    }

    proof fn position_is_injective(a: Self, b: Self) {
    }

    fn from_index(i: usize) -> Self {
        Self(i as u32)
    }

    fn to_index(self) -> usize {
        self.0 as usize
    }
}

/// The index of a half-edge.
#[derive(PartialEq, Eq, Clone, Copy, Debug)]
pub struct HalfEdge(u32);

impl Tyndex for HalfEdge {
    open spec fn fits(i: usize) -> bool {
        i <= u32::MAX
    }

    closed spec fn position(self) -> usize {
        self.0 as usize
    }

    proof fn position_is_injective(a: Self, b: Self) {
    }

    fn from_index(i: usize) -> Self {
        Self(i as u32)
    }

    fn to_index(self) -> usize {
        self.0 as usize
    }
}

/// The index of a face.
#[derive(PartialEq, Eq, Clone, Copy, Debug)]
pub struct Poly(u32);

impl Tyndex for Poly {
    open spec fn fits(i: usize) -> bool {
        i <= u32::MAX
    }

    closed spec fn position(self) -> usize {
        self.0 as usize
    }

    proof fn position_is_injective(a: Self, b: Self) {
    }

    fn from_index(i: usize) -> Self {
        Self(i as u32)
    }

    fn to_index(self) -> usize {
        self.0 as usize
    }
}

/// What a [`Mesh`] holds, as plain mathematical values: points, and tables
/// of positions.
pub ghost struct MeshView {
    pub pts: Seq<Point>,
    pub first_out: Seq<usize>,
    pub starts: Seq<usize>,
    pub ends: Seq<usize>,
    pub opposite: Seq<usize>,
    pub prev: Seq<usize>,
    pub next: Seq<usize>,
    pub he_poly: Seq<usize>,
    pub poly_he: Seq<usize>,
    pub poly_real: Seq<bool>,
}

/// A half-edge mesh: vertices, half-edges with their links, and faces.
#[derive(Debug)]
pub struct Mesh {
    /// The vertices, in the canonical order of points.
    pub pts: TyVec<Vertex, Pt>,
    /// For each vertex the position of the first half-edge that leaves it,
    /// and one entry more, the number of half-edges.
    pub first_out: Vec<usize>,
    /// Start and end of each half-edge.
    pub half_edges: TyVec<HalfEdge, (Vertex, Vertex)>,
    pub opposite: TyVec<HalfEdge, HalfEdge>,
    pub prev: TyVec<HalfEdge, HalfEdge>,
    pub next: TyVec<HalfEdge, HalfEdge>,
    /// The face on whose boundary each half-edge lies.
    pub he_poly: TyVec<HalfEdge, Poly>,
    /// One half-edge of the boundary of each face.
    pub poly_he: TyVec<Poly, HalfEdge>,
    /// Whether the face is solid: neither the outside nor a hole.
    pub poly_real: TyVec<Poly, bool>,
}

impl View for Mesh {
    type V = MeshView;

    open spec fn view(&self) -> MeshView {
        MeshView {
            pts: self.pts.raw.deep_view(),
            first_out: self.first_out@,
            starts: Seq::new(self.half_edges@.len(), |e: int| self.half_edges@[e].0.position()),
            ends: Seq::new(self.half_edges@.len(), |e: int| self.half_edges@[e].1.position()),
            opposite: positions(self.opposite@),
            prev: positions(self.prev@),
            next: positions(self.next@),
            he_poly: positions(self.he_poly@),
            poly_he: positions(self.poly_he@),
            poly_real: self.poly_real@,
        }
    }
}

impl MeshView {
    /// The angle key of the direction of half-edge `e`.
    pub open spec fn key(self, e: int) -> real {
        angle_key(self.pts[self.ends[e] as int].minus(self.pts[self.starts[e] as int]))
    }

    /// Whether half-edge `e` leads from `p` to `q`.
    pub open spec fn leads(self, e: int, p: Point, q: Point) -> bool {
        &&& 0 <= e < self.starts.len()
        &&& self.pts[self.starts[e] as int] == p
        &&& self.pts[self.ends[e] as int] == q
    }

    /// Whether some half-edge leads from `p` to `q`.
    pub open spec fn connects(self, p: Point, q: Point) -> bool {
        exists|e: int| #[trigger] self.leads(e, p, q)
    }

    /// Whether face `f` lies to the left of the half-edge that leads from
    /// the second vertex of `poly` back to the first: the side away from a
    /// polygon that runs the other way.
    pub open spec fn lies_behind(self, poly: Seq<Point>, f: int) -> bool {
        exists|e: int| #[trigger] self.leads(e, poly[1], poly[0]) && self.he_poly[e] == f
    }

    /// Whether face `f` is the outside of the outer polygon or the inside of
    /// a hole.
    pub open spec fn is_void(self, t: TaskView, f: int) -> bool {
        self.lies_behind(t.outer, f) || exists|h: int|
            0 <= h < t.holes.len() && #[trigger] self.lies_behind(t.holes[h], f)
    }
}

/// The tasks of which a mesh can be built: the skeleton has no segment twice
/// and none without length, it holds the segment between the first two
/// vertices of the outer polygon and of every hole, and the half-edges can be
/// counted in 32 bits.
pub open spec fn meshable(t: TaskView) -> bool {
    &&& 2 * t.skeleton.len() <= u32::MAX
    &&& simple_edges(t.skeleton)
    &&& t.outer.len() >= 2
    &&& joined(t.skeleton, t.outer[1], t.outer[0])
    &&& forall|h: int|
        0 <= h < t.holes.len() ==> (#[trigger] t.holes[h]).len() >= 2 && joined(
            t.skeleton,
            t.holes[h][1],
            t.holes[h][0],
        )
}

/// The half-edges leave vertex after vertex, and each vertex by ascending
/// angle key.
pub open spec fn in_fan_order(m: MeshView) -> bool {
    forall|e: int, f: int|
        0 <= e < f < m.starts.len() ==> #[trigger] m.starts[e] < #[trigger] m.starts[f] || (m.starts[e]
            == m.starts[f] && m.key(e) <= m.key(f))
}

/// Half-edges that leave one vertex at one angle stand in the order of
/// their segments in the skeleton.
pub open spec fn ties_in_skeleton_order(m: MeshView, t: TaskView) -> bool {
    forall|e: int, f: int|
        0 <= e < f < m.starts.len() && #[trigger] m.starts[e] == #[trigger] m.starts[f] && m.key(e)
            == m.key(f) ==> edge_index(
            t.skeleton,
            m.pts[m.starts[e] as int],
            m.pts[m.ends[e] as int],
        ) < edge_index(t.skeleton, m.pts[m.starts[f] as int], m.pts[m.ends[f] as int])
}

/// Whether `m` is the mesh of task `t`.
pub open spec fn is_mesh_of(m: MeshView, t: TaskView) -> bool {
    &&& ascending(m.pts)
    &&& forall|p: Point| m.pts.contains(p) <==> is_end_point(t.skeleton, p)
    &&& m.starts.len() == 2 * t.skeleton.len()
    &&& within(m.starts, m.ends, m.pts.len() as int)
    &&& distinct_pairs(m.starts, m.ends)
    &&& forall|p: Point, q: Point| #[trigger] m.connects(p, q) <==> joined(t.skeleton, p, q)
    &&& in_fan_order(m)
    &&& ties_in_skeleton_order(m, t)
    &&& is_offsets(m.first_out, m.starts, m.pts.len() as int)
    &&& is_opposite(m.starts, m.ends, m.opposite)
    &&& is_linked(m.first_out, m.starts, m.opposite, m.prev, m.next)
    &&& is_rotation(m.prev, m.next)
    &&& is_faces(m.next, m.he_poly, m.poly_he)
    &&& m.poly_real.len() == m.poly_he.len()
    &&& forall|f: int| 0 <= f < m.poly_real.len() ==> #[trigger] m.poly_real[f] == !m.is_void(t, f)
}

/// The tables of a mesh with plain positions, as they are while it is built.
pub struct Tables {
    pub pts: Vec<Pt>,
    pub first_out: Vec<usize>,
    pub starts: Vec<usize>,
    pub ends: Vec<usize>,
    pub opposite: Vec<usize>,
    pub prev: Vec<usize>,
    pub next: Vec<usize>,
    pub he_poly: Vec<usize>,
    pub poly_he: Vec<usize>,
    pub poly_real: Vec<bool>,
}

impl View for Tables {
    type V = MeshView;

    open spec fn view(&self) -> MeshView {
        MeshView {
            pts: self.pts.deep_view(),
            first_out: self.first_out@,
            starts: self.starts@,
            ends: self.ends@,
            opposite: self.opposite@,
            prev: self.prev@,
            next: self.next@,
            he_poly: self.he_poly@,
            poly_he: self.poly_he@,
            poly_real: self.poly_real@,
        }
    }
}

/// Start and end of every spoke, in two lists.
fn split_spokes(spokes: &Vec<Spoke>) -> (r: (Vec<usize>, Vec<usize>))
    ensures
        r.0.len() == spokes.len(),
        r.1.len() == spokes.len(),
        forall|e: int| 0 <= e < spokes.len() ==> #[trigger] r.0[e] == spokes[e].start,
        forall|e: int| 0 <= e < spokes.len() ==> #[trigger] r.1[e] == spokes[e].end,
{
    let mut starts: Vec<usize> = Vec::new();
    let mut ends: Vec<usize> = Vec::new();
    let mut i: usize = 0;
    while i < spokes.len()
        invariant
            i <= spokes.len(),
            starts.len() == i,
            ends.len() == i,
            forall|e: int| 0 <= e < i ==> #[trigger] starts[e] == spokes[e].start,
            forall|e: int| 0 <= e < i ==> #[trigger] ends[e] == spokes[e].end,
        decreases spokes.len() - i,
    {
        starts.push(spokes[i].start);
        ends.push(spokes[i].end);
        i = i + 1;
    }
    (starts, ends)
}

/// A segment that joins two points has both as ends, and joins them the
/// other way round too.
pub proof fn lemma_joined(edges: Seq<Segment>, p: Point, q: Point)
    requires
        joined(edges, p, q),
    ensures
        joined(edges, q, p),
        is_end_point(edges, p),
        is_end_point(edges, q),
{
    let k = choose|k: int| 0 <= k < edges.len() && #[trigger] joins(edges[k], p, q);
    assert(joins(edges[k], q, p));
    assert(touches(edges[k], p));
    assert(touches(edges[k], q));
}

/// What the lists of starts and ends inherit from the spokes.
proof fn lemma_spokes_to_links(
    pts: Seq<Point>,
    edges: Seq<Segment>,
    s: Seq<SpokeView>,
    starts: Seq<usize>,
    ends: Seq<usize>,
)
    requires
        fan_order(s),
        spokes_valid(pts, s),
        spokes_distinct(s),
        spokes_of(pts, edges, s),
        starts.len() == s.len(),
        ends.len() == s.len(),
        forall|e: int| 0 <= e < s.len() ==> #[trigger] starts[e] == s[e].start,
        forall|e: int| 0 <= e < s.len() ==> #[trigger] ends[e] == s[e].end,
    ensures
        grouped(starts),
        within(starts, ends, pts.len() as int),
        distinct_pairs(starts, ends),
        paired(starts, ends),
{
    assert forall|i: int, j: int| 0 <= i < j < starts.len() implies starts[i] <= starts[j] by {
        assert(may_precede(s[i], s[j]));
    }
    assert forall|e: int| 0 <= e < starts.len() implies #[trigger] starts[e] < pts.len() by {
        assert(spoke_valid(pts, s[e]));
    }
    assert forall|e: int| 0 <= e < ends.len() implies #[trigger] ends[e] < pts.len() by {
        assert(spoke_valid(pts, s[e]));
    }
    assert forall|e: int, f: int|
        0 <= e < starts.len() && 0 <= f < starts.len() && #[trigger] starts[e] == #[trigger] starts[f]
            && ends[e] == ends[f] implies e == f by {
        assert(is_spoke(s[e], s[f].start, s[f].end));
    }
    assert forall|e: int| 0 <= e < starts.len() implies #[trigger] has_reverse(starts, ends, e) by {
        let v = s[e].start;
        let w = s[e].end;
        assert(spoke_valid(pts, s[e]));
        assert(is_spoke(s[e], v, w));
        assert(has_spoke(s, v, w));
        lemma_joined(edges, pts[v], pts[w]);
        assert(has_spoke(s, w, v));
        let f = choose|f: int| 0 <= f < s.len() && #[trigger] is_spoke(s[f], w, v);
        assert(reverse_of(starts, ends, e, f));
    }
}

/// The half-edges connect what the segments join.
proof fn lemma_connects(m: MeshView, edges: Seq<Segment>, s: Seq<SpokeView>)
    requires
        ascending(m.pts),
        forall|p: Point| m.pts.contains(p) <==> is_end_point(edges, p),
        spokes_valid(m.pts, s),
        spokes_of(m.pts, edges, s),
        m.starts.len() == s.len(),
        m.ends.len() == s.len(),
        forall|e: int| 0 <= e < s.len() ==> #[trigger] m.starts[e] == s[e].start,
        forall|e: int| 0 <= e < s.len() ==> #[trigger] m.ends[e] == s[e].end,
    ensures
        forall|p: Point, q: Point| #[trigger] m.connects(p, q) <==> joined(edges, p, q),
{
    assert forall|p: Point, q: Point| #[trigger] m.connects(p, q) <==> joined(edges, p, q) by {
        if m.connects(p, q) {
            let e = choose|e: int| #[trigger] m.leads(e, p, q);
            assert(spoke_valid(m.pts, s[e]));
            assert(is_spoke(s[e], s[e].start, s[e].end));
            assert(has_spoke(s, s[e].start, s[e].end));
        }
        if joined(edges, p, q) {
            lemma_joined(edges, p, q);
            assert(m.pts.contains(p));
            assert(m.pts.contains(q));
            let v = choose|v: int| 0 <= v < m.pts.len() && m.pts[v] == p;
            let w = choose|w: int| 0 <= w < m.pts.len() && m.pts[w] == q;
            assert(has_spoke(s, v, w));
            let e = choose|e: int| 0 <= e < s.len() && #[trigger] is_spoke(s[e], v, w);
            assert(m.leads(e, p, q));
        }
    }
}

/// Takes from the solid faces the one that lies behind `poly`.
fn mark_void(
    pts: &Vec<Pt>,
    starts: &Vec<usize>,
    ends: &Vec<usize>,
    first: &Vec<usize>,
    he_poly: &Vec<usize>,
    poly: &Vec<Pt>,
    solid: &mut Vec<bool>,
    Ghost(m): Ghost<MeshView>,
)
    requires
        m.pts == pts.deep_view(),
        m.starts == starts@,
        m.ends == ends@,
        m.he_poly == he_poly@,
        ascending(m.pts),
        within(m.starts, m.ends, m.pts.len() as int),
        distinct_pairs(m.starts, m.ends),
        is_offsets(first@, m.starts, m.pts.len() as int),
        he_poly.len() == starts.len(),
        forall|e: int| 0 <= e < he_poly.len() ==> #[trigger] he_poly[e] < old(solid).len(),
        poly.len() >= 2,
        m.connects(poly[1]@, poly[0]@),
    ensures
        final(solid).len() == old(solid).len(),
        forall|f: int|
            0 <= f < old(solid).len() ==> #[trigger] final(solid)[f] == (old(solid)[f] && !m.lies_behind(
                poly.deep_view(),
                f,
            )),
{
    let ghost e0 = choose|e: int| #[trigger] m.leads(e, poly[1]@, poly[0]@);
    proof {
        assert(m.leads(e0, poly[1]@, poly[0]@));
        assert(m.pts.contains(poly[1]@));
        assert(m.pts.contains(poly[0]@));
    }
    let ia = match find_point(pts, &poly[1]) {
        Some(x) => x,
        None => unreached(),
    };
    let ib = match find_point(pts, &poly[0]) {
        Some(x) => x,
        None => unreached(),
    };
    proof {
        lemma_ascending_distinct(m.pts, ia as int, m.starts[e0] as int);
        lemma_ascending_distinct(m.pts, ib as int, m.ends[e0] as int);
    }
    let e = match find_half_edge(starts, ends, first, ia, ib) {
        Some(x) => x,
        None => unreached(),
    };
    let ghost was = solid@;
    let f0 = he_poly[e];
    solid.set(f0, false);
    proof {
        let ps = poly.deep_view();
        assert(ps[1] == poly[1]@ && ps[0] == poly[0]@);
        assert(m.leads(e as int, ps[1], ps[0]));
        assert forall|f: int| 0 <= f < was.len() implies #[trigger] solid[f] == (was[f]
            && !m.lies_behind(ps, f)) by {
            if m.lies_behind(ps, f) {
                let x = choose|x: int| #[trigger] m.leads(x, ps[1], ps[0]) && m.he_poly[x] == f;
                lemma_ascending_distinct(m.pts, ia as int, m.starts[x] as int);
                lemma_ascending_distinct(m.pts, ib as int, m.ends[x] as int);
                assert(x == e);
            }
            if f == f0 {
                assert(m.leads(e as int, ps[1], ps[0]) && m.he_poly[e as int] == f);
            }
        }
    }
}

impl Tables {
    /// The mesh of a task, with plain positions.
    pub fn build(task: &Task) -> (r: Tables)
        requires
            meshable(task@),
        ensures
            is_mesh_of(r@, task@),
            r.pts.len() <= r.starts.len(),
    {
        let ghost t = task@;
        let edges = task.skeleton.as_slice();
        assert(edges.deep_view() =~= t.skeleton);
        let pts = collect_points(edges);
        let spokes = build_spokes(&pts, edges);
        let (starts, ends) = split_spokes(&spokes);
        proof {
            lemma_spokes_to_links(pts.deep_view(), t.skeleton, spokes.deep_view(), starts@, ends@);
        }
        let first_out = group_offsets(&starts, pts.len());
        let opposite = opposites(&starts, &ends, &first_out);
        let (prev, next) = link(&starts, &ends, &first_out, &opposite);
        let (he_poly, poly_he) = faces(&prev, &next);
        let ghost m0 = MeshView {
            pts: pts.deep_view(),
            first_out: first_out@,
            starts: starts@,
            ends: ends@,
            opposite: opposite@,
            prev: prev@,
            next: next@,
            he_poly: he_poly@,
            poly_he: poly_he@,
            poly_real: Seq::empty(),
        };
        proof {
            lemma_connects(m0, t.skeleton, spokes.deep_view());
            assert(task.outer.deep_view()[1] == task.outer[1]@);
            assert(task.outer.deep_view()[0] == task.outer[0]@);
        }
        let mut poly_real: Vec<bool> = Vec::new();
        let mut f: usize = 0;
        while f < poly_he.len()
            invariant
                f <= poly_he.len(),
                poly_real.len() == f,
                forall|x: int| 0 <= x < f ==> #[trigger] poly_real[x],
            decreases poly_he.len() - f,
        {
            poly_real.push(true);
            f = f + 1;
        }
        mark_void(&pts, &starts, &ends, &first_out, &he_poly, &task.outer, &mut poly_real, Ghost(m0));
        let mut h: usize = 0;
        while h < task.holes.len()
            invariant
                t == task@,
                meshable(t),
                h <= task.holes.len(),
                m0.pts == pts.deep_view(),
                m0.starts == starts@,
                m0.ends == ends@,
                m0.he_poly == he_poly@,
                ascending(m0.pts),
                within(m0.starts, m0.ends, m0.pts.len() as int),
                distinct_pairs(m0.starts, m0.ends),
                is_offsets(first_out@, m0.starts, m0.pts.len() as int),
                he_poly.len() == starts.len(),
                poly_real.len() == poly_he.len(),
                forall|e: int| 0 <= e < he_poly.len() ==> #[trigger] he_poly[e] < poly_he.len(),
                forall|p: Point, q: Point| #[trigger] m0.connects(p, q) <==> joined(t.skeleton, p, q),
                forall|x: int|
                    0 <= x < poly_real.len() ==> #[trigger] poly_real[x] == !(m0.lies_behind(t.outer, x)
                        || exists|g: int| 0 <= g < h && #[trigger] m0.lies_behind(t.holes[g], x)),
            decreases task.holes.len() - h,
        {
            let hole = &task.holes[h];
            let ghost was = poly_real@;
            proof {
                assert(t.holes[h as int] == hole.deep_view());
                assert(t.holes[h as int].len() >= 2);
                assert(hole.deep_view()[1] == hole[1]@);
                assert(hole.deep_view()[0] == hole[0]@);
            }
            mark_void(&pts, &starts, &ends, &first_out, &he_poly, hole, &mut poly_real, Ghost(m0));
            proof {
                assert forall|x: int| 0 <= x < poly_real.len() implies #[trigger] poly_real[x] == !(
                m0.lies_behind(t.outer, x) || exists|g: int|
                    0 <= g < h + 1 && #[trigger] m0.lies_behind(t.holes[g], x)) by {
                    assert(poly_real[x] == (was[x] && !m0.lies_behind(t.holes[h as int], x)));
                    if exists|g: int| 0 <= g < h + 1 && #[trigger] m0.lies_behind(t.holes[g], x) {
                        let g = choose|g: int| 0 <= g < h + 1 && #[trigger] m0.lies_behind(t.holes[g], x);
                        if g < h {
                            assert(0 <= g < h && m0.lies_behind(t.holes[g], x));
                        }
                    }
                    if exists|g: int| 0 <= g < h && #[trigger] m0.lies_behind(t.holes[g], x) {
                        let g = choose|g: int| 0 <= g < h && #[trigger] m0.lies_behind(t.holes[g], x);
                        assert(0 <= g < h + 1 && m0.lies_behind(t.holes[g], x));
                    }
                }
            }
            h = h + 1;
        }
        let r = Tables {
            pts,
            first_out,
            starts,
            ends,
            opposite,
            prev,
            next,
            he_poly,
            poly_he,
            poly_real,
        };
        proof {
            let m = r@;
            let s = spokes.deep_view();
            assert forall|e: int, f: int| 0 <= e < f < m.starts.len() implies #[trigger] m.starts[e]
                < #[trigger] m.starts[f] || (m.starts[e] == m.starts[f] && m.key(e) <= m.key(f)) by {
                assert(may_precede(s[e], s[f]));
                assert(spoke_valid(m.pts, s[e]));
                assert(spoke_valid(m.pts, s[f]));
            }
            assert forall|e: int, f: int|
                0 <= e < f < m.starts.len() && #[trigger] m.starts[e] == #[trigger] m.starts[f]
                    && m.key(e) == m.key(f) implies edge_index(
                t.skeleton,
                m.pts[m.starts[e] as int],
                m.pts[m.ends[e] as int],
            ) < edge_index(t.skeleton, m.pts[m.starts[f] as int], m.pts[m.ends[f] as int]) by {
                assert(spoke_valid(m.pts, s[e]));
                assert(spoke_valid(m.pts, s[f]));
                assert(spoke_index(m.pts, t.skeleton, s[e]) < spoke_index(m.pts, t.skeleton, s[f]));
            }
            assert forall|p: Point, q: Point| #[trigger] m.connects(p, q) <==> joined(t.skeleton, p, q) by {
                assert(m0.connects(p, q) <==> joined(t.skeleton, p, q));
                if m.connects(p, q) {
                    let e = choose|e: int| #[trigger] m.leads(e, p, q);
                    assert(m0.leads(e, p, q));
                }
                if m0.connects(p, q) {
                    let e = choose|e: int| #[trigger] m0.leads(e, p, q);
                    assert(m.leads(e, p, q));
                }
            }
            assert forall|f: int| 0 <= f < m.poly_real.len() implies #[trigger] m.poly_real[f]
                == !m.is_void(t, f) by {
                lemma_same_void(m0, m, t, f);
            }
        }
        r
    }
}

/// Which faces are void does not depend on the table that says so.
proof fn lemma_same_void(a: MeshView, b: MeshView, t: TaskView, f: int)
    requires
        a.pts == b.pts,
        a.starts == b.starts,
        a.ends == b.ends,
        a.he_poly == b.he_poly,
    ensures
        a.is_void(t, f) == b.is_void(t, f),
{
    assert forall|poly: Seq<Point>| a.lies_behind(poly, f) == b.lies_behind(poly, f) by {
        if a.lies_behind(poly, f) {
            let e = choose|e: int| #[trigger] a.leads(e, poly[1], poly[0]) && a.he_poly[e] == f;
            assert(b.leads(e, poly[1], poly[0]));
        }
        if b.lies_behind(poly, f) {
            let e = choose|e: int| #[trigger] b.leads(e, poly[1], poly[0]) && b.he_poly[e] == f;
            assert(a.leads(e, poly[1], poly[0]));
        }
    }
    if a.is_void(t, f) && !a.lies_behind(t.outer, f) {
        let h = choose|h: int| 0 <= h < t.holes.len() && #[trigger] a.lies_behind(t.holes[h], f);
        assert(b.lies_behind(t.holes[h], f));
    }
    if b.is_void(t, f) && !b.lies_behind(t.outer, f) {
        let h = choose|h: int| 0 <= h < t.holes.len() && #[trigger] b.lies_behind(t.holes[h], f);
        assert(a.lies_behind(t.holes[h], f));
    }
}

/// The invariants of a doubly connected edge list: `opposite` is its own
/// inverse, `next` and `prev` are inverse to each other, and every half-edge
/// lies on the cycle of exactly one face.
pub open spec fn is_dcel(m: MeshView) -> bool {
    &&& forall|e: int|
        0 <= e < m.opposite.len() ==> 0 <= #[trigger] m.opposite[e] < m.opposite.len()
            && m.opposite[m.opposite[e] as int] == e
    &&& is_rotation(m.prev, m.next)
    &&& forall|e: int|
        0 <= e < m.next.len() ==> 0 <= #[trigger] m.he_poly[e] < m.poly_he.len() && reaches(
            m.next,
            m.poly_he[m.he_poly[e] as int] as int,
            e,
        )
    &&& forall|e: int, f: int|
        0 <= e < m.next.len() && 0 <= f < m.poly_he.len() && #[trigger] reaches(
            m.next,
            m.poly_he[f] as int,
            e,
        ) ==> m.he_poly[e] == f
}

/// Along `next` the face stays the same.
pub proof fn lemma_walk_keeps_face(
    next: Seq<usize>,
    he_poly: Seq<usize>,
    poly_he: Seq<usize>,
    e: int,
    k: nat,
)
    requires
        is_faces(next, he_poly, poly_he),
        forall|x: int| 0 <= x < next.len() ==> #[trigger] next[x] < next.len(),
        0 <= e < next.len(),
    ensures
        0 <= walk(next, e, k) < next.len(),
        he_poly[walk(next, e, k)] == he_poly[e],
    decreases k,
{
    if k > 0 {
        lemma_walk_keeps_face(next, he_poly, poly_he, e, (k - 1) as nat);
        let x = walk(next, e, (k - 1) as nat);
        assert(he_poly[next[x] as int] == he_poly[x]);
    }
}

/// The half-edges that stand for the faces, being in ascending order, are
/// no fewer than the faces before them.
pub proof fn lemma_faces_counted(next: Seq<usize>, he_poly: Seq<usize>, poly_he: Seq<usize>, f: int)
    requires
        is_faces(next, he_poly, poly_he),
        0 <= f < poly_he.len(),
    ensures
        f <= poly_he[f],
        poly_he.len() <= next.len(),
    decreases poly_he.len() - f,
{
    if f > 0 {
        lemma_faces_low(poly_he, f);
    }
    if f + 1 < poly_he.len() {
        lemma_faces_counted(next, he_poly, poly_he, f + 1);
    } else {
        assert(poly_he[f] < next.len());
    }
}

/// In an ascending list of numbers each is at least its place.
proof fn lemma_faces_low(poly_he: Seq<usize>, f: int)
    requires
        forall|a: int, b: int|
            0 <= a < b < poly_he.len() ==> #[trigger] poly_he[a] < #[trigger] poly_he[b],
        0 <= f < poly_he.len(),
    ensures
        f <= poly_he[f],
    decreases f,
{
    if f > 0 {
        lemma_faces_low(poly_he, f - 1);
        assert(poly_he[f - 1] < poly_he[f]);
    }
}

/// Every mesh of a task keeps the invariants of a doubly connected edge
/// list.
pub proof fn lemma_mesh_is_dcel(m: MeshView, t: TaskView)
    requires
        is_mesh_of(m, t),
    ensures
        is_dcel(m),
{
    assert forall|e: int| 0 <= e < m.opposite.len() implies 0 <= #[trigger] m.opposite[e]
        < m.opposite.len() && m.opposite[m.opposite[e] as int] == e by {
        lemma_opposite_involution(m.starts, m.ends, m.opposite, e);
    }
    assert forall|e: int, f: int|
        0 <= e < m.next.len() && 0 <= f < m.poly_he.len() && #[trigger] reaches(
            m.next,
            m.poly_he[f] as int,
            e,
        ) implies m.he_poly[e] == f by {
        let k = choose|k: nat| walk(m.next, m.poly_he[f] as int, k) == e;
        lemma_walk_keeps_face(m.next, m.he_poly, m.poly_he, m.poly_he[f] as int, k);
    }
}

/// Round a face the half-edges follow each other: each begins where the one
/// before it ends.
pub proof fn lemma_next_continues(m: MeshView, t: TaskView, e: int)
    requires
        is_mesh_of(m, t),
        0 <= e < m.next.len(),
    ensures
        m.starts[m.next[e] as int] == m.ends[e],
        m.ends[m.prev[e] as int] == m.starts[e],
{
    let nv = m.pts.len() as int;
    let x = m.next[e] as int;
    assert(m.prev[x] == e);
    lemma_around(m.first_out, m.starts, nv, x);
    lemma_around(m.first_out, m.starts, nv, e);
    let ax = around(m.first_out, m.starts, x);
    let ae = around(m.first_out, m.starts, e);
    assert(m.prev[x] == m.opposite[ax]);
    assert(m.prev[e] == m.opposite[ae]);
    assert(reverse_of(m.starts, m.ends, ax, m.opposite[ax] as int));
    assert(reverse_of(m.starts, m.ends, ae, m.opposite[ae] as int));
}

/// Behind a polygon whose first edge is in the skeleton lies one face of
/// the mesh and no other, and that face is not solid.
pub proof fn lemma_one_face_behind(m: MeshView, t: TaskView, poly: Seq<Point>)
    requires
        is_mesh_of(m, t),
        joined(t.skeleton, poly[1], poly[0]),
        poly == t.outer || exists|h: int| 0 <= h < t.holes.len() && t.holes[h] == poly,
    ensures
        exists|f: int| 0 <= f < m.poly_real.len() && #[trigger] m.lies_behind(poly, f),
        forall|f: int, g: int| m.lies_behind(poly, f) && m.lies_behind(poly, g) ==> f == g,
        forall|f: int|
            0 <= f < m.poly_real.len() && m.lies_behind(poly, f) ==> !(#[trigger] m.poly_real[f]),
{
    assert(m.connects(poly[1], poly[0]));
    let e = choose|e: int| #[trigger] m.leads(e, poly[1], poly[0]);
    let f0 = m.he_poly[e] as int;
    assert(m.leads(e, poly[1], poly[0]) && m.he_poly[e] == f0);
    assert(m.lies_behind(poly, f0));
    assert forall|f: int, g: int| m.lies_behind(poly, f) && m.lies_behind(poly, g) implies f
        == g by {
        let x = choose|x: int| #[trigger] m.leads(x, poly[1], poly[0]) && m.he_poly[x] == f;
        let y = choose|y: int| #[trigger] m.leads(y, poly[1], poly[0]) && m.he_poly[y] == g;
        lemma_ascending_distinct(m.pts, m.starts[x] as int, m.starts[y] as int);
        lemma_ascending_distinct(m.pts, m.ends[x] as int, m.ends[y] as int);
        assert(x == y);
    }
    assert forall|f: int| 0 <= f < m.poly_real.len() && m.lies_behind(poly, f) implies !(
    #[trigger] m.poly_real[f]) by {
        if poly != t.outer {
            let h = choose|h: int| 0 <= h < t.holes.len() && t.holes[h] == poly;
            assert(m.lies_behind(t.holes[h], f));
        }
        assert(m.is_void(t, f));
    }
}

impl Mesh {
    /// The mesh of a subdivided task.
    pub fn new(task: &Task) -> (m: Mesh)
        requires
            meshable(task@),
        ensures
            is_mesh_of(m@, task@),
            is_dcel(m@),
    {
        let t = Tables::build(task);
        let ghost tv = t@;
        proof {
            lemma_mesh_is_dcel(tv, task@);
            if tv.poly_he.len() > 0 {
                lemma_faces_counted(tv.next, tv.he_poly, tv.poly_he, 0);
            }
        }
        let mut half_edges = TyVec::<HalfEdge, (Vertex, Vertex)>::from_raw(Vec::new());
        let mut e: usize = 0;
        while e < t.starts.len()
            invariant
                tv == t@,
                within(tv.starts, tv.ends, tv.pts.len() as int),
                tv.pts.len() <= u32::MAX,
                tv.starts.len() <= u32::MAX,
                e <= t.starts.len(),
                half_edges@.len() == e,
                forall|x: int| 0 <= x < e ==> (#[trigger] half_edges@[x]).0.position() == t.starts[x],
                forall|x: int| 0 <= x < e ==> (#[trigger] half_edges@[x]).1.position() == t.ends[x],
            decreases t.starts.len() - e,
        {
            assert(tv.starts[e as int] < tv.pts.len());
            assert(tv.ends[e as int] < tv.pts.len());
            let at = half_edges.push_and_idx(
                (Vertex::from_index(t.starts[e]), Vertex::from_index(t.ends[e])),
            );
            assert(at.position() == e);
            e = e + 1;
        }
        let opposite = typed::<HalfEdge>(&t.opposite);
        let prev = typed::<HalfEdge>(&t.prev);
        let next = typed::<HalfEdge>(&t.next);
        let he_poly = typed::<Poly>(&t.he_poly);
        let poly_he = typed::<HalfEdge>(&t.poly_he);
        let m = Mesh {
            pts: TyVec::from_raw(t.pts),
            first_out: t.first_out,
            half_edges,
            opposite: TyVec::from_raw(opposite),
            prev: TyVec::from_raw(prev),
            next: TyVec::from_raw(next),
            he_poly: TyVec::from_raw(he_poly),
            poly_he: TyVec::from_raw(poly_he),
            poly_real: TyVec::from_raw(t.poly_real),
        };
        proof {
            let mv = m@;
            assert(mv.pts =~= tv.pts);
            assert(mv.starts =~= tv.starts);
            assert(mv.ends =~= tv.ends);
            assert(mv.opposite =~= tv.opposite);
            assert(mv.prev =~= tv.prev);
            assert(mv.next =~= tv.next);
            assert(mv.he_poly =~= tv.he_poly);
            assert(mv.poly_he =~= tv.poly_he);
            assert(mv.poly_real =~= tv.poly_real);
            assert(mv == tv);
        }
        m
    }
}

/// Whether one of the first `n` segments joins `p` and `q`.
fn joins_any(edges: &[(Pt, Pt)], n: usize, p: &Pt, q: &Pt) -> (b: bool)
    requires
        n <= edges.len(),
    ensures
        b == joined(edges.deep_view().take(n as int), p@, q@),
{
    let ghost part = edges.deep_view().take(n as int);
    let mut k: usize = 0;
    while k < n
        invariant
            k <= n <= edges.len(),
            part == edges.deep_view().take(n as int),
            forall|x: int| 0 <= x < k ==> !joins(#[trigger] part[x], p@, q@),
        decreases n - k,
    {
        let e = &edges[k];
        assert(part[k as int] == (e.0@, e.1@));
        if (e.0 == *p && e.1 == *q) || (e.0 == *q && e.1 == *p) {
            assert(joins(part[k as int], p@, q@));
            return true;
        }
        k = k + 1;
    }
    proof {
        if joined(part, p@, q@) {
            let x = choose|x: int| 0 <= x < part.len() && #[trigger] joins(part[x], p@, q@);
            assert(!joins(part[x], p@, q@));
        }
    }
    false
}

/// Whether no segment is without length and no two join the same points.
fn has_simple_edges(edges: &[(Pt, Pt)]) -> (b: bool)
    ensures
        b == simple_edges(edges.deep_view()),
{
    let ghost es = edges.deep_view();
    let n = edges.len();
    let mut k: usize = 0;
    while k < n
        invariant
            k <= n,
            n == edges.len(),
            es == edges.deep_view(),
            forall|x: int| 0 <= x < k ==> (#[trigger] es[x]).0 != es[x].1,
            forall|j: int, x: int|
                0 <= j < x < k ==> !joins(#[trigger] es[x], (#[trigger] es[j]).0, es[j].1),
        decreases n - k,
    {
        let e = &edges[k];
        assert(es[k as int] == (e.0@, e.1@));
        if e.0 == e.1 {
            return false;
        }
        if joins_any(edges, k, &e.0, &e.1) {
            proof {
                let part = es.take(k as int);
                let j = choose|j: int| 0 <= j < part.len() && #[trigger] joins(part[j], e.0@, e.1@);
                assert(part[j] == es[j]);
                assert(joins(es[k as int], es[j].0, es[j].1));
            }
            return false;
        }
        proof {
            assert forall|j: int| 0 <= j < k implies !joins(
                es[k as int],
                (#[trigger] es[j]).0,
                es[j].1,
            ) by {
                let part = es.take(k as int);
                if joins(es[k as int], es[j].0, es[j].1) {
                    assert(joins(part[j], e.0@, e.1@));
                    assert(joined(part, e.0@, e.1@));
                }
            }
        }
        k = k + 1;
    }
    true
}

impl Task {
    /// Whether a mesh can be built of the task.
    pub fn is_meshable(&self) -> (b: bool)
        ensures
            b == meshable(self@),
    {
        let edges = self.skeleton.as_slice();
        let ghost es = self@.skeleton;
        assert(edges.deep_view() =~= es);
        assert(es.take(es.len() as int) =~= es);
        if edges.len() > (u32::MAX as usize) / 2 {
            return false;
        }
        if !has_simple_edges(edges) {
            return false;
        }
        if self.outer.len() < 2 {
            return false;
        }
        assert(self@.outer[1] == self.outer[1]@ && self@.outer[0] == self.outer[0]@);
        if !joins_any(edges, edges.len(), &self.outer[1], &self.outer[0]) {
            return false;
        }
        let mut h: usize = 0;
        while h < self.holes.len()
            invariant
                h <= self.holes.len(),
                es == self@.skeleton,
                edges.deep_view() == es,
                es.take(es.len() as int) == es,
                forall|x: int|
                    0 <= x < h ==> (#[trigger] self@.holes[x]).len() >= 2 && joined(
                        es,
                        self@.holes[x][1],
                        self@.holes[x][0],
                    ),
            decreases self.holes.len() - h,
        {
            let hole = &self.holes[h];
            assert(self@.holes[h as int] == hole.deep_view());
            if hole.len() < 2 {
                return false;
            }
            assert(hole.deep_view()[1] == hole[1]@ && hole.deep_view()[0] == hole[0]@);
            if !joins_any(edges, edges.len(), &hole[1], &hole[0]) {
                return false;
            }
            h = h + 1;
        }
        true
    }
}

impl Mesh {
    /// The mesh of a subdivided task, if one can be built of it.
    pub fn try_new(task: &Task) -> (r: Option<Mesh>)
        ensures
            match r {
                Some(m) => meshable(task@) && is_mesh_of(m@, task@) && is_dcel(m@),
                None => !meshable(task@),
            },
    {
        if task.is_meshable() {
            Some(Mesh::new(task))
        } else {
            None
        }
    }
}

} // verus!
