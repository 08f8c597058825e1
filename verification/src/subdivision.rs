//! Cutting segments at the points where they cross, and leading polygon
//! boundaries through the points that come to lie on them.

use crate::geom::crossing;
use crate::geom::following;
use crate::geom::segment_intersection;
use crate::geom::Point;
use crate::geom::Pt;
use crate::task::Segment;
use crate::task::Task;
use crate::task::TaskView;
use vstd::prelude::*;

verus! {

/// Whether segment `a`-`b` meets the segment `e` in the single point `p`.
pub open spec fn cuts_at(a: Point, b: Point, e: Segment, p: Point) -> bool {
    crossing(a, b, e.0, e.1) == Some(p)
}

/// Whether `p` is one of the points at which segment `a`-`b` is cut: an end
/// point, or a point where it meets one of `edges`.
pub open spec fn is_cut_point(p: Point, a: Point, b: Point, edges: Seq<Segment>) -> bool {
    p == a || p == b || exists|k: int| 0 <= k < edges.len() && #[trigger] cuts_at(a, b, edges[k], p)
}

/// Strictly ascending in the canonical order of points.
pub open spec fn ascending(s: Seq<Point>) -> bool {
    forall|i: int, j: int| 0 <= i < j < s.len() ==> (#[trigger] s[i]).before(#[trigger] s[j])
}

/// Whether `s` lists the cut points of segment `a`-`b`, each once, in the
/// canonical order when `a` does not come after `b`, and against it when it
/// does: so that the list runs from `a` to `b`.
pub open spec fn is_subdivided_edge(s: Seq<Point>, a: Point, b: Point, edges: Seq<Segment>) -> bool {
    &&& forall|p: Point| s.contains(p) <==> is_cut_point(p, a, b, edges)
    &&& if b.before(a) {
        ascending(s.reverse())
    } else {
        ascending(s)
    }
}

/// The list of the cut points of segment `a`-`b`, from `a` to `b`.
pub open spec fn subdivided_edge(a: Point, b: Point, edges: Seq<Segment>) -> Seq<Point> {
    choose|s: Seq<Point>| is_subdivided_edge(s, a, b, edges)
}

/// An ascending list is determined by the points that it holds.
pub proof fn lemma_ascending_unique(s: Seq<Point>, t: Seq<Point>)
    requires
        ascending(s),
        ascending(t),
        forall|p: Point| s.contains(p) <==> t.contains(p),
    ensures
        s == t,
    decreases s.len(),
{
    if s.len() == 0 {
        if t.len() > 0 {
            assert(t.contains(t[0]));
        }
        assert(s =~= t);
    } else {
        let m = s.last();
        assert(s.contains(m));
        assert(t.contains(m));
        let j = choose|j: int| 0 <= j < t.len() && t[j] == m;
        if j < t.len() - 1 {
            let z = t.last();
            assert(t.contains(z));
            assert(s.contains(z));
            let i = choose|i: int| 0 <= i < s.len() && s[i] == z;
            assert(t[j].before(t[t.len() - 1]));
            if i < s.len() - 1 {
                assert(s[i].before(s[s.len() - 1]));
            }
        }
        let s1 = s.drop_last();
        let t1 = t.drop_last();
        assert forall|p: Point| s1.contains(p) <==> t1.contains(p) by {
            if s1.contains(p) {
                let i = choose|i: int| 0 <= i < s1.len() && s1[i] == p;
                assert(s[i] == p);
                assert(s[i].before(s[s.len() - 1]));
                assert(s.contains(p));
                let k = choose|k: int| 0 <= k < t.len() && t[k] == p;
                assert(t1[k] == p);
            }
            if t1.contains(p) {
                let i = choose|i: int| 0 <= i < t1.len() && t1[i] == p;
                assert(t[i] == p);
                assert(t[i].before(t[t.len() - 1]));
                assert(t.contains(p));
                let k = choose|k: int| 0 <= k < s.len() && s[k] == p;
                assert(s1[k] == p);
            }
        }
        lemma_ascending_unique(s1, t1);
        assert(s =~= s1.push(m));
        assert(t =~= t1.push(m));
    }
}

/// No two lists are the subdivision of one edge.
pub proof fn lemma_subdivided_edge_unique(
    s: Seq<Point>,
    t: Seq<Point>,
    a: Point,
    b: Point,
    edges: Seq<Segment>,
)
    requires
        is_subdivided_edge(s, a, b, edges),
        is_subdivided_edge(t, a, b, edges),
    ensures
        s == t,
{
    assert forall|p: Point| s.contains(p) <==> t.contains(p) by {}
    if b.before(a) {
        let sr = s.reverse();
        let tr = t.reverse();
        assert forall|p: Point| sr.contains(p) <==> tr.contains(p) by {
            lemma_reverse_contains(s, p);
            lemma_reverse_contains(t, p);
        }
        lemma_ascending_unique(sr, tr);
        assert(s =~= sr.reverse());
        assert(t =~= tr.reverse());
    } else {
        lemma_ascending_unique(s, t);
    }
}

/// A list and its reverse hold the same points.
pub proof fn lemma_reverse_contains(s: Seq<Point>, p: Point)
    ensures
        s.reverse().contains(p) <==> s.contains(p),
{
    let r = s.reverse();
    if s.contains(p) {
        let i = choose|i: int| 0 <= i < s.len() && s[i] == p;
        assert(r[s.len() - 1 - i] == p);
    }
    if r.contains(p) {
        let i = choose|i: int| 0 <= i < r.len() && r[i] == p;
        assert(s[s.len() - 1 - i] == p);
    }
}

/// Puts `p` at its place in an ascending list, unless the list holds it.
pub fn insert_sorted(v: &mut Vec<Pt>, p: Pt)
    requires
        ascending(old(v).deep_view()),
    ensures
        ascending(final(v).deep_view()),
        forall|q: Point|
            final(v).deep_view().contains(q) <==> (old(v).deep_view().contains(q) || q == p@),
        old(v).len() <= final(v).len() <= old(v).len() + 1,
{
    let ghost before = v.deep_view();
    let n = v.len();
    let mut i: usize = 0;
    while i < n && v[i].lt(&p)
        invariant
            n == v.len(),
            i <= n,
            v.deep_view() == before,
            ascending(before),
            forall|k: int| 0 <= k < i ==> (#[trigger] before[k]).before(p@),
        decreases n - i,
    {
        i = i + 1;
    }
    if i < n && v[i] == p {
        assert(before[i as int] == p@);
        assert(before.contains(p@));
        return ;
    }
    proof {
        assert(i < n ==> p@.before(before[i as int]));
    }
    v.insert(i, p);
    proof {
        let after = v.deep_view();
        assert(after =~= before.insert(i as int, p@));
        assert forall|a: int, b: int| 0 <= a < b < after.len() implies (#[trigger] after[a]).before(
            #[trigger] after[b],
        ) by {
            if b < i {
            } else if b == i {
                assert(after[a] == before[a]);
            } else if a < i {
                assert(after[a] == before[a]);
                assert(after[b] == before[b - 1]);
                if b - 1 > i {
                    assert(before[i as int].before(before[b - 1]));
                }
            } else if a == i {
                assert(after[b] == before[b - 1]);
                if b - 1 > i {
                    assert(before[i as int].before(before[b - 1]));
                }
            } else {
                assert(after[a] == before[a - 1]);
                assert(after[b] == before[b - 1]);
            }
        }
        assert forall|q: Point| after.contains(q) <==> (before.contains(q) || q == p@) by {
            if after.contains(q) {
                let k = choose|k: int| 0 <= k < after.len() && after[k] == q;
                if k < i {
                    assert(before[k] == q);
                } else if k > i {
                    assert(before[k - 1] == q);
                }
            }
            if before.contains(q) {
                let k = choose|k: int| 0 <= k < before.len() && before[k] == q;
                if k < i {
                    assert(after[k] == q);
                } else {
                    assert(after[k + 1] == q);
                }
            }
            if q == p@ {
                assert(after[i as int] == q);
            }
        }
    }
}

/// The list turned end for end.
pub fn reversed(v: Vec<Pt>) -> (r: Vec<Pt>)
    ensures
        r.deep_view() == v.deep_view().reverse(),
{
    let ghost start = v.deep_view();
    let mut v = v;
    let mut r: Vec<Pt> = Vec::new();
    while v.len() > 0
        invariant
            v.len() <= start.len(),
            r.len() == start.len() - v.len(),
            forall|k: int| 0 <= k < v.len() ==> (#[trigger] v[k])@ == start[k],
            forall|k: int| 0 <= k < r.len() ==> (#[trigger] r[k])@ == start[start.len() - 1 - k],
        decreases v.len(),
    {
        let p = v.pop();
        match p {
            Some(p) => r.push(p),
            None => {},
        }
    }
    assert(r.deep_view() =~= start.reverse());
    r
}

/// The points at which segment `a`-`b` is cut by `edges`, end points
/// included, in order from `a` to `b`.
pub fn subdivide_edge(a: &Pt, b: &Pt, edges: &[(Pt, Pt)]) -> (r: Vec<Pt>)
    ensures
        is_subdivided_edge(r.deep_view(), a@, b@, edges.deep_view()),
        r.deep_view() == subdivided_edge(a@, b@, edges.deep_view()),
{
    let ghost es = edges.deep_view();
    let mut pts: Vec<Pt> = Vec::new();
    assert(ascending(pts.deep_view()));
    insert_sorted(&mut pts, a.clone());
    insert_sorted(&mut pts, b.clone());
    let n = edges.len();
    let mut i: usize = 0;
    while i < n
        invariant
            n == edges.len(),
            es == edges.deep_view(),
            i <= n,
            ascending(pts.deep_view()),
            forall|q: Point|
                pts.deep_view().contains(q) <==> (q == a@ || q == b@ || exists|k: int|
                    0 <= k < i && #[trigger] cuts_at(a@, b@, es[k], q)),
        decreases n - i,
    {
        let e = &edges[i];
        assert(es[i as int] == (e.0@, e.1@));
        let ghost held = pts.deep_view();
        match segment_intersection((a, b), (&e.0, &e.1)) {
            Some(pt) => {
                let ghost p = pt@;
                insert_sorted(&mut pts, pt);
                proof {
                    assert(cuts_at(a@, b@, es[i as int], p));
                    assert forall|q: Point|
                        pts.deep_view().contains(q) <==> (q == a@ || q == b@ || exists|k: int|
                            0 <= k < i + 1 && #[trigger] cuts_at(a@, b@, es[k], q)) by {
                        if exists|k: int| 0 <= k < i + 1 && #[trigger] cuts_at(a@, b@, es[k], q) {
                            let k = choose|k: int|
                                0 <= k < i + 1 && #[trigger] cuts_at(a@, b@, es[k], q);
                            if k == i {
                                assert(q == p);
                            } else {
                                assert(0 <= k < i && cuts_at(a@, b@, es[k], q));
                            }
                        }
                        if held.contains(q) && !(q == a@ || q == b@) {
                            let k = choose|k: int| 0 <= k < i && #[trigger] cuts_at(a@, b@, es[k], q);
                            assert(0 <= k < i + 1 && cuts_at(a@, b@, es[k], q));
                        }
                    }
                }
            },
            None => {
                proof {
                    assert forall|q: Point|
                        pts.deep_view().contains(q) <==> (q == a@ || q == b@ || exists|k: int|
                            0 <= k < i + 1 && #[trigger] cuts_at(a@, b@, es[k], q)) by {
                        if exists|k: int| 0 <= k < i + 1 && #[trigger] cuts_at(a@, b@, es[k], q) {
                            let k = choose|k: int|
                                0 <= k < i + 1 && #[trigger] cuts_at(a@, b@, es[k], q);
                            assert(k != i);
                            assert(0 <= k < i && cuts_at(a@, b@, es[k], q));
                        }
                        if held.contains(q) && !(q == a@ || q == b@) {
                            let k = choose|k: int| 0 <= k < i && #[trigger] cuts_at(a@, b@, es[k], q);
                            assert(0 <= k < i + 1 && cuts_at(a@, b@, es[k], q));
                        }
                    }
                }
            },
        }
        i = i + 1;
    }
    let ghost sorted = pts.deep_view();
    if b.lt(a) {
        pts = reversed(pts);
        proof {
            assert(pts.deep_view().reverse() =~= sorted);
            assert forall|p: Point| pts.deep_view().contains(p) <==> sorted.contains(p) by {
                lemma_reverse_contains(sorted, p);
            }
        }
    }
    proof {
        let s = pts.deep_view();
        assert(es.len() == n);
        assert forall|p: Point| s.contains(p) <==> is_cut_point(p, a@, b@, es) by {
            assert(s.contains(p) <==> sorted.contains(p));
            if is_cut_point(p, a@, b@, es) && !(p == a@ || p == b@) {
                let k = choose|k: int| 0 <= k < es.len() && #[trigger] cuts_at(a@, b@, es[k], p);
                assert(0 <= k < i && cuts_at(a@, b@, es[k], p));
            }
            if sorted.contains(p) && !(p == a@ || p == b@) {
                let k = choose|k: int| 0 <= k < i && #[trigger] cuts_at(a@, b@, es[k], p);
                assert(0 <= k < es.len() && cuts_at(a@, b@, es[k], p));
            }
        }
        assert(is_subdivided_edge(s, a@, b@, es));
        lemma_subdivided_edge_unique(s, subdivided_edge(a@, b@, es), a@, b@, es);
    }
    pts
}

/// The segments that join each point of a list to the next.
pub open spec fn chain(s: Seq<Point>) -> Seq<Segment> {
    Seq::new(
        if s.len() > 0 {
            (s.len() - 1) as nat
        } else {
            0
        },
        |i: int| (s[i], s[i + 1]),
    )
}

/// The pieces into which the first `n` of `edges` are cut by `against`, edge
/// after edge.
pub open spec fn subdivided_edges(edges: Seq<Segment>, against: Seq<Segment>, n: nat) -> Seq<
    Segment,
>
    decreases n,
{
    if n == 0 {
        Seq::empty()
    } else {
        subdivided_edges(edges, against, (n - 1) as nat) + chain(
            subdivided_edge(edges[n - 1].0, edges[n - 1].1, against),
        )
    }
}

/// A skeleton cut at every point where two of its segments cross.
pub open spec fn subdivided_skeleton(edges: Seq<Segment>) -> Seq<Segment> {
    subdivided_edges(edges, edges, edges.len())
}

/// The boundary of a closed polygon after its first `n` edges were cut by
/// `edges`: of each edge all cut points but the first, so that the list ends
/// with the end of edge `n - 1`.
pub open spec fn subdivided_boundary(poly: Seq<Point>, edges: Seq<Segment>, n: nat) -> Seq<Point>
    decreases n,
{
    if n == 0 {
        Seq::empty()
    } else {
        subdivided_boundary(poly, edges, (n - 1) as nat) + subdivided_edge(
            poly[n - 1],
            poly[following(n - 1, poly.len() as int)],
            edges,
        ).drop_first()
    }
}

/// A closed polygon led through every point where `edges` cut its boundary.
pub open spec fn subdivided_poly(poly: Seq<Point>, edges: Seq<Segment>) -> Seq<Point> {
    subdivided_boundary(poly, edges, poly.len())
}

/// The task with its skeleton cut at all crossings, and the outer polygon and
/// the holes led through the points where the skeleton cuts them. Every
/// segment is cut by the skeleton as it was given.
pub open spec fn subdivided(t: TaskView) -> TaskView {
    TaskView {
        outer: subdivided_poly(t.outer, t.skeleton),
        holes: Seq::new(t.holes.len(), |i: int| subdivided_poly(t.holes[i], t.skeleton)),
        skeleton: subdivided_skeleton(t.skeleton),
    }
}

/// The subdivision of an edge holds its start, so it is never empty.
pub proof fn lemma_subdivided_edge_ends(s: Seq<Point>, a: Point, b: Point, edges: Seq<Segment>)
    requires
        is_subdivided_edge(s, a, b, edges),
    ensures
        s.len() > 0,
        s.contains(a),
        s.contains(b),
{
    assert(is_cut_point(a, a, b, edges));
    assert(is_cut_point(b, a, b, edges));
    assert(s.contains(a));
    let i = choose|i: int| 0 <= i < s.len() && s[i] == a;
}

/// A closed polygon that is not empty, led through every point where `edges`
/// cut its boundary.
pub fn subdivide_poly(poly: &[Pt], edges: &[(Pt, Pt)]) -> (r: Vec<Pt>)
    requires
        poly.len() > 0,
    ensures
        r.deep_view() == subdivided_poly(poly.deep_view(), edges.deep_view()),
{
    let ghost ps = poly.deep_view();
    let ghost es = edges.deep_view();
    let n = poly.len();
    let mut res: Vec<Pt> = Vec::new();
    let mut i: usize = 0;
    assert(res.deep_view() =~= subdivided_boundary(ps, es, 0));
    while i < n
        invariant
            n == poly.len(),
            n > 0,
            ps == poly.deep_view(),
            es == edges.deep_view(),
            i <= n,
            res.deep_view() == subdivided_boundary(ps, es, i as nat),
        decreases n - i,
    {
        let j: usize = if i + 1 == n { 0 } else { i + 1 };
        let pts = subdivide_edge(&poly[i], &poly[j], edges);
        let ghost piece = pts.deep_view();
        let ghost done = res.deep_view();
        proof {
            assert(ps[i as int] == poly[i as int]@);
            assert(ps[following(i as int, n as int)] == poly[j as int]@);
            lemma_subdivided_edge_ends(piece, ps[i as int], ps[j as int], es);
        }
        let m = pts.len();
        let mut k: usize = 1;
        while k < m
            invariant
                m == pts.len(),
                m > 0,
                1 <= k <= m,
                piece == pts.deep_view(),
                res.deep_view() == done + piece.subrange(1, k as int),
            decreases m - k,
        {
            let ghost held = res.deep_view();
            let p = pts[k].clone();
            let ghost pv = p@;
            res.push(p);
            assert(res.deep_view() =~= held.push(pv));
            assert(piece[k as int] == pv);
            assert(res.deep_view() =~= done + piece.subrange(1, k + 1));
            k = k + 1;
        }
        assert(piece.subrange(1, m as int) =~= piece.drop_first());
        i = i + 1;
    }
    res
}

/// The task with its skeleton cut at all crossings and its polygons led
/// through the points where the skeleton cuts them.
pub fn subdivide(task: &Task) -> (r: Task)
    requires
        task.outer.len() > 0,
        forall|h: int| 0 <= h < task.holes.len() ==> (#[trigger] task.holes[h]).len() > 0,
    ensures
        r@ == subdivided(task@),
{
    let ghost es = task.skeleton.deep_view();
    let edges = task.skeleton.as_slice();
    assert(edges.deep_view() =~= es);
    let n = edges.len();
    let mut skeleton: Vec<(Pt, Pt)> = Vec::new();
    let mut i: usize = 0;
    assert(skeleton.deep_view() =~= subdivided_edges(es, es, 0));
    while i < n
        invariant
            n == edges.len(),
            es == edges.deep_view(),
            i <= n,
            skeleton.deep_view() == subdivided_edges(es, es, i as nat),
        decreases n - i,
    {
        let e1 = &edges[i];
        let pts = subdivide_edge(&e1.0, &e1.1, edges);
        let ghost piece = pts.deep_view();
        let ghost done = skeleton.deep_view();
        proof {
            assert(es[i as int] == (e1.0@, e1.1@));
            lemma_subdivided_edge_ends(piece, e1.0@, e1.1@, es);
        }
        let m = pts.len();
        let mut k: usize = 0;
        while k + 1 < m
            invariant
                m == pts.len(),
                m > 0,
                k + 1 <= m,
                piece == pts.deep_view(),
                skeleton.deep_view() == done + chain(piece).subrange(0, k as int),
            decreases m - k,
        {
            let ghost held = skeleton.deep_view();
            let e = (pts[k].clone(), pts[k + 1].clone());
            let ghost ev = (e.0@, e.1@);
            skeleton.push(e);
            assert(skeleton.deep_view() =~= held.push(ev));
            assert(chain(piece)[k as int] == ev);
            assert(skeleton.deep_view() =~= done + chain(piece).subrange(0, k + 1));
            k = k + 1;
        }
        assert(chain(piece).subrange(0, k as int) =~= chain(piece));
        i = i + 1;
    }
    let outer_in = task.outer.as_slice();
    assert(outer_in.deep_view() =~= task.outer.deep_view());
    let outer = subdivide_poly(outer_in, edges);
    let hn = task.holes.len();
    let mut holes: Vec<Vec<Pt>> = Vec::new();
    let mut h: usize = 0;
    while h < hn
        invariant
            hn == task.holes.len(),
            es == edges.deep_view(),
            h <= hn,
            holes.len() == h,
            forall|x: int| 0 <= x < task.holes.len() ==> (#[trigger] task.holes[x]).len() > 0,
            forall|x: int|
                0 <= x < h ==> (#[trigger] holes[x]).deep_view() == subdivided_poly(
                    task.holes[x].deep_view(),
                    es,
                ),
        decreases hn - h,
    {
        let hole_in = task.holes[h].as_slice();
        assert(hole_in.deep_view() =~= task.holes[h as int].deep_view());
        let hole = subdivide_poly(hole_in, edges);
        holes.push(hole);
        h = h + 1;
    }
    let r = Task { outer, holes, skeleton };
    proof {
        assert(r@.holes =~= subdivided(task@).holes);
    }
    r
}

} // verus!
