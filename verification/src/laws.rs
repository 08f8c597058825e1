//! The law of the subdivision: a skeleton that was cut at all its crossings
//! is not changed when it is cut again.

use crate::geom::cross;
use crate::geom::crossing;
use crate::geom::Point;
use crate::lines::in_box;
use crate::lines::lemma_along_line;
use crate::lines::lemma_between;
use crate::lines::lemma_box_in_box;
use crate::cross::lemma_cross_minus;
use crate::lines::lemma_cross_origin;
use crate::lines::lemma_crossing_found;
use crate::lines::lemma_crossing_on_segments;
use crate::lines::lemma_ends_on_line;
use crate::lines::lemma_parallel;
use crate::lines::lemma_same_line;
use crate::lines::on_line;
use crate::subdivision::ascending;
use crate::subdivision::chain;
use crate::subdivision::cuts_at;
use crate::subdivision::is_cut_point;
use crate::subdivision::is_subdivided_edge;
use crate::subdivision::lemma_reverse_contains;
use crate::subdivision::lemma_subdivided_edge_unique;
use crate::subdivision::subdivided;
use crate::subdivision::subdivided_edge;
use crate::subdivision::subdivided_edges;
use crate::subdivision::subdivided_skeleton;
use crate::task::Segment;
use crate::task::TaskView;
use vstd::prelude::*;

verus! {

/// An ascending list with one point more.
proof fn with_point(s: Seq<Point>, p: Point) -> (r: Seq<Point>)
    requires
        ascending(s),
    ensures
        ascending(r),
        forall|q: Point| r.contains(q) <==> (s.contains(q) || q == p),
    decreases s.len(),
{
    if s.len() == 0 {
        let r = seq![p];
        assert(r[0] == p);
        assert forall|q: Point| r.contains(q) <==> (s.contains(q) || q == p) by {
            if r.contains(q) {
                let k = choose|k: int| 0 <= k < r.len() && r[k] == q;
            }
            if s.contains(q) {
                let k = choose|k: int| 0 <= k < s.len() && s[k] == q;
            }
        }
        r
    } else {
        let last = s.last();
        assert(s.contains(last));
        if last == p {
            s
        } else if last.before(p) {
            let r = s.push(p);
            assert forall|i: int, j: int| 0 <= i < j < r.len() implies (#[trigger] r[i]).before(
                #[trigger] r[j],
            ) by {
                if j == s.len() {
                    if i < s.len() - 1 {
                        assert(s[i].before(s[s.len() - 1]));
                    }
                } else {
                    assert(s[i].before(s[j]));
                }
            }
            assert forall|q: Point| r.contains(q) <==> (s.contains(q) || q == p) by {
                if r.contains(q) {
                    let k = choose|k: int| 0 <= k < r.len() && r[k] == q;
                    if k < s.len() {
                        assert(s[k] == q);
                    }
                }
                if s.contains(q) {
                    let k = choose|k: int| 0 <= k < s.len() && s[k] == q;
                    assert(r[k] == q);
                }
                if q == p {
                    assert(r[s.len() as int] == q);
                }
            }
            r
        } else {
            let front = s.drop_last();
            assert forall|i: int, j: int| 0 <= i < j < front.len() implies (#[trigger] front[i]).before(
                #[trigger] front[j],
            ) by {
                assert(s[i].before(s[j]));
            }
            let t = with_point(front, p);
            let r = t.push(last);
            assert forall|i: int, j: int| 0 <= i < j < r.len() implies (#[trigger] r[i]).before(
                #[trigger] r[j],
            ) by {
                if j == t.len() {
                    assert(t.contains(t[i]));
                    if front.contains(t[i]) {
                        let k = choose|k: int| 0 <= k < front.len() && front[k] == t[i];
                        assert(s[k].before(s[s.len() - 1]));
                    }
                } else {
                    assert(t[i].before(t[j]));
                }
            }
            assert forall|q: Point| r.contains(q) <==> (s.contains(q) || q == p) by {
                if r.contains(q) {
                    let k = choose|k: int| 0 <= k < r.len() && r[k] == q;
                    if k < t.len() {
                        assert(t[k] == q);
                        assert(t.contains(q));
                        if front.contains(q) {
                            let i = choose|i: int| 0 <= i < front.len() && front[i] == q;
                            assert(s[i] == q);
                        }
                    }
                }
                if s.contains(q) {
                    let k = choose|k: int| 0 <= k < s.len() && s[k] == q;
                    if k < s.len() - 1 {
                        assert(front[k] == q);
                        assert(front.contains(q));
                        assert(t.contains(q));
                        let i = choose|i: int| 0 <= i < t.len() && t[i] == q;
                        assert(r[i] == q);
                    } else {
                        assert(r[t.len() as int] == q);
                    }
                }
                if q == p {
                    assert(t.contains(q));
                    let i = choose|i: int| 0 <= i < t.len() && t[i] == q;
                    assert(r[i] == q);
                }
            }
            r
        }
    }
}

/// The ends of a segment and the points where the first `n` of `edges` cut
/// it, in ascending order.
proof fn cut_points(a: Point, b: Point, edges: Seq<Segment>, n: nat) -> (s: Seq<Point>)
    requires
        n <= edges.len(),
    ensures
        ascending(s),
        forall|q: Point|
            s.contains(q) <==> (q == a || q == b || exists|k: int|
                0 <= k < n && #[trigger] cuts_at(a, b, edges[k], q)),
    decreases n,
{
    if n == 0 {
        let e = Seq::<Point>::empty();
        let s1 = with_point(e, a);
        let s = with_point(s1, b);
        assert forall|q: Point|
            s.contains(q) <==> (q == a || q == b || exists|k: int|
                0 <= k < n && #[trigger] cuts_at(a, b, edges[k], q)) by {
            if e.contains(q) {
                let k = choose|k: int| 0 <= k < e.len() && e[k] == q;
            }
        }
        s
    } else {
        let t = cut_points(a, b, edges, (n - 1) as nat);
        let e = edges[n - 1];
        match crossing(a, b, e.0, e.1) {
            Some(p) => {
                let s = with_point(t, p);
                assert(cuts_at(a, b, edges[n - 1], p));
                assert forall|q: Point|
                    s.contains(q) <==> (q == a || q == b || exists|k: int|
                        0 <= k < n && #[trigger] cuts_at(a, b, edges[k], q)) by {
                    if exists|k: int| 0 <= k < n && #[trigger] cuts_at(a, b, edges[k], q) {
                        let k = choose|k: int| 0 <= k < n && #[trigger] cuts_at(a, b, edges[k], q);
                        if k < n - 1 {
                            assert(0 <= k < n - 1 && cuts_at(a, b, edges[k], q));
                        }
                    }
                    if t.contains(q) && !(q == a || q == b) {
                        let k = choose|k: int|
                            0 <= k < n - 1 && #[trigger] cuts_at(a, b, edges[k], q);
                        assert(0 <= k < n && cuts_at(a, b, edges[k], q));
                    }
                }
                s
            },
            None => {
                assert forall|q: Point|
                    t.contains(q) <==> (q == a || q == b || exists|k: int|
                        0 <= k < n && #[trigger] cuts_at(a, b, edges[k], q)) by {
                    if exists|k: int| 0 <= k < n && #[trigger] cuts_at(a, b, edges[k], q) {
                        let k = choose|k: int| 0 <= k < n && #[trigger] cuts_at(a, b, edges[k], q);
                        assert(0 <= k < n - 1 && cuts_at(a, b, edges[k], q));
                    }
                    if t.contains(q) && !(q == a || q == b) {
                        let k = choose|k: int|
                            0 <= k < n - 1 && #[trigger] cuts_at(a, b, edges[k], q);
                        assert(0 <= k < n && cuts_at(a, b, edges[k], q));
                    }
                }
                t
            },
        }
    }
}

/// Every segment has a subdivision, and `subdivided_edge` is it.
pub proof fn lemma_subdivided_edge(a: Point, b: Point, edges: Seq<Segment>)
    ensures
        is_subdivided_edge(subdivided_edge(a, b, edges), a, b, edges),
{
    let s = cut_points(a, b, edges, edges.len());
    assert forall|p: Point| s.contains(p) <==> is_cut_point(p, a, b, edges) by {
        if is_cut_point(p, a, b, edges) && !(p == a || p == b) {
            let k = choose|k: int| 0 <= k < edges.len() && #[trigger] cuts_at(a, b, edges[k], p);
            assert(0 <= k < edges.len() && cuts_at(a, b, edges[k], p));
        }
        if s.contains(p) && !(p == a || p == b) {
            let k = choose|k: int| 0 <= k < edges.len() && #[trigger] cuts_at(a, b, edges[k], p);
            assert(0 <= k < edges.len() && cuts_at(a, b, edges[k], p));
        }
    }
    if b.before(a) {
        let r = s.reverse();
        assert(r.reverse() =~= s);
        assert forall|p: Point| r.contains(p) <==> is_cut_point(p, a, b, edges) by {
            lemma_reverse_contains(s, p);
        }
        assert(is_subdivided_edge(r, a, b, edges));
    } else {
        assert(is_subdivided_edge(s, a, b, edges));
    }
}

/// A cut point of a segment lies on its line and in its bounding box.
pub proof fn lemma_cut_point_place(a: Point, b: Point, edges: Seq<Segment>, z: Point)
    requires
        is_cut_point(z, a, b, edges),
    ensures
        on_line(z, a, b),
        in_box(z, a, b),
{
    lemma_ends_on_line(a, b);
    if !(z == a || z == b) {
        let k = choose|k: int| 0 <= k < edges.len() && #[trigger] cuts_at(a, b, edges[k], z);
        lemma_crossing_on_segments(a, b, edges[k].0, edges[k].1, z);
    }
}

/// A segment without length has one cut point, the point that it is.
pub proof fn lemma_cut_point_of_point(a: Point, edges: Seq<Segment>, z: Point)
    requires
        is_cut_point(z, a, a, edges),
    ensures
        z == a,
{
    if z != a {
        let k = choose|k: int| 0 <= k < edges.len() && #[trigger] cuts_at(a, a, edges[k], z);
        lemma_cross_origin(a.minus(a), edges[k].1.minus(edges[k].0));
    }
}

/// Two neighbours in the subdivision of a segment are different points, the
/// segment has length, and they come in its order.
pub proof fn lemma_neighbours(a: Point, b: Point, edges: Seq<Segment>, j: int)
    requires
        0 <= j,
        j + 1 < subdivided_edge(a, b, edges).len(),
    ensures
        a != b,
        b.before(a) ==> subdivided_edge(a, b, edges)[j + 1].before(subdivided_edge(a, b, edges)[j]),
        !b.before(a) ==> subdivided_edge(a, b, edges)[j].before(subdivided_edge(a, b, edges)[j + 1]),
{
    let s = subdivided_edge(a, b, edges);
    lemma_subdivided_edge(a, b, edges);
    lemma_in_order(a, b, edges, j, j + 1);
    if a == b {
        assert(s.contains(s[j]));
        assert(s.contains(s[j + 1]));
        lemma_cut_point_of_point(a, edges, s[j]);
        lemma_cut_point_of_point(a, edges, s[j + 1]);
    }
}

/// The points of a subdivision come in the order of the segment.
pub proof fn lemma_in_order(a: Point, b: Point, edges: Seq<Segment>, i: int, j: int)
    requires
        0 <= i < j < subdivided_edge(a, b, edges).len(),
    ensures
        b.before(a) ==> subdivided_edge(a, b, edges)[j].before(subdivided_edge(a, b, edges)[i]),
        !b.before(a) ==> subdivided_edge(a, b, edges)[i].before(subdivided_edge(a, b, edges)[j]),
{
    let s = subdivided_edge(a, b, edges);
    lemma_subdivided_edge(a, b, edges);
    if b.before(a) {
        let r = s.reverse();
        let n = s.len() as int;
        assert(r[n - 1 - j] == s[j]);
        assert(r[n - 1 - i] == s[i]);
        assert(r[n - 1 - j].before(r[n - 1 - i]));
    } else {
        assert(s[i].before(s[j]));
    }
}

/// Where piece `j` of segment `m` begins and ends.
pub open spec fn piece(edges: Seq<Segment>, against: Seq<Segment>, m: int, j: int) -> Segment {
    let s = subdivided_edge(edges[m].0, edges[m].1, against);
    (s[j], s[j + 1])
}

/// Whether segment `m` has a piece `j`.
pub open spec fn has_piece(edges: Seq<Segment>, against: Seq<Segment>, m: int, j: int) -> bool {
    &&& 0 <= m < edges.len()
    &&& 0 <= j
    &&& j + 1 < subdivided_edge(edges[m].0, edges[m].1, against).len()
}

/// Whether `e` is a piece of one of the segments.
pub open spec fn is_piece(edges: Seq<Segment>, against: Seq<Segment>, e: Segment) -> bool {
    exists|m: int, j: int|
        has_piece(edges, against, m, j) && #[trigger] piece(edges, against, m, j) == e
}

/// The subdivided segments are the pieces of the segments.
pub proof fn lemma_pieces(edges: Seq<Segment>, against: Seq<Segment>, n: nat, x: int)
    requires
        n <= edges.len(),
        0 <= x < subdivided_edges(edges, against, n).len(),
    ensures
        is_piece(edges, against, subdivided_edges(edges, against, n)[x]),
    decreases n,
{
    if n > 0 {
        let before = subdivided_edges(edges, against, (n - 1) as nat);
        let s = subdivided_edge(edges[n - 1].0, edges[n - 1].1, against);
        let all = subdivided_edges(edges, against, n);
        assert(all == before + chain(s));
        if x < before.len() {
            lemma_pieces(edges, against, (n - 1) as nat, x);
            assert(all[x] == before[x]);
        } else {
            let j = x - before.len();
            assert(all[x] == chain(s)[j]);
            assert(has_piece(edges, against, n - 1, j));
            assert(piece(edges, against, n - 1, j) == all[x]);
        }
    }
}

/// Where two pieces of a subdivided skeleton cross, they cross in an end of
/// the first.
pub proof fn lemma_pieces_meet_at_ends(edges: Seq<Segment>, m: int, j: int, n: int, i: int, z: Point)
    requires
        has_piece(edges, edges, m, j),
        has_piece(edges, edges, n, i),
        crossing(
            piece(edges, edges, m, j).0,
            piece(edges, edges, m, j).1,
            piece(edges, edges, n, i).0,
            piece(edges, edges, n, i).1,
        ) == Some(z),
    ensures
        z == piece(edges, edges, m, j).0 || z == piece(edges, edges, m, j).1,
{
    let (a, b) = edges[m];
    let (c, d) = edges[n];
    let s = subdivided_edge(a, b, edges);
    let t = subdivided_edge(c, d, edges);
    let (p, q) = (s[j], s[j + 1]);
    let (u, v) = (t[i], t[i + 1]);
    lemma_subdivided_edge(a, b, edges);
    lemma_subdivided_edge(c, d, edges);
    lemma_neighbours(a, b, edges, j);
    lemma_neighbours(c, d, edges, i);
    assert(s.contains(p) && s.contains(q));
    assert(t.contains(u) && t.contains(v));
    lemma_cut_point_place(a, b, edges, p);
    lemma_cut_point_place(a, b, edges, q);
    lemma_cut_point_place(c, d, edges, u);
    lemma_cut_point_place(c, d, edges, v);
    lemma_crossing_on_segments(p, q, u, v, z);
    // the point lies on the lines of the two segments
    lemma_same_line(a, b, p, q, z);
    lemma_same_line(c, d, u, v, z);
    // the segments are not parallel, as their pieces are not
    lemma_along_line(a, b, p, q);
    lemma_along_line(c, d, u, v);
    let ab = b.minus(a);
    let cd = d.minus(c);
    let pq = q.minus(p);
    let uv = v.minus(u);
    if cross(ab, cd) == 0real {
        lemma_cross_minus(ab, ab, cd);
        assert(cross(cd, ab) == 0real);
        lemma_parallel(cd, ab, uv);
        lemma_parallel(ab, pq, uv);
    }
    // so the segments cross in the point
    lemma_box_in_box(a, b, p, q, z);
    lemma_box_in_box(c, d, u, v, z);
    lemma_crossing_found(a, b, c, d, z);
    assert(cuts_at(a, b, edges[n], z));
    assert(is_cut_point(z, a, b, edges));
    assert(s.contains(z));
    let l = choose|l: int| 0 <= l < s.len() && s[l] == z;
    // and the point is no other than an end of the piece
    if b.before(a) {
        lemma_same_line(a, b, q, p, z);
        lemma_between(q, p, z);
        if l < j {
            lemma_in_order(a, b, edges, l, j);
        }
        if l > j + 1 {
            lemma_in_order(a, b, edges, j + 1, l);
        }
    } else {
        lemma_between(p, q, z);
        if l < j {
            lemma_in_order(a, b, edges, l, j);
        }
        if l > j + 1 {
            lemma_in_order(a, b, edges, j + 1, l);
        }
    }
}

/// A piece of a subdivided skeleton is cut by that skeleton nowhere but at
/// its ends.
pub proof fn lemma_piece_is_whole(edges: Seq<Segment>, m: int, j: int)
    requires
        has_piece(edges, edges, m, j),
    ensures
        subdivided_edge(
            piece(edges, edges, m, j).0,
            piece(edges, edges, m, j).1,
            subdivided_skeleton(edges),
        ) == seq![piece(edges, edges, m, j).0, piece(edges, edges, m, j).1],
{
    let (p, q) = piece(edges, edges, m, j);
    let cut = subdivided_skeleton(edges);
    let w = seq![p, q];
    lemma_neighbours(edges[m].0, edges[m].1, edges, j);
    assert(w[0] == p && w[1] == q);
    assert forall|z: Point| w.contains(z) <==> is_cut_point(z, p, q, cut) by {
        if w.contains(z) {
            let k = choose|k: int| 0 <= k < w.len() && w[k] == z;
        }
        if is_cut_point(z, p, q, cut) && !(z == p || z == q) {
            let k = choose|k: int| 0 <= k < cut.len() && #[trigger] cuts_at(p, q, cut[k], z);
            lemma_pieces(edges, edges, edges.len(), k);
            let (n, i) = choose|n: int, i: int|
                has_piece(edges, edges, n, i) && #[trigger] piece(edges, edges, n, i) == cut[k];
            lemma_pieces_meet_at_ends(edges, m, j, n, i, z);
        }
    }
    if q.before(p) {
        let r = w.reverse();
        assert(r[0] == q && r[1] == p);
        assert(ascending(r));
    } else {
        assert(ascending(w));
    }
    assert(is_subdivided_edge(w, p, q, cut));
    lemma_subdivided_edge(p, q, cut);
    lemma_subdivided_edge_unique(w, subdivided_edge(p, q, cut), p, q, cut);
}

/// Segments that are cut nowhere but at their ends are left as they are.
pub proof fn lemma_whole_edges(edges: Seq<Segment>, against: Seq<Segment>, n: nat)
    requires
        n <= edges.len(),
        forall|x: int|
            0 <= x < edges.len() ==> subdivided_edge(
                (#[trigger] edges[x]).0,
                edges[x].1,
                against,
            ) == seq![edges[x].0, edges[x].1],
    ensures
        subdivided_edges(edges, against, n) == edges.subrange(0, n as int),
    decreases n,
{
    if n == 0 {
        assert(subdivided_edges(edges, against, n) =~= edges.subrange(0, n as int));
    } else {
        lemma_whole_edges(edges, against, (n - 1) as nat);
        let e = edges[n - 1];
        let s = subdivided_edge(e.0, e.1, against);
        assert(s == seq![e.0, e.1]);
        assert(chain(s) =~= seq![e]);
        assert(subdivided_edges(edges, against, n) =~= edges.subrange(0, n as int));
    }
}

/// To subdivide a skeleton that was subdivided changes nothing.
pub proof fn lemma_subdivided_skeleton_is_stable(edges: Seq<Segment>)
    ensures
        subdivided_skeleton(subdivided_skeleton(edges)) == subdivided_skeleton(edges),
{
    let cut = subdivided_skeleton(edges);
    assert forall|x: int| 0 <= x < cut.len() implies subdivided_edge(
        (#[trigger] cut[x]).0,
        cut[x].1,
        cut,
    ) == seq![cut[x].0, cut[x].1] by {
        lemma_pieces(edges, edges, edges.len(), x);
        let (m, j) = choose|m: int, j: int|
            has_piece(edges, edges, m, j) && #[trigger] piece(edges, edges, m, j) == cut[x];
        lemma_piece_is_whole(edges, m, j);
    }
    lemma_whole_edges(cut, cut, cut.len());
    assert(cut.subrange(0, cut.len() as int) =~= cut);
}

/// The skeleton of a task that was subdivided twice is the skeleton of the
/// task subdivided once.
pub proof fn lemma_subdivide_twice(t: TaskView)
    ensures
        subdivided(subdivided(t)).skeleton == subdivided(t).skeleton,
{
    lemma_subdivided_skeleton_is_stable(t.skeleton);
}

} // verus!
