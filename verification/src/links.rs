//! The combinatorial half of the mesh. Half-edges are numbered so that those
//! that leave one vertex stand together, in the order in which they follow
//! each other round it; from that alone come the links `opposite`, `next` and
//! `prev`, and the faces.

use vstd::prelude::*;
use vstd::set_lib::lemma_int_range;
use vstd::set_lib::lemma_len_subset;
use vstd::set_lib::set_int_range;

verus! {

/// Half-edges with the same start stand together, vertex after vertex.
pub open spec fn grouped(starts: Seq<usize>) -> bool {
    forall|i: int, j: int| 0 <= i < j < starts.len() ==> starts[i] <= starts[j]
}

/// Every half-edge joins two vertices below `nv`.
pub open spec fn within(starts: Seq<usize>, ends: Seq<usize>, nv: int) -> bool {
    &&& starts.len() == ends.len()
    &&& forall|e: int| 0 <= e < starts.len() ==> #[trigger] starts[e] < nv
    &&& forall|e: int| 0 <= e < ends.len() ==> #[trigger] ends[e] < nv
}

/// No two half-edges have both start and end in common.
pub open spec fn distinct_pairs(starts: Seq<usize>, ends: Seq<usize>) -> bool {
    forall|e: int, f: int|
        0 <= e < starts.len() && 0 <= f < starts.len() && #[trigger] starts[e] == #[trigger] starts[f]
            && ends[e] == ends[f] ==> e == f
}

/// Whether half-edge `f` runs where `e` runs, the other way.
pub open spec fn reverse_of(starts: Seq<usize>, ends: Seq<usize>, e: int, f: int) -> bool {
    0 <= f < starts.len() && starts[f] == ends[e] && ends[f] == starts[e]
}

/// Whether some half-edge runs where `e` runs, the other way.
pub open spec fn has_reverse(starts: Seq<usize>, ends: Seq<usize>, e: int) -> bool {
    exists|f: int| #[trigger] reverse_of(starts, ends, e, f)
}

/// Every half-edge has one that runs the other way.
pub open spec fn paired(starts: Seq<usize>, ends: Seq<usize>) -> bool {
    forall|e: int| 0 <= e < starts.len() ==> #[trigger] has_reverse(starts, ends, e)
}

/// `first[v]` is the number of the first half-edge that leaves vertex `v`, and
/// `first[v + 1]` is one past the last.
pub open spec fn is_offsets(first: Seq<usize>, starts: Seq<usize>, nv: int) -> bool {
    &&& first.len() == nv + 1
    &&& first[0] == 0
    &&& first[nv] == starts.len()
    &&& forall|v: int| 0 <= v < nv ==> #[trigger] first[v] <= first[v + 1]
    &&& forall|e: int|
        0 <= e < starts.len() ==> first[#[trigger] starts[e] as int] <= e < first[starts[e] + 1]
}

/// The half-edges of a vertex lie between its two offsets, and only they.
pub proof fn lemma_offsets_group(first: Seq<usize>, starts: Seq<usize>, nv: int, v: int, e: int)
    requires
        is_offsets(first, starts, nv),
        forall|e: int| 0 <= e < starts.len() ==> #[trigger] starts[e] < nv,
        0 <= v < nv,
        first[v] <= e < first[v + 1],
    ensures
        0 <= e < starts.len(),
        starts[e] == v,
{
    lemma_offsets_monotone(first, nv, v + 1, nv);
    let s = starts[e] as int;
    if s < v {
        lemma_offsets_monotone(first, nv, s + 1, v);
    } else if s > v {
        lemma_offsets_monotone(first, nv, v + 1, s);
    }
}

/// The offsets ascend.
pub proof fn lemma_offsets_monotone(first: Seq<usize>, nv: int, a: int, b: int)
    requires
        first.len() == nv + 1,
        forall|v: int| 0 <= v < nv ==> #[trigger] first[v] <= first[v + 1],
        0 <= a <= b <= nv,
    ensures
        first[a] <= first[b],
    decreases b - a,
{
    if a < b {
        lemma_offsets_monotone(first, nv, a, b - 1);
        assert(first[b - 1] <= first[b - 1 + 1]);
    }
}

/// For each vertex, where its half-edges begin.
pub fn group_offsets(starts: &Vec<usize>, nv: usize) -> (first: Vec<usize>)
    requires
        grouped(starts@),
        nv < usize::MAX,
        forall|e: int| 0 <= e < starts.len() ==> #[trigger] starts[e] < nv,
    ensures
        is_offsets(first@, starts@, nv as int),
{
    let h = starts.len();
    let mut first: Vec<usize> = Vec::new();
    let mut e: usize = 0;
    let mut v: usize = 0;
    while v < nv
        invariant
            h == starts.len(),
            grouped(starts@),
            forall|e: int| 0 <= e < starts.len() ==> #[trigger] starts[e] < nv,
            v <= nv,
            e <= h,
            first.len() == v,
            v > 0 ==> first[0] == 0,
            v == 0 ==> e == 0,
            forall|x: int| 0 <= x < e ==> #[trigger] starts[x] < v,
            forall|x: int| e <= x < h ==> #[trigger] starts[x] >= v,
            forall|u: int| 0 <= u < v - 1 ==> #[trigger] first[u] <= first[u + 1],
            v > 0 ==> first[v - 1] <= e,
            forall|x: int| 0 <= x < e ==> first[#[trigger] starts[x] as int] <= x,
            forall|x: int|
                0 <= x < e && starts[x] + 1 < v ==> x < first[#[trigger] starts[x] + 1],
            forall|x: int| 0 <= x < e && starts[x] + 1 == v ==> x < e,
            forall|x: int| 0 <= x < h && #[trigger] starts[x] + 1 < v ==> x < first[starts[x] + 1],
        decreases nv - v,
    {
        first.push(e);
        while e < h && starts[e] == v
            invariant
                h == starts.len(),
                grouped(starts@),
                e <= h,
                v < nv,
                first.len() == v + 1,
                first[v as int] <= e,
                forall|x: int| 0 <= x < first[v as int] ==> #[trigger] starts[x] < v,
                forall|x: int| first[v as int] <= x < e ==> #[trigger] starts[x] == v,
                forall|x: int| first[v as int] <= x < h ==> #[trigger] starts[x] >= v,
            decreases h - e,
        {
            e = e + 1;
        }
        proof {
            if e < h {
                assert(starts[e as int] >= v);
                assert forall|x: int| e <= x < h implies #[trigger] starts[x] >= v + 1 by {
                    assert(starts[e as int] <= starts[x]);
                }
            }
        }
        v = v + 1;
    }
    first.push(e);
    proof {
        if e < h {
            assert(starts[e as int] >= nv);
        }
        assert(e == h);
        assert forall|x: int| 0 <= x < starts.len() implies first[#[trigger] starts[x] as int] <= x
            < first[starts[x] + 1] by {
            if starts[x] + 1 == nv {
            } else {
                assert(starts[x] + 1 < nv);
            }
        }
    }
    first
}

/// The half-edge from `v` to `w`, if there is one.
pub fn find_half_edge(
    starts: &Vec<usize>,
    ends: &Vec<usize>,
    first: &Vec<usize>,
    v: usize,
    w: usize,
) -> (r: Option<usize>)
    requires
        within(starts@, ends@, first.len() - 1),
        is_offsets(first@, starts@, first.len() - 1),
        v < first.len() - 1,
    ensures
        match r {
            Some(e) => e < starts.len() && starts[e as int] == v && ends[e as int] == w,
            None => forall|e: int| 0 <= e < starts.len() ==> !(starts[e] == v && #[trigger] ends[e] == w),
        },
{
    let ghost nv = first.len() - 1;
    let hi = first[v + 1];
    let mut e = first[v];
    while e < hi
        invariant
            within(starts@, ends@, nv),
            is_offsets(first@, starts@, nv),
            nv == first.len() - 1,
            v < nv,
            hi == first[v + 1],
            first[v as int] <= e,
            forall|x: int| first[v as int] <= x < e ==> #[trigger] ends[x] != w,
        decreases hi - e,
    {
        proof {
            lemma_offsets_group(first@, starts@, nv, v as int, e as int);
        }
        if ends[e] == w {
            return Some(e);
        }
        e = e + 1;
    }
    assert forall|x: int| 0 <= x < starts.len() implies !(starts[x] == v && #[trigger] ends[x]
        == w) by {
        if starts[x] == v {
            assert(first[starts[x] as int] <= x < first[starts[x] + 1]);
        }
    }
    None
}

/// `opposite[e]` runs where `e` runs, the other way, for every half-edge.
pub open spec fn is_opposite(starts: Seq<usize>, ends: Seq<usize>, opposite: Seq<usize>) -> bool {
    &&& opposite.len() == starts.len()
    &&& forall|e: int|
        0 <= e < starts.len() ==> reverse_of(starts, ends, e, #[trigger] opposite[e] as int)
}

/// Where no two half-edges join the same vertices the same way, the opposite
/// of the opposite of a half-edge is that half-edge.
pub proof fn lemma_opposite_involution(
    starts: Seq<usize>,
    ends: Seq<usize>,
    opposite: Seq<usize>,
    e: int,
)
    requires
        starts.len() == ends.len(),
        distinct_pairs(starts, ends),
        is_opposite(starts, ends, opposite),
        0 <= e < starts.len(),
    ensures
        0 <= opposite[e] < starts.len(),
        opposite[opposite[e] as int] == e,
{
    let f = opposite[e] as int;
    assert(reverse_of(starts, ends, e, f));
    let g = opposite[f] as int;
    assert(reverse_of(starts, ends, f, g));
    assert(starts[g] == starts[e] && ends[g] == ends[e]);
}

/// For every half-edge the one that runs the other way.
pub fn opposites(starts: &Vec<usize>, ends: &Vec<usize>, first: &Vec<usize>) -> (r: Vec<usize>)
    requires
        within(starts@, ends@, first.len() - 1),
        is_offsets(first@, starts@, first.len() - 1),
        paired(starts@, ends@),
    ensures
        is_opposite(starts@, ends@, r@),
{
    let h = starts.len();
    let mut r: Vec<usize> = Vec::new();
    let mut e: usize = 0;
    while e < h
        invariant
            h == starts.len(),
            within(starts@, ends@, first.len() - 1),
            is_offsets(first@, starts@, first.len() - 1),
            paired(starts@, ends@),
            e <= h,
            r.len() == e,
            forall|x: int| 0 <= x < e ==> reverse_of(starts@, ends@, x, #[trigger] r[x] as int),
        decreases h - e,
    {
        let found = find_half_edge(starts, ends, first, ends[e], starts[e]);
        proof {
            assert(has_reverse(starts@, ends@, e as int));
            let f = choose|f: int| #[trigger] reverse_of(starts@, ends@, e as int, f);
            assert(starts[f] == ends[e as int] && ends[f] == starts[e as int]);
        }
        match found {
            Some(f) => r.push(f),
            None => r.push(unreached()),
        }
        e = e + 1;
    }
    r
}

/// The half-edge that follows `e` round the vertex that both leave: the next
/// of the group, and after the last the first.
pub open spec fn around(first: Seq<usize>, starts: Seq<usize>, e: int) -> int {
    if e + 1 < first[starts[e] + 1] {
        e + 1
    } else {
        first[starts[e] as int] as int
    }
}

/// The half-edge that `around` leads to `e`.
pub open spec fn around_back(first: Seq<usize>, starts: Seq<usize>, e: int) -> int {
    if e > first[starts[e] as int] {
        e - 1
    } else {
        first[starts[e] + 1] - 1
    }
}

/// `around` stays with the vertex, and `around_back` undoes it.
pub proof fn lemma_around(first: Seq<usize>, starts: Seq<usize>, nv: int, e: int)
    requires
        is_offsets(first, starts, nv),
        forall|e: int| 0 <= e < starts.len() ==> #[trigger] starts[e] < nv,
        0 <= e < starts.len(),
    ensures
        0 <= around(first, starts, e) < starts.len(),
        starts[around(first, starts, e)] == starts[e],
        0 <= around_back(first, starts, e) < starts.len(),
        starts[around_back(first, starts, e)] == starts[e],
        around(first, starts, around_back(first, starts, e)) == e,
        around_back(first, starts, around(first, starts, e)) == e,
{
    let v = starts[e] as int;
    assert(first[v] <= e < first[v + 1]);
    lemma_offsets_group(first, starts, nv, v, around(first, starts, e));
    lemma_offsets_group(first, starts, nv, v, around_back(first, starts, e));
}

/// `prev` leads from each half-edge to the opposite of the one that follows
/// it round its start, and `next` leads back.
pub open spec fn is_linked(
    first: Seq<usize>,
    starts: Seq<usize>,
    opposite: Seq<usize>,
    prev: Seq<usize>,
    next: Seq<usize>,
) -> bool {
    &&& prev.len() == starts.len()
    &&& next.len() == starts.len()
    &&& forall|e: int|
        0 <= e < starts.len() ==> #[trigger] prev[e] == opposite[around(first, starts, e)]
    &&& forall|e: int| 0 <= e < starts.len() ==> #[trigger] next[prev[e] as int] == e
}

/// `next` and `prev` stay among the half-edges and undo each other.
pub open spec fn is_rotation(prev: Seq<usize>, next: Seq<usize>) -> bool {
    &&& prev.len() == next.len()
    &&& forall|e: int| 0 <= e < next.len() ==> #[trigger] next[e] < next.len()
    &&& forall|e: int| 0 <= e < prev.len() ==> #[trigger] prev[e] < prev.len()
    &&& forall|e: int| 0 <= e < next.len() ==> prev[#[trigger] next[e] as int] == e
    &&& forall|e: int| 0 <= e < prev.len() ==> next[#[trigger] prev[e] as int] == e
}

/// The links `prev` and `next` of every half-edge.
pub fn link(starts: &Vec<usize>, ends: &Vec<usize>, first: &Vec<usize>, opposite: &Vec<usize>) -> (r:
    (Vec<usize>, Vec<usize>))
    requires
        within(starts@, ends@, first.len() - 1),
        is_offsets(first@, starts@, first.len() - 1),
        distinct_pairs(starts@, ends@),
        is_opposite(starts@, ends@, opposite@),
    ensures
        is_linked(first@, starts@, opposite@, r.0@, r.1@),
        is_rotation(r.0@, r.1@),
{
    let ghost nv = first.len() - 1;
    let h = starts.len();
    let mut prev: Vec<usize> = Vec::new();
    let mut next: Vec<usize> = Vec::new();
    let mut i: usize = 0;
    while i < h
        invariant
            i <= h,
            prev.len() == i,
            next.len() == i,
        decreases h - i,
    {
        prev.push(0);
        next.push(0);
        i = i + 1;
    }
    let mut e: usize = 0;
    while e < h
        invariant
            h == starts.len(),
            nv == first.len() - 1,
            within(starts@, ends@, nv),
            is_offsets(first@, starts@, nv),
            distinct_pairs(starts@, ends@),
            is_opposite(starts@, ends@, opposite@),
            e <= h,
            prev.len() == h,
            next.len() == h,
            forall|x: int| 0 <= x < e ==> #[trigger] prev[x] == opposite[around(first@, starts@, x)],
            forall|x: int| 0 <= x < e ==> #[trigger] next[prev[x] as int] == x,
        decreases h - e,
    {
        proof {
            lemma_around(first@, starts@, nv, e as int);
        }
        let v = starts[e];
        let a = if e + 1 < first[v + 1] { e + 1 } else { first[v] };
        let p = opposite[a];
        proof {
            lemma_opposite_involution(starts@, ends@, opposite@, a as int);
            assert forall|x: int| 0 <= x < e implies #[trigger] prev[x] != p by {
                lemma_around(first@, starts@, nv, x);
                let ax = around(first@, starts@, x);
                lemma_opposite_involution(starts@, ends@, opposite@, ax);
                if prev[x] == p {
                    assert(ax == a);
                    assert(around_back(first@, starts@, ax) == x);
                }
            }
        }
        prev.set(e, p);
        next.set(p, e);
        e = e + 1;
    }
    proof {
        assert forall|x: int| 0 <= x < h implies #[trigger] prev[x] < h by {
            lemma_around(first@, starts@, nv, x);
            lemma_opposite_involution(starts@, ends@, opposite@, around(first@, starts@, x));
        }
        assert forall|x: int| 0 <= x < h implies #[trigger] next[x] < h && prev[next[x] as int]
            == x by {
            lemma_opposite_involution(starts@, ends@, opposite@, x);
            let o = opposite[x] as int;
            lemma_around(first@, starts@, nv, o);
            let y = around_back(first@, starts@, o);
            assert(prev[y] == opposite[around(first@, starts@, y)]);
            assert(prev[y] == x);
            assert(next[prev[y] as int] == y);
        }
    }
    (prev, next)
}

/// Where `k` steps along `next` lead from `e`.
pub open spec fn walk(next: Seq<usize>, e: int, k: nat) -> int
    decreases k,
{
    if k == 0 {
        e
    } else {
        next[walk(next, e, (k - 1) as nat)] as int
    }
}

/// Whether some number of steps along `next` leads from `from` to `to`.
pub open spec fn reaches(next: Seq<usize>, from: int, to: int) -> bool {
    exists|k: nat| walk(next, from, k) == to
}

/// The faces are the cycles of `next`: every half-edge lies on the cycle of
/// the half-edge that stands for its face, the one with the least number on
/// it, and the faces are numbered in the order of those.
pub open spec fn is_faces(next: Seq<usize>, he_poly: Seq<usize>, poly_he: Seq<usize>) -> bool {
    &&& he_poly.len() == next.len()
    &&& forall|e: int| 0 <= e < next.len() ==> #[trigger] he_poly[e] < poly_he.len()
    &&& forall|f: int|
        0 <= f < poly_he.len() ==> #[trigger] poly_he[f] < next.len() && he_poly[poly_he[f] as int]
            == f
    &&& forall|e: int| 0 <= e < next.len() ==> he_poly[#[trigger] next[e] as int] == he_poly[e]
    &&& forall|e: int| 0 <= e < next.len() ==> poly_he[#[trigger] he_poly[e] as int] <= e
    &&& forall|e: int|
        0 <= e < next.len() ==> reaches(next, poly_he[#[trigger] he_poly[e] as int] as int, e)
    &&& forall|f: int, g: int|
        0 <= f < g < poly_he.len() ==> #[trigger] poly_he[f] < #[trigger] poly_he[g]
}

/// The half-edges that have a face already.
pub open spec fn marked(mark: Seq<Option<usize>>) -> Set<int> {
    Set::new(|x: int| 0 <= x < mark.len() && mark[x] is Some)
}

/// Where a half-edge has no face yet, fewer than all have one.
proof fn lemma_marked_bound(mark: Seq<Option<usize>>, x: int)
    requires
        0 <= x < mark.len(),
        mark[x] is None,
    ensures
        marked(mark).finite(),
        marked(mark).len() < mark.len(),
{
    let all = set_int_range(0, mark.len() as int);
    lemma_int_range(0, mark.len() as int);
    let rest = all.remove(x);
    assert(marked(mark).subset_of(rest));
    lemma_len_subset(marked(mark), rest);
}

/// A face given to a half-edge that had none adds one to those that have one.
proof fn lemma_marked_grows(mark: Seq<Option<usize>>, x: int, f: usize)
    requires
        0 <= x < mark.len(),
        mark[x] is None,
    ensures
        marked(mark.update(x, Some(f))).len() == marked(mark).len() + 1,
{
    lemma_marked_bound(mark, x);
    assert(marked(mark.update(x, Some(f))) =~= marked(mark).insert(x));
}

/// What is reached can be left by one more step.
proof fn lemma_reaches_step(next: Seq<usize>, from: int, to: int)
    requires
        reaches(next, from, to),
    ensures
        reaches(next, from, next[to] as int),
{
    let k = choose|k: nat| walk(next, from, k) == to;
    assert(walk(next, from, k + 1) == next[to]);
}

/// Every half-edge reaches itself.
proof fn lemma_reaches_start(next: Seq<usize>, e: int)
    ensures
        reaches(next, e, e),
{
    assert(walk(next, e, 0) == e);
}

/// The half-edges that have a face are whole cycles of `next`.
pub open spec fn closed_marks(prev: Seq<usize>, next: Seq<usize>, mark: Seq<Option<usize>>) -> bool {
    &&& mark.len() == next.len()
    &&& forall|x: int|
        0 <= x < next.len() && mark[x] is Some ==> mark[#[trigger] next[x] as int] == mark[x]
    &&& forall|x: int|
        0 <= x < prev.len() && mark[x] is Some ==> mark[#[trigger] prev[x] as int] == mark[x]
}

/// Gives face `p` to half-edge `e` and to all that follow it along `next`.
fn trace_face(prev: &Vec<usize>, next: &Vec<usize>, mark: &mut Vec<Option<usize>>, e: usize, p: usize)
    requires
        is_rotation(prev@, next@),
        closed_marks(prev@, next@, old(mark)@),
        e < next.len(),
        old(mark)[e as int] is None,
        forall|x: int| 0 <= x < next.len() ==> #[trigger] old(mark)[x] != Some(p),
    ensures
        closed_marks(prev@, next@, final(mark)@),
        final(mark)[e as int] == Some(p),
        forall|x: int|
            0 <= x < next.len() ==> (#[trigger] final(mark)[x] == old(mark)[x] || (old(mark)[x] is None
                && final(mark)[x] == Some(p))),
        forall|x: int|
            0 <= x < next.len() && #[trigger] final(mark)[x] == Some(p) ==> reaches(
                next@,
                e as int,
                x,
            ),
{
    let h = next.len();
    let ghost before = mark@;
    let mut e2 = e;
    let ghost mut cnt: nat = 0;
    proof {
        lemma_reaches_start(next@, e as int);
    }
    loop
        invariant_except_break
            e2 < h,
            mark[e2 as int] is None,
            reaches(next@, e as int, e2 as int),
            cnt == 0 ==> e2 == e,
            cnt > 0 ==> mark[e as int] == Some(p) && mark[prev[e2 as int] as int] == Some(p),
            forall|x: int|
                0 <= x < h && mark[x] == Some(p) ==> mark[#[trigger] next[x] as int] == Some(p)
                    || next[x] == e2,
        invariant
            h == next.len(),
            is_rotation(prev@, next@),
            closed_marks(prev@, next@, before),
            mark.len() == h,
            e < h,
            forall|x: int| 0 <= x < h ==> #[trigger] before[x] != Some(p),
            forall|x: int|
                0 <= x < h ==> (#[trigger] mark[x] == before[x] || (before[x] is None && mark[x]
                    == Some(p))),
            forall|x: int|
                0 <= x < h && mark[x] == Some(p) ==> x == e || mark[#[trigger] prev[x] as int]
                    == Some(p),
            forall|x: int| 0 <= x < h && #[trigger] mark[x] == Some(p) ==> reaches(next@, e as int, x),
        ensures
            forall|x: int|
                0 <= x < h && mark[x] == Some(p) ==> mark[#[trigger] next[x] as int] == Some(p),
            forall|x: int|
                0 <= x < h && mark[x] == Some(p) ==> mark[#[trigger] prev[x] as int] == Some(p),
            mark[e as int] == Some(p),
        decreases h - marked(mark@).len(),
    {
        proof {
            lemma_marked_bound(mark@, e2 as int);
            lemma_marked_grows(mark@, e2 as int, p);
        }
        let ghost was = mark@;
        mark.set(e2, Some(p));
        let e3 = next[e2];
        proof {
            assert(prev[e3 as int] == e2);
            lemma_reaches_step(next@, e as int, e2 as int);
            assert(mark[e as int] == Some(p));
            assert forall|x: int| 0 <= x < h && mark[x] == Some(p) implies x == e || mark[#[trigger] prev[x] as int]
                == Some(p) by {
                if x != e2 {
                    assert(was[x] == Some(p));
                }
            }
        }
        if e3 == e {
            proof {
                assert forall|x: int| 0 <= x < h && mark[x] == Some(p) implies mark[#[trigger] next[x] as int]
                    == Some(p) by {
                    if x != e2 {
                        assert(was[x] == Some(p));
                    }
                }
                assert forall|x: int| 0 <= x < h && mark[x] == Some(p) implies mark[#[trigger] prev[x] as int]
                    == Some(p) by {
                    if x == e {
                        assert(prev[e as int] == e2);
                    }
                }
            }
            break ;
        }
        proof {
            if was[e3 as int] is Some {
                if before[e3 as int] is Some {
                    assert(before[prev[e3 as int] as int] == before[e3 as int]);
                    assert(before[e2 as int] is Some);
                    assert(was[e2 as int] == before[e2 as int]);
                } else {
                    assert(was[e3 as int] == Some(p));
                    assert(was[prev[e3 as int] as int] == Some(p));
                }
            }
            assert(e3 != e2);
            assert(mark[e3 as int] is None);
            assert forall|x: int| 0 <= x < h && mark[x] == Some(p) implies mark[#[trigger] next[x] as int]
                == Some(p) || next[x] == e3 by {
                if x != e2 {
                    assert(was[x] == Some(p));
                }
            }
            cnt = cnt + 1;
        }
        e2 = e3;
    }
    proof {
        assert forall|x: int| 0 <= x < next.len() && mark[x] is Some implies mark[#[trigger] next[x] as int]
            == mark[x] by {
            if mark[x] != Some(p) {
                assert(before[x] == mark[x]);
                assert(before[next[x] as int] == before[x]);
            }
        }
        assert forall|x: int| 0 <= x < prev.len() && mark[x] is Some implies mark[#[trigger] prev[x] as int]
            == mark[x] by {
            if mark[x] != Some(p) {
                assert(before[x] == mark[x]);
                assert(before[prev[x] as int] == before[x]);
            }
        }
    }
}

/// The faces found among the half-edges below `e`.
pub open spec fn faces_below(
    prev: Seq<usize>,
    next: Seq<usize>,
    mark: Seq<Option<usize>>,
    poly_he: Seq<usize>,
    e: int,
) -> bool {
    &&& closed_marks(prev, next, mark)
    &&& poly_he.len() <= e
    &&& forall|x: int| 0 <= x < next.len() && #[trigger] mark[x] is Some ==> mark[x]->0 < poly_he.len()
    &&& forall|x: int| 0 <= x < e && x < next.len() ==> #[trigger] mark[x] is Some
    &&& forall|f: int|
        0 <= f < poly_he.len() ==> #[trigger] poly_he[f] < e && poly_he[f] < next.len()
            && mark[poly_he[f] as int] == Some(f as usize)
    &&& forall|x: int|
        0 <= x < next.len() && #[trigger] mark[x] is Some ==> poly_he[mark[x]->0 as int] <= x
            && reaches(next, poly_he[mark[x]->0 as int] as int, x)
    &&& forall|f: int, g: int|
        0 <= f < g < poly_he.len() ==> #[trigger] poly_he[f] < #[trigger] poly_he[g]
}

/// A cycle that was traced from the first half-edge without a face is one
/// face more.
proof fn lemma_face_added(
    prev: Seq<usize>,
    next: Seq<usize>,
    before: Seq<Option<usize>>,
    mark: Seq<Option<usize>>,
    poly_he: Seq<usize>,
    e: usize,
)
    requires
        faces_below(prev, next, before, poly_he, e as int),
        e < next.len(),
        before[e as int] is None,
        closed_marks(prev, next, mark),
        mark[e as int] == Some(poly_he.len() as usize),
        forall|x: int|
            0 <= x < next.len() ==> (#[trigger] mark[x] == before[x] || (before[x] is None && mark[x]
                == Some(poly_he.len() as usize))),
        forall|x: int|
            0 <= x < next.len() && #[trigger] mark[x] == Some(poly_he.len() as usize) ==> reaches(
                next,
                e as int,
                x,
            ),
    ensures
        faces_below(prev, next, mark, poly_he.push(e), e + 1),
{
    let p = poly_he.len() as usize;
    let after = poly_he.push(e);
    assert forall|x: int| 0 <= x < next.len() && #[trigger] mark[x] is Some implies mark[x]->0
        < after.len() && after[mark[x]->0 as int] <= x && reaches(
        next,
        after[mark[x]->0 as int] as int,
        x,
    ) by {
        if mark[x] == before[x] {
            assert(before[x] is Some);
        } else {
            if x < e {
                assert(before[x] is Some);
            }
        }
    }
    assert forall|x: int| 0 <= x < e + 1 && x < next.len() implies #[trigger] mark[x] is Some by {
        if x < e {
            assert(before[x] is Some);
        }
    }
    assert forall|f: int| 0 <= f < after.len() implies #[trigger] after[f] < e + 1 && after[f]
        < next.len() && mark[after[f] as int] == Some(f as usize) by {
        if f < p {
            assert(poly_he[f] < e);
            assert(before[poly_he[f] as int] == Some(f as usize));
        }
    }
    assert forall|f: int, g: int| 0 <= f < g < after.len() implies #[trigger] after[f]
        < #[trigger] after[g] by {
        assert(poly_he[f] < e);
    }
}

/// The faces: for each half-edge the face on whose boundary it lies, and for
/// each face one half-edge of its boundary.
pub fn faces(prev: &Vec<usize>, next: &Vec<usize>) -> (r: (Vec<usize>, Vec<usize>))
    requires
        is_rotation(prev@, next@),
    ensures
        is_faces(next@, r.0@, r.1@),
{
    let h = next.len();
    let mut mark: Vec<Option<usize>> = Vec::new();
    let mut i: usize = 0;
    while i < h
        invariant
            i <= h,
            mark.len() == i,
            forall|x: int| 0 <= x < i ==> #[trigger] mark[x] is None,
        decreases h - i,
    {
        mark.push(None);
        i = i + 1;
    }
    let mut poly_he: Vec<usize> = Vec::new();
    let mut e: usize = 0;
    while e < h
        invariant
            h == next.len(),
            is_rotation(prev@, next@),
            e <= h,
            faces_below(prev@, next@, mark@, poly_he@, e as int),
        decreases h - e,
    {
        if mark[e].is_none() {
            let p = poly_he.len();
            let ghost before = mark@;
            let ghost reps = poly_he@;
            trace_face(prev, next, &mut mark, e, p);
            poly_he.push(e);
            proof {
                lemma_face_added(prev@, next@, before, mark@, reps, e);
            }
        }
        e = e + 1;
    }
    let mut he_poly: Vec<usize> = Vec::new();
    let mut k: usize = 0;
    while k < h
        invariant
            h == mark.len(),
            k <= h,
            he_poly.len() == k,
            forall|x: int| 0 <= x < h ==> #[trigger] mark[x] is Some,
            forall|x: int| 0 <= x < k ==> mark[x] == Some(#[trigger] he_poly[x]),
        decreases h - k,
    {
        match mark[k] {
            Some(f) => he_poly.push(f),
            None => he_poly.push(unreached()),
        }
        k = k + 1;
    }
    proof {
        assert forall|x: int| 0 <= x < next.len() implies he_poly[#[trigger] next[x] as int]
            == he_poly[x] by {
            assert(mark[x] is Some);
            assert(mark[next[x] as int] == mark[x]);
        }
        assert forall|x: int| 0 <= x < next.len() implies poly_he[#[trigger] he_poly[x] as int]
            <= x && reaches(next@, poly_he[he_poly[x] as int] as int, x) && he_poly[x]
            < poly_he.len() by {
            assert(mark[x] is Some);
        }
    }
    (he_poly, poly_he)
}

} // verus!
