//! Laws of lines and of the crossing of segments, on which the law of the
//! subdivision rests.

use crate::algebra::inverse;
use crate::algebra::lemma_cancel;
use crate::algebra::lemma_combine;
use crate::algebra::lemma_factor_out;
use crate::algebra::lemma_times_zero;
use crate::algebra::lemma_zero_product;
use crate::algebra::times;
use crate::cross::lemma_cross_minus;
use crate::cross::lemma_cross_parts;
use crate::cross::lemma_cross_scaled;
use crate::cross::lemma_line_crossing_form;
use crate::cross::lemma_three_vectors;
use crate::geom::cross;
use crate::geom::crossing;
use crate::geom::lemma_parameters_differ;
use crate::geom::line_crossing;
use crate::geom::max_of;
use crate::geom::min_of;
use crate::geom::Point;
use vstd::prelude::*;

verus! {

/// Whether `p` lies on the line through `a` and `b`.
pub open spec fn on_line(p: Point, a: Point, b: Point) -> bool {
    cross(b.minus(a), p.minus(a)) == 0real
}

/// Whether `p` lies in the bounding box of `a` and `b`.
pub open spec fn in_box(p: Point, a: Point, b: Point) -> bool {
    &&& min_of(a.x, b.x) <= p.x <= max_of(a.x, b.x)
    &&& min_of(a.y, b.y) <= p.y <= max_of(a.y, b.y)
}

/// What is parallel to a vector that is not zero is parallel to every
/// vector parallel to that one.
pub proof fn lemma_parallel(u: Point, s: Point, w: Point)
    requires
        !u.is_origin(),
        cross(u, s) == 0real,
        cross(u, w) == 0real,
    ensures
        cross(s, w) == 0real,
{
    lemma_three_vectors(u, s, w);
    lemma_times_zero(s.x, cross(u, w));
    lemma_times_zero(w.x, cross(u, s));
    lemma_times_zero(s.y, cross(u, w));
    lemma_times_zero(w.y, cross(u, s));
    lemma_zero_product(u.x, cross(s, w));
    lemma_zero_product(u.y, cross(s, w));
}

/// The vector from a point to itself is parallel to every vector.
pub proof fn lemma_cross_origin(o: Point, w: Point)
    requires
        o.is_origin(),
    ensures
        cross(o, w) == 0real,
        cross(w, o) == 0real,
{
    lemma_cross_parts(o, w);
    lemma_cross_parts(w, o);
    lemma_times_zero(w.y, o.x);
    lemma_times_zero(w.x, o.y);
}

/// The ends of a segment lie on its line.
pub proof fn lemma_ends_on_line(a: Point, b: Point)
    ensures
        on_line(a, a, b),
        on_line(b, a, b),
{
    let u = b.minus(a);
    lemma_cross_origin(a.minus(a), u);
    lemma_cross_minus(u, u, u);
}

/// The difference of two points of a line is parallel to the line.
pub proof fn lemma_along_line(a: Point, b: Point, p: Point, q: Point)
    requires
        on_line(p, a, b),
        on_line(q, a, b),
    ensures
        cross(b.minus(a), q.minus(p)) == 0real,
{
    let u = b.minus(a);
    lemma_cross_minus(u, q.minus(a), p.minus(a));
    assert(q.minus(a).minus(p.minus(a)) == q.minus(p));
}

/// Two different points of a line give the line: a point in line with them
/// is on it.
pub proof fn lemma_same_line(a: Point, b: Point, p: Point, q: Point, x: Point)
    requires
        a != b,
        p != q,
        on_line(p, a, b),
        on_line(q, a, b),
    ensures
        on_line(x, p, q) <==> on_line(x, a, b),
{
    let u = b.minus(a);
    let s = q.minus(p);
    let w = x.minus(p);
    lemma_along_line(a, b, p, q);
    lemma_cross_minus(u, s, u);
    assert(cross(s, u) == 0real);
    lemma_cross_minus(u, x.minus(a), p.minus(a));
    assert(x.minus(a).minus(p.minus(a)) == w);
    assert(cross(u, w) == cross(u, x.minus(a)));
    assert(!u.is_origin());
    assert(!s.is_origin());
    if cross(s, w) == 0real {
        lemma_parallel(s, u, w);
    }
    if cross(u, w) == 0real {
        lemma_parallel(u, s, w);
    }
}

/// Two lines that are not parallel have one point in common at most.
pub proof fn lemma_one_crossing(a: Point, b: Point, c: Point, d: Point, x: Point, y: Point)
    requires
        cross(b.minus(a), d.minus(c)) != 0real,
        on_line(x, a, b),
        on_line(x, c, d),
        on_line(y, a, b),
        on_line(y, c, d),
    ensures
        x == y,
{
    let u = b.minus(a);
    let v = d.minus(c);
    let w = x.minus(y);
    lemma_cross_minus(u, x.minus(a), y.minus(a));
    assert(x.minus(a).minus(y.minus(a)) == w);
    lemma_cross_minus(v, x.minus(c), y.minus(c));
    assert(x.minus(c).minus(y.minus(c)) == w);
    assert(cross(u, w) == 0real);
    assert(cross(v, w) == 0real);
    lemma_cross_minus(u, w, v);
    lemma_cross_minus(u, w, u);
    assert(cross(w, v) == 0real);
    assert(cross(w, u) == 0real);
    lemma_three_vectors(w, u, v);
    lemma_times_zero(u.x, cross(w, v));
    lemma_times_zero(v.x, cross(w, u));
    lemma_times_zero(u.y, cross(w, v));
    lemma_times_zero(v.y, cross(w, u));
    lemma_zero_product(w.x, cross(u, v));
    lemma_zero_product(w.y, cross(u, v));
    assert(w.x == 0real && w.y == 0real);
}

/// Where two lines are not parallel, the point of `line_crossing` lies on
/// both.
pub proof fn lemma_crossing_point(a: Point, b: Point, c: Point, d: Point)
    requires
        cross(b.minus(a), d.minus(c)) != 0real,
    ensures
        on_line(line_crossing(a, b, c, d), a, b),
        on_line(line_crossing(a, b, c, d), c, d),
{
    lemma_line_crossing_form(a, b, c, d);
    let u = b.minus(a);
    let v = d.minus(c);
    let alpha = cross(u, c.minus(a));
    let beta = cross(u, d.minus(a));
    let k = inverse(beta - alpha);
    let cb = c.scaled(beta);
    let da = d.scaled(alpha);
    let m = cb.minus(da);
    let p = m.scaled(k);
    assert(p == line_crossing(a, b, c, d));
    lemma_parameters_differ(a, b, c, d);
    assert(beta - alpha != 0real);
    // the first line
    let a0 = cross(u, a);
    let c0 = cross(u, c);
    let d0 = cross(u, d);
    lemma_cross_minus(u, c, a);
    lemma_cross_minus(u, d, a);
    lemma_cross_scaled(u, m, k);
    lemma_cross_minus(u, cb, da);
    lemma_cross_scaled(u, c, beta);
    lemma_cross_scaled(u, d, alpha);
    lemma_combine(a0, c0, d0);
    assert(cross(u, m) == times(a0, beta - alpha));
    lemma_cancel(a0, beta - alpha);
    assert(cross(u, p) == a0);
    lemma_cross_minus(u, p, a);
    // the second line
    let e = cross(d, c);
    lemma_cross_minus(c, d, c);
    lemma_cross_minus(d, d, c);
    lemma_cross_minus(d, c, d);
    assert(cross(v, c) == e);
    assert(cross(v, d) == e);
    lemma_cross_scaled(v, m, k);
    lemma_cross_minus(v, cb, da);
    lemma_cross_scaled(v, c, beta);
    lemma_cross_scaled(v, d, alpha);
    lemma_factor_out(beta, alpha, e);
    assert(cross(v, m) == times(e, beta - alpha));
    lemma_cancel(e, beta - alpha);
    assert(cross(v, p) == e);
    lemma_cross_minus(v, p, c);
}

/// A point of a line that lies in the bounding box of two points of the
/// line comes between them in the canonical order.
pub proof fn lemma_between(p: Point, q: Point, x: Point)
    requires
        p.before(q),
        on_line(x, p, q),
        in_box(x, p, q),
    ensures
        !x.before(p),
        !q.before(x),
{
    let s = q.minus(p);
    let w = x.minus(p);
    let z = x.minus(q);
    lemma_cross_parts(s, w);
    lemma_cross_minus(s, w, s);
    assert(w.minus(s) == z);
    assert(cross(s, z) == 0real);
    lemma_cross_parts(s, z);
    if p.x < q.x {
        if x.x == p.x {
            lemma_times_zero(s.y, w.x);
            lemma_zero_product(s.x, w.y);
        }
        if x.x == q.x {
            lemma_times_zero(s.y, z.x);
            lemma_zero_product(s.x, z.y);
        }
    }
}

/// The point in which two segments cross lies on the lines of both and in
/// the bounding boxes of both.
pub proof fn lemma_crossing_on_segments(a: Point, b: Point, c: Point, d: Point, x: Point)
    requires
        crossing(a, b, c, d) == Some(x),
    ensures
        cross(b.minus(a), d.minus(c)) != 0real,
        x == line_crossing(a, b, c, d),
        on_line(x, a, b),
        on_line(x, c, d),
        in_box(x, a, b),
        in_box(x, c, d),
{
    lemma_crossing_point(a, b, c, d);
}

/// A point on both lines and in both boxes is the point in which the
/// segments cross.
pub proof fn lemma_crossing_found(a: Point, b: Point, c: Point, d: Point, x: Point)
    requires
        cross(b.minus(a), d.minus(c)) != 0real,
        on_line(x, a, b),
        on_line(x, c, d),
        in_box(x, a, b),
        in_box(x, c, d),
    ensures
        crossing(a, b, c, d) == Some(x),
{
    lemma_crossing_point(a, b, c, d);
    lemma_one_crossing(a, b, c, d, x, line_crossing(a, b, c, d));
}

/// A box within a box: what lies in the bounding box of two points of a
/// box lies in the box.
pub proof fn lemma_box_in_box(a: Point, b: Point, p: Point, q: Point, x: Point)
    requires
        in_box(p, a, b),
        in_box(q, a, b),
        in_box(x, p, q),
    ensures
        in_box(x, a, b),
{
}

/// Two segments cross in the same point, whichever of them is named first.
pub proof fn lemma_crossing_is_mutual(a: Point, b: Point, c: Point, d: Point)
    ensures
        crossing(c, d, a, b) == crossing(a, b, c, d),
{
    lemma_cross_minus(b.minus(a), b.minus(a), d.minus(c));
    assert(cross(d.minus(c), b.minus(a)) == -cross(b.minus(a), d.minus(c)));
    match crossing(a, b, c, d) {
        Some(x) => {
            lemma_crossing_on_segments(a, b, c, d, x);
            lemma_crossing_found(c, d, a, b, x);
        },
        None => {
            match crossing(c, d, a, b) {
                Some(y) => {
                    lemma_crossing_on_segments(c, d, a, b, y);
                    lemma_crossing_found(a, b, c, d, y);
                },
                None => {},
            }
        },
    }
}

} // verus!
