//! Laws of the cross product.

use crate::algebra::inverse;
use crate::algebra::lemma_factor_out;
use crate::algebra::lemma_three_factors;
use crate::algebra::times;
use crate::geom::cross;
use crate::geom::line_crossing;
use crate::geom::Point;
use vstd::prelude::*;

verus! {

/// The cross product, written out.
pub proof fn lemma_cross_parts(s: Point, w: Point)
    ensures
        cross(s, w) == times(s.x, w.y) - times(s.y, w.x),
{
    reveal(times);
    reveal(cross);
}

/// The coordinates of a scaled vector.
pub proof fn lemma_scaled_parts(x: Point, k: real)
    ensures
        x.scaled(k).x == times(x.x, k),
        x.scaled(k).y == times(x.y, k),
{
    reveal(times);
    reveal(Point::scaled);
}

/// The form of the point of `line_crossing`.
pub proof fn lemma_line_crossing_form(a: Point, b: Point, c: Point, d: Point)
    ensures
        line_crossing(a, b, c, d) == c.scaled(cross(b.minus(a), d.minus(a))).minus(
            d.scaled(cross(b.minus(a), c.minus(a))),
        ).scaled(inverse(cross(b.minus(a), d.minus(a)) - cross(b.minus(a), c.minus(a)))),
{
    reveal(line_crossing);
    reveal(inverse);
}

/// Of three vectors, each times the cross product of the other two, taken
/// in turn, add up to nothing.
pub proof fn lemma_three_vectors(u: Point, s: Point, w: Point)
    ensures
        times(u.x, cross(s, w)) == times(s.x, cross(u, w)) - times(w.x, cross(u, s)),
        times(u.y, cross(s, w)) == times(s.y, cross(u, w)) - times(w.y, cross(u, s)),
{
    lemma_cross_parts(s, w);
    lemma_cross_parts(u, w);
    lemma_cross_parts(u, s);
    // by x
    lemma_factor_out(times(s.x, w.y), times(s.y, w.x), u.x);
    lemma_factor_out(times(u.x, w.y), times(u.y, w.x), s.x);
    lemma_factor_out(times(u.x, s.y), times(u.y, s.x), w.x);
    lemma_three_factors(u.x, s.x, w.y);
    lemma_three_factors(u.x, s.y, w.x);
    lemma_three_factors(s.x, u.y, w.x);
    lemma_three_factors(s.x, u.x, w.y);
    lemma_three_factors(w.x, u.x, s.y);
    lemma_three_factors(w.x, u.y, s.x);
    // by y
    lemma_factor_out(times(s.x, w.y), times(s.y, w.x), u.y);
    lemma_factor_out(times(u.x, w.y), times(u.y, w.x), s.y);
    lemma_factor_out(times(u.x, s.y), times(u.y, s.x), w.y);
    lemma_three_factors(u.y, s.x, w.y);
    lemma_three_factors(u.y, s.y, w.x);
    lemma_three_factors(s.y, u.x, w.y);
    lemma_three_factors(s.y, u.y, w.x);
    lemma_three_factors(w.y, u.x, s.y);
    lemma_three_factors(w.y, u.y, s.x);
}

/// The cross product with a difference is the difference of the cross
/// products, on either side; a vector is parallel to itself; and the cross
/// product changes sign when its factors change places.
pub proof fn lemma_cross_minus(u: Point, p: Point, q: Point)
    ensures
        cross(u, p.minus(q)) == cross(u, p) - cross(u, q),
        cross(p.minus(q), u) == cross(p, u) - cross(q, u),
        cross(u, u) == 0real,
        cross(p, q) == -cross(q, p),
{
    reveal(cross);
    let (ux, uy, px, py, qx, qy) = (u.x, u.y, p.x, p.y, q.x, q.y);
    assert(ux * (py - qy) - uy * (px - qx) == (ux * py - uy * px) - (ux * qy - uy * qx))
        by (nonlinear_arith);
    assert((px - qx) * uy - (py - qy) * ux == (px * uy - py * ux) - (qx * uy - qy * ux))
        by (nonlinear_arith);
    assert(ux * uy - uy * ux == 0real) by (nonlinear_arith);
    assert(px * qy - py * qx == -(qx * py - qy * px)) by (nonlinear_arith);
}

/// The cross product with a scaled vector is the scaled cross product.
pub proof fn lemma_cross_scaled(u: Point, x: Point, k: real)
    ensures
        cross(u, x.scaled(k)) == times(cross(u, x), k),
{
    let xs = x.scaled(k);
    lemma_cross_parts(u, x);
    lemma_cross_parts(u, xs);
    lemma_scaled_parts(x, k);
    lemma_three_factors(u.x, x.y, k);
    lemma_three_factors(u.y, x.x, k);
    lemma_factor_out(times(u.x, x.y), times(u.y, x.x), k);
}

} // verus!
