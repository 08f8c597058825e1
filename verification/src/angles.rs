//! The law of the angle key: vectors with one angle key point one way.

use crate::algebra::lemma_negate;
use crate::algebra::lemma_same_share;
use crate::algebra::lemma_share;
use crate::algebra::share;
use crate::cross::lemma_cross_parts;
use crate::geom::angle_key;
use crate::geom::cross;
use crate::geom::quarter_turns;
use crate::geom::turned_by;
use crate::geom::Point;
use vstd::prelude::*;

verus! {

/// The angle key as quarter turns and share.
pub proof fn lemma_angle_key_form(p: Point)
    ensures
        angle_key(p) == quarter_turns(p) as real + share(
            turned_by(p, quarter_turns(p)).x,
            turned_by(p, quarter_turns(p)).y,
        ),
{
    reveal(angle_key);
    reveal(share);
}

/// A quarter turn of both vectors leaves their cross product as it is.
pub proof fn lemma_turned_cross(u: Point, v: Point)
    ensures
        cross(u.turned(), v.turned()) == cross(u, v),
{
    lemma_cross_parts(u, v);
    lemma_cross_parts(u.turned(), v.turned());
    lemma_negate(u.y, v.x);
    lemma_negate(u.x, v.y);
}

/// Two vectors with the same angle key need the same number of quarter
/// turns and are parallel: the angle key tells directions apart.
pub proof fn lemma_angle_key_tells_directions(u: Point, v: Point)
    requires
        !u.is_origin(),
        !v.is_origin(),
        angle_key(u) == angle_key(v),
    ensures
        quarter_turns(u) == quarter_turns(v),
        cross(u, v) == 0real,
{
    let su = quarter_turns(u);
    let sv = quarter_turns(v);
    let qu = turned_by(u, su);
    let qv = turned_by(v, sv);
    lemma_angle_key_form(u);
    lemma_angle_key_form(v);
    lemma_share(qu.x, qu.y);
    lemma_share(qv.x, qv.y);
    assert(su >= 1 ==> qu.y > 0real);
    assert(sv >= 1 ==> qv.y > 0real);
    assert(su == sv);
    lemma_same_share(qu.x, qu.y, qv.x, qv.y);
    lemma_cross_parts(qu, qv);
    assert(cross(qu, qv) == 0real);
    lemma_turned_cross(u, v);
    lemma_turned_cross(u.turned(), v.turned());
    lemma_turned_cross(u.turned().turned(), v.turned().turned());
}

} // verus!
