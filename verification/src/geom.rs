//! Points and vectors with rational coordinates: arithmetic, the angle key
//! that orders directions without trigonometry, signed area, and the exact
//! intersection of two segments.

use crate::rational::parsed_ratio;
use crate::rational::Rational;
use crate::text::chars_of;
use crate::text::find_first;
use crate::text::split_first;
use vstd::prelude::*;

verus! {

/// A point of the plane, or the vector that leads to it from the origin.
pub ghost struct Point {
    pub x: real,
    pub y: real,
}

impl Point {
    /// The vector from `other` to `self`.
    pub open spec fn minus(self, other: Point) -> Point {
        Point { x: self.x - other.x, y: self.y - other.y }
    }

    /// The vector `k` times as long.
    #[verifier::opaque]
    pub open spec fn scaled(self, k: real) -> Point {
        Point { x: self.x * k, y: self.y * k }
    }

    /// The vector turned a quarter turn clockwise.
    pub open spec fn turned(self) -> Point {
        Point { x: self.y, y: -self.x }
    }

    /// Whether both coordinates are zero.
    pub open spec fn is_origin(self) -> bool {
        self.x == 0real && self.y == 0real
    }

    /// The canonical order of points: by `x`, then by `y`.
    pub open spec fn before(self, other: Point) -> bool {
        self.x < other.x || (self.x == other.x && self.y < other.y)
    }
}

/// The cross product `u.x * v.y - u.y * v.x`; zero exactly for parallel
/// vectors.
#[verifier::opaque]
pub open spec fn cross(u: Point, v: Point) -> real {
    u.x * v.y - u.y * v.x
}

/// How many quarter turns clockwise bring `p` into the closed first quadrant.
pub open spec fn quarter_turns(p: Point) -> int {
    if p.x >= 0real && p.y >= 0real {
        0
    } else if p.x < 0real && p.y >= 0real {
        1
    } else if p.x <= 0real && p.y < 0real {
        2
    } else {
        3
    }
}

/// `p` after `k` quarter turns clockwise, for `k` from 0 to 3.
pub open spec fn turned_by(p: Point, k: int) -> Point {
    if k == 0 {
        p
    } else if k == 1 {
        p.turned()
    } else if k == 2 {
        p.turned().turned()
    } else {
        p.turned().turned().turned()
    }
}

/// The angle key of a vector that is not the origin: the number `s` of
/// quarter turns that bring it into the first quadrant, plus `y / (x + y)` of
/// the turned vector.
#[verifier::opaque]
pub open spec fn angle_key(p: Point) -> real {
    let s = quarter_turns(p);
    let q = turned_by(p, s);
    s as real + q.y / (q.x + q.y)
}

/// A point, or a vector, with rational coordinates.
#[derive(Debug, Eq, PartialOrd, Ord, Hash)]
pub struct Vec2 {
    pub x: Rational,
    pub y: Rational,
}

/// A `Vec2` that is meant as a point.
pub type Pt = Vec2;

impl View for Vec2 {
    type V = Point;

    open spec fn view(&self) -> Point {
        Point { x: self.x@, y: self.y@ }
    }
}

impl DeepView for Vec2 {
    type V = Point;

    open spec fn deep_view(&self) -> Point {
        self@
    }
}

impl Clone for Vec2 {
    fn clone(&self) -> (r: Self)
        ensures
            r@ == self@,
    {
        Vec2 { x: self.x.clone(), y: self.y.clone() }
    }
}

/// The quotient `y / (x + y)` of a vector in the first quadrant lies between
/// 0 and 1, and reaches 1 only on the `y` axis.
pub proof fn lemma_first_quadrant_fraction(x: real, y: real)
    requires
        x >= 0real,
        y >= 0real,
        x + y > 0real,
    ensures
        0real <= y / (x + y) <= 1real,
        x > 0real ==> y / (x + y) < 1real,
{
    assert(0real <= y / (x + y) <= 1real && (x > 0real ==> y / (x + y) < 1real))
        by (nonlinear_arith)
        requires
            x >= 0real,
            y >= 0real,
            x + y > 0real,
    ;
}

/// The angle key of every vector but the origin lies in `[0, 4)`.
pub proof fn lemma_angle_key_range(p: Point)
    requires
        !p.is_origin(),
    ensures
        0real <= angle_key(p) < 4real,
{
    reveal(angle_key);
    let s = quarter_turns(p);
    let q = turned_by(p, s);
    lemma_first_quadrant_fraction(q.x, q.y);
}

/// The point that a text of the form `x,y` stands for, where `x` and `y` are
/// rational numbers and the first comma parts them; `None` for other text.
pub open spec fn point_text(s: Seq<char>) -> Option<Point> {
    match split_first(s, ',') {
        Some((left, right)) => match (parsed_ratio(left), parsed_ratio(right)) {
            (Some(x), Some(y)) => Some(Point { x, y }),
            _ => None,
        },
        None => None,
    }
}

impl Vec2 {
    /// Reads a point from text of the form `x,y`, if it has that form.
    pub fn try_parse(s: &str) -> (r: Option<Vec2>)
        ensures
            r.deep_view() == point_text(s@),
    {
        if Self::reads(s) {
            Some(Self::parse(s))
        } else {
            None
        }
    }

    /// Whether the text has the form `x,y`.
    pub fn reads(s: &str) -> (b: bool)
        ensures
            b == point_text(s@) is Some,
    {
        let chars = chars_of(s);
        let n = chars.len();
        assert(chars@.subrange(0, n as int) =~= s@);
        match find_first(&chars, 0, n, ',') {
            Some(i) => {
                let x = Rational::parse(s.substring_char(0, i));
                let y = Rational::parse(s.substring_char(i + 1, n));
                x.is_some() && y.is_some()
            },
            None => false,
        }
    }

    /// Reads a point from text of the form `x,y`.
    pub fn parse(s: &str) -> (r: Vec2)
        requires
            point_text(s@) is Some,
        ensures
            Some(r@) == point_text(s@),
    {
        let chars = chars_of(s);
        let n = chars.len();
        assert(chars@.subrange(0, n as int) =~= s@);
        let i = match find_first(&chars, 0, n, ',') {
            Some(i) => i,
            None => unreached(),
        };
        let x = match Rational::parse(s.substring_char(0, i)) {
            Some(x) => x,
            None => unreached(),
        };
        let y = match Rational::parse(s.substring_char(i + 1, n)) {
            Some(y) => y,
            None => unreached(),
        };
        Vec2 { x, y }
    }

    /// The cross product with `other`.
    pub fn cross(&self, other: &Vec2) -> (r: Rational)
        ensures
            r@ == cross(self@, other@),
    {
        proof {
            reveal(cross);
        }
        self.x.mul(&other.y).sub(&self.y.mul(&other.x))
    }

    /// Turns the vector a quarter turn clockwise.
    pub fn rot_cw90(&mut self)
        ensures
            final(self)@ == old(self)@.turned(),
    {
        let x = self.y.clone();
        let y = self.x.neg();
        self.x = x;
        self.y = y;
    }

    /// The angle key of a vector that is not zero: a number from 0 up to, but
    /// not reaching, 4 that grows with the angle of the vector, counter-clockwise
    /// from the positive `x` axis.
    pub fn angle(self) -> (r: Rational)
        requires
            !self@.is_origin(),
        ensures
            r@ == angle_key(self@),
            0real <= r@ < 4real,
    {
        let ghost start = self@;
        let mut v = self;
        let mut s = Rational::zero();
        let mut turns: u8 = 0;
        let zero = Rational::zero();
        loop
            invariant
                0 <= turns <= 3,
                start == self@,
                s@ == turns as real,
                v@ == turned_by(start, turns as int),
                turns <= quarter_turns(start),
                zero@ == 0real,
                !start.is_origin(),
            decreases 3 - turns,
        {
            if zero.le(&v.x) && zero.le(&v.y) {
                proof {
                    reveal(angle_key);
                    assert(turns == quarter_turns(start));
                    lemma_angle_key_range(start);
                }
                let sum = v.x.add(&v.y);
                return s.add(&v.y.div(&sum));
            }
            s = s.add(&Rational::one());
            turns = turns + 1;
            v.rot_cw90();
        }
    }

    /// The vector from `rhs` to `self`.
    pub fn sub(&self, rhs: &Vec2) -> (r: Vec2)
        ensures
            r@ == self@.minus(rhs@),
    {
        Vec2 { x: self.x.sub(&rhs.x), y: self.y.sub(&rhs.y) }
    }

    /// The vector `rhs` times as long.
    pub fn mul(&self, rhs: &Rational) -> (r: Vec2)
        ensures
            r@ == self@.scaled(rhs@),
    {
        proof {
            reveal(Point::scaled);
        }
        Vec2 { x: self.x.mul(rhs), y: self.y.mul(rhs) }
    }

    /// Whether `self` comes strictly before `other` in the canonical order.
    pub fn lt(&self, other: &Vec2) -> (b: bool)
        ensures
            b == self@.before(other@),
    {
        self.x.lt(&other.x) || (self.x == other.x && self.y.lt(&other.y))
    }

}

impl PartialEq for Vec2 {
    fn eq(&self, other: &Self) -> (b: bool) {
        self.x == other.x && self.y == other.y
    }
}

impl vstd::std_specs::cmp::PartialEqSpecImpl for Vec2 {
    open spec fn obeys_eq_spec() -> bool {
        true
    }

    open spec fn eq_spec(&self, other: &Self) -> bool {
        self@ == other@
    }
}

/// The index that follows `i` on a closed polygon of `n` vertices.
pub open spec fn following(i: int, n: int) -> int {
    if i + 1 == n {
        0
    } else {
        i + 1
    }
}

/// The edges of a closed polygon: each vertex paired with the one after it,
/// the last with the first.
pub open spec fn edges_of(poly: Seq<Point>) -> Seq<(Point, Point)> {
    Seq::new(poly.len(), |i: int| (poly[i], poly[following(i, poly.len() as int)]))
}

/// The edges of a closed polygon that is not empty, in order.
pub fn iter_edges(poly: &[Vec2]) -> (r: Vec<(&Vec2, &Vec2)>)
    requires
        poly.len() > 0,
    ensures
        r.deep_view() == edges_of(poly.deep_view()),
{
    let n = poly.len();
    let mut r: Vec<(&Vec2, &Vec2)> = Vec::new();
    let mut i: usize = 0;
    while i < n
        invariant
            n == poly.len(),
            i <= n,
            r.len() == i,
            forall|k: int| 0 <= k < i ==> (#[trigger] r[k]).0@ == poly[k]@,
            forall|k: int| 0 <= k < i ==> (#[trigger] r[k]).1@ == poly[following(k, n as int)]@,
        decreases n - i,
    {
        let j: usize = if i + 1 == n { 0 } else { i + 1 };
        r.push((&poly[i], &poly[j]));
        i = i + 1;
    }
    assert(r.deep_view() =~= edges_of(poly.deep_view()));
    r
}

/// What one edge adds to twice the signed area.
pub open spec fn edge_term(a: Point, b: Point) -> real {
    (a.x + b.x) * (b.y - a.y)
}

/// The sum of `edge_term` over the first `n` edges of the closed polygon.
pub open spec fn shoelace(poly: Seq<Point>, n: nat) -> real
    decreases n,
{
    if n == 0 {
        0real
    } else {
        shoelace(poly, (n - 1) as nat) + edge_term(
            poly[n - 1],
            poly[following(n - 1, poly.len() as int)],
        )
    }
}

/// The signed area of a closed polygon: positive when it runs
/// counter-clockwise, negative when clockwise.
pub open spec fn signed_area(poly: Seq<Point>) -> real {
    shoelace(poly, poly.len()) / 2real
}

/// The signed area of a closed polygon that is not empty.
pub fn area(poly: &[Vec2]) -> (r: Rational)
    requires
        poly.len() > 0,
    ensures
        r@ == signed_area(poly.deep_view()),
{
    let n = poly.len();
    let ghost pts = poly.deep_view();
    let mut s = Rational::zero();
    let mut i: usize = 0;
    while i < n
        invariant
            n == poly.len(),
            pts == poly.deep_view(),
            i <= n,
            s@ == shoelace(pts, i as nat),
        decreases n - i,
    {
        let j: usize = if i + 1 == n { 0 } else { i + 1 };
        let a = &poly[i];
        let b = &poly[j];
        assert(pts[i as int] == a@ && pts[following(i as int, n as int)] == b@);
        s = s.add(&a.x.add(&b.x).mul(&b.y.sub(&a.y)));
        i = i + 1;
    }
    s.div(&Rational::from_i32(2))
}

/// The lesser of two numbers.
pub open spec fn min_of(a: real, b: real) -> real {
    if b < a {
        b
    } else {
        a
    }
}

/// The greater of two numbers.
pub open spec fn max_of(a: real, b: real) -> real {
    if b > a {
        b
    } else {
        a
    }
}

/// Whether `p` lies in the bounding box of segment `a`-`b` and in that of
/// segment `c`-`d`.
pub open spec fn in_both_boxes(p: Point, a: Point, b: Point, c: Point, d: Point) -> bool {
    &&& max_of(min_of(a.x, b.x), min_of(c.x, d.x)) <= p.x
    &&& p.x <= min_of(max_of(a.x, b.x), max_of(c.x, d.x))
    &&& max_of(min_of(a.y, b.y), min_of(c.y, d.y)) <= p.y
    &&& p.y <= min_of(max_of(a.y, b.y), max_of(c.y, d.y))
}

/// Where the line through `a` and `b` meets the line through `c` and `d`,
/// for lines that are not parallel.
#[verifier::opaque]
pub open spec fn line_crossing(a: Point, b: Point, c: Point, d: Point) -> Point {
    let dir = b.minus(a);
    let alpha = cross(dir, c.minus(a));
    let beta = cross(dir, d.minus(a));
    c.scaled(beta).minus(d.scaled(alpha)).scaled(1real / (beta - alpha))
}

/// The point that segment `a`-`b` and segment `c`-`d` have in common: none
/// for parallel segments, collinear ones included, and none where the lines
/// cross outside one of the segments.
pub open spec fn crossing(a: Point, b: Point, c: Point, d: Point) -> Option<Point> {
    if cross(b.minus(a), d.minus(c)) == 0real {
        None
    } else {
        let p = line_crossing(a, b, c, d);
        if in_both_boxes(p, a, b, c, d) {
            Some(p)
        } else {
            None
        }
    }
}

/// The two parameters from which `line_crossing` is solved differ by the cross
/// product of the directions, so they differ wherever the segments are not
/// parallel.
pub proof fn lemma_parameters_differ(a: Point, b: Point, c: Point, d: Point)
    ensures
        cross(b.minus(a), d.minus(a)) - cross(b.minus(a), c.minus(a)) == cross(
            b.minus(a),
            d.minus(c),
        ),
{
    reveal(cross);
    let ux = b.x - a.x;
    let uy = b.y - a.y;
    assert((ux * (d.y - a.y) - uy * (d.x - a.x)) - (ux * (c.y - a.y) - uy * (c.x - a.x)) == ux * (
    d.y - c.y) - uy * (d.x - c.x)) by (nonlinear_arith);
}

/// The lesser of two numbers.
fn lesser<'a>(a: &'a Rational, b: &'a Rational) -> (r: &'a Rational)
    ensures
        r@ == min_of(a@, b@),
{
    if b.lt(a) {
        b
    } else {
        a
    }
}

/// The greater of two numbers.
fn greater<'a>(a: &'a Rational, b: &'a Rational) -> (r: &'a Rational)
    ensures
        r@ == max_of(a@, b@),
{
    if a.lt(b) {
        b
    } else {
        a
    }
}

/// The point that two segments have in common, if they have one and are not
/// parallel.
pub fn segment_intersection(seg1: (&Vec2, &Vec2), seg2: (&Vec2, &Vec2)) -> (r: Option<Vec2>)
    ensures
        r.deep_view() == crossing(seg1.0@, seg1.1@, seg2.0@, seg2.1@),
{
    let bb_x1 = greater(lesser(&seg1.0.x, &seg1.1.x), lesser(&seg2.0.x, &seg2.1.x));
    let bb_y1 = greater(lesser(&seg1.0.y, &seg1.1.y), lesser(&seg2.0.y, &seg2.1.y));
    let bb_x2 = lesser(greater(&seg1.0.x, &seg1.1.x), greater(&seg2.0.x, &seg2.1.x));
    let bb_y2 = lesser(greater(&seg1.0.y, &seg1.1.y), greater(&seg2.0.y, &seg2.1.y));

    let d1 = seg1.1.sub(seg1.0);
    let d2 = seg2.1.sub(seg2.0);

    let c = d1.cross(&d2);
    if c.is_zero() {
        return None;
    }
    let alpha = d1.cross(&seg2.0.sub(seg1.0));
    let beta = d1.cross(&seg2.1.sub(seg1.0));
    proof {
        reveal(line_crossing);
        lemma_parameters_differ(seg1.0@, seg1.1@, seg2.0@, seg2.1@);
    }
    let pt = seg2.0.mul(&beta).sub(&seg2.1.mul(&alpha)).mul(&beta.sub(&alpha).recip());
    if bb_x1.le(&pt.x) && pt.x.le(bb_x2) && bb_y1.le(&pt.y) && pt.y.le(bb_y2) {
        Some(pt)
    } else {
        None
    }
}

} // verus!
