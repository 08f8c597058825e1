//! The product of two real numbers under a name of its own, and the few
//! laws of it that the laws of lines need.

use vstd::prelude::*;

verus! {

/// The product of two numbers. The laws of lines are stated over this name,
/// so that what follows from them follows by adding and comparing alone.
#[verifier::opaque]
pub open spec fn times(a: real, b: real) -> real {
    a * b
}

/// A product with zero is zero.
pub proof fn lemma_times_zero(x: real, k: real)
    requires
        k == 0real,
    ensures
        times(x, k) == 0real,
        times(k, x) == 0real,
{
    reveal(times);
    assert(x * 0real == 0real) by (nonlinear_arith);
    assert(0real * x == 0real) by (nonlinear_arith);
}

/// A product is zero only if a factor is.
pub proof fn lemma_zero_product(a: real, b: real)
    requires
        times(a, b) == 0real,
    ensures
        a == 0real || b == 0real,
{
    reveal(times);
    assert(a == 0real || b == 0real) by (nonlinear_arith)
        requires
            a * b == 0real,
    ;
}

/// The reciprocal of a number, under a name of its own.
#[verifier::opaque]
pub open spec fn inverse(d: real) -> real {
    1real / d
}

/// To multiply by a number that is not zero and by its reciprocal changes
/// nothing.
pub proof fn lemma_cancel(a: real, d: real)
    requires
        d != 0real,
    ensures
        times(times(a, d), inverse(d)) == a,
{
    reveal(times);
    reveal(inverse);
    let k = inverse(d);
    let t = times(a, d);
    let r = times(t, k);
    assert(r == a) by (nonlinear_arith)
        requires
            d != 0real,
            k == 1real / d,
            t == a * d,
            r == t * k,
    ;
}

/// The law by which the two parameters of a crossing combine.
pub proof fn lemma_combine(a: real, c: real, d: real)
    ensures
        times(c, d - a) - times(d, c - a) == times(a, d - c),
{
    reveal(times);
    assert(c * (d - a) - d * (c - a) == a * (d - c)) by (nonlinear_arith);
}

/// The factors of a product of three can change places and be grouped
/// anew.
pub proof fn lemma_three_factors(a: real, b: real, c: real)
    ensures
        times(a, times(b, c)) == times(times(a, b), c),
        times(a, times(b, c)) == times(b, times(a, c)),
        times(a, times(b, c)) == times(c, times(a, b)),
        times(a, times(b, c)) == times(c, times(b, a)),
{
    reveal(times);
    let bc = times(b, c);
    let ab = times(a, b);
    let ac = times(a, c);
    let ba = times(b, a);
    let l = times(a, bc);
    let r1 = times(ab, c);
    let r2 = times(b, ac);
    let r3 = times(c, ab);
    let r4 = times(c, ba);
    assert(l == r1 && l == r2 && l == r3 && l == r4) by (nonlinear_arith)
        requires
            bc == b * c,
            ab == a * b,
            ac == a * c,
            ba == b * a,
            l == a * bc,
            r1 == ab * c,
            r2 == b * ac,
            r3 == c * ab,
            r4 == c * ba,
    ;
}

/// A common factor of a difference can be taken out of it, on either side.
pub proof fn lemma_factor_out(a: real, b: real, k: real)
    ensures
        times(a, k) - times(b, k) == times(a - b, k),
        times(k, a) - times(k, b) == times(k, a - b),
{
    reveal(times);
    assert(a * k - b * k == (a - b) * k) by (nonlinear_arith);
    assert(k * a - k * b == k * (a - b)) by (nonlinear_arith);
}

/// A product changes sign with either factor.
pub proof fn lemma_negate(a: real, b: real)
    ensures
        times(a, -b) == -times(a, b),
        times(-a, b) == -times(a, b),
{
    reveal(times);
    assert(a * (-b) == -(a * b)) by (nonlinear_arith);
    assert((-a) * b == -(a * b)) by (nonlinear_arith);
}

/// The share that `y` has in the sum of `x` and `y`.
#[verifier::opaque]
pub open spec fn share(x: real, y: real) -> real {
    y / (x + y)
}

/// The share of a number in a sum of two that are not negative lies between
/// 0 and 1, is more than 0 where the number is, and gives the number back
/// when the sum is multiplied by it.
pub proof fn lemma_share(x: real, y: real)
    requires
        x >= 0real,
        y >= 0real,
        x + y > 0real,
    ensures
        0real <= share(x, y) <= 1real,
        y > 0real ==> share(x, y) > 0real,
        times(share(x, y), x + y) == y,
{
    reveal(times);
    reveal(share);
    let f = share(x, y);
    let s = x + y;
    let t = times(f, s);
    assert(0real <= f <= 1real && (y > 0real ==> f > 0real) && t == y) by (nonlinear_arith)
        requires
            x >= 0real,
            y >= 0real,
            s == x + y,
            s > 0real,
            f == y / s,
            t == f * s,
    ;
}

/// Two pairs of numbers in which the second has the same share are in
/// proportion.
pub proof fn lemma_same_share(xu: real, yu: real, xv: real, yv: real)
    requires
        xu >= 0real,
        yu >= 0real,
        xu + yu > 0real,
        xv >= 0real,
        yv >= 0real,
        xv + yv > 0real,
        share(xu, yu) == share(xv, yv),
    ensures
        times(xu, yv) == times(yu, xv),
{
    lemma_share(xu, yu);
    lemma_share(xv, yv);
    reveal(times);
    let f = share(xu, yu);
    let su = xu + yu;
    let sv = xv + yv;
    let l = times(xu, yv);
    let r = times(yu, xv);
    let pu = times(f, su);
    let pv = times(f, sv);
    assert(l == r) by (nonlinear_arith)
        requires
            pu == f * su,
            pv == f * sv,
            yu == pu,
            yv == pv,
            xu == su - pu,
            xv == sv - pv,
            l == xu * yv,
            r == yu * xv,
    ;
}

} // verus!
