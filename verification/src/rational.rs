//! Exact rational numbers.
//!
//! The arithmetic itself is done by `num_rational::BigRational`; this module
//! states what each operation computes over the mathematical value of the
//! operands and wraps that type in [`Rational`], whose invariant (a
//! non-zero denominator) makes every operation total.

use num_rational::BigRational;
use num_rational::ParseRatioError;
use num_traits::FromPrimitive;
use num_traits::One;
use num_traits::Zero;
use std::str::FromStr;
use vstd::prelude::*;

verus! {

/// `num_bigint::BigInt`, of which nothing is said but through the ratios that
/// are made of two of them.
#[verifier::external_type_specification]
#[verifier::external_body]
pub struct ExBigInt(num_bigint::BigInt);

/// `num_rational::Ratio`, of which nothing is said but through `ratio_defined`,
/// `ratio_value` and `ratio_text`.
#[verifier::external_type_specification]
#[verifier::external_body]
#[verifier::reject_recursive_types(T)]
pub struct ExRatio<T>(num_rational::Ratio<T>);

/// `num_rational::ParseRatioError`, which is handed on and never looked into.
#[verifier::external_type_specification]
#[verifier::external_body]
pub struct ExParseRatioError(ParseRatioError);

/// Whether the denominator held by `r` is different from zero. Every ratio
/// that `num_rational` itself hands out is of this kind; only
/// `Ratio::new_raw` and deserialisation can make one that is not.
pub uninterp spec fn ratio_defined(r: BigRational) -> bool;

/// The number that `r` stands for: its numerator divided by its denominator.
/// Meaningful only where `ratio_defined(r)`.
pub uninterp spec fn ratio_value(r: BigRational) -> real;

/// The number that `BigRational::from_str` reads from `s`, or `None` where it
/// reports an error.
pub uninterp spec fn parsed_ratio(s: Seq<char>) -> Option<real>;

/// The text that `Display` writes for `r`.
pub uninterp spec fn ratio_text(r: BigRational) -> Seq<char>;

/// `num_traits::Zero::zero` for `BigRational`: the ratio 0/1.
#[verifier::external_body]
fn ratio_zero() -> (r: BigRational)
    ensures
        ratio_defined(r),
        ratio_value(r) == 0real,
{
    BigRational::zero()
}

/// `num_traits::One::one` for `BigRational`: the ratio 1/1.
#[verifier::external_body]
fn ratio_one() -> (r: BigRational)
    ensures
        ratio_defined(r),
        ratio_value(r) == 1real,
{
    BigRational::one()
}

/// `num_traits::FromPrimitive::from_i32` for `BigRational`: always `Some`, and
/// the ratio n/1.
#[verifier::external_body]
fn ratio_from_i32(n: i32) -> (r: Option<BigRational>)
    ensures
        r is Some,
        ratio_defined(r->Some_0),
        ratio_value(r->Some_0) == n as real,
{
    BigRational::from_i32(n)
}

/// `Add` for `&BigRational`: the sum, for operands with non-zero denominators.
#[verifier::external_body]
fn ratio_add(a: &BigRational, b: &BigRational) -> (r: BigRational)
    requires
        ratio_defined(*a),
        ratio_defined(*b),
    ensures
        ratio_defined(r),
        ratio_value(r) == ratio_value(*a) + ratio_value(*b),
{
    a + b
}

/// `Sub` for `&BigRational`: the difference, for operands with non-zero
/// denominators.
#[verifier::external_body]
fn ratio_sub(a: &BigRational, b: &BigRational) -> (r: BigRational)
    requires
        ratio_defined(*a),
        ratio_defined(*b),
    ensures
        ratio_defined(r),
        ratio_value(r) == ratio_value(*a) - ratio_value(*b),
{
    a - b
}

/// `Mul` for `&BigRational`: the product, for operands with non-zero
/// denominators.
#[verifier::external_body]
fn ratio_mul(a: &BigRational, b: &BigRational) -> (r: BigRational)
    requires
        ratio_defined(*a),
        ratio_defined(*b),
    ensures
        ratio_defined(r),
        ratio_value(r) == ratio_value(*a) * ratio_value(*b),
{
    a * b
}

/// `Div` for `&BigRational`: the quotient. It panics on a zero divisor, which
/// the precondition leaves out.
#[verifier::external_body]
fn ratio_div(a: &BigRational, b: &BigRational) -> (r: BigRational)
    requires
        ratio_defined(*a),
        ratio_defined(*b),
        ratio_value(*b) != 0real,
    ensures
        ratio_defined(r),
        ratio_value(r) == ratio_value(*a) / ratio_value(*b),
{
    a / b
}

/// `Neg` for `&BigRational`: the numerator changes sign, the denominator stays.
#[verifier::external_body]
fn ratio_neg(a: &BigRational) -> (r: BigRational)
    requires
        ratio_defined(*a),
    ensures
        ratio_defined(r),
        ratio_value(r) == -ratio_value(*a),
{
    -a
}

/// `Ratio::recip`: numerator and denominator change places. It panics on
/// zero, which the precondition leaves out.
#[verifier::external_body]
fn ratio_recip(a: &BigRational) -> (r: BigRational)
    requires
        ratio_defined(*a),
        ratio_value(*a) != 0real,
    ensures
        ratio_defined(r),
        ratio_value(r) == 1real / ratio_value(*a),
{
    a.recip()
}

/// `num_traits::Zero::is_zero` for `BigRational`: whether the numerator is
/// zero, which with a non-zero denominator is whether the value is.
#[verifier::external_body]
fn ratio_is_zero(a: &BigRational) -> (b: bool)
    requires
        ratio_defined(*a),
    ensures
        b == (ratio_value(*a) == 0real),
{
    a.is_zero()
}

/// `PartialEq::eq` for `BigRational`: equality of the values, whether or not
/// the operands are in lowest terms.
#[verifier::external_body]
fn ratio_eq(a: &BigRational, b: &BigRational) -> (r: bool)
    requires
        ratio_defined(*a),
        ratio_defined(*b),
    ensures
        r == (ratio_value(*a) == ratio_value(*b)),
{
    a == b
}

/// `PartialOrd::lt` for `BigRational`: the order of the values.
#[verifier::external_body]
fn ratio_lt(a: &BigRational, b: &BigRational) -> (r: bool)
    requires
        ratio_defined(*a),
        ratio_defined(*b),
    ensures
        r == (ratio_value(*a) < ratio_value(*b)),
{
    a < b
}

/// `Clone::clone` for `BigRational`: a copy of numerator and denominator.
#[verifier::external_body]
fn ratio_clone(a: &BigRational) -> (r: BigRational)
    ensures
        ratio_defined(r) == ratio_defined(*a),
        ratio_value(r) == ratio_value(*a),
        ratio_text(r) == ratio_text(*a),
{
    a.clone()
}

/// `FromStr::from_str` for `BigRational`. What it accepts is left to
/// `parsed_ratio`; a ratio that it returns has a non-zero denominator.
#[verifier::external_body]
fn ratio_from_str(s: &str) -> (r: Result<BigRational, ParseRatioError>)
    ensures
        match r {
            Ok(v) => ratio_defined(v) && parsed_ratio(s@) == Some(ratio_value(v)),
            Err(_) => parsed_ratio(s@) is None,
        },
{
    BigRational::from_str(s)
}

/// `ToString::to_string` for `BigRational`, which goes through `Display`.
#[verifier::external_body]
fn ratio_to_string(a: &BigRational) -> (s: String)
    ensures
        s@ == ratio_text(*a),
{
    a.to_string()
}

/// An exact rational number of any size.
#[derive(Debug, Eq, PartialOrd, Ord, Hash)]
pub struct Rational {
    inner: BigRational,
}

impl View for Rational {
    type V = real;

    closed spec fn view(&self) -> real {
        ratio_value(self.inner)
    }
}

impl DeepView for Rational {
    type V = real;

    open spec fn deep_view(&self) -> real {
        self@
    }
}

impl Rational {
    #[verifier::type_invariant]
    spec fn defined(self) -> bool {
        ratio_defined(self.inner)
    }

    /// What `to_string` writes for this number in its present form.
    pub closed spec fn text(&self) -> Seq<char> {
        ratio_text(self.inner)
    }

    /// The number 0.
    pub fn zero() -> (r: Rational)
        ensures
            r@ == 0real,
    {
        Rational { inner: ratio_zero() }
    }

    /// The number 1.
    pub fn one() -> (r: Rational)
        ensures
            r@ == 1real,
    {
        Rational { inner: ratio_one() }
    }

    /// The whole number `n`.
    pub fn from_i32(n: i32) -> (r: Rational)
        ensures
            r@ == n as real,
    {
        match ratio_from_i32(n) {
            Some(v) => Rational { inner: v },
            None => unreached(),
        }
    }

    /// Reads `numer/denom` or `numer`; `None` where the text is not of that
    /// form or the denominator is zero.
    pub fn parse(s: &str) -> (r: Option<Rational>)
        ensures
            r.deep_view() == parsed_ratio(s@),
    {
        match ratio_from_str(s) {
            Ok(v) => Some(Rational { inner: v }),
            Err(_) => None,
        }
    }

    /// The number as text: `numer/denom`, or `numer` alone for a whole number.
    pub fn to_string(&self) -> (s: String)
        ensures
            s@ == self.text(),
    {
        ratio_to_string(&self.inner)
    }

    /// The number as a `BigRational`, for callers that convert or print it.
    pub fn as_big(&self) -> (r: &BigRational)
        ensures
            ratio_defined(*r),
            ratio_value(*r) == self@,
    {
        proof {
            use_type_invariant(self);
        }
        &self.inner
    }

    /// The sum.
    pub fn add(&self, other: &Rational) -> (r: Rational)
        ensures
            r@ == self@ + other@,
    {
        proof {
            use_type_invariant(self);
            use_type_invariant(other);
        }
        Rational { inner: ratio_add(&self.inner, &other.inner) }
    }

    /// The difference.
    pub fn sub(&self, other: &Rational) -> (r: Rational)
        ensures
            r@ == self@ - other@,
    {
        proof {
            use_type_invariant(self);
            use_type_invariant(other);
        }
        Rational { inner: ratio_sub(&self.inner, &other.inner) }
    }

    /// The product.
    pub fn mul(&self, other: &Rational) -> (r: Rational)
        ensures
            r@ == self@ * other@,
    {
        proof {
            use_type_invariant(self);
            use_type_invariant(other);
        }
        Rational { inner: ratio_mul(&self.inner, &other.inner) }
    }

    /// The quotient by a number that is not zero.
    pub fn div(&self, other: &Rational) -> (r: Rational)
        requires
            other@ != 0real,
        ensures
            r@ == self@ / other@,
    {
        proof {
            use_type_invariant(self);
            use_type_invariant(other);
        }
        Rational { inner: ratio_div(&self.inner, &other.inner) }
    }

    /// The number with its sign changed.
    pub fn neg(&self) -> (r: Rational)
        ensures
            r@ == -self@,
    {
        proof {
            use_type_invariant(self);
        }
        Rational { inner: ratio_neg(&self.inner) }
    }

    /// The reciprocal of a number that is not zero.
    pub fn recip(&self) -> (r: Rational)
        requires
            self@ != 0real,
        ensures
            r@ == 1real / self@,
    {
        proof {
            use_type_invariant(self);
        }
        Rational { inner: ratio_recip(&self.inner) }
    }

    /// Whether the number is 0.
    pub fn is_zero(&self) -> (b: bool)
        ensures
            b == (self@ == 0real),
    {
        proof {
            use_type_invariant(self);
        }
        ratio_is_zero(&self.inner)
    }

    /// Whether the number is less than `other`.
    pub fn lt(&self, other: &Rational) -> (b: bool)
        ensures
            b == (self@ < other@),
    {
        proof {
            use_type_invariant(self);
            use_type_invariant(other);
        }
        ratio_lt(&self.inner, &other.inner)
    }

    /// Whether the number is `other` at most.
    pub fn le(&self, other: &Rational) -> (b: bool)
        ensures
            b == (self@ <= other@),
    {
        !other.lt(self)
    }

}

impl PartialEq for Rational {
    fn eq(&self, other: &Self) -> (b: bool) {
        proof {
            use_type_invariant(self);
            use_type_invariant(other);
        }
        ratio_eq(&self.inner, &other.inner)
    }
}

impl vstd::std_specs::cmp::PartialEqSpecImpl for Rational {
    open spec fn obeys_eq_spec() -> bool {
        true
    }

    open spec fn eq_spec(&self, other: &Self) -> bool {
        self@ == other@
    }
}

impl Clone for Rational {
    fn clone(&self) -> (r: Self)
        ensures
            r@ == self@,
            r.text() == self.text(),
    {
        proof {
            use_type_invariant(self);
        }
        Rational { inner: ratio_clone(&self.inner) }
    }
}

} // verus!
