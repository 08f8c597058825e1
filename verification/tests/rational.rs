use planar_mesh::rational::Rational;

fn r(s: &str) -> Rational {
    Rational::parse(s).unwrap()
}

#[test]
fn rational_parse_and_print() {
    assert_eq!(r("2/4").to_string(), "1/2");
    assert_eq!(r("-6/3").to_string(), "-2");
    assert_eq!(r("3/-6").to_string(), "-1/2");
    assert_eq!(r("0/5").to_string(), "0");
    assert!(Rational::parse("1/0").is_none());
    assert!(Rational::parse("").is_none());
    assert!(Rational::parse("1.5").is_none());
    assert!(Rational::parse("a").is_none());
}

#[test]
fn rational_arithmetic_is_exact() {
    assert_eq!(r("1/3").add(&r("1/6")).to_string(), "1/2");
    assert_eq!(r("1/3").sub(&r("1/2")).to_string(), "-1/6");
    assert_eq!(r("2/3").mul(&r("3/4")).to_string(), "1/2");
    assert_eq!(r("2/3").div(&r("4/9")).to_string(), "3/2");
    assert_eq!(r("2/3").neg().to_string(), "-2/3");
    assert_eq!(r("-2/3").recip().to_string(), "-3/2");
    assert_eq!(
        r("100000000000000000000000000000/3").mul(&r("3")).to_string(),
        "100000000000000000000000000000"
    );
}

#[test]
fn rational_constants() {
    assert_eq!(Rational::zero().to_string(), "0");
    assert_eq!(Rational::one().to_string(), "1");
    assert_eq!(Rational::from_i32(-7).to_string(), "-7");
    assert!(Rational::zero().is_zero());
    assert!(!Rational::one().is_zero());
    assert!(r("1/2").sub(&r("2/4")).is_zero());
}

#[test]
fn rational_order_and_equality() {
    assert!(r("1/3").lt(&r("1/2")));
    assert!(!r("1/2").lt(&r("1/3")));
    assert!(!r("1/2").lt(&r("2/4")));
    assert!(r("1/2").le(&r("2/4")));
    assert!(r("-1").le(&r("0")));
    assert!(!r("1").le(&r("0")));
    assert!(r("1/2") == r("2/4"));
    assert!(r("1/2") != r("1/3"));
    let a = r("5/7");
    let b = a.clone();
    assert_eq!(a, b);
    assert_eq!(b.to_string(), "5/7");
    assert_eq!(a.as_big().to_string(), "5/7");
}
