use planar_mesh::geom::area;
use planar_mesh::geom::iter_edges;
use planar_mesh::geom::segment_intersection;
use planar_mesh::geom::Vec2;
use planar_mesh::rational::Rational;

fn r(s: &str) -> Rational {
    Rational::parse(s).unwrap()
}

#[test]
fn test_angle() {
    assert_eq!(Vec2::parse("10,0").angle().to_string(), "0");
    assert_eq!(Vec2::parse("0,10").angle().to_string(), "1");
    assert_eq!(Vec2::parse("-10,0").angle().to_string(), "2");
    assert_eq!(Vec2::parse("0,-10").angle().to_string(), "3");

    assert_eq!(Vec2::parse("1,1").angle().to_string(), "1/2");
    assert_eq!(Vec2::parse("-1,-3").angle().to_string(), "11/4");
}

#[test]
fn test_segment_interseciton() {
    let res = segment_intersection(
        (&Vec2::parse("1,0"), &Vec2::parse("2,2")),
        (&Vec2::parse("2,0"), &Vec2::parse("1,1")),
    );
    assert_eq!(res, Some(Vec2::parse("4/3,2/3")));

    {
        let res = segment_intersection(
            (&Vec2::parse("1,2"), &Vec2::parse("2,4")),
            (&Vec2::parse("0,0"), &Vec2::parse("3,6")),
        );
        assert_eq!(res, None);
    }

    {
        let res = segment_intersection(
            (&Vec2::parse("0,0"), &Vec2::parse("1,1")),
            (&Vec2::parse("2,1"), &Vec2::parse("3,0")),
        );
        assert_eq!(res, None);
    }
}

#[test]
fn angle_lies_in_range_and_grows_counter_clockwise() {
    let dirs = [
        "3,0", "5,1", "1,1", "1,7", "0,2", "-1,9", "-4,4", "-8,1", "-3,0", "-6,-1", "-2,-2",
        "-1,-5", "0,-1", "1,-6", "3,-3", "9,-1",
    ];
    let zero = Rational::zero();
    let four = Rational::from_i32(4);
    let mut last: Option<Rational> = None;
    for d in dirs {
        let a = Vec2::parse(d).angle();
        assert!(zero.le(&a) && a.lt(&four));
        if let Some(l) = &last {
            assert!(l.lt(&a));
        }
        last = Some(a);
    }
}

#[test]
fn angle_depends_on_direction_only() {
    assert_eq!(Vec2::parse("2,6").angle(), Vec2::parse("1/3,1").angle());
    assert_eq!(Vec2::parse("-2,1").angle().to_string(), "5/3");
    assert_eq!(Vec2::parse("3,-1").angle().to_string(), "15/4");
}

#[test]
fn parse_reads_fractions_and_signs() {
    let p = Vec2::parse("-3/6,+7");
    assert_eq!(p.x.to_string(), "-1/2");
    assert_eq!(p.y.to_string(), "7");
    assert_eq!(p, Vec2 { x: r("-1/2"), y: r("7") });
}

#[test]
fn try_parse_refuses_other_text() {
    assert_eq!(Vec2::try_parse("1;2"), None);
    assert_eq!(Vec2::try_parse("1,"), None);
    assert_eq!(Vec2::try_parse("1,2,3"), None);
    assert_eq!(Vec2::try_parse("1/0,2"), None);
    assert_eq!(Vec2::try_parse(" 1,2"), None);
    assert!(!Vec2::reads("x,y"));
    assert!(Vec2::reads("1,2"));
    assert_eq!(Vec2::try_parse("1,2"), Some(Vec2::parse("1,2")));
}

#[test]
fn cross_sub_and_mul() {
    let u = Vec2::parse("2,3");
    let v = Vec2::parse("5,7");
    assert_eq!(u.cross(&v).to_string(), "-1");
    assert_eq!(v.cross(&u).to_string(), "1");
    assert_eq!(u.cross(&Vec2::parse("4,6")).to_string(), "0");
    assert_eq!(v.sub(&u), Vec2::parse("3,4"));
    assert_eq!(u.mul(&r("1/2")), Vec2::parse("1,3/2"));
}

#[test]
fn rot_cw90_turns_clockwise() {
    let mut v = Vec2::parse("1,2");
    v.rot_cw90();
    assert_eq!(v, Vec2::parse("2,-1"));
    v.rot_cw90();
    assert_eq!(v, Vec2::parse("-1,-2"));
}

#[test]
fn canonical_order_is_by_x_then_y() {
    assert!(Vec2::parse("1,5").lt(&Vec2::parse("2,0")));
    assert!(Vec2::parse("1,5").lt(&Vec2::parse("1,6")));
    assert!(!Vec2::parse("1,5").lt(&Vec2::parse("1,5")));
    assert!(!Vec2::parse("2,0").lt(&Vec2::parse("1,5")));
}

#[test]
fn iter_edges_closes_the_polygon() {
    let poly = vec![Vec2::parse("0,0"), Vec2::parse("1,0"), Vec2::parse("0,1")];
    let edges = iter_edges(&poly);
    assert_eq!(edges.len(), 3);
    assert_eq!(edges[0], (&poly[0], &poly[1]));
    assert_eq!(edges[1], (&poly[1], &poly[2]));
    assert_eq!(edges[2], (&poly[2], &poly[0]));
    let single = vec![Vec2::parse("4,4")];
    let edges = iter_edges(&single);
    assert_eq!(edges.len(), 1);
    assert_eq!(edges[0], (&single[0], &single[0]));
}

#[test]
fn area_is_signed() {
    let ccw = vec![
        Vec2::parse("0,0"),
        Vec2::parse("3,0"),
        Vec2::parse("3,1"),
        Vec2::parse("0,1"),
    ];
    assert_eq!(area(&ccw).to_string(), "3");
    let cw = vec![
        Vec2::parse("0,1"),
        Vec2::parse("3,1"),
        Vec2::parse("3,0"),
        Vec2::parse("0,0"),
    ];
    assert_eq!(area(&cw).to_string(), "-3");
    let tri = vec![Vec2::parse("0,0"), Vec2::parse("1,0"), Vec2::parse("0,1")];
    assert_eq!(area(&tri).to_string(), "1/2");
    let flat = vec![Vec2::parse("0,0"), Vec2::parse("1,1"), Vec2::parse("2,2")];
    assert_eq!(area(&flat).to_string(), "0");
}

#[test]
fn segments_that_touch_at_an_end_meet_there() {
    let res = segment_intersection(
        (&Vec2::parse("0,0"), &Vec2::parse("2,0")),
        (&Vec2::parse("1,0"), &Vec2::parse("1,5")),
    );
    assert_eq!(res, Some(Vec2::parse("1,0")));
    let res = segment_intersection(
        (&Vec2::parse("0,0"), &Vec2::parse("2,0")),
        (&Vec2::parse("2,0"), &Vec2::parse("2,2")),
    );
    assert_eq!(res, Some(Vec2::parse("2,0")));
}

#[test]
fn a_segment_without_length_meets_nothing() {
    let res = segment_intersection(
        (&Vec2::parse("1,1"), &Vec2::parse("1,1")),
        (&Vec2::parse("0,0"), &Vec2::parse("2,2")),
    );
    assert_eq!(res, None);
}

#[test]
fn segments_cross_in_one_point_whichever_is_named_first() {
    let cases = [
        (("1,0", "2,2"), ("2,0", "1,1")),
        (("0,0", "1,1"), ("2,1", "3,0")),
        (("1,2", "2,4"), ("0,0", "3,6")),
        (("0,0", "4,0"), ("1,-1", "1,1")),
        (("0,0", "0,0"), ("1,-1", "1,1")),
    ];
    for ((a, b), (c, d)) in cases {
        let (a, b, c, d) = (Vec2::parse(a), Vec2::parse(b), Vec2::parse(c), Vec2::parse(d));
        assert_eq!(
            segment_intersection((&a, &b), (&c, &d)),
            segment_intersection((&c, &d), (&a, &b))
        );
    }
}
