use planar_mesh::geom::Vec2;
use planar_mesh::mesh::Mesh;
use planar_mesh::problem::Problem;
use planar_mesh::subdivision::subdivide;
use planar_mesh::task::Task;
use planar_mesh::text::chars_of;
use planar_mesh::text::find_first;
use planar_mesh::text::parse_count;
use planar_mesh::text::split_lines;
use planar_mesh::text::trim;

fn pts(list: &[&str]) -> Vec<Vec2> {
    list.iter().map(|s| Vec2::parse(s)).collect()
}

fn segs(list: &[(&str, &str)]) -> Vec<(Vec2, Vec2)> {
    list.iter().map(|(a, b)| (Vec2::parse(a), Vec2::parse(b))).collect()
}

const SQUARE: &str = "1\n4\n0,0\n1,0\n1,1\n0,1\n4\n0,0 1,0\n1,0 1,1\n1,1 0,1\n0,1 0,0\n";

const WITH_HOLE: &str = "2\n\
4\n0,0\n3,0\n3,3\n0,3\n\
4\n1,1\n1,2\n2,2\n2,1\n\
9\n\
0,0 3,0\n3,0 3,3\n3,3 0,3\n0,3 0,0\n\
1,1 1,2\n1,2 2,2\n2,2 2,1\n2,1 1,1\n\
0,0 1,1\n";

#[test]
fn chars_of_gives_every_character() {
    assert_eq!(chars_of("a,ß→"), vec!['a', ',', 'ß', '→']);
    assert_eq!(chars_of(""), Vec::<char>::new());
}

#[test]
fn find_first_finds_the_first() {
    let c = chars_of("ab,cd,e");
    assert_eq!(find_first(&c, 0, 7, ','), Some(2));
    assert_eq!(find_first(&c, 3, 7, ','), Some(5));
    assert_eq!(find_first(&c, 3, 5, ','), None);
    assert_eq!(find_first(&c, 0, 0, ','), None);
}

#[test]
fn trim_drops_white_space_at_both_ends() {
    let c = chars_of(" \t a b \u{a0}\r");
    assert_eq!(trim(&c, 0, c.len()), (3, 6));
    assert_eq!(trim(&c, 4, 5), (5, 5));
    let c = chars_of("   ");
    let (lo, hi) = trim(&c, 0, 3);
    assert_eq!(lo, hi);
    let c = chars_of("x");
    assert_eq!(trim(&c, 0, 1), (0, 1));
}

#[test]
fn split_lines_leaves_out_an_empty_last_line() {
    assert_eq!(split_lines(&chars_of("a\nbc\n")), vec![(0, 1), (2, 4)]);
    assert_eq!(split_lines(&chars_of("a\nbc")), vec![(0, 1), (2, 4)]);
    assert_eq!(split_lines(&chars_of("")), vec![]);
    assert_eq!(split_lines(&chars_of("\n")), vec![(0, 0)]);
    assert_eq!(split_lines(&chars_of("a\n\nb")), vec![(0, 1), (2, 2), (3, 4)]);
    assert_eq!(split_lines(&chars_of("\n\n")), vec![(0, 0), (1, 1)]);
}

#[test]
fn parse_count_reads_what_usize_reads() {
    let cases = [
        "0", "7", "42", "+5", "007", "", "+", "-1", "++1", "1 ", " 1", "1a", "٣",
        "18446744073709551615", "18446744073709551616", "99999999999999999999999",
        "000000000000000000000000000001",
    ];
    for text in cases {
        let c = chars_of(text);
        assert_eq!(parse_count(&c, 0, c.len()), text.parse::<usize>().ok());
    }
    let c = chars_of("x12y");
    assert_eq!(parse_count(&c, 1, 3), Some(12));
}

#[test]
fn problem_is_read_line_by_line() {
    let p = Problem::parse(SQUARE);
    assert_eq!(p.silhouette, vec![pts(&["0,0", "1,0", "1,1", "0,1"])]);
    assert_eq!(
        p.skeleton,
        segs(&[("0,0", "1,0"), ("1,0", "1,1"), ("1,1", "0,1"), ("0,1", "0,0")])
    );
    let p = Problem::parse(" 1 \r\n 1\n\t1/2,-3 \n1\n  0,0 1,1\nand what follows is not read");
    assert_eq!(p.silhouette, vec![pts(&["1/2,-3"])]);
    assert_eq!(p.skeleton, segs(&[("0,0", "1,1")]));
    let p = Problem::parse("0\n0");
    assert!(p.silhouette.is_empty());
    assert!(p.skeleton.is_empty());
    let p = Problem::parse("1\n0\n0\n");
    assert_eq!(p.silhouette, vec![pts(&[])]);
}

#[test]
fn problem_refuses_other_text() {
    for text in [
        "",
        "x",
        "1",
        "1\n1\n",
        "1\n1\n0,0\n",
        "1\n2\n0,0\n1\n0,0 1,1\n",
        "1\n1\n0;0\n0\n",
        "0\n1\n0,0  1,1\n",
        "0\n1\n0,0\n",
        "0\n1\n0,0 1,1 2,2\n",
        "0\n2\n0,0 1,1\n",
        "-1\n0\n",
        "0\n99999999999999999999999\n",
    ] {
        assert!(!Problem::reads(text));
        assert!(Problem::try_parse(text).is_none());
    }
    assert!(Problem::reads(SQUARE));
    assert!(Problem::try_parse(SQUARE).is_some());
}

#[test]
fn task_takes_the_first_polygon_for_the_outer_one() {
    let t = Task::parse(WITH_HOLE);
    assert_eq!(t.outer, pts(&["0,0", "3,0", "3,3", "0,3"]));
    assert_eq!(t.holes, vec![pts(&["1,1", "1,2", "2,2", "2,1"])]);
    assert_eq!(t.skeleton.len(), 9);
    let t = Task::parse(SQUARE);
    assert!(t.holes.is_empty());
    assert_eq!(t.skeleton.len(), 4);
}

#[test]
fn task_refuses_wrong_orientation() {
    // the outer polygon runs clockwise
    assert!(!Task::reads("1\n3\n0,0\n0,1\n1,0\n0\n"));
    // the second polygon runs counter-clockwise
    assert!(!Task::reads("2\n3\n0,0\n1,0\n0,1\n3\n0,0\n1,0\n0,1\n0\n"));
    // a polygon without area
    assert!(!Task::reads("1\n3\n0,0\n1,1\n2,2\n0\n"));
    // a polygon without points
    assert!(!Task::reads("1\n0\n0\n"));
    // no polygon at all
    assert!(!Task::reads("0\n0\n"));
    // not a problem
    assert!(Task::try_parse("1\n").is_none());
    assert!(Task::reads("2\n3\n0,0\n1,0\n0,1\n3\n0,0\n0,1\n1,0\n0\n"));
    assert!(Task::try_parse("1\n3\n0,0\n1,0\n0,1\n0\n").is_some());
}

#[test]
fn task_from_problem_keeps_the_skeleton() {
    let p = Problem::parse(WITH_HOLE);
    let t = Task::from_problem(p).unwrap();
    assert_eq!(t.skeleton[8], (Vec2::parse("0,0"), Vec2::parse("1,1")));
    let p = Problem::parse("1\n3\n0,0\n0,1\n1,0\n0\n");
    assert!(Task::from_problem(p).is_none());
}

#[test]
fn from_text_to_mesh() {
    let t = Task::parse(WITH_HOLE);
    let t = subdivide(&t);
    let m = Mesh::new(&t);
    assert_eq!(m.pts.raw.len(), 8);
    assert_eq!(m.half_edges.raw.len(), 18);
    assert_eq!(m.poly_real.raw, vec![true, false, false]);
}
