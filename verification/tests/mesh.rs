use planar_mesh::geom::Vec2;
use planar_mesh::mesh::Mesh;
use planar_mesh::subdivision::subdivide;
use planar_mesh::subdivision::subdivide_edge;
use planar_mesh::subdivision::subdivide_poly;
use planar_mesh::task::Task;
use planar_mesh::tyndex::Tyndex;

fn p(s: &str) -> Vec2 {
    Vec2::parse(s)
}

fn pts(list: &[&str]) -> Vec<Vec2> {
    list.iter().map(|s| p(s)).collect()
}

fn segs(list: &[(&str, &str)]) -> Vec<(Vec2, Vec2)> {
    list.iter().map(|(a, b)| (p(a), p(b))).collect()
}

fn idx<I: Tyndex>(v: &[I]) -> Vec<usize> {
    v.iter().map(|i| i.to_index()).collect()
}

fn square() -> Task {
    Task {
        outer: pts(&["0,0", "1,0", "1,1", "0,1"]),
        holes: vec![],
        skeleton: segs(&[("0,0", "1,0"), ("1,0", "1,1"), ("1,1", "0,1"), ("0,1", "0,0")]),
    }
}

fn check_dcel(m: &Mesh) {
    let h = m.half_edges.raw.len();
    let opp = idx(&m.opposite.raw);
    let next = idx(&m.next.raw);
    let prev = idx(&m.prev.raw);
    let he_poly = idx(&m.he_poly.raw);
    let poly_he = idx(&m.poly_he.raw);
    assert_eq!(opp.len(), h);
    assert_eq!(next.len(), h);
    assert_eq!(prev.len(), h);
    assert_eq!(he_poly.len(), h);
    assert_eq!(m.poly_real.raw.len(), poly_he.len());
    for e in 0..h {
        assert_eq!(opp[opp[e]], e);
        assert_eq!(next[prev[e]], e);
        assert_eq!(prev[next[e]], e);
        let (s, t) = m.half_edges.raw[e];
        let (os, ot) = m.half_edges.raw[opp[e]];
        assert_eq!((s, t), (ot, os));
        assert_eq!(m.half_edges.raw[next[e]].0, t);
        assert_eq!(he_poly[next[e]], he_poly[e]);
    }
    let mut seen = vec![0usize; h];
    for (f, &start) in poly_he.iter().enumerate() {
        let mut e = start;
        loop {
            assert_eq!(he_poly[e], f);
            seen[e] += 1;
            e = next[e];
            if e == start {
                break;
            }
        }
    }
    assert!(seen.iter().all(|&c| c == 1));
}

#[test]
fn square_has_an_inside_and_an_outside() {
    let m = Mesh::new(&square());
    check_dcel(&m);
    assert_eq!(m.pts.raw, pts(&["0,0", "0,1", "1,0", "1,1"]));
    assert_eq!(m.half_edges.raw.len(), 8);
    assert_eq!(m.poly_he.raw.len(), 2);
    assert_eq!(m.poly_real.raw.iter().filter(|r| **r).count(), 1);
    let opp = idx(&m.opposite.raw);
    for e in 0..8 {
        assert_ne!(opp[e], e);
        assert_eq!(opp[opp[e]], e);
    }
    let he_poly = idx(&m.he_poly.raw);
    let starts: Vec<usize> = m.half_edges.raw.iter().map(|e| e.0.to_index()).collect();
    let ends: Vec<usize> = m.half_edges.raw.iter().map(|e| e.1.to_index()).collect();
    // vertex 2 is (1,0), vertex 0 is (0,0): the half-edge against the outer
    // polygon's first edge bounds the outside
    let back = (0..8).find(|&e| starts[e] == 2 && ends[e] == 0).unwrap();
    assert!(!m.poly_real.raw[he_poly[back]]);
    assert!(m.poly_real.raw[he_poly[opp[back]]]);
    for f in 0..2 {
        assert_eq!((0..8).filter(|&e| he_poly[e] == f).count(), 4);
    }
}

#[test]
fn half_edges_leave_each_vertex_by_ascending_angle() {
    let m = Mesh::new(&square());
    let got: Vec<(usize, usize)> =
        m.half_edges.raw.iter().map(|e| (e.0.to_index(), e.1.to_index())).collect();
    // vertices: 0 = (0,0), 1 = (0,1), 2 = (1,0), 3 = (1,1)
    assert_eq!(got, vec![(0, 2), (0, 1), (1, 3), (1, 0), (2, 3), (2, 0), (3, 1), (3, 2)]);
    assert_eq!(m.first_out, vec![0, 2, 4, 6, 8]);
    assert_eq!(idx(&m.opposite.raw), vec![5, 3, 6, 1, 7, 0, 2, 4]);
    assert_eq!(idx(&m.next.raw), vec![4, 2, 7, 0, 6, 1, 3, 5]);
    assert_eq!(idx(&m.prev.raw), vec![3, 5, 1, 6, 0, 7, 4, 2]);
    assert_eq!(idx(&m.he_poly.raw), vec![0, 1, 1, 0, 0, 1, 0, 1]);
    assert_eq!(idx(&m.poly_he.raw), vec![0, 1]);
    assert_eq!(m.poly_real.raw, vec![true, false]);
}

#[test]
fn square_with_a_diagonal_has_two_solid_faces() {
    let mut t = square();
    t.skeleton.push((p("0,0"), p("1,1")));
    let m = Mesh::new(&t);
    check_dcel(&m);
    assert_eq!(m.half_edges.raw.len(), 10);
    assert_eq!(m.poly_he.raw.len(), 3);
    assert_eq!(m.poly_real.raw.iter().filter(|r| **r).count(), 2);
}

#[test]
fn a_hole_is_not_solid() {
    let t = Task {
        outer: pts(&["0,0", "3,0", "3,3", "0,3"]),
        holes: vec![pts(&["1,1", "1,2", "2,2", "2,1"])],
        skeleton: segs(&[
            ("0,0", "3,0"),
            ("3,0", "3,3"),
            ("3,3", "0,3"),
            ("0,3", "0,0"),
            ("1,1", "1,2"),
            ("1,2", "2,2"),
            ("2,2", "2,1"),
            ("2,1", "1,1"),
            ("0,0", "1,1"),
        ]),
    };
    let m = Mesh::new(&t);
    check_dcel(&m);
    assert_eq!(m.pts.raw.len(), 8);
    assert_eq!(m.half_edges.raw.len(), 18);
    assert_eq!(m.poly_he.raw.len(), 3);
    assert_eq!(m.poly_real.raw.iter().filter(|r| !**r).count(), 2);
    assert_eq!(m.poly_real.raw.iter().filter(|r| **r).count(), 1);
}

#[test]
fn subdivide_edge_lists_crossings_in_order() {
    let edges = segs(&[("1,-1", "1,1"), ("3,-1", "3,1"), ("2,-1", "2,1"), ("0,5", "9,5"), ("0,0", "4,0")]);
    let got = subdivide_edge(&p("0,0"), &p("4,0"), &edges);
    assert_eq!(got, pts(&["0,0", "1,0", "2,0", "3,0", "4,0"]));
    let got = subdivide_edge(&p("4,0"), &p("0,0"), &edges);
    assert_eq!(got, pts(&["4,0", "3,0", "2,0", "1,0", "0,0"]));
    let got = subdivide_edge(&p("7,7"), &p("7,7"), &edges);
    assert_eq!(got, pts(&["7,7"]));
    let got = subdivide_edge(&p("0,0"), &p("0,2"), &[]);
    assert_eq!(got, pts(&["0,0", "0,2"]));
}

#[test]
fn subdivide_poly_leads_the_boundary_through_crossings() {
    let edges = segs(&[("1,-1", "1,3")]);
    let poly = pts(&["0,0", "2,0", "2,2", "0,2"]);
    let got = subdivide_poly(&poly, &edges);
    assert_eq!(got, pts(&["1,0", "2,0", "2,2", "1,2", "0,2", "0,0"]));
}

fn crossed() -> Task {
    Task {
        outer: pts(&["0,0", "2,0", "2,2", "0,2"]),
        holes: vec![pts(&["0,0", "0,2", "2,2"])],
        skeleton: segs(&[
            ("0,0", "2,0"),
            ("2,0", "2,2"),
            ("2,2", "0,2"),
            ("0,2", "0,0"),
            ("0,0", "2,2"),
            ("2,0", "0,2"),
            ("1,-1", "1,3"),
        ]),
    }
}

#[test]
fn subdivide_cuts_every_crossing() {
    let t = subdivide(&crossed());
    assert_eq!(
        t.skeleton,
        segs(&[
            ("0,0", "1,0"),
            ("1,0", "2,0"),
            ("2,0", "2,2"),
            ("2,2", "1,2"),
            ("1,2", "0,2"),
            ("0,2", "0,0"),
            ("0,0", "1,1"),
            ("1,1", "2,2"),
            ("2,0", "1,1"),
            ("1,1", "0,2"),
            ("1,-1", "1,0"),
            ("1,0", "1,1"),
            ("1,1", "1,2"),
            ("1,2", "1,3"),
        ])
    );
    assert_eq!(t.outer, pts(&["1,0", "2,0", "2,2", "1,2", "0,2", "0,0"]));
    assert_eq!(t.holes, vec![pts(&["0,2", "1,2", "2,2", "1,1", "0,0"])]);
}

#[test]
fn subdividing_twice_changes_no_segment() {
    let once = subdivide(&crossed());
    let twice = subdivide(&once);
    assert_eq!(twice.skeleton, once.skeleton);
    let thrice = subdivide(&twice);
    assert_eq!(thrice.skeleton, once.skeleton);
}

#[test]
fn mesh_of_a_subdivided_task() {
    let mut t = crossed();
    t.holes = vec![];
    let t = subdivide(&t);
    let m = Mesh::new(&t);
    check_dcel(&m);
    assert_eq!(m.pts.raw.len(), 9);
    assert_eq!(m.half_edges.raw.len(), 28);
    // Euler: V - E + F = 2 with V = 9, E = 14
    assert_eq!(m.poly_he.raw.len(), 7);
    assert_eq!(m.poly_real.raw.iter().filter(|r| !**r).count(), 1);
}

#[test]
fn a_task_off_its_skeleton_is_not_meshable() {
    assert!(square().is_meshable());
    assert!(Mesh::try_new(&square()).is_some());
    // no skeleton at all: the outer polygon is off it
    let mut t = square();
    t.skeleton.clear();
    assert!(!t.is_meshable());
    assert!(Mesh::try_new(&t).is_none());
    // a segment twice, the second time the other way round
    let mut t = square();
    t.skeleton.push((p("1,0"), p("0,0")));
    assert!(!t.is_meshable());
    // a segment without length
    let mut t = square();
    t.skeleton.push((p("5,5"), p("5,5")));
    assert!(!t.is_meshable());
    // an outer polygon of one point
    let mut t = square();
    t.outer.truncate(1);
    assert!(!t.is_meshable());
    // a hole whose first edge is not in the skeleton
    let mut t = square();
    t.holes.push(pts(&["0,0", "1,1", "1,0"]));
    assert!(!t.is_meshable());
    t.skeleton.push((p("1,1"), p("0,0")));
    assert!(t.is_meshable());
}

#[test]
fn half_edges_in_one_direction_keep_the_order_of_the_skeleton() {
    // two segments leave (0,0) in the same direction
    let t = Task {
        outer: pts(&["0,0", "2,0"]),
        holes: vec![],
        skeleton: segs(&[("0,0", "2,0"), ("0,0", "1,0"), ("0,0", "3,0")]),
    };
    let m = Mesh::new(&t);
    check_dcel(&m);
    let got: Vec<(usize, usize)> =
        m.half_edges.raw.iter().map(|e| (e.0.to_index(), e.1.to_index())).collect();
    // vertices: 0 = (0,0), 1 = (1,0), 2 = (2,0), 3 = (3,0)
    assert_eq!(got, vec![(0, 2), (0, 1), (0, 3), (1, 0), (2, 0), (3, 0)]);
}

#[test]
fn points_compare_as_their_coordinates() {
    assert!(p("1,5") < p("2,0"));
    assert!(p("1,5") < p("1,11/2"));
    assert!(p("1/2,1") == p("2/4,3/3"));
    let mut v = pts(&["1,1", "0,2", "0,1"]);
    v.sort();
    assert_eq!(v, pts(&["0,1", "0,2", "1,1"]));
}
