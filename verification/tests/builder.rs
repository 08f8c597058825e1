use planar_mesh::geom::Vec2;
use planar_mesh::mesh::build_spokes;
use planar_mesh::mesh::collect_points;
use planar_mesh::mesh::find_point;
use planar_mesh::mesh::insert_spoke;
use planar_mesh::mesh::Mesh;
use planar_mesh::mesh::Spoke;
use planar_mesh::mesh::Tables;
use planar_mesh::rational::Rational;
use planar_mesh::subdivision::insert_sorted;
use planar_mesh::subdivision::reversed;
use planar_mesh::task::Task;
use planar_mesh::tyndex::Tyndex;

fn pts(list: &[&str]) -> Vec<Vec2> {
    list.iter().map(|s| Vec2::parse(s)).collect()
}

fn segs(list: &[(&str, &str)]) -> Vec<(Vec2, Vec2)> {
    list.iter().map(|(a, b)| (Vec2::parse(a), Vec2::parse(b))).collect()
}

#[test]
fn insert_sorted_keeps_order_and_takes_no_point_twice() {
    let mut v = pts(&["0,0", "1,0", "1,2"]);
    insert_sorted(&mut v, Vec2::parse("1,1"));
    assert_eq!(v, pts(&["0,0", "1,0", "1,1", "1,2"]));
    insert_sorted(&mut v, Vec2::parse("2/2,0"));
    assert_eq!(v.len(), 4);
    insert_sorted(&mut v, Vec2::parse("-1,9"));
    insert_sorted(&mut v, Vec2::parse("3,0"));
    assert_eq!(v, pts(&["-1,9", "0,0", "1,0", "1,1", "1,2", "3,0"]));
    let mut v = vec![];
    insert_sorted(&mut v, Vec2::parse("1,1"));
    assert_eq!(v, pts(&["1,1"]));
}

#[test]
fn reversed_turns_the_list() {
    assert_eq!(reversed(pts(&["0,0", "1,0", "1,2"])), pts(&["1,2", "1,0", "0,0"]));
    assert_eq!(reversed(vec![]), vec![]);
}

#[test]
fn collect_points_sorts_the_ends() {
    let edges = segs(&[("1,1", "0,0"), ("0,0", "1,0"), ("1,0", "1,1"), ("1,1", "5,5")]);
    let got = collect_points(&edges);
    assert_eq!(got, pts(&["0,0", "1,0", "1,1", "5,5"]));
    assert_eq!(find_point(&got, &Vec2::parse("1,1")), Some(2));
    assert_eq!(find_point(&got, &Vec2::parse("0,0")), Some(0));
    assert_eq!(find_point(&got, &Vec2::parse("5,5")), Some(3));
    assert_eq!(find_point(&got, &Vec2::parse("2,2")), None);
    assert_eq!(find_point(&vec![], &Vec2::parse("2,2")), None);
}

fn spoke(start: usize, end: usize, key: &str) -> Spoke {
    Spoke { start, end, key: Rational::parse(key).unwrap() }
}

#[test]
fn insert_spoke_goes_behind_its_equals() {
    let mut v = vec![spoke(0, 1, "1/2"), spoke(0, 2, "3"), spoke(2, 0, "1")];
    assert_eq!(insert_spoke(&mut v, spoke(0, 3, "3")), 2);
    assert_eq!(insert_spoke(&mut v, spoke(1, 0, "7/2")), 3);
    assert_eq!(insert_spoke(&mut v, spoke(0, 4, "0")), 0);
    assert_eq!(insert_spoke(&mut v, spoke(2, 5, "2")), 6);
    let got: Vec<(usize, usize)> = v.iter().map(|s| (s.start, s.end)).collect();
    assert_eq!(got, vec![(0, 4), (0, 1), (0, 2), (0, 3), (1, 0), (2, 0), (2, 5)]);
}

#[test]
fn spokes_of_a_triangle() {
    let edges = segs(&[("0,0", "1,0"), ("1,0", "0,1"), ("0,1", "0,0")]);
    let points = collect_points(&edges);
    assert_eq!(points, pts(&["0,0", "0,1", "1,0"]));
    let spokes = build_spokes(&points, &edges);
    let got: Vec<(usize, usize, String)> =
        spokes.iter().map(|s| (s.start, s.end, s.key.to_string())).collect();
    assert_eq!(
        got,
        vec![
            (0, 2, "0".to_string()),
            (0, 1, "1".to_string()),
            (1, 0, "3".to_string()),
            (1, 2, "7/2".to_string()),
            (2, 1, "3/2".to_string()),
            (2, 0, "2".to_string()),
        ]
    );
}

#[test]
fn tables_hold_what_the_mesh_holds() {
    let t = Task {
        outer: pts(&["0,0", "1,0", "0,1"]),
        holes: vec![],
        skeleton: segs(&[("0,0", "1,0"), ("1,0", "0,1"), ("0,1", "0,0")]),
    };
    let tables = Tables::build(&t);
    let mesh = Mesh::new(&t);
    assert_eq!(tables.pts, mesh.pts.raw);
    assert_eq!(tables.first_out, mesh.first_out);
    let to = |v: &Vec<usize>| v.clone();
    assert_eq!(
        to(&tables.starts),
        mesh.half_edges.raw.iter().map(|e| e.0.to_index()).collect::<Vec<usize>>()
    );
    assert_eq!(
        to(&tables.ends),
        mesh.half_edges.raw.iter().map(|e| e.1.to_index()).collect::<Vec<usize>>()
    );
    assert_eq!(
        tables.opposite,
        mesh.opposite.raw.iter().map(|e| e.to_index()).collect::<Vec<usize>>()
    );
    assert_eq!(tables.next, mesh.next.raw.iter().map(|e| e.to_index()).collect::<Vec<usize>>());
    assert_eq!(tables.prev, mesh.prev.raw.iter().map(|e| e.to_index()).collect::<Vec<usize>>());
    assert_eq!(
        tables.he_poly,
        mesh.he_poly.raw.iter().map(|e| e.to_index()).collect::<Vec<usize>>()
    );
    assert_eq!(
        tables.poly_he,
        mesh.poly_he.raw.iter().map(|e| e.to_index()).collect::<Vec<usize>>()
    );
    assert_eq!(tables.poly_real, mesh.poly_real.raw);
    assert_eq!(tables.starts, vec![0, 0, 1, 1, 2, 2]);
    assert_eq!(tables.ends, vec![2, 1, 0, 2, 1, 0]);
    assert_eq!(tables.poly_real, vec![true, false]);
}
