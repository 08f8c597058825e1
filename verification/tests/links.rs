use planar_mesh::links::faces;
use planar_mesh::links::find_half_edge;
use planar_mesh::links::group_offsets;
use planar_mesh::links::link;
use planar_mesh::links::opposites;

// A triangle on the vertices 0, 1, 2 that runs counter-clockwise, with the
// half-edges of every vertex in the order in which they follow each other
// round it.
fn triangle() -> (Vec<usize>, Vec<usize>) {
    (vec![0, 0, 1, 1, 2, 2], vec![1, 2, 2, 0, 0, 1])
}

#[test]
fn offsets_mark_where_each_vertex_begins() {
    let (starts, _) = triangle();
    assert_eq!(group_offsets(&starts, 3), vec![0, 2, 4, 6]);
    assert_eq!(group_offsets(&vec![], 0), vec![0]);
    // vertex 1 has no half-edge
    assert_eq!(group_offsets(&vec![0, 2, 2], 3), vec![0, 1, 1, 3]);
}

#[test]
fn half_edges_are_found_by_their_ends() {
    let (starts, ends) = triangle();
    let first = group_offsets(&starts, 3);
    assert_eq!(find_half_edge(&starts, &ends, &first, 1, 0), Some(3));
    assert_eq!(find_half_edge(&starts, &ends, &first, 2, 1), Some(5));
    assert_eq!(find_half_edge(&starts, &ends, &first, 1, 1), None);
}

#[test]
fn triangle_links_and_faces() {
    let (starts, ends) = triangle();
    let first = group_offsets(&starts, 3);
    let opposite = opposites(&starts, &ends, &first);
    assert_eq!(opposite, vec![3, 4, 5, 0, 1, 2]);
    let (prev, next) = link(&starts, &ends, &first, &opposite);
    assert_eq!(prev, vec![4, 3, 0, 5, 2, 1]);
    assert_eq!(next, vec![2, 5, 4, 1, 0, 3]);
    let (he_poly, poly_he) = faces(&prev, &next);
    assert_eq!(he_poly, vec![0, 1, 0, 1, 0, 1]);
    assert_eq!(poly_he, vec![0, 1]);
}

#[test]
fn faces_of_any_rotation() {
    // next: 0 -> 1 -> 0, 2 -> 2, 3 -> 5 -> 4 -> 3
    let next = vec![1, 0, 2, 5, 3, 4];
    let prev = vec![1, 0, 2, 4, 5, 3];
    let (he_poly, poly_he) = faces(&prev, &next);
    assert_eq!(he_poly, vec![0, 0, 1, 2, 2, 2]);
    assert_eq!(poly_he, vec![0, 2, 3]);
    let (he_poly, poly_he) = faces(&vec![], &vec![]);
    assert!(he_poly.is_empty() && poly_he.is_empty());
}
