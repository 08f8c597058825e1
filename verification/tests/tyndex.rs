use planar_mesh::mesh::HalfEdge;
use planar_mesh::mesh::Vertex;
use planar_mesh::tyndex::typed;
use planar_mesh::tyndex::TyVec;
use planar_mesh::tyndex::Tyndex;

#[test]
fn it_works() {
    let result = 2 + 2;
    assert_eq!(result, 4);
}

#[test]
fn index_round_trip() {
    assert_eq!(Vertex::from_index(17).to_index(), 17);
    assert_eq!(HalfEdge::from_index(4294967295).to_index(), 4294967295);
    assert_eq!(Vertex::from_index(3), Vertex::from_index(3));
    assert_ne!(Vertex::from_index(3), Vertex::from_index(4));
}

#[test]
fn tyvec_push_len_and_get() {
    let mut v: TyVec<Vertex, char> = TyVec::from_raw(vec!['a', 'b']);
    assert_eq!(v.len().to_index(), 2);
    let i = v.push_and_idx('c');
    assert_eq!(i.to_index(), 2);
    assert_eq!(v.len().to_index(), 3);
    assert_eq!(v.raw, vec!['a', 'b', 'c']);
    assert_eq!(*v.get(i), 'c');
    assert_eq!(*v.get(Vertex::from_index(0)), 'a');
    v.set(Vertex::from_index(1), 'x');
    assert_eq!(v.raw, vec!['a', 'x', 'c']);
}

#[test]
fn tyvec_enum_ref_pairs_indices_with_items() {
    let v: TyVec<HalfEdge, u8> = TyVec::from_raw(vec![7, 8, 9]);
    let items = v.enum_ref();
    assert_eq!(items.len(), 3);
    assert_eq!(items[0], (HalfEdge::from_index(0), &7));
    assert_eq!(items[1], (HalfEdge::from_index(1), &8));
    assert_eq!(items[2], (HalfEdge::from_index(2), &9));
    let none: TyVec<HalfEdge, u8> = TyVec::from_raw(vec![]);
    assert_eq!(none.enum_ref().len(), 0);
}

#[test]
fn typed_turns_positions_into_indices() {
    let v: Vec<Vertex> = typed(&vec![2, 0, 5]);
    assert_eq!(v, vec![Vertex::from_index(2), Vertex::from_index(0), Vertex::from_index(5)]);
}
