use ehd_cfd::index::{CellId, FaceId, FieldLocation, NodeId};

#[test]
fn test_cell_id_roundtrip() {
    let id = CellId::from(42usize);
    assert_eq!(id.as_usize(), 42);
    let back: usize = id.into();
    assert_eq!(back, 42);
}

#[test]
fn test_type_safety() {
    // These are different types — can't be mixed accidentally
    let _cell = CellId(0);
    let _face = FaceId(0);
    let _node = NodeId(0);
    // cell == face would not compile
}

#[test]
fn face_and_node_ids_roundtrip() {
    let f = FaceId::from(7usize);
    assert_eq!(f.as_usize(), 7);
    let back: usize = f.into();
    assert_eq!(back, 7);
    let n = NodeId::from(u32::MAX as usize);
    assert_eq!(n.as_usize(), u32::MAX as usize);
    let back: usize = n.into();
    assert_eq!(back, u32::MAX as usize);
}

#[test]
fn ids_order_by_value() {
    assert!(CellId(1) < CellId(2));
    assert_eq!(FaceId(3), FaceId(3));
    assert_ne!(NodeId(3), NodeId(4));
}

#[test]
fn field_locations_are_distinct() {
    assert_ne!(FieldLocation::Cell, FieldLocation::Face);
    assert_ne!(FieldLocation::Face, FieldLocation::Node);
    assert_eq!(FieldLocation::Node, FieldLocation::Node);
}
