use blue_engine_utilities::model_load::{assemble_mesh, mesh_name, IndexList, PrimitiveData};

#[test]
fn assemble_pairs_positions_with_normals() {
    let primitives = vec![
        PrimitiveData { positions: vec![1, 2], normals: vec!['a', 'b', 'c'], indices: Some(IndexList::U16(vec![0, 1])) },
        PrimitiveData { positions: vec![3], normals: vec!['d'], indices: None },
    ];
    let mesh = assemble_mesh(&primitives);
    assert_eq!(mesh.vertices, vec![(1, 'a'), (2, 'b'), (3, 'd')]);
    assert_eq!(mesh.indices, vec![0, 1]);
}

#[test]
fn indices_are_narrowed_and_not_shifted() {
    let primitives = vec![
        PrimitiveData { positions: vec![0u8], normals: vec![0u8], indices: Some(IndexList::U32(vec![1, 65536, 70000])) },
        PrimitiveData { positions: vec![], normals: vec![], indices: Some(IndexList::U8(vec![5, 6])) },
        PrimitiveData { positions: vec![1u8], normals: vec![1u8], indices: Some(IndexList::U16(vec![0])) },
    ];
    let mesh = assemble_mesh(&primitives);
    assert_eq!(mesh.indices, vec![1, 0, 4464, 0]);
    assert_eq!(mesh.vertices.len(), 2);
}

#[test]
fn empty_mesh() {
    let primitives: Vec<PrimitiveData<u8, u8>> = vec![];
    let mesh = assemble_mesh(&primitives);
    assert!(mesh.vertices.is_empty());
    assert!(mesh.indices.is_empty());
}

#[test]
fn mesh_name_prefers_own_name() {
    assert_eq!(mesh_name(Some("Suzanne"), "./resources/monkey.glb"), "Suzanne");
    assert_eq!(mesh_name(None, "./resources/monkey.glb"), "./resources/monkey.glb:no_name");
}
