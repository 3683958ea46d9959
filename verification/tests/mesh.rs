use octree_art::mesh::{assemble, MeshError, Triple};

fn v(x: f64, y: f64, z: f64) -> Option<Triple<f64>> {
    Some(Triple(x, y, z))
}

fn square() -> Vec<Option<Triple<f64>>> {
    vec![v(0.0, 0.0, 0.0), v(1.0, 0.0, 0.0), v(1.0, 1.0, 0.0), v(0.0, 1.0, 0.5)]
}

fn p(i: usize) -> Triple<f64> {
    square()[i].unwrap()
}

#[test]
fn faces_become_triangles_in_their_order() {
    let faces = vec![Some(vec![0, 1, 2]), Some(vec![2, 3, 0])];
    let mesh = assemble(&faces, &square()).unwrap();
    assert_eq!(mesh, vec![Triple(p(0), p(1), p(2)), Triple(p(2), p(3), p(0))]);
}

#[test]
fn no_faces_give_an_empty_surface() {
    assert_eq!(assemble(&vec![], &square()), Ok(vec![]));
    assert_eq!(assemble::<f64>(&vec![], &vec![]), Ok(vec![]));
    assert_eq!(assemble(&vec![None, None], &square()), Ok(vec![]));
}

#[test]
fn face_without_an_index_list_is_passed_over() {
    let faces = vec![Some(vec![0, 1, 2]), None, Some(vec![2, 3, 0])];
    let mesh = assemble(&faces, &square()).unwrap();
    assert_eq!(mesh, vec![Triple(p(0), p(1), p(2)), Triple(p(2), p(3), p(0))]);
}

#[test]
fn only_the_first_three_indices_of_a_face_count() {
    let faces = vec![Some(vec![0, 1, 2, 3]), Some(vec![3, 3, 3, 99, -1])];
    let mesh = assemble(&faces, &square()).unwrap();
    assert_eq!(mesh, vec![Triple(p(0), p(1), p(2)), Triple(p(3), p(3), p(3))]);
}

#[test]
fn face_with_too_few_indices_is_refused() {
    assert_eq!(assemble(&vec![Some(vec![0, 1])], &square()), Err(MeshError::Index { face: 0 }));
    assert_eq!(assemble(&vec![Some(vec![])], &square()), Err(MeshError::Index { face: 0 }));
    let faces = vec![Some(vec![0, 1, 2]), None, Some(vec![1])];
    assert_eq!(assemble(&faces, &square()), Err(MeshError::Index { face: 2 }));
}

#[test]
fn index_of_no_vertex_is_refused() {
    assert_eq!(assemble(&vec![Some(vec![0, 1, 4])], &square()), Err(MeshError::Index { face: 0 }));
    assert_eq!(assemble(&vec![Some(vec![0, -1, 2])], &square()), Err(MeshError::Index { face: 0 }));
    assert_eq!(assemble::<f64>(&vec![Some(vec![0, 0, 0])], &vec![]), Err(MeshError::Index { face: 0 }));
    assert_eq!(
        assemble(&vec![Some(vec![0, 1, i32::MAX])], &square()),
        Err(MeshError::Index { face: 0 })
    );
}

#[test]
fn vertex_without_coordinates_is_refused() {
    let mut vertices = square();
    vertices[2] = None;
    let faces = vec![Some(vec![0, 1, 3]), Some(vec![1, 2, 3])];
    assert_eq!(assemble(&faces, &vertices), Err(MeshError::Broken { face: 1, vertex: 2 }));
    assert_eq!(assemble(&vec![Some(vec![0, 1, 3])], &vertices).unwrap().len(), 1);
}

#[test]
fn first_fault_in_reading_order_is_reported() {
    let mut vertices = square();
    vertices[1] = None;
    let faces = vec![Some(vec![0, 1, 9])];
    assert_eq!(assemble(&faces, &vertices), Err(MeshError::Broken { face: 0, vertex: 1 }));
    let faces = vec![Some(vec![9, 1, 0])];
    assert_eq!(assemble(&faces, &vertices), Err(MeshError::Index { face: 0 }));
    let faces = vec![Some(vec![0, 2, 3]), Some(vec![0, 9, 1]), Some(vec![1, 1, 1])];
    assert_eq!(assemble(&faces, &vertices), Err(MeshError::Index { face: 1 }));
    let faces = vec![Some(vec![0, 2, 1]), Some(vec![0, 9, 1])];
    assert_eq!(assemble(&faces, &vertices), Err(MeshError::Broken { face: 0, vertex: 1 }));
}

#[test]
fn coordinates_may_be_of_any_type() {
    let vertices = vec![Some(Triple('a', 'b', 'c')), Some(Triple('d', 'e', 'f'))];
    let mesh = assemble(&vec![Some(vec![1, 0, 1])], &vertices).unwrap();
    let a = Triple('a', 'b', 'c');
    let d = Triple('d', 'e', 'f');
    assert_eq!(mesh, vec![Triple(d, a, d)]);
}
