use renderer::mesh::triangle_corner_offsets;

#[test]
fn offsets_of_two_triangles() {
    let indices = vec![0, 1, 2, 2, 3, 0];
    let r = triangle_corner_offsets(&indices, 12).unwrap();
    assert_eq!(r, vec![[0, 3, 6], [6, 9, 0]]);
}

#[test]
fn offsets_empty_face_list() {
    assert_eq!(triangle_corner_offsets(&vec![], 0), Some(vec![]));
}

#[test]
fn offsets_reject_partial_triangle() {
    assert_eq!(triangle_corner_offsets(&vec![0, 1, 2, 0], 9), None);
    assert_eq!(triangle_corner_offsets(&vec![0, 1], 9), None);
}

#[test]
fn offsets_reject_index_past_positions() {
    // three vertices need nine coordinates; vertex 3 would need twelve
    assert_eq!(triangle_corner_offsets(&vec![0, 1, 3], 9), None);
    assert_eq!(triangle_corner_offsets(&vec![0, 1, 2], 8), None);
    assert!(triangle_corner_offsets(&vec![0, 1, 2], 9).is_some());
}

#[test]
fn offsets_huge_index() {
    assert_eq!(triangle_corner_offsets(&vec![u32::MAX, 0, 0], usize::MAX), if usize::BITS > 32 { Some(vec![[3 * u32::MAX as usize, 0, 0]]) } else { None });
}
