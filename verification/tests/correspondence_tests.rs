use humentity::{
    generate_inverse_vertex_map, generate_vertex_map, CorrespondenceError, Vec3, SCALE,
};

fn v(x: i64, y: i64, z: i64) -> Vec3 {
    Vec3 { x, y, z }
}

#[test]
fn forward_map_lists_every_matching_render_vertex() {
    let canonical = vec![v(0, 0, 0), v(SCALE, 0, 0)];
    // The second canonical vertex splits into two render vertices.
    let render = vec![v(SCALE, 0, 0), v(0, 0, 0), v(SCALE, 0, 0)];
    let map = generate_vertex_map(&canonical, &render).unwrap();
    assert_eq!(map.len(), 2);
    assert_eq!(map[0], vec![1u16]);
    assert_eq!(map[1], vec![0u16, 2u16]);
}

#[test]
fn inverse_map_returns_every_listed_render_id() {
    let canonical = vec![v(0, 0, 0), v(SCALE, 0, 0)];
    let render = vec![v(SCALE, 0, 0), v(0, 0, 0), v(SCALE, 0, 0)];
    let map = generate_vertex_map(&canonical, &render).unwrap();
    let inv = generate_inverse_vertex_map(&map, render.len());
    assert_eq!(inv.len(), 3);
    // Round trip: the forward entry of canonical i lists j, so inv[j] == i.
    for (i, row) in map.iter().enumerate() {
        for &j in row {
            assert_eq!(inv[j as usize] as usize, i);
        }
    }
    assert_eq!(inv, vec![1u16, 0u16, 1u16]);
}

#[test]
fn duplicate_canonical_vertices_are_rejected() {
    // Two canonical vertices share a position, so the render vertex is
    // claimed twice.
    let canonical = vec![v(7, 7, 7), v(7, 7, 7)];
    let render = vec![v(7, 7, 7)];
    match generate_vertex_map(&canonical, &render) {
        Err(CorrespondenceError::DuplicateVertex { render: j }) => assert_eq!(j, 0),
        other => panic!("expected a duplicate-vertex failure, got {:?}", other),
    }
}

#[test]
fn unmatched_render_vertex_is_rejected() {
    let canonical = vec![v(0, 0, 0)];
    let render = vec![v(0, 0, 0), v(1, 2, 3)];
    match generate_vertex_map(&canonical, &render) {
        Err(CorrespondenceError::UnmatchedVertex { render: j }) => assert_eq!(j, 1),
        other => panic!("expected an unmatched-vertex failure, got {:?}", other),
    }
}
