use humentity::{
    delete_mesh_verts, generate_mesh_without_helpers, parse_obj_vertices, TriMesh, Vec2, Vec3,
    SCALE,
};

fn v(x: i64, y: i64, z: i64) -> Vec3 {
    Vec3 { x, y, z }
}

fn quad_mesh() -> TriMesh {
    // Four vertices, two triangles sharing an edge.
    TriMesh {
        positions: vec![v(0, 0, 0), v(SCALE, 0, 0), v(0, SCALE, 0), v(SCALE, SCALE, 0)],
        normals: vec![v(0, 0, SCALE); 4],
        uvs: vec![
            Vec2 { x: 0, y: 0 },
            Vec2 { x: SCALE, y: 0 },
            Vec2 { x: 0, y: SCALE },
            Vec2 { x: SCALE, y: SCALE },
        ],
        indices: vec![0, 1, 2, 1, 3, 2],
    }
}

#[test]
fn pruning_with_an_empty_delete_set_changes_nothing() {
    let mesh = quad_mesh();
    let inv: Vec<u16> = vec![0, 1, 2, 3];
    let del: Vec<bool> = vec![false; 4];
    let out = delete_mesh_verts(&mesh, &inv, &del);
    assert_eq!(out.positions.len(), mesh.positions.len());
    assert_eq!(out.indices.len(), mesh.indices.len());
    assert_eq!(out.positions, mesh.positions);
    assert_eq!(out.indices, mesh.indices);
}

#[test]
fn pruning_with_a_full_delete_set_leaves_a_zero_face_mesh() {
    let mesh = quad_mesh();
    let inv: Vec<u16> = vec![0, 1, 2, 3];
    let del: Vec<bool> = vec![true; 4];
    let out = delete_mesh_verts(&mesh, &inv, &del);
    assert_eq!(out.indices.len(), 0);
    assert_eq!(out.positions.len(), 0);
}

#[test]
fn a_face_with_one_surviving_corner_is_kept() {
    // Deleting canonical vertex 0 dooms no face: each face keeps at
    // least one undeleted corner, so nothing is removed.
    let mesh = quad_mesh();
    let inv: Vec<u16> = vec![0, 1, 2, 3];
    let mut del: Vec<bool> = vec![false; 4];
    del[0] = true;
    let out = delete_mesh_verts(&mesh, &inv, &del);
    assert_eq!(out.indices.len(), 6);
    assert_eq!(out.positions.len(), 4);
}

#[test]
fn a_fully_deleted_face_drops_its_unshared_vertices() {
    // Deleting 0, 1 and 2 dooms the first face only; vertex 0 is then
    // unreferenced and dropped, and the surviving face is renumbered.
    let mesh = quad_mesh();
    let inv: Vec<u16> = vec![0, 1, 2, 3];
    let del: Vec<bool> = vec![true, true, true, false];
    let out = delete_mesh_verts(&mesh, &inv, &del);
    assert_eq!(out.positions.len(), 3);
    assert_eq!(out.positions, vec![v(SCALE, 0, 0), v(0, SCALE, 0), v(SCALE, SCALE, 0)]);
    assert_eq!(out.indices, vec![0, 2, 1]);
}

#[test]
fn helper_vertices_are_stripped_from_the_body_mesh() {
    // Canonical ids 0 and 1 are body vertices, 2 and 3 are helpers: the
    // helper-touching faces and vertices go away.
    let mesh = quad_mesh();
    let inv: Vec<u16> = vec![0, 1, 2, 3];
    let out = generate_mesh_without_helpers(&mesh, &inv, 2);
    assert_eq!(out.positions.len(), 2);
    assert_eq!(out.indices.len(), 0);
    let all = generate_mesh_without_helpers(&mesh, &inv, 4);
    assert_eq!(all.positions.len(), 4);
    assert_eq!(all.indices, mesh.indices);
}

#[test]
fn obj_vertex_lines_parse_into_positions() {
    let text: Vec<u8> = b"# header\nv 1.5 -2.25 0.125\nvt 0 0\nv 0 0 1\n".to_vec();
    let verts = parse_obj_vertices(&text).unwrap();
    assert_eq!(verts, vec![v(1_500_000, -2_250_000, 125_000), v(0, 0, SCALE)]);
}

#[test]
fn a_short_obj_vertex_line_is_a_parse_error() {
    let text: Vec<u8> = b"v 1 2\n".to_vec();
    let err = parse_obj_vertices(&text).unwrap_err();
    assert_eq!(err.line, 0);
}
