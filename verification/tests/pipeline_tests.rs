use humentity::{
    adjust_helpers_to_morphs, bake_body_morphs, build_rig, generate_inverse_vertex_map,
    generate_mesh_without_helpers, generate_vertex_map, set_basemesh_rig_arrays, BoneData,
    BoneTransform, MorphTarget, MorphTargets, RigWeights, TriMesh, Vec2, Vec3, SCALE,
};

fn v(x: i64, y: i64, z: i64) -> Vec3 {
    Vec3 { x, y, z }
}

fn vertex(a: u16) -> BoneTransform {
    BoneTransform {
        strategy: "VERTEX".to_owned(),
        cube_name: None,
        vertex_indices: None,
        vertex_index: Some(a),
    }
}

#[test]
fn a_small_avatar_flows_through_every_stage() {
    // Authoring mesh: three body vertices and one helper vertex, one
    // body face and one face leaning on the helper.
    let authored = vec![v(0, 0, 0), v(SCALE, 0, 0), v(0, SCALE, 0), v(9, 9, 9)];
    let mesh = TriMesh {
        positions: authored.clone(),
        normals: vec![v(0, 0, SCALE); 4],
        uvs: vec![Vec2 { x: 0, y: 0 }; 4],
        indices: vec![0, 1, 2, 1, 3, 2],
    };

    // Correspondence: the render mesh reuses the authored positions.
    let forward = generate_vertex_map(&authored, &mesh.positions).unwrap();
    let inverse = generate_inverse_vertex_map(&forward, mesh.positions.len());

    // The body mesh drops the helper vertex and its face.
    let body = generate_mesh_without_helpers(&mesh, &inverse, 3);
    assert_eq!(body.positions.len(), 3);
    assert_eq!(body.indices, vec![0, 1, 2]);

    // Morphing moves vertex 1 along x by half a unit.
    let targets = MorphTargets {
        targets: vec![MorphTarget {
            name: "wide".to_owned(),
            offsets: vec![(1, v(SCALE, 0, 0))],
        }],
    };
    let weights = vec![("wide".to_owned(), SCALE / 2)];
    let helpers = adjust_helpers_to_morphs(&weights, &targets, &authored).unwrap();
    assert_eq!(helpers[1], v(SCALE + SCALE / 2, 0, 0));

    // The morphed positions reach every mapped render vertex.
    let baked = bake_body_morphs(&mesh.positions, &forward, &helpers);
    assert_eq!(baked[1], helpers[1]);

    // A one-bone rig over the morphed helpers.
    let config = vec![("Root".to_owned(), BoneData {
        head: vertex(0),
        parent: String::new(),
        tail: vertex(2),
    })];
    let vg = humentity::VertexGroups { groups: Vec::new() };
    let sk = build_rig(&config, &vg, &helpers).unwrap();
    assert_eq!(sk.bones.len(), 1);
    assert_eq!(sk.bones[0].tail, helpers[2]);

    // Skinning gives every render vertex a normalized quad.
    let rig = RigWeights {
        bones: vec![("Root".to_owned(), vec![(0, SCALE), (1, SCALE), (2, SCALE), (3, SCALE)])],
    };
    let names = vec!["Root".to_owned()];
    let quads = set_basemesh_rig_arrays(&rig, &names, &forward, mesh.positions.len()).unwrap();
    assert_eq!(quads.len(), 4);
    for q in &quads {
        assert_eq!((q.b0, q.w0), (0, SCALE));
    }
}
