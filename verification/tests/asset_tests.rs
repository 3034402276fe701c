use humentity::{
    bake_asset_morphs, delete_flags, parse_human_asset, triangle_target, HelperMap,
    HumanMeshAsset, MorphTarget, MorphTargets, ScaleData, Triangle, Vec3, SCALE,
};

fn v(x: i64, y: i64, z: i64) -> Vec3 {
    Vec3 { x, y, z }
}

fn unit_scale() -> ScaleData {
    ScaleData { min: 0, max: 1, scale: SCALE }
}

#[test]
fn triangle_target_is_the_weighted_corner_sum() {
    // Corners {0, 1, 2} with weights {0.5, 0.3, 0.2} and a zero offset:
    // the target is 0.5*H0 + 0.3*H1 + 0.2*H2.
    let helpers = vec![v(SCALE, 0, 0), v(0, SCALE, 0), v(0, 0, SCALE)];
    let tri = Triangle {
        v0: 0,
        v1: 1,
        v2: 2,
        w0: 500_000,
        w1: 300_000,
        w2: 200_000,
        offset: v(0, 0, 0),
    };
    let target = triangle_target(&tri, &helpers, v(SCALE, SCALE, SCALE));
    assert_eq!(target, v(500_000, 300_000, 200_000));
}

#[test]
fn delete_list_text_parses_bare_ids_and_ranges() {
    // The delete block "5\n10 - 12\n" denotes the set {5, 10, 11, 12}.
    let text: Vec<u8> = b"delete_verts\n5\n10 - 12\n".to_vec();
    let parsed = parse_human_asset(&text).unwrap();
    assert_eq!(parsed.delete_verts, vec![5u16, 10u16, 11u16, 12u16]);
    let flags = delete_flags(&parsed.delete_verts, 16);
    for j in 0..16u16 {
        let expected = j == 5 || j == 10 || j == 11 || j == 12;
        assert_eq!(flags[j as usize], expected, "flag {}", j);
    }
}

#[test]
fn asset_description_header_and_vertices_parse() {
    let text: Vec<u8> = b"# a part\n\
name left_eye\n\
obj_file eye.obj\n\
tag LeftEye\n\
z_depth -3\n\
x_scale 0 1 1.0\n\
y_scale 0 1 1.0\n\
z_scale 0 1 1.0\n\
verts 0\n\
7\n\
0 1 2 0.5 0.3 0.2 0.0 0.0 0.0\n\
delete_verts\n\
2 - 3\n"
        .to_vec();
    let parsed = parse_human_asset(&text).unwrap();
    assert_eq!(parsed.name, b"left_eye".to_vec());
    assert_eq!(parsed.obj_file, b"eye.obj".to_vec());
    assert_eq!(parsed.tags, vec![b"LeftEye".to_vec()]);
    assert_eq!(parsed.z_depth, -3);
    assert_eq!(parsed.x_scale, ScaleData { min: 0, max: 1, scale: SCALE });
    assert_eq!(parsed.helper_maps.len(), 2);
    assert_eq!(parsed.helper_maps[0], HelperMap::Single(7));
    match parsed.helper_maps[1] {
        HelperMap::Triangulated(t) => {
            assert_eq!((t.v0, t.v1, t.v2), (0, 1, 2));
            // The weights already sum to one, so renormalizing keeps them.
            assert_eq!((t.w0, t.w1, t.w2), (500_000, 300_000, 200_000));
            assert_eq!(t.offset, v(0, 0, 0));
        },
        other => panic!("expected a triangulated mapping, got {:?}", other),
    }
    assert_eq!(parsed.delete_verts, vec![2u16, 3u16]);
}

#[test]
fn asset_vertex_weights_are_renormalized_on_load() {
    // Raw weights 1 1 2 sum to 4: they load as 0.25, 0.25, 0.5.
    let text: Vec<u8> = b"verts 0\n3 4 5 1 1 2 0 0 0\n".to_vec();
    let parsed = parse_human_asset(&text).unwrap();
    match parsed.helper_maps[0] {
        HelperMap::Triangulated(t) => {
            assert_eq!((t.w0, t.w1, t.w2), (250_000, 250_000, 500_000));
        },
        other => panic!("expected a triangulated mapping, got {:?}", other),
    }
}

#[test]
fn an_unparseable_vertex_line_names_its_line() {
    let text: Vec<u8> = b"verts 0\n1 2\n".to_vec();
    let err = parse_human_asset(&text).unwrap_err();
    assert_eq!(err.line, 1);
}

fn asset_for_fit(helper_maps: Vec<HelperMap>, vertex_map: Vec<Vec<u16>>) -> HumanMeshAsset {
    HumanMeshAsset {
        name: "part".to_owned(),
        obj_file: "part.obj".to_owned(),
        tags: Vec::new(),
        slots: Vec::new(),
        z_depth: 0,
        helper_maps,
        vertex_map,
        delete_verts: Vec::new(),
        x_scale: unit_scale(),
        y_scale: unit_scale(),
        z_scale: unit_scale(),
    }
}

#[test]
fn fitting_with_no_morphs_keeps_the_authored_positions() {
    let helpers = vec![v(0, 0, 0), v(SCALE, 0, 0)];
    let asset = asset_for_fit(vec![HelperMap::Single(0)], vec![vec![0u16]]);
    let lib = MorphTargets { targets: Vec::new() };
    let base = vec![v(11, 22, 33)];
    let out = bake_asset_morphs(&Vec::new(), &lib, &helpers, &asset, &base).unwrap();
    assert_eq!(out, base);
}

#[test]
fn fitting_a_single_mapped_vertex_adds_the_scaled_displacement() {
    let helpers = vec![v(0, 0, 0), v(SCALE, 0, 0)];
    let asset = asset_for_fit(vec![HelperMap::Single(0)], vec![vec![0u16]]);
    let lib = MorphTargets {
        targets: vec![MorphTarget {
            name: "push".to_owned(),
            offsets: vec![(0, v(SCALE, 0, 0))],
        }],
    };
    let base = vec![v(0, 0, 0)];
    let weights = vec![("push".to_owned(), SCALE / 4)];
    let out = bake_asset_morphs(&weights, &lib, &helpers, &asset, &base).unwrap();
    assert_eq!(out, vec![v(SCALE / 4, 0, 0)]);
}

#[test]
fn fitting_a_triangulated_vertex_moves_toward_its_target() {
    let helpers = vec![v(SCALE, 0, 0), v(0, SCALE, 0), v(0, 0, SCALE)];
    let tri = Triangle {
        v0: 0,
        v1: 1,
        v2: 2,
        w0: 500_000,
        w1: 300_000,
        w2: 200_000,
        offset: v(0, 0, 0),
    };
    let asset = asset_for_fit(vec![HelperMap::Triangulated(tri)], vec![vec![0u16]]);
    let lib = MorphTargets {
        targets: vec![MorphTarget { name: "any".to_owned(), offsets: Vec::new() }],
    };
    let base = vec![v(0, 0, 0)];
    // Full weight moves the vertex all the way to the target.
    let weights = vec![("any".to_owned(), SCALE)];
    let out = bake_asset_morphs(&weights, &lib, &helpers, &asset, &base).unwrap();
    assert_eq!(out, vec![v(500_000, 300_000, 200_000)]);
}
