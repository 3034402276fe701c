use humentity::{
    build_rig, get_bone_transform, get_bone_vertices, BoneData, BoneTransform, ConfigError,
    RigType, Vec3, VertexGroups, SCALE,
};

fn v(x: i64, y: i64, z: i64) -> Vec3 {
    Vec3 { x, y, z }
}

fn mean(a: u16, b: u16) -> BoneTransform {
    BoneTransform {
        strategy: "MEAN".to_owned(),
        cube_name: None,
        vertex_indices: Some(vec![a, b]),
        vertex_index: None,
    }
}

fn vertex(a: u16) -> BoneTransform {
    BoneTransform {
        strategy: "VERTEX".to_owned(),
        cube_name: None,
        vertex_indices: None,
        vertex_index: Some(a),
    }
}

fn cube(name: &str) -> BoneTransform {
    BoneTransform {
        strategy: "CUBE".to_owned(),
        cube_name: Some(name.to_owned()),
        vertex_indices: None,
        vertex_index: None,
    }
}

fn bone(head: BoneTransform, parent: &str, tail: BoneTransform) -> BoneData {
    BoneData { head, parent: parent.to_owned(), tail }
}

fn no_groups() -> VertexGroups {
    VertexGroups { groups: Vec::new() }
}

fn helpers4() -> Vec<Vec3> {
    vec![v(0, 0, 0), v(SCALE, 0, 0), v(0, SCALE, 0), v(0, 0, SCALE)]
}

#[test]
fn strategies_resolve_to_their_vertex_pairs() {
    let vg = VertexGroups { groups: vec![("joint".to_owned(), vec![(2, 3)])] };
    assert_eq!(get_bone_vertices(&mean(0, 1), &vg).unwrap(), (0, 1));
    assert_eq!(get_bone_vertices(&vertex(2), &vg).unwrap(), (2, 2));
    assert_eq!(get_bone_vertices(&cube("joint"), &vg).unwrap(), (2, 3));
}

#[test]
fn an_unknown_strategy_is_a_fatal_config_error() {
    let odd = BoneTransform {
        strategy: "SPLINE".to_owned(),
        cube_name: None,
        vertex_indices: None,
        vertex_index: None,
    };
    match get_bone_vertices(&odd, &no_groups()) {
        Err(ConfigError::UnknownStrategy { .. }) => {},
        other => panic!("expected an unknown-strategy failure, got {:?}", other),
    }
}

#[test]
fn a_bone_end_sits_at_the_midpoint_of_its_pair() {
    let helpers = helpers4();
    let p = get_bone_transform(&mean(0, 1), &no_groups(), &helpers).unwrap();
    assert_eq!(p, v(SCALE / 2, 0, 0));
}

#[test]
fn bones_are_laid_out_root_first_with_parents_preceding_children() {
    let config = vec![
        ("Head".to_owned(), bone(vertex(3), "Spine", vertex(3))),
        ("Root".to_owned(), bone(vertex(0), "", vertex(1))),
        ("Spine".to_owned(), bone(mean(1, 2), "Root", vertex(2))),
    ];
    let sk = build_rig(&config, &no_groups(), &helpers4()).unwrap();
    assert_eq!(sk.bones.len(), 3);
    assert_eq!(sk.bones[0].name, "Root");
    assert_eq!(sk.bones[1].name, "Spine");
    assert_eq!(sk.bones[2].name, "Head");
    assert_eq!(sk.bones[0].parent, None);
    assert_eq!(sk.bones[1].parent, Some(0));
    assert_eq!(sk.bones[2].parent, Some(1));
    assert_eq!(sk.bones[1].head, v(SCALE / 2, SCALE / 2, 0));
    for (p, b) in sk.bones.iter().enumerate() {
        if let Some(q) = b.parent {
            assert!(q < p, "parent {} does not precede bone {}", q, p);
        }
    }
}

#[test]
fn a_hip_rooted_rig_gets_an_explicit_root_bone() {
    let config = vec![
        ("mixamorig:Hips".to_owned(), bone(vertex(0), "", vertex(1))),
        ("Spine".to_owned(), bone(vertex(2), "mixamorig:Hips", vertex(3))),
    ];
    let sk = build_rig(&config, &no_groups(), &helpers4()).unwrap();
    assert_eq!(sk.bones.len(), 3);
    assert_eq!(sk.bones[0].name, "Root");
    assert_eq!(sk.bones[0].parent, None);
    assert_eq!(sk.bones[0].head, v(0, 0, 0));
    assert_eq!(sk.bones[1].name, "mixamorig:Hips");
    assert_eq!(sk.bones[1].parent, Some(0));
    assert_eq!(sk.bones[2].name, "Spine");
    assert_eq!(sk.bones[2].parent, Some(1));
}

#[test]
fn two_unparented_bones_are_rejected() {
    let config = vec![
        ("A".to_owned(), bone(vertex(0), "", vertex(0))),
        ("B".to_owned(), bone(vertex(1), "", vertex(1))),
    ];
    match build_rig(&config, &no_groups(), &helpers4()) {
        Err(ConfigError::RootCount { roots }) => assert_eq!(roots, 2),
        other => panic!("expected a root-count failure, got {:?}", other),
    }
}

#[test]
fn a_missing_parent_breaks_the_hierarchy() {
    let config = vec![
        ("Root".to_owned(), bone(vertex(0), "", vertex(0))),
        ("Arm".to_owned(), bone(vertex(1), "Shoulder", vertex(1))),
    ];
    match build_rig(&config, &no_groups(), &helpers4()) {
        Err(ConfigError::BrokenHierarchy { .. }) => {},
        other => panic!("expected a broken-hierarchy failure, got {:?}", other),
    }
}

#[test]
fn rig_types_name_the_known_families() {
    let t = RigType::Mixamo;
    assert_eq!(t, RigType::Mixamo);
    assert!(RigType::GameEngine != RigType::DefaultRig);
    assert!(RigType::NoRig != RigType::Mixamo);
}

#[test]
fn a_known_strategy_without_its_data_is_a_config_error() {
    let half = BoneTransform {
        strategy: "MEAN".to_owned(),
        cube_name: None,
        vertex_indices: Some(vec![0]),
        vertex_index: None,
    };
    match get_bone_vertices(&half, &no_groups()) {
        Err(ConfigError::MissingPlacement { .. }) => {},
        other => panic!("expected a missing-placement failure, got {:?}", other),
    }
}
