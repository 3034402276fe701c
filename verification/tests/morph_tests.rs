use humentity::{
    adjust_helpers_to_morphs, bake_body_morphs, parse_morph_target, MorphTarget, MorphTargets,
    Vec3, SCALE,
};

fn v(x: i64, y: i64, z: i64) -> Vec3 {
    Vec3 { x, y, z }
}

fn base4() -> Vec<Vec3> {
    vec![v(0, 0, 0), v(SCALE, 0, 0), v(0, SCALE, 0), v(0, 0, SCALE)]
}

fn raise_chin() -> MorphTargets {
    MorphTargets {
        targets: vec![MorphTarget {
            name: "raise-chin".to_owned(),
            offsets: vec![(2, v(0, SCALE, 0))],
        }],
    }
}

#[test]
fn half_weight_moves_the_listed_vertex_halfway() {
    // Weight 0.5 on a displacement of (0, 1, 0) moves vertex 2 by
    // (0, 0.5, 0) and no other vertex at all.
    let base = base4();
    let weights = vec![("raise-chin".to_owned(), SCALE / 2)];
    let helpers = adjust_helpers_to_morphs(&weights, &raise_chin(), &base).unwrap();
    assert_eq!(helpers[0], base[0]);
    assert_eq!(helpers[1], base[1]);
    assert_eq!(helpers[2], v(0, SCALE + SCALE / 2, 0));
    assert_eq!(helpers[3], base[3]);
}

#[test]
fn empty_weight_set_keeps_the_canonical_base() {
    let base = base4();
    let helpers = adjust_helpers_to_morphs(&Vec::new(), &raise_chin(), &base).unwrap();
    assert_eq!(helpers, base);
}

#[test]
fn zero_weights_keep_the_canonical_base() {
    let base = base4();
    let weights = vec![("raise-chin".to_owned(), 0)];
    let helpers = adjust_helpers_to_morphs(&weights, &raise_chin(), &base).unwrap();
    assert_eq!(helpers, base);
}

#[test]
fn blending_two_morphs_is_order_independent() {
    let base = base4();
    let lib = MorphTargets {
        targets: vec![
            MorphTarget { name: "a".to_owned(), offsets: vec![(1, v(300_000, 0, 0))] },
            MorphTarget { name: "b".to_owned(), offsets: vec![(1, v(0, 700_000, 0)), (3, v(5, 5, 5))] },
        ],
    };
    let ab = vec![("a".to_owned(), 250_000), ("b".to_owned(), 750_000)];
    let ba = vec![("b".to_owned(), 750_000), ("a".to_owned(), 250_000)];
    let h1 = adjust_helpers_to_morphs(&ab, &lib, &base).unwrap();
    let h2 = adjust_helpers_to_morphs(&ba, &lib, &base).unwrap();
    assert_eq!(h1, h2);
}

#[test]
fn a_missing_morph_name_is_fatal() {
    let base = base4();
    let weights = vec![("no-such-morph".to_owned(), SCALE)];
    assert!(adjust_helpers_to_morphs(&weights, &raise_chin(), &base).is_err());
}

#[test]
fn body_bake_writes_helpers_to_every_mapped_render_vertex() {
    let positions = vec![v(9, 9, 9), v(8, 8, 8), v(7, 7, 7)];
    // Canonical 0 maps to render 0 and 2, canonical 1 maps to render 1.
    let map = vec![vec![0u16, 2u16], vec![1u16]];
    let helpers = vec![v(1, 2, 3), v(4, 5, 6)];
    let out = bake_body_morphs(&positions, &map, &helpers);
    assert_eq!(out, vec![v(1, 2, 3), v(4, 5, 6), v(1, 2, 3)]);
}

#[test]
fn morph_target_text_is_scaled_by_the_body_scale() {
    // Displacements are pre-multiplied by the 0.1 body scale at load.
    let text: Vec<u8> = b"# comment\n5 0.1 0.2 -0.3\n".to_vec();
    let entries = parse_morph_target(&text).unwrap();
    assert_eq!(entries, vec![(5u16, v(10_000, 20_000, -30_000))]);
}

#[test]
fn later_morph_target_lines_overwrite_earlier_ones() {
    let text: Vec<u8> = b"5 1 1 1\n5 2 2 2\n".to_vec();
    let entries = parse_morph_target(&text).unwrap();
    assert_eq!(entries, vec![(5u16, v(200_000, 200_000, 200_000))]);
}

#[test]
fn a_short_morph_target_line_is_a_parse_error() {
    let text: Vec<u8> = b"5 1 1\n".to_vec();
    let err = parse_morph_target(&text).unwrap_err();
    assert_eq!(err.line, 0);
}
