use humentity::{
    asset_vertex_quad, set_asset_rig_arrays, set_basemesh_rig_arrays, DataConsistencyError,
    HelperMap, RigWeights, SCALE,
};

fn weights(bones: Vec<(&str, Vec<(u16, i64)>)>) -> RigWeights {
    RigWeights {
        bones: bones.into_iter().map(|(n, t)| (n.to_owned(), t)).collect(),
    }
}

fn names(list: Vec<&str>) -> Vec<String> {
    list.into_iter().map(|s| s.to_owned()).collect()
}

#[test]
fn body_quads_are_normalized_to_sum_one() {
    // Canonical 0 maps to render 0, canonical 1 to render 1 and 2.
    let map = vec![vec![0u16], vec![1u16, 2u16]];
    let rig = weights(vec![
        ("a", vec![(0, 300_000), (1, 600_000)]),
        ("b", vec![(0, 100_000), (1, 200_000)]),
    ]);
    let quads = set_basemesh_rig_arrays(&rig, &names(vec!["a", "b"]), &map, 3).unwrap();
    assert_eq!(quads.len(), 3);
    for q in &quads {
        let sum = q.w0 + q.w1 + q.w2 + q.w3;
        assert!(q.w0 >= 0 && q.w1 >= 0 && q.w2 >= 0 && q.w3 >= 0);
        assert!(sum >= SCALE - 3 && sum <= SCALE, "sum {}", sum);
    }
    // 0.3 and 0.1 renormalize to 0.75 and 0.25.
    assert_eq!((quads[0].b0, quads[0].w0), (0, 750_000));
    assert_eq!((quads[0].b1, quads[0].w1), (1, 250_000));
    // Both render vertices of canonical 1 get the same quad.
    assert_eq!(quads[1], quads[2]);
    assert_eq!((quads[1].w0, quads[1].w1), (750_000, 250_000));
}

#[test]
fn a_fifth_arrival_evicts_the_lowest_held_weight() {
    let map = vec![vec![0u16]];
    let rig = weights(vec![
        ("a", vec![(0, 500_000)]),
        ("b", vec![(0, 100_000)]),
        ("c", vec![(0, 300_000)]),
        ("d", vec![(0, 200_000)]),
        ("e", vec![(0, 400_000)]),
    ]);
    let quads =
        set_basemesh_rig_arrays(&rig, &names(vec!["a", "b", "c", "d", "e"]), &map, 1).unwrap();
    let q = quads[0];
    // Bone b held the lowest weight and was evicted for bone e.
    let held: Vec<(u16, i64)> = vec![(q.b0, q.w0), (q.b1, q.w1), (q.b2, q.w2), (q.b3, q.w3)];
    assert!(held.iter().all(|&(b, _)| b != 1));
    assert!(held.iter().any(|&(b, _)| b == 4));
    // Total before normalizing was 0.5+0.4+0.3+0.2 = 1.4.
    assert_eq!(q.b1, 4);
    assert_eq!(q.w0, 500_000 * SCALE / 1_400_000);
}

#[test]
fn a_render_vertex_with_no_weights_is_a_data_error() {
    // Render vertex 1 is mapped but no bone weighs its canonical vertex.
    let map = vec![vec![0u16], vec![1u16]];
    let rig = weights(vec![("a", vec![(0, 500_000)])]);
    match set_basemesh_rig_arrays(&rig, &names(vec!["a"]), &map, 2) {
        Err(DataConsistencyError::ZeroWeightVertex { vertex }) => assert_eq!(vertex, 1),
        other => panic!("expected a zero-weight failure, got {:?}", other),
    }
}

#[test]
fn asset_variant_keeps_the_true_top_four_by_magnitude() {
    // Incident weights A=0.8, B=0.3, C=0.1, D=0.05, E=0.02: the top four
    // {A, B, C, D} stay, renormalized to sum one; E is dropped.
    let rig = weights(vec![
        ("A", vec![(0, 800_000)]),
        ("B", vec![(0, 300_000)]),
        ("C", vec![(0, 100_000)]),
        ("D", vec![(0, 50_000)]),
        ("E", vec![(0, 20_000)]),
    ]);
    let bones = names(vec!["A", "B", "C", "D", "E"]);
    let map = vec![vec![0u16]];
    let quads =
        set_asset_rig_arrays(&rig, &bones, &vec![HelperMap::Single(0)], &map, 1).unwrap();
    let q = quads[0];
    // Total kept weight is 1.25; the shares are 0.64, 0.24, 0.08, 0.04.
    assert_eq!((q.b0, q.w0), (0, 640_000));
    assert_eq!((q.b1, q.w1), (1, 240_000));
    assert_eq!((q.b2, q.w2), (2, 80_000));
    assert_eq!((q.b3, q.w3), (3, 40_000));
    assert_eq!(q.w0 + q.w1 + q.w2 + q.w3, SCALE);
}

#[test]
fn triangulated_contributions_are_barycentric_and_summed_per_bone() {
    // One bone weighs two corners of the triangle: the contributions
    // are scaled by the corner weights and summed.
    let rig = weights(vec![("A", vec![(0, 600_000), (1, 200_000)])]);
    let tri = humentity::Triangle {
        v0: 0,
        v1: 1,
        v2: 2,
        w0: 500_000,
        w1: 500_000,
        w2: 0,
        offset: humentity::Vec3 { x: 0, y: 0, z: 0 },
    };
    let q = asset_vertex_quad(&rig, &names(vec!["A"]), HelperMap::Triangulated(tri));
    // 0.6*0.5 + 0.2*0.5 = 0.4 raw contribution for bone A.
    assert_eq!((q.b0, q.w0), (0, 400_000));
}

#[test]
fn an_asset_vertex_with_no_contributions_is_a_data_error() {
    let rig = weights(vec![("A", vec![(5, 500_000)])]);
    let map = vec![vec![0u16]];
    match set_asset_rig_arrays(&rig, &names(vec!["A"]), &vec![HelperMap::Single(0)], &map, 1) {
        Err(DataConsistencyError::ZeroWeightVertex { vertex }) => assert_eq!(vertex, 0),
        other => panic!("expected a zero-weight failure, got {:?}", other),
    }
}
