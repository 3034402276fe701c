//! Body-part and equipment assets, and their morph-driven fitting.
//!
//! An asset mesh is fitted to the body through a per-vertex helper
//! mapping: either one canonical vertex, or a triangle of three
//! canonical vertices with normalized weights and an offset that is
//! rescaled by the asset's per-axis calibration.  Fitting follows the
//! same additive blend contract as body baking, but for triangulated
//! vertices the delta is derived geometrically from the helper
//! positions rather than looked up in a table.

use vstd::prelude::*;
use crate::errors::ConfigError;
use crate::fixed::{
    div_scaled, gv_add, gv_in_range, gv_mul, gv_scaled, gv_sub, gv_within, iabs, scaled_div, GVec3,
    Vec3, MAG_LIMIT, SCALE,
};
use crate::morphs::{
    find_target, lemma_offset_of_absent, lemma_target_index_props, library_ids_below, library_wf,
    offset_of, target_index, target_wf, MorphTarget, MorphTargets,
};

verus! {

/// Bound on any intermediate fitted position.
pub const POS_LIMIT: i64 = 0x1000_0000_0000_0000;

/// Per-axis calibration: the canonical vertex pair whose distance is
/// measured, and the nominal length it is compared against.
#[derive(Debug, Clone, Copy, PartialEq, Eq, Structural)]
pub struct ScaleData {
    pub min: u16,
    pub max: u16,
    pub scale: i64,
}

/// Three canonical corners with normalized weights and an offset in
/// calibration units.
#[derive(Debug, Clone, Copy, PartialEq, Eq, Structural)]
pub struct Triangle {
    pub v0: u16,
    pub v1: u16,
    pub v2: u16,
    pub w0: i64,
    pub w1: i64,
    pub w2: i64,
    pub offset: Vec3,
}

/// How one asset vertex follows the helper mesh: a single canonical
/// vertex, or a triangle of three.
#[derive(Debug, Clone, Copy, PartialEq, Eq, Structural)]
pub enum HelperMap {
    Single(u16),
    Triangulated(Triangle),
}

/// A body-part or equipment mesh fitted to the body.
#[derive(Debug, Clone)]
pub struct HumanMeshAsset {
    pub name: String,
    pub obj_file: String,
    pub tags: Vec<String>,
    pub slots: Vec<String>,
    pub z_depth: i8,
    pub helper_maps: Vec<HelperMap>,
    pub vertex_map: Vec<Vec<u16>>,
    pub delete_verts: Vec<bool>,
    pub x_scale: ScaleData,
    pub y_scale: ScaleData,
    pub z_scale: ScaleData,
}

/// The calibration refers to helper vertices below `n` and a nonzero
/// nominal length.
pub open spec fn scale_wf(s: ScaleData, n: int) -> bool {
    &&& s.scale != 0
    &&& -MAG_LIMIT <= s.scale <= MAG_LIMIT
    &&& (s.min as int) < n
    &&& (s.max as int) < n
}

/// The helper mapping of one asset vertex refers to helper vertices
/// below `n`, with bounded weights and an in-range offset.
pub open spec fn helper_map_wf(h: HelperMap, n: int) -> bool {
    match h {
        HelperMap::Single(v) => (v as int) < n,
        HelperMap::Triangulated(t) => {
            &&& (t.v0 as int) < n
            &&& (t.v1 as int) < n
            &&& (t.v2 as int) < n
            &&& -MAG_LIMIT <= t.w0 <= MAG_LIMIT
            &&& -MAG_LIMIT <= t.w1 <= MAG_LIMIT
            &&& -MAG_LIMIT <= t.w2 <= MAG_LIMIT
            &&& gv_in_range(t.offset@)
        },
    }
}

/// Asset well-formedness against a helper mesh of `n` vertices.
pub open spec fn asset_wf(a: HumanMeshAsset, n: int) -> bool {
    &&& scale_wf(a.x_scale, n)
    &&& scale_wf(a.y_scale, n)
    &&& scale_wf(a.z_scale, n)
    &&& forall|i: int|
        0 <= i < a.helper_maps@.len() ==> helper_map_wf(#[trigger] a.helper_maps@[i], n)
}

/// The asset's per-axis offset calibration: the measured distance of
/// the reference vertex pair along each axis, divided by the nominal
/// length.
pub open spec fn offset_scale_of(a: HumanMeshAsset, helpers: Seq<Vec3>) -> GVec3 {
    GVec3 {
        x: scaled_div(
            helpers[a.x_scale.max as int]@.x - helpers[a.x_scale.min as int]@.x,
            a.x_scale.scale as int,
        ),
        y: scaled_div(
            helpers[a.y_scale.max as int]@.y - helpers[a.y_scale.min as int]@.y,
            a.y_scale.scale as int,
        ),
        z: scaled_div(
            helpers[a.z_scale.max as int]@.z - helpers[a.z_scale.min as int]@.z,
            a.z_scale.scale as int,
        ),
    }
}

impl HumanMeshAsset {
    /// Measures the per-axis calibration factor against the current
    /// helper positions.
    pub fn get_offset_scale(&self, helpers: &Vec<Vec3>) -> (r: Vec3)
        requires
            asset_wf(*self, helpers@.len() as int),
            forall|v: int| 0 <= v < helpers@.len() ==> gv_in_range((#[trigger] helpers@[v])@),
        ensures
            r@ == offset_scale_of(*self, helpers@),
    {
        Vec3 {
            x: div_scaled(
                helpers[self.x_scale.max as usize].x - helpers[self.x_scale.min as usize].x,
                self.x_scale.scale,
            ),
            y: div_scaled(
                helpers[self.y_scale.max as usize].y - helpers[self.y_scale.min as usize].y,
                self.y_scale.scale,
            ),
            z: div_scaled(
                helpers[self.z_scale.max as usize].z - helpers[self.z_scale.min as usize].z,
                self.z_scale.scale,
            ),
        }
    }
}

/// Where a triangulated asset vertex must sit for the current helper
/// positions: the weighted sum of its three corners plus the calibrated
/// offset.
pub open spec fn tri_target(t: Triangle, helpers: Seq<Vec3>, scale: GVec3) -> GVec3 {
    gv_add(
        gv_add(
            gv_scaled(helpers[t.v0 as int]@, t.w0 as int),
            gv_scaled(helpers[t.v1 as int]@, t.w1 as int),
        ),
        gv_add(gv_scaled(helpers[t.v2 as int]@, t.w2 as int), gv_mul(scale, t.offset@)),
    )
}

/// Computes the target position of a triangulated asset vertex.
pub fn triangle_target(t: &Triangle, helpers: &Vec<Vec3>, scale: Vec3) -> (r: Vec3)
    requires
        helper_map_wf(HelperMap::Triangulated(*t), helpers@.len() as int),
        forall|v: int| 0 <= v < helpers@.len() ==> gv_in_range((#[trigger] helpers@[v])@),
        gv_in_range(scale@),
    ensures
        r@ == tri_target(*t, helpers@, scale@),
        gv_within(r@, 0x1400_0000_0000),
{
    proof {
        lemma_term_bound(helpers@[t.v0 as int]@.x, t.w0 as int);
        lemma_term_bound(helpers@[t.v0 as int]@.y, t.w0 as int);
        lemma_term_bound(helpers@[t.v0 as int]@.z, t.w0 as int);
        lemma_term_bound(helpers@[t.v1 as int]@.x, t.w1 as int);
        lemma_term_bound(helpers@[t.v1 as int]@.y, t.w1 as int);
        lemma_term_bound(helpers@[t.v1 as int]@.z, t.w1 as int);
        lemma_term_bound(helpers@[t.v2 as int]@.x, t.w2 as int);
        lemma_term_bound(helpers@[t.v2 as int]@.y, t.w2 as int);
        lemma_term_bound(helpers@[t.v2 as int]@.z, t.w2 as int);
        lemma_term_bound(scale@.x, t.offset@.x);
        lemma_term_bound(scale@.y, t.offset@.y);
        lemma_term_bound(scale@.z, t.offset@.z);
    }
    let s0: Vec3 = helpers[t.v0 as usize].scale(t.w0);
    let s1: Vec3 = helpers[t.v1 as usize].scale(t.w1);
    let s2: Vec3 = helpers[t.v2 as usize].scale(t.w2);
    let so: Vec3 = scale.mul(t.offset);
    let left: Vec3 = s0.add(s1);
    let right: Vec3 = s2.add(so);
    left.add(right)
}

/// A rescaled product of two in-range scalars stays far below the
/// vector addition bound.
proof fn lemma_term_bound(a: int, b: int)
    requires
        iabs(a) <= MAG_LIMIT,
        iabs(b) <= MAG_LIMIT,
    ensures
        iabs(crate::fixed::scaled(a, b)) <= 0x500_0000_0000,
{
    crate::fixed::lemma_scaled_bound(a, b, MAG_LIMIT as int, MAG_LIMIT as int);
    assert((MAG_LIMIT as int) * (MAG_LIMIT as int) == 0x4000_0000_0000_0000) by (nonlinear_arith);
    assert(0x4000_0000_0000_0000int / (SCALE as int) <= 0x500_0000_0000);
}

/// One morph step of one asset vertex: a single-mapped vertex adds the
/// weight-scaled displacement of its canonical vertex; a triangulated
/// vertex moves toward its helper-derived target by the weight-scaled
/// remaining distance.
pub open spec fn fit_step(
    ts: Seq<MorphTarget>,
    hm: HelperMap,
    scale: GVec3,
    helpers: Seq<Vec3>,
    p: GVec3,
    name: Seq<char>,
    w: int,
) -> GVec3 {
    let ti = target_index(ts, name);
    match hm {
        HelperMap::Single(v) => gv_add(p, gv_scaled(offset_of(ts[ti].offsets@, v as int), w)),
        HelperMap::Triangulated(t) => gv_add(
            p,
            gv_scaled(gv_sub(tri_target(t, helpers, scale), p), w),
        ),
    }
}

/// Position of one asset vertex after the whole weight list, applied in
/// order, starting from its authored position.
pub open spec fn fit_after(
    ts: Seq<MorphTarget>,
    keys: Seq<(String, i64)>,
    hm: HelperMap,
    scale: GVec3,
    helpers: Seq<Vec3>,
    p0: GVec3,
) -> GVec3
    decreases keys.len(),
{
    if keys.len() == 0 {
        p0
    } else {
        fit_step(
            ts,
            hm,
            scale,
            helpers,
            fit_after(ts, keys.drop_last(), hm, scale, helpers, p0),
            keys.last().0@,
            keys.last().1 as int,
        )
    }
}

/// Every intermediate position of the fold stays in machine range, and
/// for a triangulated vertex the remaining distance to the target stays
/// within the scaling bound.
pub open spec fn fit_steps_ok(
    ts: Seq<MorphTarget>,
    keys: Seq<(String, i64)>,
    hm: HelperMap,
    scale: GVec3,
    helpers: Seq<Vec3>,
    p0: GVec3,
) -> bool
    decreases keys.len(),
{
    if keys.len() == 0 {
        gv_within(p0, POS_LIMIT as int)
    } else {
        let p = fit_after(ts, keys.drop_last(), hm, scale, helpers, p0);
        &&& fit_steps_ok(ts, keys.drop_last(), hm, scale, helpers, p0)
        &&& gv_within(fit_after(ts, keys, hm, scale, helpers, p0), POS_LIMIT as int)
        &&& (hm matches HelperMap::Triangulated(t)
            ==> gv_within(gv_sub(tri_target(t, helpers, scale), p), MAG_LIMIT as int))
    }
}

/// A well-behaved fold is well-behaved on every prefix.
pub proof fn lemma_fit_steps_ok_prefix(
    ts: Seq<MorphTarget>,
    keys: Seq<(String, i64)>,
    hm: HelperMap,
    scale: GVec3,
    helpers: Seq<Vec3>,
    p0: GVec3,
    w: int,
)
    requires
        fit_steps_ok(ts, keys, hm, scale, helpers, p0),
        0 <= w <= keys.len(),
    ensures
        fit_steps_ok(ts, keys.take(w), hm, scale, helpers, p0),
        gv_within(fit_after(ts, keys.take(w), hm, scale, helpers, p0), POS_LIMIT as int),
    decreases keys.len() - w,
{
    if w == keys.len() {
        assert(keys.take(w) =~= keys);
        if keys.len() == 0 {
        }
    } else {
        lemma_fit_steps_ok_prefix(ts, keys, hm, scale, helpers, p0, w + 1);
        let pre = keys.take(w + 1);
        assert(pre.drop_last() =~= keys.take(w));
        assert(fit_steps_ok(ts, pre, hm, scale, helpers, p0));
        if w == 0 {
            assert(fit_steps_ok(ts, keys.take(0), hm, scale, helpers, p0));
            assert(fit_after(ts, keys.take(0), hm, scale, helpers, p0) == p0);
        }
    }
}

/// Fits an asset mesh to the current helper positions under the active
/// morph weights.  Render vertices that the asset's vertex map lists
/// end at the position the fold of `fit_step` assigns them; unmapped
/// render vertices keep their authored position.  A weight whose name
/// the library does not hold fails with `MissingMorph` (the first such
/// name).
#[verifier::rlimit(100)]
pub fn bake_asset_morphs(
    shapekeys: &Vec<(String, i64)>,
    targets: &MorphTargets,
    helpers: &Vec<Vec3>,
    asset: &HumanMeshAsset,
    base_positions: &Vec<Vec3>,
) -> (r: Result<Vec<Vec3>, ConfigError>)
    requires
        library_wf(*targets),
        library_ids_below(*targets, helpers@.len() as int),
        asset_wf(*asset, helpers@.len() as int),
        forall|v: int| 0 <= v < helpers@.len() ==> gv_in_range((#[trigger] helpers@[v])@),
        gv_in_range(offset_scale_of(*asset, helpers@)),
        asset.helper_maps@.len() == asset.vertex_map@.len(),
        crate::correspondence::entries_within(asset.vertex_map@, base_positions@.len() as int),
        crate::correspondence::entries_disjoint(asset.vertex_map@),
        forall|w: int|
            0 <= w < shapekeys@.len()
                ==> -MAG_LIMIT <= (#[trigger] shapekeys@[w]).1 <= MAG_LIMIT,
        forall|a: int, k: int|
            0 <= a < asset.vertex_map@.len() && 0 <= k < asset.vertex_map@[a]@.len()
                ==> fit_steps_ok(
                    targets.targets@,
                    shapekeys@,
                    asset.helper_maps@[a],
                    offset_scale_of(*asset, helpers@),
                    helpers@,
                    (base_positions@[#[trigger] asset.vertex_map@[a]@[k] as int])@,
                ),
    ensures
        (r matches Ok(out) ==> {
            &&& out@.len() == base_positions@.len()
            &&& forall|a: int, k: int|
                0 <= a < asset.vertex_map@.len() && 0 <= k < asset.vertex_map@[a]@.len()
                    ==> (out@[#[trigger] asset.vertex_map@[a]@[k] as int])@ == fit_after(
                        targets.targets@,
                        shapekeys@,
                        asset.helper_maps@[a],
                        offset_scale_of(*asset, helpers@),
                        helpers@,
                        (base_positions@[asset.vertex_map@[a]@[k] as int])@,
                    )
            &&& forall|j: int|
                0 <= j < out@.len() && !crate::correspondence::listed(asset.vertex_map@, j)
                    ==> out@[j] == base_positions@[j]
            &&& forall|w: int|
                0 <= w < shapekeys@.len()
                    ==> target_index(targets.targets@, (#[trigger] shapekeys@[w]).0@) != -1
        }),
        (r matches Err(e) ==> {
            &&& e matches ConfigError::MissingMorph { name: n }
            &&& exists|w: int|
                0 <= w < shapekeys@.len()
                    && target_index(targets.targets@, (#[trigger] shapekeys@[w]).0@) == -1
                    && (e matches ConfigError::MissingMorph { name: n2 } && n2@ == shapekeys@[w].0@)
        }),
{
    let ghost ts = targets.targets@;
    let ghost keys = shapekeys@;
    let ghost vm = asset.vertex_map@;
    let ghost hms = asset.helper_maps@;
    let ghost bs = base_positions@;
    let ghost gscale = offset_scale_of(*asset, helpers@);

    let scale: Vec3 = asset.get_offset_scale(helpers);
    let n: usize = base_positions.len();
    let na: usize = asset.vertex_map.len();

    let mut positions: Vec<Vec3> = Vec::new();
    let mut v0: usize = 0;
    while v0 < n
        invariant
            bs == base_positions@,
            n == bs.len(),
            v0 <= n,
            positions@.len() == v0,
            forall|v: int| 0 <= v < v0 ==> #[trigger] positions@[v] == bs[v],
        decreases n - v0,
    {
        positions.push(base_positions[v0]);
        v0 += 1;
    }

    let nw: usize = shapekeys.len();
    let mut w: usize = 0;
    while w < nw
        invariant
            ts == targets.targets@,
            keys == shapekeys@,
            vm == asset.vertex_map@,
            hms == asset.helper_maps@,
            bs == base_positions@,
            gscale == offset_scale_of(*asset, helpers@),
            scale@ == gscale,
            n == bs.len(),
            nw == keys.len(),
            na == vm.len(),
            hms.len() == na,
            library_wf(*targets),
            library_ids_below(*targets, helpers@.len() as int),
            asset_wf(*asset, helpers@.len() as int),
            forall|v: int| 0 <= v < helpers@.len() ==> gv_in_range((#[trigger] helpers@[v])@),
            gv_in_range(gscale),
            crate::correspondence::entries_within(vm, n as int),
            crate::correspondence::entries_disjoint(vm),
            forall|w2: int| 0 <= w2 < nw ==> -MAG_LIMIT <= (#[trigger] keys[w2]).1 <= MAG_LIMIT,
            forall|a: int, k: int|
                0 <= a < na && 0 <= k < vm[a]@.len()
                    ==> fit_steps_ok(
                        ts,
                        keys,
                        hms[a],
                        gscale,
                        helpers@,
                        (bs[#[trigger] vm[a]@[k] as int])@,
                    ),
            w <= nw,
            positions@.len() == n,
            forall|w2: int| 0 <= w2 < w ==> target_index(ts, (#[trigger] keys[w2]).0@) != -1,
            forall|a: int, k: int|
                0 <= a < na && 0 <= k < vm[a]@.len()
                    ==> (positions@[#[trigger] vm[a]@[k] as int])@ == fit_after(
                        ts,
                        keys.take(w as int),
                        hms[a],
                        gscale,
                        helpers@,
                        (bs[vm[a]@[k] as int])@,
                    ),
            forall|j: int|
                0 <= j < n && !crate::correspondence::listed(vm, j)
                    ==> positions@[j] == bs[j],
        decreases nw - w,
    {
        let name: &String = &shapekeys[w].0;
        let weight: i64 = shapekeys[w].1;
        let m: usize = match find_target(targets, name) {
            Some(idx) => idx,
            None => {
                proof {
                    assert(target_index(ts, keys[w as int].0@) == -1);
                }
                return Err(ConfigError::MissingMorph { name: name.clone() });
            },
        };
        proof {
            lemma_target_index_props(ts, name@);
        }
        let ghost ti = target_index(ts, name@);

        let mut a: usize = 0;
        while a < na
            invariant
                ts == targets.targets@,
                keys == shapekeys@,
                vm == asset.vertex_map@,
                hms == asset.helper_maps@,
                bs == base_positions@,
                gscale == offset_scale_of(*asset, helpers@),
                scale@ == gscale,
                n == bs.len(),
                nw == keys.len(),
                na == vm.len(),
                hms.len() == na,
                library_wf(*targets),
                library_ids_below(*targets, helpers@.len() as int),
                asset_wf(*asset, helpers@.len() as int),
                forall|v: int| 0 <= v < helpers@.len() ==> gv_in_range((#[trigger] helpers@[v])@),
                gv_in_range(gscale),
                crate::correspondence::entries_within(vm, n as int),
                crate::correspondence::entries_disjoint(vm),
                forall|w2: int|
                    0 <= w2 < nw ==> -MAG_LIMIT <= (#[trigger] keys[w2]).1 <= MAG_LIMIT,
                forall|a2: int, k: int|
                    0 <= a2 < na && 0 <= k < vm[a2]@.len()
                        ==> fit_steps_ok(
                            ts,
                            keys,
                            hms[a2],
                            gscale,
                            helpers@,
                            (bs[#[trigger] vm[a2]@[k] as int])@,
                        ),
                w < nw,
                weight == keys[w as int].1,
                name@ == keys[w as int].0@,
                ti == target_index(ts, keys[w as int].0@),
                0 <= ti < ts.len(),
                ti == m as int,
                ts[ti].name@ == name@,
                a <= na,
                positions@.len() == n,
                forall|a2: int, k: int|
                    0 <= a2 < a && 0 <= k < vm[a2]@.len()
                        ==> (positions@[#[trigger] vm[a2]@[k] as int])@ == fit_after(
                            ts,
                            keys.take(w as int + 1),
                            hms[a2],
                            gscale,
                            helpers@,
                            (bs[vm[a2]@[k] as int])@,
                        ),
                forall|a2: int, k: int|
                    a <= a2 < na && 0 <= k < vm[a2]@.len()
                        ==> (positions@[#[trigger] vm[a2]@[k] as int])@ == fit_after(
                            ts,
                            keys.take(w as int),
                            hms[a2],
                            gscale,
                            helpers@,
                            (bs[vm[a2]@[k] as int])@,
                        ),
                forall|j: int|
                    0 <= j < n && !crate::correspondence::listed(vm, j)
                        ==> positions@[j] == bs[j],
            decreases na - a,
        {
            proof {
                assert(keys.take(w as int + 1).drop_last() =~= keys.take(w as int));
                assert(keys.take(w as int + 1).last() == keys[w as int]);
            }
            let row_len: usize = asset.vertex_map[a].len();
            match asset.helper_maps[a] {
                HelperMap::Single(sv) => {
                    let off: Vec3 = target_offset(&targets.targets[m], sv);
                    let mut k: usize = 0;
                    while k < row_len
                        invariant
                            ts == targets.targets@,
                            keys == shapekeys@,
                            vm == asset.vertex_map@,
                            hms == asset.helper_maps@,
                            bs == base_positions@,
                            gscale == offset_scale_of(*asset, helpers@),
                            n == bs.len(),
                            na == vm.len(),
                            hms.len() == na,
                            w < keys.len(),
                            a < na,
                            hms[a as int] == HelperMap::Single(sv),
                            row_len == vm[a as int]@.len(),
                            crate::correspondence::entries_within(vm, n as int),
                            crate::correspondence::entries_disjoint(vm),
                            weight == keys[w as int].1,
                            -MAG_LIMIT <= weight <= MAG_LIMIT,
                            ti == target_index(ts, keys[w as int].0@),
                            0 <= ti < ts.len(),
                            off@ == offset_of(ts[ti].offsets@, sv as int),
                            gv_in_range(off@),
                            forall|a2: int, k2: int|
                                0 <= a2 < na && 0 <= k2 < vm[a2]@.len()
                                    ==> fit_steps_ok(
                                        ts,
                                        keys,
                                        hms[a2],
                                        gscale,
                                        helpers@,
                                        (bs[#[trigger] vm[a2]@[k2] as int])@,
                                    ),
                            k <= row_len,
                            positions@.len() == n,
                            forall|a2: int, k2: int|
                                0 <= a2 < a && 0 <= k2 < vm[a2]@.len()
                                    ==> (positions@[#[trigger] vm[a2]@[k2] as int])@ == fit_after(
                                        ts,
                                        keys.take(w as int + 1),
                                        hms[a2],
                                        gscale,
                                        helpers@,
                                        (bs[vm[a2]@[k2] as int])@,
                                    ),
                            forall|k2: int|
                                0 <= k2 < k
                                    ==> (positions@[#[trigger] vm[a as int]@[k2] as int])@
                                        == fit_after(
                                        ts,
                                        keys.take(w as int + 1),
                                        hms[a as int],
                                        gscale,
                                        helpers@,
                                        (bs[vm[a as int]@[k2] as int])@,
                                    ),
                            forall|a2: int, k2: int|
                                a < a2 < na && 0 <= k2 < vm[a2]@.len()
                                    ==> (positions@[#[trigger] vm[a2]@[k2] as int])@ == fit_after(
                                        ts,
                                        keys.take(w as int),
                                        hms[a2],
                                        gscale,
                                        helpers@,
                                        (bs[vm[a2]@[k2] as int])@,
                                    ),
                            forall|k2: int|
                                k <= k2 < row_len
                                    ==> (positions@[#[trigger] vm[a as int]@[k2] as int])@
                                        == fit_after(
                                        ts,
                                        keys.take(w as int),
                                        hms[a as int],
                                        gscale,
                                        helpers@,
                                        (bs[vm[a as int]@[k2] as int])@,
                                    ),
                            forall|j: int|
                                0 <= j < n && !crate::correspondence::listed(vm, j)
                                    ==> positions@[j] == bs[j],
                        decreases row_len - k,
                    {
                        let vtx: u16 = asset.vertex_map[a][k];
                        proof {
                            assert(keys.take(w as int + 1).drop_last() =~= keys.take(w as int));
                            assert(keys.take(w as int + 1).last() == keys[w as int]);
                            lemma_fit_steps_ok_prefix(
                                ts,
                                keys,
                                hms[a as int],
                                gscale,
                                helpers@,
                                (bs[vtx as int])@,
                                w as int,
                            );
                            lemma_fit_steps_ok_prefix(
                                ts,
                                keys,
                                hms[a as int],
                                gscale,
                                helpers@,
                                (bs[vtx as int])@,
                                w as int + 1,
                            );
                            crate::fixed::lemma_scaled_bound(
                                off@.x,
                                weight as int,
                                MAG_LIMIT as int,
                                MAG_LIMIT as int,
                            );
                            crate::fixed::lemma_scaled_bound(
                                off@.y,
                                weight as int,
                                MAG_LIMIT as int,
                                MAG_LIMIT as int,
                            );
                            crate::fixed::lemma_scaled_bound(
                                off@.z,
                                weight as int,
                                MAG_LIMIT as int,
                                MAG_LIMIT as int,
                            );
                            assert((MAG_LIMIT as int) * (MAG_LIMIT as int)
                                == 0x4000_0000_0000_0000) by (nonlinear_arith);
                        }
                        let p: Vec3 = positions[vtx as usize];
                        let moved: Vec3 = p.add(off.scale(weight));
                        positions[vtx as usize] = moved;
                        k += 1;
                    }
                },
                HelperMap::Triangulated(t) => {
                    let tgt: Vec3 = triangle_target(&t, helpers, scale);
                    let mut k: usize = 0;
                    while k < row_len
                        invariant
                            ts == targets.targets@,
                            keys == shapekeys@,
                            vm == asset.vertex_map@,
                            hms == asset.helper_maps@,
                            bs == base_positions@,
                            gscale == offset_scale_of(*asset, helpers@),
                            n == bs.len(),
                            na == vm.len(),
                            hms.len() == na,
                            w < keys.len(),
                            a < na,
                            hms[a as int] == HelperMap::Triangulated(t),
                            row_len == vm[a as int]@.len(),
                            crate::correspondence::entries_within(vm, n as int),
                            crate::correspondence::entries_disjoint(vm),
                            weight == keys[w as int].1,
                            -MAG_LIMIT <= weight <= MAG_LIMIT,
                            ti == target_index(ts, keys[w as int].0@),
                            tgt@ == tri_target(t, helpers@, gscale),
                            gv_within(tgt@, 0x1400_0000_0000),
                            forall|a2: int, k2: int|
                                0 <= a2 < na && 0 <= k2 < vm[a2]@.len()
                                    ==> fit_steps_ok(
                                        ts,
                                        keys,
                                        hms[a2],
                                        gscale,
                                        helpers@,
                                        (bs[#[trigger] vm[a2]@[k2] as int])@,
                                    ),
                            k <= row_len,
                            positions@.len() == n,
                            forall|a2: int, k2: int|
                                0 <= a2 < a && 0 <= k2 < vm[a2]@.len()
                                    ==> (positions@[#[trigger] vm[a2]@[k2] as int])@ == fit_after(
                                        ts,
                                        keys.take(w as int + 1),
                                        hms[a2],
                                        gscale,
                                        helpers@,
                                        (bs[vm[a2]@[k2] as int])@,
                                    ),
                            forall|k2: int|
                                0 <= k2 < k
                                    ==> (positions@[#[trigger] vm[a as int]@[k2] as int])@
                                        == fit_after(
                                        ts,
                                        keys.take(w as int + 1),
                                        hms[a as int],
                                        gscale,
                                        helpers@,
                                        (bs[vm[a as int]@[k2] as int])@,
                                    ),
                            forall|a2: int, k2: int|
                                a < a2 < na && 0 <= k2 < vm[a2]@.len()
                                    ==> (positions@[#[trigger] vm[a2]@[k2] as int])@ == fit_after(
                                        ts,
                                        keys.take(w as int),
                                        hms[a2],
                                        gscale,
                                        helpers@,
                                        (bs[vm[a2]@[k2] as int])@,
                                    ),
                            forall|k2: int|
                                k <= k2 < row_len
                                    ==> (positions@[#[trigger] vm[a as int]@[k2] as int])@
                                        == fit_after(
                                        ts,
                                        keys.take(w as int),
                                        hms[a as int],
                                        gscale,
                                        helpers@,
                                        (bs[vm[a as int]@[k2] as int])@,
                                    ),
                            forall|j: int|
                                0 <= j < n && !crate::correspondence::listed(vm, j)
                                    ==> positions@[j] == bs[j],
                        decreases row_len - k,
                    {
                        let vtx: u16 = asset.vertex_map[a][k];
                        proof {
                            assert(keys.take(w as int + 1).drop_last() =~= keys.take(w as int));
                            assert(keys.take(w as int + 1).last() == keys[w as int]);
                            lemma_fit_steps_ok_prefix(
                                ts,
                                keys,
                                hms[a as int],
                                gscale,
                                helpers@,
                                (bs[vtx as int])@,
                                w as int,
                            );
                            lemma_fit_steps_ok_prefix(
                                ts,
                                keys,
                                hms[a as int],
                                gscale,
                                helpers@,
                                (bs[vtx as int])@,
                                w as int + 1,
                            );
                            assert(fit_steps_ok(
                                ts,
                                keys.take(w as int + 1),
                                hms[a as int],
                                gscale,
                                helpers@,
                                (bs[vtx as int])@,
                            ));
                            crate::fixed::lemma_scaled_bound(
                                tri_target(t, helpers@, gscale).x - (positions@[vtx as int])@.x,
                                weight as int,
                                MAG_LIMIT as int,
                                MAG_LIMIT as int,
                            );
                            crate::fixed::lemma_scaled_bound(
                                tri_target(t, helpers@, gscale).y - (positions@[vtx as int])@.y,
                                weight as int,
                                MAG_LIMIT as int,
                                MAG_LIMIT as int,
                            );
                            crate::fixed::lemma_scaled_bound(
                                tri_target(t, helpers@, gscale).z - (positions@[vtx as int])@.z,
                                weight as int,
                                MAG_LIMIT as int,
                                MAG_LIMIT as int,
                            );
                            assert((MAG_LIMIT as int) * (MAG_LIMIT as int)
                                == 0x4000_0000_0000_0000) by (nonlinear_arith);
                        }
                        let p: Vec3 = positions[vtx as usize];
                        let delta: Vec3 = tgt.sub(p);
                        let moved: Vec3 = p.add(delta.scale(weight));
                        positions[vtx as usize] = moved;
                        k += 1;
                    }
                },
            }
            a += 1;
        }
        w += 1;
    }
    proof {
        assert(keys.take(nw as int) =~= keys);
    }
    Ok(positions)
}

/// Looks up the displacement a morph target assigns to one canonical
/// vertex (zero when the sparse field does not list it).
fn target_offset(t: &MorphTarget, v: u16) -> (r: Vec3)
    requires
        target_wf(*t),
    ensures
        r@ == offset_of(t.offsets@, v as int),
        gv_in_range(r@),
{
    let ghost entries = t.offsets@;
    let ne: usize = t.offsets.len();
    let mut acc: Vec3 = Vec3::zero();
    let mut k: usize = 0;
    while k < ne
        invariant
            entries == t.offsets@,
            ne == entries.len(),
            target_wf(*t),
            k <= ne,
            acc@ == offset_of(entries.take(k as int), v as int),
            gv_in_range(acc@),
        decreases ne - k,
    {
        proof {
            assert(entries.take(k as int + 1).drop_last() =~= entries.take(k as int));
            assert(entries.take(k as int + 1).last() == entries[k as int]);
        }
        let pair: (u16, Vec3) = t.offsets[k];
        if pair.0 == v {
            proof {
                assert(forall|k2: int|
                    0 <= k2 < k
                        ==> ((#[trigger] entries.take(k as int)[k2]).0 as int) != v as int);
                lemma_offset_of_absent(entries.take(k as int), v as int);
            }
            acc = acc.add(pair.1);
        }
        k += 1;
    }
    proof {
        assert(entries.take(ne as int) =~= entries);
    }
    acc
}

} // verus!
