//! Morph targets and blending.
//!
//! A morph target is a named sparse displacement field over canonical
//! vertices.  Blending adds, for every active weight in turn, the
//! weight-scaled displacement of each listed vertex; vertices a target
//! does not list keep their position.  Blending is a pure weighted sum,
//! so applying two morphs is independent of their order.

use vstd::prelude::*;
use crate::errors::ConfigError;
use crate::fixed::{
    gv_add, gv_in_range, gv_scaled, gv_within, gv_zero, scaled, GVec3, Vec3, MAG_LIMIT, SCALE,
};

verus! {

/// A named sparse displacement field over canonical vertices, with the
/// displacements already scaled to world units.
#[derive(Debug, Clone)]
pub struct MorphTarget {
    pub name: String,
    pub offsets: Vec<(u16, Vec3)>,
}

/// The shared, read-only library of morph targets.
#[derive(Debug, Clone)]
pub struct MorphTargets {
    pub targets: Vec<MorphTarget>,
}

/// Well-formed target: every displacement is in range and every
/// canonical vertex is listed at most once.
pub open spec fn target_wf(t: MorphTarget) -> bool {
    &&& forall|k: int|
        0 <= k < t.offsets@.len() ==> gv_in_range((#[trigger] t.offsets@[k]).1@)
    &&& forall|k1: int, k2: int|
        0 <= k1 < k2 < t.offsets@.len()
            ==> (#[trigger] t.offsets@[k1]).0 != (#[trigger] t.offsets@[k2]).0
}

/// Well-formed library: every target is well-formed.
pub open spec fn library_wf(lib: MorphTargets) -> bool {
    forall|m: int| 0 <= m < lib.targets@.len() ==> target_wf(#[trigger] lib.targets@[m])
}

/// Every vertex id a target lists stays below `n`.
pub open spec fn target_ids_below(t: MorphTarget, n: int) -> bool {
    forall|k: int| 0 <= k < t.offsets@.len() ==> ((#[trigger] t.offsets@[k]).0 as int) < n
}

/// Every vertex id any target of the library lists stays below `n`.
pub open spec fn library_ids_below(lib: MorphTargets, n: int) -> bool {
    forall|m: int| 0 <= m < lib.targets@.len() ==> target_ids_below(#[trigger] lib.targets@[m], n)
}

/// Position of the first target with this name, or -1 when the library
/// holds none.
pub open spec fn target_index(ts: Seq<MorphTarget>, name: Seq<char>) -> int
    decreases ts.len(),
{
    if ts.len() == 0 {
        -1
    } else if ts[0].name@ == name {
        0
    } else {
        let rest = target_index(ts.subrange(1, ts.len() as int), name);
        if rest == -1 {
            -1
        } else {
            rest + 1
        }
    }
}

/// `target_index` finds the first match, and -1 means no match at all.
pub proof fn lemma_target_index_props(ts: Seq<MorphTarget>, name: Seq<char>)
    ensures
        target_index(ts, name) == -1 ==> forall|m: int|
            0 <= m < ts.len() ==> (#[trigger] ts[m]).name@ != name,
        target_index(ts, name) != -1 ==> {
            &&& 0 <= target_index(ts, name) < ts.len()
            &&& ts[target_index(ts, name)].name@ == name
            &&& forall|m: int|
                0 <= m < target_index(ts, name) ==> (#[trigger] ts[m]).name@ != name
        },
    decreases ts.len(),
{
    if ts.len() > 0 {
        let rest = ts.subrange(1, ts.len() as int);
        lemma_target_index_props(rest, name);
        assert(forall|m: int| 0 <= m < rest.len() ==> #[trigger] rest[m] == ts[m + 1]);
        let ti = target_index(ts, name);
        if ts[0].name@ == name {
        } else {
            let rti = target_index(rest, name);
            if rti == -1 {
                assert forall|m: int| 0 <= m < ts.len() implies (#[trigger] ts[m]).name@
                    != name by {
                    if m > 0 {
                        assert(rest[m - 1] == ts[m]);
                    }
                }
            } else {
                assert(ti == rti + 1);
                assert(ts[ti] == rest[rti]);
                assert forall|m: int| 0 <= m < ti implies (#[trigger] ts[m]).name@ != name by {
                    if m > 0 {
                        assert(rest[m - 1] == ts[m]);
                    }
                }
            }
        }
    }
}

/// Finds the first target with this name, if the library holds one.
pub fn find_target(targets: &MorphTargets, name: &String) -> (r: Option<usize>)
    ensures
        (r matches Some(m) ==> target_index(targets.targets@, name@) == m as int),
        (r is None ==> target_index(targets.targets@, name@) == -1),
{
    let ghost ts = targets.targets@;
    let tn: usize = targets.targets.len();
    let mut scan: usize = 0;
    let mut found: bool = false;
    let mut m: usize = 0;
    while scan < tn
        invariant
            ts == targets.targets@,
            tn == ts.len(),
            scan <= tn,
            !found ==> forall|m2: int| 0 <= m2 < scan ==> (#[trigger] ts[m2]).name@ != name@,
            found ==> {
                &&& m < scan
                &&& ts[m as int].name@ == name@
                &&& forall|m2: int| 0 <= m2 < m ==> (#[trigger] ts[m2]).name@ != name@
            },
        decreases tn - scan,
    {
        if !found && targets.targets[scan].name == *name {
            found = true;
            m = scan;
        }
        scan += 1;
    }
    proof {
        lemma_target_index_props(ts, name@);
    }
    if found {
        Some(m)
    } else {
        None
    }
}

/// Displacement a sparse field assigns to canonical vertex `v`: the sum
/// of the entries listed for `v`, zero when none is.
pub open spec fn offset_of(entries: Seq<(u16, Vec3)>, v: int) -> GVec3
    decreases entries.len(),
{
    if entries.len() == 0 {
        gv_zero()
    } else {
        let rest = offset_of(entries.drop_last(), v);
        if entries.last().0 == v {
            gv_add(rest, entries.last().1@)
        } else {
            rest
        }
    }
}

/// A field that never lists `v` leaves it alone.
pub proof fn lemma_offset_of_absent(entries: Seq<(u16, Vec3)>, v: int)
    requires
        forall|k: int| 0 <= k < entries.len() ==> ((#[trigger] entries[k]).0 as int) != v,
    ensures
        offset_of(entries, v) == gv_zero(),
    decreases entries.len(),
{
    if entries.len() > 0 {
        assert(forall|k: int|
            0 <= k < entries.drop_last().len()
                ==> #[trigger] entries.drop_last()[k] == entries[k]);
        lemma_offset_of_absent(entries.drop_last(), v);
    }
}

/// Total blended displacement of canonical vertex `v`: the sum, over the
/// weights in order, of the weight-scaled displacement that the named
/// target assigns to `v`.
pub open spec fn blend_delta(ts: Seq<MorphTarget>, weights: Seq<(String, i64)>, v: int) -> GVec3
    decreases weights.len(),
{
    if weights.len() == 0 {
        gv_zero()
    } else {
        let rest = blend_delta(ts, weights.drop_last(), v);
        let ti = target_index(ts, weights.last().0@);
        gv_add(rest, gv_scaled(offset_of(ts[ti].offsets@, v), weights.last().1 as int))
    }
}

/// Law: an empty active-weight set displaces nothing.
pub proof fn lemma_blend_empty(ts: Seq<MorphTarget>, v: int)
    ensures
        blend_delta(ts, Seq::empty(), v) == gv_zero(),
{
}

/// Law: weights that are all zero displace nothing, whatever their
/// names resolve to.
pub proof fn lemma_blend_all_zero(ts: Seq<MorphTarget>, weights: Seq<(String, i64)>, v: int)
    requires
        forall|w: int| 0 <= w < weights.len() ==> (#[trigger] weights[w]).1 == 0,
    ensures
        blend_delta(ts, weights, v) == gv_zero(),
    decreases weights.len(),
{
    if weights.len() > 0 {
        assert(forall|w: int|
            0 <= w < weights.drop_last().len()
                ==> #[trigger] weights.drop_last()[w] == weights[w]);
        lemma_blend_all_zero(ts, weights.drop_last(), v);
        let ti = target_index(ts, weights.last().0@);
        let o = offset_of(ts[ti].offsets@, v);
        crate::fixed::lemma_scaled_zero(o.x);
        crate::fixed::lemma_scaled_zero(o.y);
        crate::fixed::lemma_scaled_zero(o.z);
    }
}

/// Law: blending two weighted morphs is independent of the order in
/// which they are applied.
pub proof fn lemma_blend_order_independent(
    ts: Seq<MorphTarget>,
    a: (String, i64),
    b: (String, i64),
    v: int,
)
    ensures
        blend_delta(ts, seq![a, b], v) == blend_delta(ts, seq![b, a], v),
{
    let ab = seq![a, b];
    let ba = seq![b, a];
    let ta = gv_scaled(offset_of(ts[target_index(ts, a.0@)].offsets@, v), a.1 as int);
    let tb = gv_scaled(offset_of(ts[target_index(ts, b.0@)].offsets@, v), b.1 as int);
    assert(ab.drop_last() =~= seq![a]);
    assert(ba.drop_last() =~= seq![b]);
    assert(seq![a].drop_last() =~= Seq::<(String, i64)>::empty());
    assert(seq![b].drop_last() =~= Seq::<(String, i64)>::empty());
    assert(ab.last() == b && ba.last() == a);
    assert(seq![a].last() == a && seq![b].last() == b);
    assert(blend_delta(ts, Seq::<(String, i64)>::empty(), v) == gv_zero());
    assert(blend_delta(ts, seq![a], v) == gv_add(gv_zero(), ta));
    assert(blend_delta(ts, seq![b], v) == gv_add(gv_zero(), tb));
    assert(blend_delta(ts, ab, v) == gv_add(gv_add(gv_zero(), ta), tb));
    assert(blend_delta(ts, ba, v) == gv_add(gv_add(gv_zero(), tb), ta));
}

/// Blends the active morph weights into the canonical base positions:
/// helper `v` becomes `base[v]` plus the blended displacement of `v`.
/// A weight whose name the library does not hold is an authoring bug
/// and fails with `MissingMorph` (the first such name); nothing is
/// blended silently.  The weight count is capped so that no partial sum
/// can leave the machine range.
pub fn adjust_helpers_to_morphs(
    shapekeys: &Vec<(String, i64)>,
    targets: &MorphTargets,
    base: &Vec<Vec3>,
) -> (r: Result<Vec<Vec3>, ConfigError>)
    requires
        library_wf(*targets),
        library_ids_below(*targets, base@.len() as int),
        forall|v: int| 0 <= v < base@.len() ==> gv_in_range((#[trigger] base@[v])@),
        forall|w: int|
            0 <= w < shapekeys@.len()
                ==> -MAG_LIMIT <= (#[trigger] shapekeys@[w]).1 <= MAG_LIMIT,
        shapekeys@.len() <= 1024,
    ensures
        (r matches Ok(h) ==> {
            &&& h@.len() == base@.len()
            &&& forall|v: int|
                0 <= v < base@.len()
                    ==> (#[trigger] h@[v])@ == gv_add(
                        base@[v]@,
                        blend_delta(targets.targets@, shapekeys@, v),
                    )
            &&& forall|w: int|
                0 <= w < shapekeys@.len()
                    ==> target_index(targets.targets@, (#[trigger] shapekeys@[w]).0@) != -1
        }),
        (r matches Err(e) ==> {
            &&& e matches ConfigError::MissingMorph { name: n }
            &&& exists|w: int|
                0 <= w < shapekeys@.len()
                    && target_index(targets.targets@, (#[trigger] shapekeys@[w]).0@) == -1
                    && (e matches ConfigError::MissingMorph { name: n2 } && n2@ == shapekeys@[w].0@)
        }),
{
    let ghost ts = targets.targets@;
    let ghost keys = shapekeys@;
    let ghost bs = base@;
    let ghost term_max = (MAG_LIMIT as int) * (MAG_LIMIT as int) / (SCALE as int);
    proof {
        assert((MAG_LIMIT as int) * (MAG_LIMIT as int) == 0x4000_0000_0000_0000) by (nonlinear_arith);
        assert(term_max == 4611686018427);
    }

    let n: usize = base.len();
    let mut helpers: Vec<Vec3> = Vec::new();
    let mut v0: usize = 0;
    while v0 < n
        invariant
            bs == base@,
            n == bs.len(),
            v0 <= n,
            helpers@.len() == v0,
            forall|v: int| 0 <= v < v0 ==> #[trigger] helpers@[v] == bs[v],
        decreases n - v0,
    {
        helpers.push(base[v0]);
        v0 += 1;
    }

    let nw: usize = shapekeys.len();
    let mut w: usize = 0;
    while w < nw
        invariant
            ts == targets.targets@,
            keys == shapekeys@,
            bs == base@,
            n == bs.len(),
            nw == keys.len(),
            nw <= 1024,
            library_wf(*targets),
            library_ids_below(*targets, n as int),
            forall|v: int| 0 <= v < n ==> gv_in_range((#[trigger] bs[v])@),
            forall|w2: int| 0 <= w2 < nw ==> -MAG_LIMIT <= (#[trigger] keys[w2]).1 <= MAG_LIMIT,
            term_max == (MAG_LIMIT as int) * (MAG_LIMIT as int) / (SCALE as int),
            term_max == 4611686018427,
            w <= nw,
            helpers@.len() == n,
            forall|w2: int| 0 <= w2 < w ==> target_index(ts, (#[trigger] keys[w2]).0@) != -1,
            forall|v: int|
                0 <= v < n
                    ==> (#[trigger] helpers@[v])@ == gv_add(bs[v]@, blend_delta(ts, keys.take(w as int), v)),
            forall|v: int|
                0 <= v < n
                    ==> gv_within((#[trigger] helpers@[v])@, MAG_LIMIT + w * term_max),
        decreases nw - w,
    {
        let name: &String = &shapekeys[w].0;
        let weight: i64 = shapekeys[w].1;

        // Resolve the morph name to its first occurrence in the library.
        let m: usize = match find_target(targets, name) {
            Some(idx) => idx,
            None => {
                proof {
                    assert(target_index(ts, keys[w as int].0@) == -1);
                }
                return Err(ConfigError::MissingMorph { name: name.clone() });
            },
        };
        let ghost ti = target_index(ts, name@);
        proof {
            lemma_target_index_props(ts, name@);
            assert(ti == m as int);
            assert(ts[m as int].name@ == name@);
        }

        let ghost start = helpers@;
        let entries: &Vec<(u16, Vec3)> = &targets.targets[m].offsets;
        let ne: usize = entries.len();
        proof {
            assert(entries@.take(0) =~= Seq::<(u16, Vec3)>::empty());
            assert(gv_scaled(gv_zero(), weight as int) == gv_zero()) by {
                assert(scaled(0, weight as int) == 0) by {
                    assert(0 * (weight as int) == 0);
                    vstd::arithmetic::div_mod::lemma_div_of0(SCALE as int);
                }
            }
        }
        let mut k: usize = 0;
        while k < ne
            invariant
                ts == targets.targets@,
                keys == shapekeys@,
                bs == base@,
                n == bs.len(),
                helpers@.len() == n,
                w < nw,
                m < ts.len(),
                entries == &ts[m as int].offsets,
                ne == entries@.len(),
                k <= ne,
                target_wf(ts[m as int]),
                target_ids_below(ts[m as int], n as int),
                weight == keys[w as int].1,
                -MAG_LIMIT <= weight <= MAG_LIMIT,
                term_max == (MAG_LIMIT as int) * (MAG_LIMIT as int) / (SCALE as int),
                term_max == 4611686018427,
                start.len() == n,
                forall|v: int|
                    0 <= v < n ==> gv_within((#[trigger] start[v])@, MAG_LIMIT + w * term_max),
                w as int + 1 <= 1024,
                forall|v: int|
                    0 <= v < n
                        ==> (#[trigger] helpers@[v])@ == gv_add(
                            start[v]@,
                            gv_scaled(offset_of(entries@.take(k as int), v), weight as int),
                        ),
                forall|v: int|
                    0 <= v < n
                        ==> gv_within((#[trigger] helpers@[v])@, MAG_LIMIT + (w + 1) * term_max),
            decreases ne - k,
        {
            let id: u16 = entries[k].0;
            let off: Vec3 = entries[k].1;
            proof {
                // Entries before k never list this id again (ids are unique),
                // so the partial offset for `id` so far is zero.
                assert(forall|k2: int|
                    0 <= k2 < k ==> ((#[trigger] entries@.take(k as int)[k2]).0 as int) != id as int);
                lemma_offset_of_absent(entries@.take(k as int), id as int);
                assert(gv_scaled(gv_zero(), weight as int) == gv_zero()) by {
                    assert(scaled(0, weight as int) == 0) by {
                        assert(0 * (weight as int) == 0);
                        vstd::arithmetic::div_mod::lemma_div_of0(SCALE as int);
                    }
                }
                assert(helpers@[id as int]@ == gv_add(start[id as int]@, gv_zero()));
                assert(gv_add(start[id as int]@, gv_zero()) == start[id as int]@);
                crate::fixed::lemma_scaled_bound(off@.x, weight as int, MAG_LIMIT as int, MAG_LIMIT as int);
                crate::fixed::lemma_scaled_bound(off@.y, weight as int, MAG_LIMIT as int, MAG_LIMIT as int);
                crate::fixed::lemma_scaled_bound(off@.z, weight as int, MAG_LIMIT as int, MAG_LIMIT as int);
                assert((w as int + 1) * term_max <= 1024 * term_max) by (nonlinear_arith)
                    requires w as int + 1 <= 1024, term_max >= 0,
                ;
                assert(w * term_max >= 0) by (nonlinear_arith)
                    requires w >= 0, term_max >= 0,
                ;
                assert((w + 1) * term_max == w * term_max + term_max) by (nonlinear_arith);
            }
            let term: Vec3 = off.scale(weight);
            let moved: Vec3 = helpers[id as usize].add(term);
            helpers[id as usize] = moved;
            proof {
                let ghost pk = entries@.take(k as int);
                assert(entries@.take(k as int + 1).drop_last() =~= pk);
                assert(entries@.take(k as int + 1).last() == entries@[k as int]);
                assert forall|v: int| 0 <= v < n implies (#[trigger] helpers@[v])@ == gv_add(
                    start[v]@,
                    gv_scaled(offset_of(entries@.take(k as int + 1), v), weight as int),
                ) by {
                    if v == id as int {
                        assert(offset_of(entries@.take(k as int + 1), v) == gv_add(
                            offset_of(pk, v),
                            off@,
                        ));
                        assert(offset_of(pk, v) == gv_zero());
                        assert(gv_add(gv_zero(), off@) == off@);
                    } else {
                        assert(offset_of(entries@.take(k as int + 1), v) == offset_of(pk, v));
                    }
                }
            }
            k += 1;
        }
        proof {
            assert(entries@.take(ne as int) =~= entries@);
            assert(keys.take(w as int + 1).drop_last() =~= keys.take(w as int));
            assert(keys.take(w as int + 1).last() == keys[w as int]);
            assert forall|v: int| 0 <= v < n implies (#[trigger] helpers@[v])@ == gv_add(
                bs[v]@,
                blend_delta(ts, keys.take(w as int + 1), v),
            ) by {
                assert(start[v]@ == gv_add(bs[v]@, blend_delta(ts, keys.take(w as int), v)));
                assert(helpers@[v]@ == gv_add(
                    start[v]@,
                    gv_scaled(offset_of(ts[ti].offsets@, v), weight as int),
                ));
            }
        }
        w += 1;
    }
    proof {
        assert(keys.take(nw as int) =~= keys);
    }
    Ok(helpers)
}

/// Writes the blended helper position of each canonical vertex to every
/// render vertex in its forward list; render vertices outside the map
/// keep their position.  (Normals and tangents must be recomputed by the
/// caller, since the geometry changed.)
pub fn bake_body_morphs(
    positions: &Vec<Vec3>,
    vertex_map: &Vec<Vec<u16>>,
    helpers: &Vec<Vec3>,
) -> (r: Vec<Vec3>)
    requires
        vertex_map@.len() == helpers@.len(),
        crate::correspondence::entries_within(vertex_map@, positions@.len() as int),
        crate::correspondence::entries_disjoint(vertex_map@),
    ensures
        r@.len() == positions@.len(),
        forall|i: int, k: int|
            0 <= i < vertex_map@.len() && 0 <= k < vertex_map@[i]@.len()
                ==> r@[#[trigger] vertex_map@[i]@[k] as int] == helpers@[i],
        forall|j: int|
            0 <= j < r@.len() && !crate::correspondence::listed(vertex_map@, j)
                ==> r@[j] == positions@[j],
{
    let ghost vm = vertex_map@;
    let ghost ps = positions@;
    let cn: usize = vertex_map.len();
    let mut out: Vec<Vec3> = positions.clone();
    proof {
        assert(out@ =~= ps);
    }
    let mut i: usize = 0;
    while i < cn
        invariant
            vm == vertex_map@,
            ps == positions@,
            cn == vm.len(),
            helpers@.len() == cn,
            crate::correspondence::entries_within(vm, ps.len() as int),
            crate::correspondence::entries_disjoint(vm),
            i <= cn,
            out@.len() == ps.len(),
            forall|i2: int, k: int|
                0 <= i2 < i && 0 <= k < vm[i2]@.len()
                    ==> out@[#[trigger] vm[i2]@[k] as int] == helpers@[i2],
            forall|j: int|
                0 <= j < out@.len() && !crate::correspondence::listed(vm.take(i as int), j)
                    ==> out@[j] == ps[j],
        decreases cn - i,
    {
        proof {
            assert forall|j: int|
                crate::correspondence::listed(vm.take(i as int), j) implies crate::correspondence::listed(
                vm.take(i as int + 1),
                j,
            ) by {
                let (i2, k2) = choose|i2: int, k2: int|
                    0 <= i2 < vm.take(i as int).len() && 0 <= k2 < vm.take(i as int)[i2]@.len()
                        && #[trigger] vm.take(i as int)[i2]@[k2] as int == j;
                assert(vm.take(i as int + 1)[i2]@[k2] as int == j);
            }
        }
        let row_len: usize = vertex_map[i].len();
        let mut k: usize = 0;
        while k < row_len
            invariant
                vm == vertex_map@,
                ps == positions@,
                cn == vm.len(),
                helpers@.len() == cn,
                crate::correspondence::entries_within(vm, ps.len() as int),
                crate::correspondence::entries_disjoint(vm),
                i < cn,
                k <= row_len,
                row_len == vm[i as int]@.len(),
                out@.len() == ps.len(),
                forall|i2: int, k2: int|
                    0 <= i2 < i && 0 <= k2 < vm[i2]@.len()
                        ==> out@[#[trigger] vm[i2]@[k2] as int] == helpers@[i2],
                forall|k2: int|
                    0 <= k2 < k ==> out@[#[trigger] vm[i as int]@[k2] as int] == helpers@[i as int],
                forall|j: int|
                    0 <= j < out@.len() && !crate::correspondence::listed(vm.take(i as int + 1), j)
                        ==> out@[j] == ps[j],
            decreases row_len - k,
        {
            let vtx: u16 = vertex_map[i][k];
            out[vtx as usize] = helpers[i];
            proof {
                assert(crate::correspondence::listed(vm.take(i as int + 1), vtx as int)) by {
                    assert(vm.take(i as int + 1)[i as int]@[k as int] == vtx);
                }
            }
            k += 1;
        }
        i += 1;
    }
    proof {
        assert(vm.take(cn as int) =~= vm);
    }
    out
}

/// Number of micro-units in the fixed body-scale constant that morph
/// displacements are pre-multiplied by at load.
pub const BODY_SCALE: i64 = 100_000;

/// Position of the first entry listing this canonical vertex, or -1.
pub open spec fn id_index(entries: Seq<(u16, Vec3)>, id: u16) -> int
    decreases entries.len(),
{
    if entries.len() == 0 {
        -1
    } else if entries[0].0 == id {
        0
    } else {
        let rest = id_index(entries.subrange(1, entries.len() as int), id);
        if rest == -1 {
            -1
        } else {
            rest + 1
        }
    }
}

pub proof fn lemma_id_index_props(entries: Seq<(u16, Vec3)>, id: u16)
    ensures
        id_index(entries, id) == -1 ==> forall|k: int|
            0 <= k < entries.len() ==> (#[trigger] entries[k]).0 != id,
        id_index(entries, id) != -1 ==> {
            &&& 0 <= id_index(entries, id) < entries.len()
            &&& entries[id_index(entries, id)].0 == id
            &&& forall|k: int| 0 <= k < id_index(entries, id) ==> (#[trigger] entries[k]).0 != id
        },
    decreases entries.len(),
{
    if entries.len() > 0 {
        let rest = entries.subrange(1, entries.len() as int);
        lemma_id_index_props(rest, id);
        assert(forall|k: int| 0 <= k < rest.len() ==> #[trigger] rest[k] == entries[k + 1]);
        if entries[0].0 != id {
            let rti = id_index(rest, id);
            if rti == -1 {
                assert forall|k: int| 0 <= k < entries.len() implies (#[trigger] entries[k]).0
                    != id by {
                    if k > 0 {
                        assert(rest[k - 1] == entries[k]);
                    }
                }
            } else {
                assert(entries[id_index(entries, id)] == rest[rti]);
                assert forall|k: int|
                    0 <= k < id_index(entries, id) implies (#[trigger] entries[k]).0 != id by {
                    if k > 0 {
                        assert(rest[k - 1] == entries[k]);
                    }
                }
            }
        }
    }
}

/// Stores a displacement for one canonical vertex: a vertex already
/// listed is overwritten in place, a new one is appended.
pub open spec fn upsert(entries: Seq<(u16, Vec3)>, id: u16, off: Vec3) -> Seq<(u16, Vec3)> {
    let k = id_index(entries, id);
    if k == -1 {
        entries.push((id, off))
    } else {
        entries.update(k, (id, off))
    }
}

/// One morph-target line's contribution: a line whose first token is a
/// canonical id must carry three displacement components, scaled by the
/// body-scale constant; any other line is ignored.
pub open spec fn target_step(acc: Option<Seq<(u16, Vec3)>>, line: Seq<u8>) -> Option<
    Seq<(u16, Vec3)>,
> {
    match acc {
        None => None,
        Some(es) => {
            let lt = crate::text::tokens(line);
            if lt.len() == 0 {
                Some(es)
            } else {
                match crate::text::u16_of_token(lt[0]) {
                    None => Some(es),
                    Some(id) => {
                        if lt.len() >= 4 {
                            match (
                                crate::text::fixed_of_token(lt[1]),
                                crate::text::fixed_of_token(lt[2]),
                                crate::text::fixed_of_token(lt[3]),
                            ) {
                                (Some(x), Some(y), Some(z)) => Some(
                                    upsert(
                                        es,
                                        id,
                                        Vec3 {
                                            x: scaled(x as int, BODY_SCALE as int) as i64,
                                            y: scaled(y as int, BODY_SCALE as int) as i64,
                                            z: scaled(z as int, BODY_SCALE as int) as i64,
                                        },
                                    ),
                                ),
                                _ => None,
                            }
                        } else {
                            None
                        }
                    },
                }
            }
        },
    }
}

/// The sparse displacement field the first `i` lines denote.
pub open spec fn target_entries(lines: Seq<Seq<u8>>, i: int) -> Option<Seq<(u16, Vec3)>>
    decreases i,
{
    if i <= 0 {
        Some(Seq::empty())
    } else {
        target_step(target_entries(lines, i - 1), lines[i - 1])
    }
}

/// A failed target parse stays failed.
pub proof fn lemma_target_none_persists(lines: Seq<Seq<u8>>, i: int, j: int)
    requires
        0 <= i <= j,
        target_entries(lines, i) is None,
    ensures
        target_entries(lines, j) is None,
    decreases j - i,
{
    if i < j {
        lemma_target_none_persists(lines, i, j - 1);
    }
}

/// Parses one morph target text: each data line is a canonical vertex
/// id and three displacement components, pre-multiplied by the fixed
/// body-scale constant; lines that do not open with an id are ignored,
/// and a later line for the same id overwrites the earlier one.  The
/// result is a well-formed sparse field: unique ids, in-range
/// displacements.
pub fn parse_morph_target(text: &Vec<u8>) -> (r: Result<Vec<(u16, Vec3)>, crate::errors::ParseError>)
    ensures
        (r matches Ok(es) ==> {
            let fold = target_entries(
                crate::text::split_lines(text@),
                crate::text::split_lines(text@).len() as int,
            );
            &&& fold == Some(es@)
            &&& forall|k: int| 0 <= k < es@.len() ==> gv_in_range((#[trigger] es@[k]).1@)
            &&& forall|k1: int, k2: int|
                0 <= k1 < k2 < es@.len() ==> (#[trigger] es@[k1]).0 != (#[trigger] es@[k2]).0
        }),
        (r matches Err(pe) ==> {
            &&& target_entries(
                crate::text::split_lines(text@),
                crate::text::split_lines(text@).len() as int,
            ) is None
            &&& (pe.line as int) < crate::text::split_lines(text@).len()
            &&& target_entries(crate::text::split_lines(text@), pe.line as int) is Some
            &&& target_entries(crate::text::split_lines(text@), pe.line as int + 1) is None
        }),
{
    let ghost ls = crate::text::split_lines(text@);
    let lines: Vec<Vec<u8>> = crate::text::split_lines_exec(text);
    let nl: usize = lines.len();
    let mut out: Vec<(u16, Vec3)> = Vec::new();
    let mut i: usize = 0;
    while i < nl
        invariant
            ls == crate::text::split_lines(text@),
            nl == ls.len(),
            lines@.len() == nl,
            forall|k: int| 0 <= k < nl ==> (#[trigger] lines@[k])@ == ls[k],
            i <= nl,
            target_entries(ls, i as int) == Some(out@),
            forall|k: int| 0 <= k < out@.len() ==> gv_in_range((#[trigger] out@[k]).1@),
            forall|k1: int, k2: int|
                0 <= k1 < k2 < out@.len() ==> (#[trigger] out@[k1]).0 != (#[trigger] out@[k2]).0,
        decreases nl - i,
    {
        let line: &Vec<u8> = &lines[i];
        let toks: Vec<Vec<u8>> = crate::text::tokenize(line);
        let ghost lt = crate::text::tokens(ls[i as int]);
        proof {
            assert(line@ == ls[i as int]);
            assert(toks@.len() == lt.len());
            assert(forall|k: int| 0 <= k < toks@.len() ==> (#[trigger] toks@[k])@ == lt[k]);
        }
        if toks.len() > 0 {
            match crate::text::parse_u16(&toks[0]) {
                None => {},
                Some(id) => {
                    if toks.len() >= 4 {
                        let x = crate::text::parse_fixed(&toks[1]);
                        let y = crate::text::parse_fixed(&toks[2]);
                        let z = crate::text::parse_fixed(&toks[3]);
                        match (x, y, z) {
                            (Some(xv), Some(yv), Some(zv)) => {
                                proof {
                                    crate::fixed::lemma_scaled_by_unit_weight(
                                        xv as int,
                                        BODY_SCALE as int,
                                    );
                                    crate::fixed::lemma_scaled_by_unit_weight(
                                        yv as int,
                                        BODY_SCALE as int,
                                    );
                                    crate::fixed::lemma_scaled_by_unit_weight(
                                        zv as int,
                                        BODY_SCALE as int,
                                    );
                                }
                                let off = Vec3 {
                                    x: crate::fixed::mul_scaled(xv, BODY_SCALE),
                                    y: crate::fixed::mul_scaled(yv, BODY_SCALE),
                                    z: crate::fixed::mul_scaled(zv, BODY_SCALE),
                                };
                                // Overwrite an existing entry or append.
                                let ghost before = out@;
                                let ne: usize = out.len();
                                let mut found: bool = false;
                                let mut at: usize = 0;
                                let mut scan: usize = 0;
                                while scan < ne
                                    invariant
                                        out@ == before,
                                        ne == out@.len(),
                                        scan <= ne,
                                        !found ==> forall|k: int|
                                            0 <= k < scan ==> (#[trigger] before[k]).0 != id,
                                        found ==> {
                                            &&& at < scan
                                            &&& before[at as int].0 == id
                                            &&& forall|k: int|
                                                0 <= k < at ==> (#[trigger] before[k]).0 != id
                                        },
                                    decreases ne - scan,
                                {
                                    if !found && out[scan].0 == id {
                                        found = true;
                                        at = scan;
                                    }
                                    scan += 1;
                                }
                                proof {
                                    lemma_id_index_props(before, id);
                                    if found {
                                        assert(id_index(before, id) == at as int);
                                    } else {
                                        if id_index(before, id) != -1 {
                                            assert(before[id_index(before, id)].0 == id);
                                            assert(false);
                                        }
                                    }
                                }
                                if found {
                                    out[at] = (id, off);
                                    proof {
                                        assert(out@ =~= upsert(before, id, off));
                                    }
                                } else {
                                    out.push((id, off));
                                    proof {
                                        assert(out@ =~= upsert(before, id, off));
                                    }
                                }
                                proof {
                                    assert forall|k1: int, k2: int|
                                        0 <= k1 < k2 < out@.len() implies (#[trigger] out@[k1]).0
                                        != (#[trigger] out@[k2]).0 by {
                                        if found {
                                            assert(out@.len() == before.len());
                                        }
                                    }
                                }
                            },
                            _ => {
                                proof {
                                    assert(target_entries(ls, i as int + 1) is None);
                                    lemma_target_none_persists(ls, i as int + 1, nl as int);
                                }
                                return Err(crate::errors::ParseError { line: i });
                            },
                        }
                    } else {
                        proof {
                            assert(target_entries(ls, i as int + 1) is None);
                            lemma_target_none_persists(ls, i as int + 1, nl as int);
                        }
                        return Err(crate::errors::ParseError { line: i });
                    }
                },
            }
        }
        i += 1;
    }
    Ok(out)
}

} // verus!
