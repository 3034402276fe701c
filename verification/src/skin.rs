//! Skin-weight computation.
//!
//! Every output vertex ends with at most four (bone, weight) slots,
//! renormalized to sum to one; a vertex with zero total incident weight
//! is corrupt data and a fatal error.  The body variant distributes
//! per-bone canonical weight tables through the forward correspondence
//! map, filling the first free of four slots and evicting the lowest
//! held weight when a fifth nonzero-weight bone arrives.

use vstd::prelude::*;
use crate::errors::DataConsistencyError;
use crate::fixed::{MAG_LIMIT, SCALE};

verus! {

/// Up to four (bone index, weight) slots of one vertex.  A slot with
/// weight zero is free.
#[derive(Debug, Clone, Copy, PartialEq, Eq, Structural)]
pub struct SkinQuad {
    pub b0: u16,
    pub b1: u16,
    pub b2: u16,
    pub b3: u16,
    pub w0: i64,
    pub w1: i64,
    pub w2: i64,
    pub w3: i64,
}

/// The quad as four (bone, weight) pairs.
pub open spec fn quad_model(q: SkinQuad) -> Seq<(int, int)> {
    seq![
        (q.b0 as int, q.w0 as int),
        (q.b1 as int, q.w1 as int),
        (q.b2 as int, q.w2 as int),
        (q.b3 as int, q.w3 as int),
    ]
}

/// The all-free quad.
pub open spec fn quad_empty() -> Seq<(int, int)> {
    seq![(0int, 0int), (0int, 0int), (0int, 0int), (0int, 0int)]
}

/// First free slot, or -1 when all four are taken.
pub open spec fn first_empty(q: Seq<(int, int)>) -> int {
    if q[0].1 == 0 {
        0
    } else if q[1].1 == 0 {
        1
    } else if q[2].1 == 0 {
        2
    } else if q[3].1 == 0 {
        3
    } else {
        -1
    }
}

/// First slot holding the lowest weight.
pub open spec fn min_slot(q: Seq<(int, int)>) -> int {
    if q[0].1 <= q[1].1 && q[0].1 <= q[2].1 && q[0].1 <= q[3].1 {
        0
    } else if q[1].1 <= q[2].1 && q[1].1 <= q[3].1 {
        1
    } else if q[2].1 <= q[3].1 {
        2
    } else {
        3
    }
}

/// First-come-first-served slot assignment: a new arrival fills the
/// first free slot; when none is free it evicts the lowest held weight.
pub open spec fn quad_insert(q: Seq<(int, int)>, bone: int, w: int) -> Seq<(int, int)> {
    if first_empty(q) != -1 {
        q.update(first_empty(q), (bone, w))
    } else {
        q.update(min_slot(q), (bone, w))
    }
}

/// The quad after a sequence of arrivals, applied in order.
pub open spec fn run_arrivals(arr: Seq<(int, int)>) -> Seq<(int, int)>
    decreases arr.len(),
{
    if arr.len() == 0 {
        quad_empty()
    } else {
        quad_insert(run_arrivals(arr.drop_last()), arr.last().0, arr.last().1)
    }
}

/// Total held weight of a quad.
pub open spec fn quad_total(q: Seq<(int, int)>) -> int {
    q[0].1 + q[1].1 + q[2].1 + q[3].1
}

/// One rig's per-bone sparse canonical weight tables, in a fixed order.
#[derive(Debug, Clone)]
pub struct RigWeights {
    pub bones: Vec<(String, Vec<(u16, i64)>)>,
}

/// A weight table is well-formed when its weights are non-negative and
/// bounded and each canonical vertex is listed at most once, below `n`.
pub open spec fn table_wf(entries: Seq<(u16, i64)>, n: int) -> bool {
    &&& forall|k: int|
        0 <= k < entries.len() ==> 0 <= (#[trigger] entries[k]).1 <= MAG_LIMIT
    &&& forall|k: int| 0 <= k < entries.len() ==> ((#[trigger] entries[k]).0 as int) < n
    &&& forall|k1: int, k2: int|
        0 <= k1 < k2 < entries.len()
            ==> (#[trigger] entries[k1]).0 != (#[trigger] entries[k2]).0
}

/// All of a rig's tables are well-formed against `n` canonical
/// vertices.
pub open spec fn rig_weights_wf(w: RigWeights, n: int) -> bool {
    forall|b: int| 0 <= b < w.bones@.len() ==> table_wf((#[trigger] w.bones@[b]).1@, n)
}

/// Position of the first table with this bone name, or -1.
pub open spec fn table_index(ws: Seq<(String, Vec<(u16, i64)>)>, name: Seq<char>) -> int
    decreases ws.len(),
{
    if ws.len() == 0 {
        -1
    } else if ws[0].0@ == name {
        0
    } else {
        let rest = table_index(ws.subrange(1, ws.len() as int), name);
        if rest == -1 {
            -1
        } else {
            rest + 1
        }
    }
}

/// `table_index` finds the first match, and -1 means no match at all.
pub proof fn lemma_table_index_props(ws: Seq<(String, Vec<(u16, i64)>)>, name: Seq<char>)
    ensures
        table_index(ws, name) == -1 ==> forall|b: int|
            0 <= b < ws.len() ==> (#[trigger] ws[b]).0@ != name,
        table_index(ws, name) != -1 ==> {
            &&& 0 <= table_index(ws, name) < ws.len()
            &&& ws[table_index(ws, name)].0@ == name
            &&& forall|b: int|
                0 <= b < table_index(ws, name) ==> (#[trigger] ws[b]).0@ != name
        },
    decreases ws.len(),
{
    if ws.len() > 0 {
        let rest = ws.subrange(1, ws.len() as int);
        lemma_table_index_props(rest, name);
        assert(forall|b: int| 0 <= b < rest.len() ==> #[trigger] rest[b] == ws[b + 1]);
        let ti = table_index(ws, name);
        if ws[0].0@ == name {
        } else {
            let rti = table_index(rest, name);
            if rti == -1 {
                assert forall|b: int| 0 <= b < ws.len() implies (#[trigger] ws[b]).0@ != name by {
                    if b > 0 {
                        assert(rest[b - 1] == ws[b]);
                    }
                }
            } else {
                assert(ti == rti + 1);
                assert(ws[ti] == rest[rti]);
                assert forall|b: int| 0 <= b < ti implies (#[trigger] ws[b]).0@ != name by {
                    if b > 0 {
                        assert(rest[b - 1] == ws[b]);
                    }
                }
            }
        }
    }
}

/// Weight a sparse table assigns to canonical vertex `mh` (zero when it
/// is not listed).
pub open spec fn weight_in(entries: Seq<(u16, i64)>, mh: int) -> int
    decreases entries.len(),
{
    if entries.len() == 0 {
        0
    } else {
        weight_in(entries.drop_last(), mh) + if entries.last().0 == mh {
            entries.last().1 as int
        } else {
            0int
        }
    }
}

/// A table that never lists `mh` assigns it nothing.
pub proof fn lemma_weight_in_absent(entries: Seq<(u16, i64)>, mh: int)
    requires
        forall|k: int| 0 <= k < entries.len() ==> ((#[trigger] entries[k]).0 as int) != mh,
    ensures
        weight_in(entries, mh) == 0,
    decreases entries.len(),
{
    if entries.len() > 0 {
        assert(forall|k: int|
            0 <= k < entries.drop_last().len()
                ==> #[trigger] entries.drop_last()[k] == entries[k]);
        lemma_weight_in_absent(entries.drop_last(), mh);
    }
}

/// The arrivals at canonical vertex `mh`: one (bone index, weight) pair
/// for every bone, in bone order, whose table gives `mh` a positive
/// weight.
pub open spec fn arrivals(
    ws: Seq<(String, Vec<(u16, i64)>)>,
    bones: Seq<String>,
    mh: int,
) -> Seq<(int, int)>
    decreases bones.len(),
{
    if bones.len() == 0 {
        Seq::empty()
    } else {
        let rest = arrivals(ws, bones.drop_last(), mh);
        let ti = table_index(ws, bones.last()@);
        if ti == -1 {
            rest
        } else {
            let w = weight_in(ws[ti].1@, mh);
            if w > 0 {
                rest.push(((bones.len() - 1) as int, w))
            } else {
                rest
            }
        }
    }
}

/// Truncated share of one slot: `w * SCALE / total`.
pub open spec fn norm_weight(w: int, total: int) -> int
    recommends
        total > 0,
{
    w * SCALE / total
}

/// Law: renormalized slot weights are non-negative and sum to one
/// (`SCALE` in micro-units) up to the truncation of at most three
/// units.
pub proof fn lemma_normalized_quad_sums(q: Seq<(int, int)>)
    requires
        q.len() == 4,
        forall|i: int| 0 <= i < 4 ==> (#[trigger] q[i]).1 >= 0,
        quad_total(q) > 0,
    ensures
        forall|i: int| 0 <= i < 4 ==> norm_weight((#[trigger] q[i]).1, quad_total(q)) >= 0,
        SCALE - 3 <= norm_weight(q[0].1, quad_total(q)) + norm_weight(q[1].1, quad_total(q))
            + norm_weight(q[2].1, quad_total(q)) + norm_weight(q[3].1, quad_total(q)) <= SCALE,
{
    let t = quad_total(q);
    assert forall|i: int| 0 <= i < 4 implies norm_weight((#[trigger] q[i]).1, t) >= 0 by {
        vstd::arithmetic::div_mod::lemma_div_pos_is_pos(q[i].1 * (SCALE as int), t);
        assert(q[i].1 * (SCALE as int) >= 0) by (nonlinear_arith)
            requires q[i].1 >= 0, SCALE > 0,
        ;
    }
    let n0 = norm_weight(q[0].1, t);
    let n1 = norm_weight(q[1].1, t);
    let n2 = norm_weight(q[2].1, t);
    let n3 = norm_weight(q[3].1, t);
    vstd::arithmetic::div_mod::lemma_fundamental_div_mod(q[0].1 * (SCALE as int), t);
    vstd::arithmetic::div_mod::lemma_fundamental_div_mod(q[1].1 * (SCALE as int), t);
    vstd::arithmetic::div_mod::lemma_fundamental_div_mod(q[2].1 * (SCALE as int), t);
    vstd::arithmetic::div_mod::lemma_fundamental_div_mod(q[3].1 * (SCALE as int), t);
    vstd::arithmetic::div_mod::lemma_remainder_upper(q[0].1 * (SCALE as int), t);
    vstd::arithmetic::div_mod::lemma_remainder_upper(q[1].1 * (SCALE as int), t);
    vstd::arithmetic::div_mod::lemma_remainder_upper(q[2].1 * (SCALE as int), t);
    vstd::arithmetic::div_mod::lemma_remainder_upper(q[3].1 * (SCALE as int), t);
    vstd::arithmetic::div_mod::lemma_remainder_lower(q[0].1 * (SCALE as int), t);
    vstd::arithmetic::div_mod::lemma_remainder_lower(q[1].1 * (SCALE as int), t);
    vstd::arithmetic::div_mod::lemma_remainder_lower(q[2].1 * (SCALE as int), t);
    vstd::arithmetic::div_mod::lemma_remainder_lower(q[3].1 * (SCALE as int), t);
    assert((q[0].1 + q[1].1 + q[2].1 + q[3].1) * (SCALE as int) == q[0].1 * (SCALE as int) + q[1].1
        * (SCALE as int) + q[2].1 * (SCALE as int) + q[3].1 * (SCALE as int)) by (nonlinear_arith);
    assert(t * n0 + t * n1 + t * n2 + t * n3 == t * (n0 + n1 + n2 + n3)) by (nonlinear_arith);
    assert(t * (n0 + n1 + n2 + n3) <= t * (SCALE as int)) by {
        assert(t * (n0 + n1 + n2 + n3) + 0 <= t * (SCALE as int));
    }
    assert(n0 + n1 + n2 + n3 <= SCALE) by (nonlinear_arith)
        requires t > 0, t * (n0 + n1 + n2 + n3) <= t * (SCALE as int),
    ;
    assert(t * (SCALE as int) < t * (n0 + n1 + n2 + n3 + 4)) by (nonlinear_arith)
        requires
            t > 0,
            t * (SCALE as int) == t * n0 + t * n1 + t * n2 + t * n3 + (q[0].1 * (SCALE as int)) % t
                + (q[1].1 * (SCALE as int)) % t + (q[2].1 * (SCALE as int)) % t + (q[3].1 * (
            SCALE as int)) % t,
            (q[0].1 * (SCALE as int)) % t < t,
            (q[1].1 * (SCALE as int)) % t < t,
            (q[2].1 * (SCALE as int)) % t < t,
            (q[3].1 * (SCALE as int)) % t < t,
    ;
    assert(SCALE < n0 + n1 + n2 + n3 + 4) by (nonlinear_arith)
        requires t > 0, t * (SCALE as int) < t * (n0 + n1 + n2 + n3 + 4),
    ;
}

/// Normalized share of one held weight, computed with unsigned
/// division (both operands are non-negative).
fn norm_weight_exec(w: i64, total: i64) -> (r: i64)
    requires
        0 <= w <= 16 * MAG_LIMIT,
        0 < total <= 16 * MAG_LIMIT,
    ensures
        r == norm_weight(w as int, total as int),
{
    proof {
        vstd::arithmetic::div_mod::lemma_div_pos_is_pos(w as int * (SCALE as int), total as int);
        vstd::arithmetic::div_mod::lemma_div_is_ordered_by_denominator(
            w as int * (SCALE as int),
            1,
            total as int,
        );
        assert(w as int * (SCALE as int) <= 0x2000_0000_0000_0000) by (nonlinear_arith)
            requires 0 <= w <= 16 * MAG_LIMIT,
        ;
    }
    let p: i64 = w * SCALE;
    ((p as u64) / (total as u64)) as i64
}

/// Inserts an arrival into a quad: first free slot, else evict the
/// lowest held weight.
fn quad_insert_exec(q: SkinQuad, bone: u16, w: i64) -> (r: SkinQuad)
    ensures
        quad_model(r) == quad_insert(quad_model(q), bone as int, w as int),
{
    let ghost m = quad_model(q);
    let mut out = q;
    if q.w0 == 0 {
        out.b0 = bone;
        out.w0 = w;
        proof {
            assert(quad_model(out) =~= m.update(0, (bone as int, w as int)));
        }
    } else if q.w1 == 0 {
        out.b1 = bone;
        out.w1 = w;
        proof {
            assert(quad_model(out) =~= m.update(1, (bone as int, w as int)));
        }
    } else if q.w2 == 0 {
        out.b2 = bone;
        out.w2 = w;
        proof {
            assert(quad_model(out) =~= m.update(2, (bone as int, w as int)));
        }
    } else if q.w3 == 0 {
        out.b3 = bone;
        out.w3 = w;
        proof {
            assert(quad_model(out) =~= m.update(3, (bone as int, w as int)));
        }
    } else if q.w0 <= q.w1 && q.w0 <= q.w2 && q.w0 <= q.w3 {
        out.b0 = bone;
        out.w0 = w;
        proof {
            assert(quad_model(out) =~= m.update(0, (bone as int, w as int)));
        }
    } else if q.w1 <= q.w2 && q.w1 <= q.w3 {
        out.b1 = bone;
        out.w1 = w;
        proof {
            assert(quad_model(out) =~= m.update(1, (bone as int, w as int)));
        }
    } else if q.w2 <= q.w3 {
        out.b2 = bone;
        out.w2 = w;
        proof {
            assert(quad_model(out) =~= m.update(2, (bone as int, w as int)));
        }
    } else {
        out.b3 = bone;
        out.w3 = w;
        proof {
            assert(quad_model(out) =~= m.update(3, (bone as int, w as int)));
        }
    }
    out
}

/// All held weights of the quad are within bounds.
pub open spec fn quad_in_range(q: Seq<(int, int)>) -> bool {
    forall|i: int| 0 <= i < 4 ==> 0 <= (#[trigger] q[i]).1 <= MAG_LIMIT
}

/// Arrivals with positive bounded weights keep every quad slot within
/// bounds.
pub proof fn lemma_run_arrivals_in_range(arr: Seq<(int, int)>)
    requires
        forall|i: int| 0 <= i < arr.len() ==> 0 < (#[trigger] arr[i]).1 <= MAG_LIMIT,
    ensures
        quad_in_range(run_arrivals(arr)),
        run_arrivals(arr).len() == 4,
    decreases arr.len(),
{
    if arr.len() > 0 {
        assert(forall|i: int|
            0 <= i < arr.drop_last().len() ==> #[trigger] arr.drop_last()[i] == arr[i]);
        lemma_run_arrivals_in_range(arr.drop_last());
    }
}

/// A unique table's weight for `mh` is exactly the weight of the one
/// entry that lists it.
pub proof fn lemma_weight_in_unique(entries: Seq<(u16, i64)>, e: int)
    requires
        forall|k1: int, k2: int|
            0 <= k1 < k2 < entries.len()
                ==> (#[trigger] entries[k1]).0 != (#[trigger] entries[k2]).0,
        0 <= e < entries.len(),
    ensures
        weight_in(entries, entries[e].0 as int) == entries[e].1 as int,
    decreases entries.len(),
{
    if e == entries.len() - 1 {
        assert(forall|k: int|
            0 <= k < entries.drop_last().len()
                ==> ((#[trigger] entries.drop_last()[k]).0 as int) != entries[e].0 as int);
        lemma_weight_in_absent(entries.drop_last(), entries[e].0 as int);
    } else {
        assert(forall|k: int|
            0 <= k < entries.drop_last().len()
                ==> #[trigger] entries.drop_last()[k] == entries[k]);
        lemma_weight_in_unique(entries.drop_last(), e);
        assert(entries.last().0 != entries[e].0);
    }
}

/// The normalized quad: same bones, each weight replaced by its
/// truncated share of the total.
pub open spec fn normalize_quad(q: Seq<(int, int)>) -> Seq<(int, int)> {
    seq![
        (q[0].0, norm_weight(q[0].1, quad_total(q))),
        (q[1].0, norm_weight(q[1].1, quad_total(q))),
        (q[2].0, norm_weight(q[2].1, quad_total(q))),
        (q[3].0, norm_weight(q[3].1, quad_total(q))),
    ]
}

/// Finds the first weight table with this bone name, if there is one.
fn find_table(weights: &RigWeights, name: &String) -> (r: Option<usize>)
    ensures
        (r matches Some(b) ==> table_index(weights.bones@, name@) == b as int),
        (r is None ==> table_index(weights.bones@, name@) == -1),
{
    let ghost ws = weights.bones@;
    let tn: usize = weights.bones.len();
    let mut scan: usize = 0;
    let mut found: bool = false;
    let mut b: usize = 0;
    while scan < tn
        invariant
            ws == weights.bones@,
            tn == ws.len(),
            scan <= tn,
            !found ==> forall|b2: int| 0 <= b2 < scan ==> (#[trigger] ws[b2]).0@ != name@,
            found ==> {
                &&& b < scan
                &&& ws[b as int].0@ == name@
                &&& forall|b2: int| 0 <= b2 < b ==> (#[trigger] ws[b2]).0@ != name@
            },
        decreases tn - scan,
    {
        if !found && weights.bones[scan].0 == *name {
            found = true;
            b = scan;
        }
        scan += 1;
    }
    proof {
        lemma_table_index_props(ws, name@);
    }
    if found {
        Some(b)
    } else {
        None
    }
}

/// Builds the body mesh's skinning quads: every bone's canonical weight
/// table is distributed through the forward correspondence map into the
/// render vertices, slots are assigned first-come-first-served with the
/// lowest held weight evicted on overflow, and each vertex's held
/// weights are renormalized to sum to one.  A render vertex that ends
/// with zero total weight (in particular one no canonical vertex maps
/// to) is a fatal data error, reported for the lowest such vertex id.
#[verifier::rlimit(100)]
pub fn set_basemesh_rig_arrays(
    weights: &RigWeights,
    sorted_bones: &Vec<String>,
    vertex_map: &Vec<Vec<u16>>,
    render_count: usize,
) -> (r: Result<Vec<SkinQuad>, DataConsistencyError>)
    requires
        rig_weights_wf(*weights, vertex_map@.len() as int),
        sorted_bones@.len() <= 0x10000,
        vertex_map@.len() <= 0x10000,
        render_count <= 0x10000,
        crate::correspondence::entries_within(vertex_map@, render_count as int),
        crate::correspondence::entries_disjoint(vertex_map@),
    ensures
        (r matches Ok(quads) ==> {
            &&& quads@.len() == render_count
            &&& forall|j: int|
                0 <= j < render_count ==> crate::correspondence::listed(vertex_map@, j)
            &&& forall|mh: int|
                0 <= mh < vertex_map@.len() && vertex_map@[mh]@.len() > 0
                    ==> #[trigger] quad_total(
                        run_arrivals(arrivals(weights.bones@, sorted_bones@, mh)),
                    ) > 0
            &&& forall|mh: int, k: int|
                0 <= mh < vertex_map@.len() && 0 <= k < vertex_map@[mh]@.len()
                    ==> quad_model(
                        quads@[#[trigger] vertex_map@[mh]@[k] as int],
                    ) == normalize_quad(
                        run_arrivals(arrivals(weights.bones@, sorted_bones@, mh)),
                    )
        }),
        (r matches Err(e) ==> {
            &&& e matches DataConsistencyError::ZeroWeightVertex { vertex }
            &&& (vertex as int) < render_count
            &&& (!crate::correspondence::listed(vertex_map@, vertex as int) || exists|mh: int, k: int|
                0 <= mh < vertex_map@.len() && 0 <= k < vertex_map@[mh]@.len()
                    && #[trigger] vertex_map@[mh]@[k] == vertex && quad_total(
                    run_arrivals(arrivals(weights.bones@, sorted_bones@, mh)),
                ) == 0)
        }),
{
    let ghost ws = weights.bones@;
    let ghost bones = sorted_bones@;
    let ghost vm = vertex_map@;
    let cn: usize = vertex_map.len();
    let nb: usize = sorted_bones.len();

    let zero_quad = SkinQuad { b0: 0, b1: 0, b2: 0, b3: 0, w0: 0, w1: 0, w2: 0, w3: 0 };
    let mut quads: Vec<SkinQuad> = Vec::new();
    let mut j0: usize = 0;
    while j0 < render_count
        invariant
            j0 <= render_count,
            quads@.len() == j0,
            forall|j: int| 0 <= j < j0 ==> #[trigger] quads@[j] == zero_quad,
        decreases render_count - j0,
    {
        quads.push(zero_quad);
        j0 += 1;
    }
    proof {
        assert(quad_model(zero_quad) =~= quad_empty());
        assert(bones.take(0) =~= Seq::<String>::empty());
        assert forall|mh: int| run_arrivals(arrivals(ws, bones.take(0), mh)) == quad_empty() by {
            assert(arrivals(ws, bones.take(0), mh) == Seq::<(int, int)>::empty());
        }
    }

    let mut b: usize = 0;
    while b < nb
        invariant
            ws == weights.bones@,
            bones == sorted_bones@,
            vm == vertex_map@,
            cn == vm.len(),
            nb == bones.len(),
            nb <= 0x10000,
            cn <= 0x10000,
            rig_weights_wf(*weights, cn as int),
            crate::correspondence::entries_within(vm, render_count as int),
            crate::correspondence::entries_disjoint(vm),
            b <= nb,
            quads@.len() == render_count,
            forall|mh: int, k: int|
                0 <= mh < cn && 0 <= k < vm[mh]@.len()
                    ==> quad_model(quads@[#[trigger] vm[mh]@[k] as int]) == run_arrivals(
                        arrivals(ws, bones.take(b as int), mh),
                    ),
            forall|j: int|
                0 <= j < render_count && !crate::correspondence::listed(vm, j)
                    ==> quad_model(#[trigger] quads@[j]) == quad_empty(),
        decreases nb - b,
    {
        proof {
            assert(bones.take(b as int + 1).drop_last() =~= bones.take(b as int));
            assert(bones.take(b as int + 1).last() == bones[b as int]);
        }
        let name: &String = &sorted_bones[b];
        match find_table(weights, name) {
            None => {
                proof {
                    assert forall|mh: int, k: int|
                        0 <= mh < cn && 0 <= k < vm[mh]@.len() implies quad_model(
                        quads@[#[trigger] vm[mh]@[k] as int],
                    ) == run_arrivals(arrivals(ws, bones.take(b as int + 1), mh)) by {
                        assert(arrivals(ws, bones.take(b as int + 1), mh) == arrivals(
                            ws,
                            bones.take(b as int),
                            mh,
                        ));
                    }
                }
            },
            Some(tix) => {
                proof {
                    lemma_table_index_props(ws, name@);
                }
                let ghost entries = ws[tix as int].1@;
                let ne: usize = weights.bones[tix].1.len();
                let mut e: usize = 0;
                while e < ne
                    invariant
                        ws == weights.bones@,
                        bones == sorted_bones@,
                        vm == vertex_map@,
                        cn == vm.len(),
                        nb == bones.len(),
                        nb <= 0x10000,
                        cn <= 0x10000,
                        rig_weights_wf(*weights, cn as int),
                        crate::correspondence::entries_within(vm, render_count as int),
                        crate::correspondence::entries_disjoint(vm),
                        b < nb,
                        tix < ws.len(),
                        tix as int == table_index(ws, bones[b as int]@),
                        entries == ws[tix as int].1@,
                        ne == entries.len(),
                        table_wf(entries, cn as int),
                        e <= ne,
                        quads@.len() == render_count,
                        forall|mh: int, k: int|
                            0 <= mh < cn && 0 <= k < vm[mh]@.len()
                                ==> quad_model(quads@[#[trigger] vm[mh]@[k] as int]) == (if weight_in(
                                entries.take(e as int),
                                mh,
                            ) > 0 {
                                quad_insert(
                                    run_arrivals(arrivals(ws, bones.take(b as int), mh)),
                                    b as int,
                                    weight_in(entries, mh),
                                )
                            } else {
                                run_arrivals(arrivals(ws, bones.take(b as int), mh))
                            }),
                        forall|j: int|
                            0 <= j < render_count && !crate::correspondence::listed(vm, j)
                                ==> quad_model(#[trigger] quads@[j]) == quad_empty(),
                    decreases ne - e,
                {
                    let pair: (u16, i64) = weights.bones[tix].1[e];
                    let mh: u16 = pair.0;
                    let wt: i64 = pair.1;
                    proof {
                        assert(entries.take(e as int + 1).drop_last() =~= entries.take(e as int));
                        assert(entries.take(e as int + 1).last() == entries[e as int]);
                        assert(forall|k2: int|
                            0 <= k2 < e
                                ==> ((#[trigger] entries.take(e as int)[k2]).0 as int)
                                    != mh as int);
                        lemma_weight_in_absent(entries.take(e as int), mh as int);
                        lemma_weight_in_unique(entries, e as int);
                    }
                    if wt > 0 {
                        let row_len: usize = vertex_map[mh as usize].len();
                        let mut k: usize = 0;
                        while k < row_len
                            invariant
                                ws == weights.bones@,
                                bones == sorted_bones@,
                                vm == vertex_map@,
                                cn == vm.len(),
                                nb <= 0x10000,
                                cn <= 0x10000,
                                crate::correspondence::entries_within(vm, render_count as int),
                                crate::correspondence::entries_disjoint(vm),
                                b < nb,
                                (mh as int) < cn,
                                row_len == vm[mh as int]@.len(),
                                weight_in(entries.take(e as int), mh as int) == 0,
                                weight_in(entries, mh as int) == wt as int,
                                wt > 0,
                                e < ne,
                                ne == entries.len(),
                                entries == ws[tix as int].1@,
                                k <= row_len,
                                quads@.len() == render_count,
                                forall|k2: int|
                                    0 <= k2 < k
                                        ==> quad_model(
                                        quads@[#[trigger] vm[mh as int]@[k2] as int],
                                    ) == quad_insert(
                                        run_arrivals(
                                            arrivals(ws, bones.take(b as int), mh as int),
                                        ),
                                        b as int,
                                        wt as int,
                                    ),
                                forall|k2: int|
                                    k <= k2 < row_len
                                        ==> quad_model(
                                        quads@[#[trigger] vm[mh as int]@[k2] as int],
                                    ) == run_arrivals(
                                        arrivals(ws, bones.take(b as int), mh as int),
                                    ),
                                forall|mh2: int, k2: int|
                                    0 <= mh2 < cn && mh2 != mh as int && 0 <= k2 < vm[mh2]@.len()
                                        ==> quad_model(
                                        quads@[#[trigger] vm[mh2]@[k2] as int],
                                    ) == (if weight_in(entries.take(e as int), mh2) > 0 {
                                        quad_insert(
                                            run_arrivals(arrivals(ws, bones.take(b as int), mh2)),
                                            b as int,
                                            weight_in(entries, mh2),
                                        )
                                    } else {
                                        run_arrivals(arrivals(ws, bones.take(b as int), mh2))
                                    }),
                                forall|j: int|
                                    0 <= j < render_count && !crate::correspondence::listed(vm, j)
                                        ==> quad_model(#[trigger] quads@[j]) == quad_empty(),
                            decreases row_len - k,
                        {
                            let vtx: u16 = vertex_map[mh as usize][k];
                            let updated = quad_insert_exec(quads[vtx as usize], b as u16, wt);
                            quads[vtx as usize] = updated;
                            k += 1;
                        }
                        proof {
                            assert forall|mh2: int, k2: int|
                                0 <= mh2 < cn && 0 <= k2 < vm[mh2]@.len() implies quad_model(
                                quads@[#[trigger] vm[mh2]@[k2] as int],
                            ) == (if weight_in(entries.take(e as int + 1), mh2) > 0 {
                                quad_insert(
                                    run_arrivals(arrivals(ws, bones.take(b as int), mh2)),
                                    b as int,
                                    weight_in(entries, mh2),
                                )
                            } else {
                                run_arrivals(arrivals(ws, bones.take(b as int), mh2))
                            }) by {
                                if mh2 == mh as int {
                                    assert(weight_in(entries.take(e as int + 1), mh2) == wt as int);
                                } else {
                                    assert(weight_in(entries.take(e as int + 1), mh2) == weight_in(
                                        entries.take(e as int),
                                        mh2,
                                    ));
                                }
                            }
                        }
                    } else {
                        proof {
                            assert(wt == 0);
                            assert forall|mh2: int, k2: int|
                                0 <= mh2 < cn && 0 <= k2 < vm[mh2]@.len() implies quad_model(
                                quads@[#[trigger] vm[mh2]@[k2] as int],
                            ) == (if weight_in(entries.take(e as int + 1), mh2) > 0 {
                                quad_insert(
                                    run_arrivals(arrivals(ws, bones.take(b as int), mh2)),
                                    b as int,
                                    weight_in(entries, mh2),
                                )
                            } else {
                                run_arrivals(arrivals(ws, bones.take(b as int), mh2))
                            }) by {
                                if mh2 == mh as int {
                                    assert(weight_in(entries.take(e as int + 1), mh2) == 0);
                                } else {
                                    assert(weight_in(entries.take(e as int + 1), mh2) == weight_in(
                                        entries.take(e as int),
                                        mh2,
                                    ));
                                }
                            }
                        }
                    }
                    e += 1;
                }
                proof {
                    assert(entries.take(ne as int) =~= entries);
                    assert forall|mh: int, k: int|
                        0 <= mh < cn && 0 <= k < vm[mh]@.len() implies quad_model(
                        quads@[#[trigger] vm[mh]@[k] as int],
                    ) == run_arrivals(arrivals(ws, bones.take(b as int + 1), mh)) by {
                        let arr1 = arrivals(ws, bones.take(b as int + 1), mh);
                        let arr0 = arrivals(ws, bones.take(b as int), mh);
                        let w = weight_in(entries, mh);
                        if w > 0 {
                            assert(arr1 == arr0.push((b as int, w)));
                            assert(arr1.drop_last() =~= arr0);
                            assert(arr1.last() == (b as int, w));
                            assert(run_arrivals(arr1) == quad_insert(
                                run_arrivals(arr0),
                                b as int,
                                w,
                            ));
                        } else {
                            assert(arr1 == arr0);
                        }
                    }
                }
            },
        }
        b += 1;
    }
    proof {
        assert(bones.take(nb as int) =~= bones);
    }

    // Renormalize each vertex's held weights; a zero total is corrupt
    // data.
    let mut j: usize = 0;
    while j < render_count
        invariant
            ws == weights.bones@,
            bones == sorted_bones@,
            vm == vertex_map@,
            cn == vm.len(),
            cn <= 0x10000,
            rig_weights_wf(*weights, cn as int),
            crate::correspondence::entries_within(vm, render_count as int),
            crate::correspondence::entries_disjoint(vm),
            render_count <= 0x10000,
            quads@.len() == render_count,
            j <= render_count,
            forall|mh: int, k: int|
                0 <= mh < cn && 0 <= k < vm[mh]@.len() && (vm[mh]@[k] as int) >= j
                    ==> quad_model(quads@[#[trigger] vm[mh]@[k] as int]) == run_arrivals(
                        arrivals(ws, bones, mh),
                    ),
            forall|mh: int, k: int|
                0 <= mh < cn && 0 <= k < vm[mh]@.len() && (vm[mh]@[k] as int) < j ==> {
                    &&& quad_total(run_arrivals(arrivals(ws, bones, mh))) > 0
                    &&& quad_model(quads@[#[trigger] vm[mh]@[k] as int]) == normalize_quad(
                        run_arrivals(arrivals(ws, bones, mh)),
                    )
                },
            forall|j2: int|
                0 <= j2 < render_count && !crate::correspondence::listed(vm, j2)
                    ==> quad_model(#[trigger] quads@[j2]) == quad_empty(),
            forall|j2: int|
                0 <= j2 < j ==> crate::correspondence::listed(vm, j2),
        decreases render_count - j,
    {
        let q = quads[j];
        proof {
            if crate::correspondence::listed(vm, j as int) {
                let (mh, k) = choose|mh: int, k: int|
                    0 <= mh < vm.len() && 0 <= k < vm[mh]@.len() && #[trigger] vm[mh]@[k] as int
                        == j as int;
                let arr = arrivals(ws, bones, mh);
                lemma_arrivals_wf(ws, bones, mh, cn as int);
                lemma_run_arrivals_in_range(arr);
                lemma_run_arrivals_total(arr);
            }
        }
        let total: i64 = q.w0 + q.w1 + q.w2 + q.w3;
        if total == 0 {
            proof {
                if crate::correspondence::listed(vm, j as int) {
                    let (mh, k) = choose|mh: int, k: int|
                        0 <= mh < vm.len() && 0 <= k < vm[mh]@.len() && #[trigger] vm[mh]@[k] as int
                            == j as int;
                    assert(quad_model(q) == run_arrivals(arrivals(ws, bones, mh)));
                    assert(quad_total(run_arrivals(arrivals(ws, bones, mh))) == 0);
                    assert(vm[mh]@[k] == j as u16);
                }
            }
            return Err(DataConsistencyError::ZeroWeightVertex { vertex: j as u16 });
        }
        proof {
            assert(crate::correspondence::listed(vm, j as int));
            let (mh, k) = choose|mh: int, k: int|
                0 <= mh < vm.len() && 0 <= k < vm[mh]@.len() && #[trigger] vm[mh]@[k] as int
                    == j as int;
            let arr = arrivals(ws, bones, mh);
            lemma_arrivals_wf(ws, bones, mh, cn as int);
            lemma_run_arrivals_in_range(arr);
        }
        let normalized = SkinQuad {
            b0: q.b0,
            b1: q.b1,
            b2: q.b2,
            b3: q.b3,
            w0: norm_weight_exec(q.w0, total),
            w1: norm_weight_exec(q.w1, total),
            w2: norm_weight_exec(q.w2, total),
            w3: norm_weight_exec(q.w3, total),
        };
        quads[j] = normalized;
        proof {
            assert forall|mh: int, k: int|
                0 <= mh < cn && 0 <= k < vm[mh]@.len() && (vm[mh]@[k] as int) < j + 1 implies {
                &&& quad_total(run_arrivals(arrivals(ws, bones, mh))) > 0
                &&& quad_model(quads@[#[trigger] vm[mh]@[k] as int]) == normalize_quad(
                    run_arrivals(arrivals(ws, bones, mh)),
                )
            } by {
                if vm[mh]@[k] as int == j as int {
                    assert(quad_model(q) == run_arrivals(arrivals(ws, bones, mh)));
                    assert(quad_total(quad_model(q)) == total as int);
                    assert(quad_model(quads@[j as int]) =~= normalize_quad(quad_model(q)));
                }
            }
        }
        j += 1;
    }
    proof {
        assert forall|mh: int|
            0 <= mh < cn && vm[mh]@.len() > 0 implies #[trigger] quad_total(
            run_arrivals(arrivals(ws, bones, mh)),
        ) > 0 by {
            let v = vm[mh]@[0] as int;
            assert(0 <= v < render_count);
            assert(quad_model(quads@[v]) == normalize_quad(run_arrivals(arrivals(ws, bones, mh))));
        }
    }
    Ok(quads)
}

/// Every arrival weight is positive and bounded, when the rig's tables
/// are well-formed.
pub proof fn lemma_arrivals_wf(
    ws: Seq<(String, Vec<(u16, i64)>)>,
    bones: Seq<String>,
    mh: int,
    n: int,
)
    requires
        forall|b: int| 0 <= b < ws.len() ==> table_wf((#[trigger] ws[b]).1@, n),
    ensures
        forall|i: int|
            0 <= i < arrivals(ws, bones, mh).len()
                ==> 0 < (#[trigger] arrivals(ws, bones, mh)[i]).1 <= MAG_LIMIT,
    decreases bones.len(),
{
    if bones.len() > 0 {
        lemma_arrivals_wf(ws, bones.drop_last(), mh, n);
        let rest = arrivals(ws, bones.drop_last(), mh);
        let full = arrivals(ws, bones, mh);
        let ti = table_index(ws, bones.last()@);
        lemma_table_index_props(ws, bones.last()@);
        if ti != -1 {
            lemma_weight_in_bounded(ws[ti].1@, mh);
        }
        assert forall|i: int| 0 <= i < full.len() implies 0 < (#[trigger] full[i]).1
            <= MAG_LIMIT by {
            if ti != -1 && weight_in(ws[ti].1@, mh) > 0 {
                if i < rest.len() {
                    assert(full[i] == rest[i]);
                } else {
                    assert(full[i] == ((bones.len() - 1) as int, weight_in(ws[ti].1@, mh)));
                }
            } else {
                assert(full == rest);
                assert(full[i] == rest[i]);
            }
        }
    }
}

/// A well-formed table's weight for any vertex is within bounds.
pub proof fn lemma_weight_in_bounded(entries: Seq<(u16, i64)>, mh: int)
    requires
        forall|k: int| 0 <= k < entries.len() ==> 0 <= (#[trigger] entries[k]).1 <= MAG_LIMIT,
        forall|k1: int, k2: int|
            0 <= k1 < k2 < entries.len()
                ==> (#[trigger] entries[k1]).0 != (#[trigger] entries[k2]).0,
    ensures
        0 <= weight_in(entries, mh) <= MAG_LIMIT,
    decreases entries.len(),
{
    if entries.len() > 0 {
        assert(forall|k: int|
            0 <= k < entries.drop_last().len()
                ==> #[trigger] entries.drop_last()[k] == entries[k]);
        if entries.last().0 == mh {
            assert(forall|k: int|
                0 <= k < entries.drop_last().len()
                    ==> ((#[trigger] entries.drop_last()[k]).0 as int) != mh);
            lemma_weight_in_absent(entries.drop_last(), mh);
        } else {
            lemma_weight_in_bounded(entries.drop_last(), mh);
        }
    }
}

/// An empty arrival list leaves the total at zero; any arrival keeps it
/// positive (inserted weights are positive and never overwritten by
/// smaller-than-everything evictions into an all-positive quad).
pub proof fn lemma_run_arrivals_total(arr: Seq<(int, int)>)
    requires
        forall|i: int| 0 <= i < arr.len() ==> 0 < (#[trigger] arr[i]).1 <= MAG_LIMIT,
    ensures
        arr.len() == 0 ==> quad_total(run_arrivals(arr)) == 0,
        arr.len() > 0 ==> quad_total(run_arrivals(arr)) > 0,
    decreases arr.len(),
{
    if arr.len() > 0 {
        assert(forall|i: int|
            0 <= i < arr.drop_last().len() ==> #[trigger] arr.drop_last()[i] == arr[i]);
        lemma_run_arrivals_total(arr.drop_last());
        lemma_run_arrivals_in_range(arr.drop_last());
    }
}

/// A weight table with bounded non-negative weights, each canonical
/// vertex listed at most once (no bound on the ids themselves).
pub open spec fn table_bounded(entries: Seq<(u16, i64)>) -> bool {
    &&& forall|k: int|
        0 <= k < entries.len() ==> 0 <= (#[trigger] entries[k]).1 <= MAG_LIMIT
    &&& forall|k1: int, k2: int|
        0 <= k1 < k2 < entries.len()
            ==> (#[trigger] entries[k1]).0 != (#[trigger] entries[k2]).0
}

/// All of a rig's tables are bounded.
pub open spec fn rig_weights_bounded(w: RigWeights) -> bool {
    forall|b: int| 0 <= b < w.bones@.len() ==> table_bounded((#[trigger] w.bones@[b]).1@)
}

/// Looks up the weight a sparse table assigns to one canonical vertex.
fn table_weight(entries: &Vec<(u16, i64)>, v: u16) -> (r: i64)
    requires
        table_bounded(entries@),
    ensures
        r as int == weight_in(entries@, v as int),
        0 <= r <= MAG_LIMIT,
{
    let ghost es = entries@;
    let ne: usize = entries.len();
    let mut acc: i64 = 0;
    let mut k: usize = 0;
    while k < ne
        invariant
            es == entries@,
            ne == es.len(),
            table_bounded(es),
            k <= ne,
            acc as int == weight_in(es.take(k as int), v as int),
            0 <= acc <= MAG_LIMIT,
        decreases ne - k,
    {
        proof {
            assert(es.take(k as int + 1).drop_last() =~= es.take(k as int));
            assert(es.take(k as int + 1).last() == es[k as int]);
        }
        let pair: (u16, i64) = entries[k];
        if pair.0 == v {
            proof {
                assert(forall|k2: int|
                    0 <= k2 < k ==> ((#[trigger] es.take(k as int)[k2]).0 as int) != v as int);
                lemma_weight_in_absent(es.take(k as int), v as int);
            }
            acc = acc + pair.1;
        }
        k += 1;
    }
    proof {
        assert(es.take(ne as int) =~= es);
    }
    acc
}

/// A triangulated helper mapping carries normalized barycentric
/// weights: each corner weight lies between zero and one.
pub open spec fn hm_unit_weights(hm: crate::assets::HelperMap) -> bool {
    match hm {
        crate::assets::HelperMap::Single(v) => true,
        crate::assets::HelperMap::Triangulated(t) => {
            &&& 0 <= t.w0 <= SCALE
            &&& 0 <= t.w1 <= SCALE
            &&& 0 <= t.w2 <= SCALE
        },
    }
}

/// The candidate bones of one asset vertex, in bone order: a bone is a
/// candidate when its table gives a positive weight to the mapped
/// canonical vertex (for a single mapping) or to at least one triangle
/// corner.  Its contribution sums the corner weights scaled by the
/// barycentric weights.
pub open spec fn cands(
    ws: Seq<(String, Vec<(u16, i64)>)>,
    bones: Seq<String>,
    hm: crate::assets::HelperMap,
) -> Seq<(int, int)>
    decreases bones.len(),
{
    if bones.len() == 0 {
        Seq::empty()
    } else {
        let rest = cands(ws, bones.drop_last(), hm);
        let bi = bones.len() - 1;
        let ti = table_index(ws, bones.last()@);
        if ti == -1 {
            rest
        } else {
            match hm {
                crate::assets::HelperMap::Single(v) => {
                    let w = weight_in(ws[ti].1@, v as int);
                    if w > 0 {
                        rest.push((bi as int, w))
                    } else {
                        rest
                    }
                },
                crate::assets::HelperMap::Triangulated(t) => {
                    let w0 = weight_in(ws[ti].1@, t.v0 as int);
                    let w1 = weight_in(ws[ti].1@, t.v1 as int);
                    let w2 = weight_in(ws[ti].1@, t.v2 as int);
                    if w0 > 0 || w1 > 0 || w2 > 0 {
                        let c = (if w0 > 0 {
                            crate::fixed::scaled(w0, t.w0 as int)
                        } else {
                            0int
                        }) + (if w1 > 0 {
                            crate::fixed::scaled(w1, t.w1 as int)
                        } else {
                            0int
                        }) + (if w2 > 0 {
                            crate::fixed::scaled(w2, t.w2 as int)
                        } else {
                            0int
                        });
                        rest.push((bi as int, c))
                    } else {
                        rest
                    }
                },
            }
        }
    }
}

/// Candidate contributions are non-negative and at most three times the
/// weight bound.
pub proof fn lemma_cands_bounds(
    ws: Seq<(String, Vec<(u16, i64)>)>,
    bones: Seq<String>,
    hm: crate::assets::HelperMap,
)
    requires
        forall|b: int| 0 <= b < ws.len() ==> table_bounded((#[trigger] ws[b]).1@),
        hm_unit_weights(hm),
    ensures
        forall|i: int|
            0 <= i < cands(ws, bones, hm).len() ==> {
                &&& 0 <= (#[trigger] cands(ws, bones, hm)[i]).1 <= 3 * MAG_LIMIT
                &&& 0 <= cands(ws, bones, hm)[i].0 < bones.len()
            },
    decreases bones.len(),
{
    if bones.len() > 0 {
        lemma_cands_bounds(ws, bones.drop_last(), hm);
        let rest = cands(ws, bones.drop_last(), hm);
        let full = cands(ws, bones, hm);
        let ti = table_index(ws, bones.last()@);
        lemma_table_index_props(ws, bones.last()@);
        if ti != -1 {
            match hm {
                crate::assets::HelperMap::Single(v) => {
                    lemma_weight_in_bounded(ws[ti].1@, v as int);
                },
                crate::assets::HelperMap::Triangulated(t) => {
                    lemma_weight_in_bounded(ws[ti].1@, t.v0 as int);
                    lemma_weight_in_bounded(ws[ti].1@, t.v1 as int);
                    lemma_weight_in_bounded(ws[ti].1@, t.v2 as int);
                    crate::fixed::lemma_scaled_by_unit_weight(
                        weight_in(ws[ti].1@, t.v0 as int),
                        t.w0 as int,
                    );
                    crate::fixed::lemma_scaled_by_unit_weight(
                        weight_in(ws[ti].1@, t.v1 as int),
                        t.w1 as int,
                    );
                    crate::fixed::lemma_scaled_by_unit_weight(
                        weight_in(ws[ti].1@, t.v2 as int),
                        t.w2 as int,
                    );
                    crate::fixed::lemma_scaled_nonneg(
                        weight_in(ws[ti].1@, t.v0 as int),
                        t.w0 as int,
                    );
                    crate::fixed::lemma_scaled_nonneg(
                        weight_in(ws[ti].1@, t.v1 as int),
                        t.w1 as int,
                    );
                    crate::fixed::lemma_scaled_nonneg(
                        weight_in(ws[ti].1@, t.v2 as int),
                        t.w2 as int,
                    );
                },
            }
        }
        assert forall|i: int| 0 <= i < full.len() implies {
            &&& 0 <= (#[trigger] full[i]).1 <= 3 * MAG_LIMIT
            &&& 0 <= full[i].0 < bones.len()
        } by {
            if i < rest.len() {
                assert(full[i] == rest[i]);
            }
        }
    }
}

/// Bone `i` of the candidate list outranks bone `j`: it holds a larger
/// contribution, or the same contribution and the earlier position.
pub open spec fn beats(cs: Seq<(int, int)>, i: int, j: int) -> bool {
    cs[i].1 > cs[j].1 || (cs[i].1 == cs[j].1 && i < j)
}

/// How many of the first `upto` candidates outrank candidate `i`.
pub open spec fn rank_below(cs: Seq<(int, int)>, i: int, upto: int) -> int
    decreases upto,
{
    if upto <= 0 {
        0
    } else {
        rank_below(cs, i, upto - 1) + if beats(cs, upto - 1, i) {
            1int
        } else {
            0int
        }
    }
}

/// The candidate's rank among all candidates.
pub open spec fn rank_of(cs: Seq<(int, int)>, i: int) -> int {
    rank_below(cs, i, cs.len() as int)
}

/// The true top four by magnitude: candidates outranked by fewer than
/// four others are kept.
pub open spec fn kept(cs: Seq<(int, int)>, i: int) -> bool {
    rank_of(cs, i) < 4
}

/// How many of the first `upto` candidates are kept.
pub open spec fn kept_below(cs: Seq<(int, int)>, upto: int) -> int
    decreases upto,
{
    if upto <= 0 {
        0
    } else {
        kept_below(cs, upto - 1) + if kept(cs, upto - 1) {
            1int
        } else {
            0int
        }
    }
}

/// The raw quad of one asset vertex: the kept candidates, in bone
/// order, written into the first four slots.
pub open spec fn fold_place(cs: Seq<(int, int)>, upto: int) -> Seq<(int, int)>
    decreases upto,
{
    if upto <= 0 {
        quad_empty()
    } else {
        let rest = fold_place(cs, upto - 1);
        if kept(cs, upto - 1) && kept_below(cs, upto - 1) < 4 {
            rest.update(kept_below(cs, upto - 1), (cs[upto - 1].0, cs[upto - 1].1))
        } else {
            rest
        }
    }
}

/// The finished raw quad of a candidate list.
pub open spec fn placed_quad(cs: Seq<(int, int)>) -> Seq<(int, int)> {
    fold_place(cs, cs.len() as int)
}

/// Placing bounded candidates keeps every slot bounded.
pub proof fn lemma_fold_place_in_range(cs: Seq<(int, int)>, upto: int)
    requires
        forall|i: int| 0 <= i < cs.len() ==> 0 <= (#[trigger] cs[i]).1 <= 3 * MAG_LIMIT,
        upto <= cs.len(),
    ensures
        fold_place(cs, upto).len() == 4,
        0 <= kept_below(cs, upto) <= if upto <= 0 {
            0int
        } else {
            upto
        },
        forall|s: int|
            0 <= s < 4 ==> 0 <= (#[trigger] fold_place(cs, upto)[s]).1 <= 3 * MAG_LIMIT,
    decreases upto,
{
    if upto <= 0 {
        assert(fold_place(cs, upto) == quad_empty());
        assert(quad_empty().len() == 4);
        assert forall|s: int| 0 <= s < 4 implies 0 <= (#[trigger] fold_place(cs, upto)[s]).1 <= 3
            * MAG_LIMIT by {
            assert(quad_empty()[s].1 == 0);
        }
    } else {
        lemma_fold_place_in_range(cs, upto - 1);
        let rest = fold_place(cs, upto - 1);
        let full = fold_place(cs, upto);
        if kept(cs, upto - 1) && kept_below(cs, upto - 1) < 4 {
            assert(full == rest.update(kept_below(cs, upto - 1), (cs[upto - 1].0, cs[upto - 1].1)));
            assert forall|s: int| 0 <= s < 4 implies 0 <= (#[trigger] full[s]).1 <= 3
                * MAG_LIMIT by {
                if s != kept_below(cs, upto - 1) {
                    assert(full[s] == rest[s]);
                }
            }
        } else {
            assert(full == rest);
        }
    }
}

/// Computes the raw (unnormalized) skinning quad of one asset vertex:
/// gathers the candidate bones through the vertex helper mapping and
/// keeps the true top four contributions by magnitude.
#[verifier::rlimit(100)]
pub fn asset_vertex_quad(
    weights: &RigWeights,
    sorted_bones: &Vec<String>,
    hm: crate::assets::HelperMap,
) -> (q: SkinQuad)
    requires
        rig_weights_bounded(*weights),
        sorted_bones@.len() <= 0x10000,
        hm_unit_weights(hm),
    ensures
        quad_model(q) == placed_quad(cands(weights.bones@, sorted_bones@, hm)),
{
    let ghost ws = weights.bones@;
    let ghost bones = sorted_bones@;
    let nb: usize = sorted_bones.len();

    let mut cvec: Vec<(u16, i64)> = Vec::new();
    let mut b: usize = 0;
    while b < nb
        invariant
            ws == weights.bones@,
            bones == sorted_bones@,
            nb == bones.len(),
            nb <= 0x10000,
            rig_weights_bounded(*weights),
            hm_unit_weights(hm),
            b <= nb,
            cvec@.len() == cands(ws, bones.take(b as int), hm).len(),
            forall|i: int|
                0 <= i < cvec@.len() ==> {
                    &&& ((#[trigger] cvec@[i]).0 as int, cvec@[i].1 as int) == cands(
                        ws,
                        bones.take(b as int),
                        hm,
                    )[i]
                    &&& 0 <= cvec@[i].1 <= 3 * MAG_LIMIT
                },
        decreases nb - b,
    {
        proof {
            assert(bones.take(b as int + 1).drop_last() =~= bones.take(b as int));
            assert(bones.take(b as int + 1).last() == bones[b as int]);
        }
        let name: &String = &sorted_bones[b];
        match find_table(weights, name) {
            None => {},
            Some(tix) => {
                proof {
                    lemma_table_index_props(ws, name@);
                }
                match hm {
                    crate::assets::HelperMap::Single(v) => {
                        let w = table_weight(&weights.bones[tix].1, v);
                        if w > 0 {
                            cvec.push((b as u16, w));
                        }
                    },
                    crate::assets::HelperMap::Triangulated(t) => {
                        let w0 = table_weight(&weights.bones[tix].1, t.v0);
                        let w1 = table_weight(&weights.bones[tix].1, t.v1);
                        let w2 = table_weight(&weights.bones[tix].1, t.v2);
                        if w0 > 0 || w1 > 0 || w2 > 0 {
                            proof {
                                crate::fixed::lemma_scaled_by_unit_weight(w0 as int, t.w0 as int);
                                crate::fixed::lemma_scaled_by_unit_weight(w1 as int, t.w1 as int);
                                crate::fixed::lemma_scaled_by_unit_weight(w2 as int, t.w2 as int);
                                crate::fixed::lemma_scaled_nonneg(w0 as int, t.w0 as int);
                                crate::fixed::lemma_scaled_nonneg(w1 as int, t.w1 as int);
                                crate::fixed::lemma_scaled_nonneg(w2 as int, t.w2 as int);
                            }
                            let c0: i64 = if w0 > 0 {
                                crate::fixed::mul_scaled(w0, t.w0)
                            } else {
                                0
                            };
                            let c1: i64 = if w1 > 0 {
                                crate::fixed::mul_scaled(w1, t.w1)
                            } else {
                                0
                            };
                            let c2: i64 = if w2 > 0 {
                                crate::fixed::mul_scaled(w2, t.w2)
                            } else {
                                0
                            };
                            cvec.push((b as u16, c0 + c1 + c2));
                        }
                    },
                }
            },
        }
        b += 1;
    }
    proof {
        assert(bones.take(nb as int) =~= bones);
    }
    let ghost cs = cands(ws, bones, hm);
    proof {
        assert forall|i: int| 0 <= i < cvec@.len() implies ((#[trigger] cvec@[i]).0 as int,
        cvec@[i].1 as int) == cs[i] by {}
    }

    let cn: usize = cvec.len();
    let zero_quad = SkinQuad { b0: 0, b1: 0, b2: 0, b3: 0, w0: 0, w1: 0, w2: 0, w3: 0 };
    let mut q = zero_quad;
    let mut placed_cnt: usize = 0;
    proof {
        assert(quad_model(zero_quad) =~= quad_empty());
    }
    let mut i: usize = 0;
    while i < cn
        invariant
            cs == cands(ws, bones, hm),
            cn == cvec@.len(),
            cn == cs.len(),
            forall|i2: int|
                0 <= i2 < cn ==> {
                    &&& ((#[trigger] cvec@[i2]).0 as int, cvec@[i2].1 as int) == cs[i2]
                    &&& 0 <= cvec@[i2].1 <= 3 * MAG_LIMIT
                },
            i <= cn,
            placed_cnt <= i,
            placed_cnt == kept_below(cs, i as int),
            quad_model(q) == fold_place(cs, i as int),
        decreases cn - i,
    {
        let ci: (u16, i64) = cvec[i];
        let mut cnt: usize = 0;
        let mut j2: usize = 0;
        while j2 < cn
            invariant
                cs == cands(ws, bones, hm),
                cn == cvec@.len(),
                cn == cs.len(),
                forall|i2: int|
                    0 <= i2 < cn ==> ((#[trigger] cvec@[i2]).0 as int, cvec@[i2].1 as int)
                        == cs[i2],
                i < cn,
                ci == cvec@[i as int],
                j2 <= cn,
                cnt == rank_below(cs, i as int, j2 as int),
                cnt <= j2,
            decreases cn - j2,
        {
            let cj: (u16, i64) = cvec[j2];
            if cj.1 > ci.1 || (cj.1 == ci.1 && j2 < i) {
                proof {
                    assert(beats(cs, j2 as int, i as int));
                }
                cnt += 1;
            } else {
                proof {
                    assert(!beats(cs, j2 as int, i as int));
                }
            }
            j2 += 1;
        }
        proof {
            assert(cnt == rank_of(cs, i as int));
        }
        if cnt < 4 {
            if placed_cnt < 4 {
                let ghost m = quad_model(q);
                if placed_cnt == 0 {
                    q.b0 = ci.0;
                    q.w0 = ci.1;
                    proof {
                        assert(quad_model(q) =~= m.update(0, (ci.0 as int, ci.1 as int)));
                    }
                } else if placed_cnt == 1 {
                    q.b1 = ci.0;
                    q.w1 = ci.1;
                    proof {
                        assert(quad_model(q) =~= m.update(1, (ci.0 as int, ci.1 as int)));
                    }
                } else if placed_cnt == 2 {
                    q.b2 = ci.0;
                    q.w2 = ci.1;
                    proof {
                        assert(quad_model(q) =~= m.update(2, (ci.0 as int, ci.1 as int)));
                    }
                } else {
                    q.b3 = ci.0;
                    q.w3 = ci.1;
                    proof {
                        assert(quad_model(q) =~= m.update(3, (ci.0 as int, ci.1 as int)));
                    }
                }
            }
            placed_cnt += 1;
        }
        i += 1;
    }
    q
}

/// Builds an asset mesh's skinning quads: per asset vertex, bone
/// contributions are gathered through its helper mapping (direct copy
/// for a single mapping; barycentric-weighted and summed per bone for a
/// triangle), the true top four by magnitude are kept, and the kept
/// weights are renormalized to sum to one.  An asset vertex whose
/// mapped render vertices would end with zero total weight is a fatal
/// data error, reported for the lowest such asset vertex id.  Render
/// vertices outside the asset's vertex map keep all-zero quads.
#[verifier::rlimit(100)]
pub fn set_asset_rig_arrays(
    weights: &RigWeights,
    sorted_bones: &Vec<String>,
    helper_maps: &Vec<crate::assets::HelperMap>,
    vertex_map: &Vec<Vec<u16>>,
    render_count: usize,
) -> (r: Result<Vec<SkinQuad>, DataConsistencyError>)
    requires
        rig_weights_bounded(*weights),
        sorted_bones@.len() <= 0x10000,
        helper_maps@.len() == vertex_map@.len(),
        vertex_map@.len() <= 0x10000,
        forall|a: int| 0 <= a < helper_maps@.len() ==> hm_unit_weights(#[trigger] helper_maps@[a]),
        crate::correspondence::entries_within(vertex_map@, render_count as int),
        crate::correspondence::entries_disjoint(vertex_map@),
    ensures
        (r matches Ok(quads) ==> {
            &&& quads@.len() == render_count
            &&& forall|a: int|
                0 <= a < vertex_map@.len() && vertex_map@[a]@.len() > 0
                    ==> #[trigger] quad_total(
                        placed_quad(cands(weights.bones@, sorted_bones@, helper_maps@[a])),
                    ) > 0
            &&& forall|a: int, k: int|
                0 <= a < vertex_map@.len() && 0 <= k < vertex_map@[a]@.len()
                    ==> quad_model(
                        quads@[#[trigger] vertex_map@[a]@[k] as int],
                    ) == normalize_quad(
                        placed_quad(cands(weights.bones@, sorted_bones@, helper_maps@[a])),
                    )
            &&& forall|j: int|
                0 <= j < render_count && !crate::correspondence::listed(vertex_map@, j)
                    ==> quad_model(#[trigger] quads@[j]) == quad_empty()
        }),
        (r matches Err(e) ==> {
            &&& e matches DataConsistencyError::ZeroWeightVertex { vertex }
            &&& (vertex as int) < vertex_map@.len()
            &&& vertex_map@[vertex as int]@.len() > 0
            &&& quad_total(
                placed_quad(cands(weights.bones@, sorted_bones@, helper_maps@[vertex as int])),
            ) == 0
        }),
{
    let ghost ws = weights.bones@;
    let ghost bones = sorted_bones@;
    let ghost vm = vertex_map@;
    let ghost hms = helper_maps@;
    let na: usize = vertex_map.len();

    let zero_quad = SkinQuad { b0: 0, b1: 0, b2: 0, b3: 0, w0: 0, w1: 0, w2: 0, w3: 0 };
    proof {
        assert(quad_model(zero_quad) =~= quad_empty());
    }
    let mut quads: Vec<SkinQuad> = Vec::new();
    let mut j0: usize = 0;
    while j0 < render_count
        invariant
            j0 <= render_count,
            quads@.len() == j0,
            forall|j: int| 0 <= j < j0 ==> #[trigger] quads@[j] == zero_quad,
        decreases render_count - j0,
    {
        quads.push(zero_quad);
        j0 += 1;
    }

    let mut a: usize = 0;
    while a < na
        invariant
            ws == weights.bones@,
            bones == sorted_bones@,
            vm == vertex_map@,
            hms == helper_maps@,
            na == vm.len(),
            hms.len() == na,
            na <= 0x10000,
            rig_weights_bounded(*weights),
            bones.len() <= 0x10000,
            forall|a2: int| 0 <= a2 < na ==> hm_unit_weights(#[trigger] hms[a2]),
            crate::correspondence::entries_within(vm, render_count as int),
            crate::correspondence::entries_disjoint(vm),
            a <= na,
            quads@.len() == render_count,
            forall|a2: int|
                0 <= a2 < a && vm[a2]@.len() > 0
                    ==> #[trigger] quad_total(placed_quad(cands(ws, bones, hms[a2]))) > 0,
            forall|a2: int, k: int|
                0 <= a2 < a && 0 <= k < vm[a2]@.len()
                    ==> quad_model(quads@[#[trigger] vm[a2]@[k] as int]) == normalize_quad(
                        placed_quad(cands(ws, bones, hms[a2])),
                    ),
            forall|j: int|
                0 <= j < render_count && !crate::correspondence::listed(vm.take(a as int), j)
                    ==> #[trigger] quads@[j] == zero_quad,
        decreases na - a,
    {
        proof {
            assert forall|j: int|
                crate::correspondence::listed(vm.take(a as int), j) implies crate::correspondence::listed(
                vm.take(a as int + 1),
                j,
            ) by {
                let (i2, k2) = choose|i2: int, k2: int|
                    0 <= i2 < vm.take(a as int).len() && 0 <= k2 < vm.take(a as int)[i2]@.len()
                        && #[trigger] vm.take(a as int)[i2]@[k2] as int == j;
                assert(vm.take(a as int + 1)[i2]@[k2] as int == j);
            }
        }
        let q: SkinQuad = asset_vertex_quad(weights, sorted_bones, helper_maps[a]);
        let ghost cs = cands(ws, bones, hms[a as int]);
        let row_len: usize = vertex_map[a].len();
        if row_len > 0 {
            proof {
                lemma_cands_bounds(ws, bones, hms[a as int]);
                lemma_fold_place_in_range(cs, cs.len() as int);
                assert(quad_model(q) == placed_quad(cs));
                assert(0 <= q.w0 <= 3 * MAG_LIMIT);
                assert(0 <= q.w1 <= 3 * MAG_LIMIT);
                assert(0 <= q.w2 <= 3 * MAG_LIMIT);
                assert(0 <= q.w3 <= 3 * MAG_LIMIT);
            }
            let total: i64 = q.w0 + q.w1 + q.w2 + q.w3;
            proof {
                assert(total as int == quad_total(placed_quad(cs)));
            }
            if total == 0 {
                return Err(DataConsistencyError::ZeroWeightVertex { vertex: a as u16 });
            }
            let nq = SkinQuad {
                b0: q.b0,
                b1: q.b1,
                b2: q.b2,
                b3: q.b3,
                w0: norm_weight_exec(q.w0, total),
                w1: norm_weight_exec(q.w1, total),
                w2: norm_weight_exec(q.w2, total),
                w3: norm_weight_exec(q.w3, total),
            };
            proof {
                assert(quad_model(nq) =~= normalize_quad(placed_quad(cs)));
            }
            let mut k: usize = 0;
            while k < row_len
                invariant
                    ws == weights.bones@,
                    bones == sorted_bones@,
                    vm == vertex_map@,
                    hms == helper_maps@,
                    na == vm.len(),
                    hms.len() == na,
                    a < na,
                    row_len == vm[a as int]@.len(),
                    crate::correspondence::entries_within(vm, render_count as int),
                    crate::correspondence::entries_disjoint(vm),
                    cs == cands(ws, bones, hms[a as int]),
                    quad_model(nq) == normalize_quad(placed_quad(cs)),
                    quad_total(placed_quad(cs)) > 0,
                    k <= row_len,
                    quads@.len() == render_count,
                    forall|a2: int|
                        0 <= a2 < a && vm[a2]@.len() > 0
                            ==> #[trigger] quad_total(placed_quad(cands(ws, bones, hms[a2]))) > 0,
                    forall|a2: int, k2: int|
                        0 <= a2 < a && 0 <= k2 < vm[a2]@.len()
                            ==> quad_model(quads@[#[trigger] vm[a2]@[k2] as int])
                                == normalize_quad(placed_quad(cands(ws, bones, hms[a2]))),
                    forall|k2: int|
                        0 <= k2 < k
                            ==> quad_model(quads@[#[trigger] vm[a as int]@[k2] as int])
                                == normalize_quad(placed_quad(cs)),
                    forall|j: int|
                        0 <= j < render_count && !crate::correspondence::listed(
                            vm.take(a as int + 1),
                            j,
                        ) ==> #[trigger] quads@[j] == zero_quad,
                decreases row_len - k,
            {
                let vtx: u16 = vertex_map[a][k];
                quads[vtx as usize] = nq;
                proof {
                    assert(crate::correspondence::listed(vm.take(a as int + 1), vtx as int)) by {
                        assert(vm.take(a as int + 1)[a as int]@[k as int] == vtx);
                    }
                }
                k += 1;
            }
        }
        a += 1;
    }
    proof {
        assert(vm.take(na as int) =~= vm);
        assert forall|j: int|
            0 <= j < render_count && !crate::correspondence::listed(vm, j) implies quad_model(
            #[trigger] quads@[j],
        ) == quad_empty() by {
            assert(quads@[j] == zero_quad);
        }
    }
    Ok(quads)
}

/// Law: the quads the body variant returns hold non-negative weights
/// summing to one within the truncation of at most three micro-units.
pub proof fn lemma_body_quads_normalized(
    ws: Seq<(String, Vec<(u16, i64)>)>,
    bones: Seq<String>,
    mh: int,
    n: int,
)
    requires
        forall|b: int| 0 <= b < ws.len() ==> table_wf((#[trigger] ws[b]).1@, n),
        quad_total(run_arrivals(arrivals(ws, bones, mh))) > 0,
    ensures
        ({
            let q = run_arrivals(arrivals(ws, bones, mh));
            let t = quad_total(q);
            &&& forall|i: int| 0 <= i < 4 ==> norm_weight((#[trigger] q[i]).1, t) >= 0
            &&& SCALE - 3 <= norm_weight(q[0].1, t) + norm_weight(q[1].1, t) + norm_weight(
                q[2].1,
                t,
            ) + norm_weight(q[3].1, t) <= SCALE
        }),
{
    lemma_arrivals_wf(ws, bones, mh, n);
    lemma_run_arrivals_in_range(arrivals(ws, bones, mh));
    lemma_normalized_quad_sums(run_arrivals(arrivals(ws, bones, mh)));
}

/// Law: the quads the asset variant returns hold non-negative weights
/// summing to one within the truncation of at most three micro-units.
pub proof fn lemma_asset_quads_normalized(
    ws: Seq<(String, Vec<(u16, i64)>)>,
    bones: Seq<String>,
    hm: crate::assets::HelperMap,
)
    requires
        forall|b: int| 0 <= b < ws.len() ==> table_bounded((#[trigger] ws[b]).1@),
        hm_unit_weights(hm),
        quad_total(placed_quad(cands(ws, bones, hm))) > 0,
    ensures
        ({
            let q = placed_quad(cands(ws, bones, hm));
            let t = quad_total(q);
            &&& forall|i: int| 0 <= i < 4 ==> norm_weight((#[trigger] q[i]).1, t) >= 0
            &&& SCALE - 3 <= norm_weight(q[0].1, t) + norm_weight(q[1].1, t) + norm_weight(
                q[2].1,
                t,
            ) + norm_weight(q[3].1, t) <= SCALE
        }),
{
    lemma_cands_bounds(ws, bones, hm);
    lemma_fold_place_in_range(cands(ws, bones, hm), cands(ws, bones, hm).len() as int);
    lemma_normalized_quad_sums(placed_quad(cands(ws, bones, hm)));
}

} // verus!
