//! Vertex correspondence between the canonical body and a render mesh.
//!
//! A render mesh derives its vertices deterministically from the canonical
//! body, splitting some of them along UV seams, so matching by exact
//! position equality is valid: the forward map sends each canonical vertex
//! to the ascending list of render vertices at the same position, and the
//! inverse map sends each render vertex back to its one canonical vertex.

use vstd::prelude::*;
use crate::fixed::Vec3;
use crate::errors::CorrespondenceError;

verus! {

/// Ascending list of all render ids whose position is exactly `p`.
pub open spec fn matches_of(p: Vec3, rv: Seq<Vec3>) -> Seq<u16>
    decreases rv.len(),
{
    if rv.len() == 0 {
        Seq::empty()
    } else if rv.last() == p {
        matches_of(p, rv.drop_last()).push((rv.len() - 1) as u16)
    } else {
        matches_of(p, rv.drop_last())
    }
}

/// Render vertex `j` is claimed by the two distinct canonical vertices
/// `i1` and `i2`: the model is corrupt.
pub open spec fn both_claim(mh: Seq<Vec3>, rv: Seq<Vec3>, i1: int, i2: int, j: int) -> bool {
    0 <= i1 < i2 < mh.len() && 0 <= j < rv.len() && rv[j] == mh[i1] && rv[j] == mh[i2]
}

/// Some render vertex is claimed twice.
pub open spec fn has_duplicate(mh: Seq<Vec3>, rv: Seq<Vec3>) -> bool {
    exists|i1: int, i2: int, j: int| #[trigger] both_claim(mh, rv, i1, i2, j)
}

/// Render vertex `render` in particular is claimed twice.
pub open spec fn duplicate_at(mh: Seq<Vec3>, rv: Seq<Vec3>, render: u16) -> bool {
    exists|i1: int, i2: int| #[trigger] both_claim(mh, rv, i1, i2, render as int)
}

/// Render vertex `j` matches one of the first `n` canonical vertices.
pub open spec fn matched_below(mh: Seq<Vec3>, rv: Seq<Vec3>, j: int, n: int) -> bool {
    exists|i: int| 0 <= i < n && rv[j] == #[trigger] mh[i]
}

/// Some render vertex matches no canonical vertex at all.
pub open spec fn has_unmatched(mh: Seq<Vec3>, rv: Seq<Vec3>) -> bool {
    exists|j: int| 0 <= j < rv.len() && !#[trigger] matched_below(mh, rv, j, mh.len() as int)
}

/// No render vertex is claimed twice among the first `n` canonical rows.
spec fn no_dup_below(mh: Seq<Vec3>, rv: Seq<Vec3>, n: int) -> bool {
    forall|i1: int, i2: int, j: int| i2 < n ==> !#[trigger] both_claim(mh, rv, i1, i2, j)
}

/// A render id stands in `matches_of(p, rv)` exactly when its position
/// is `p`.
pub proof fn lemma_matches_of_iff(p: Vec3, rv: Seq<Vec3>, j: u16)
    requires
        rv.len() <= 0x10000,
    ensures
        matches_of(p, rv).contains(j) <==> ((j as int) < rv.len() && rv[j as int] == p),
    decreases rv.len(),
{
    if rv.len() > 0 {
        let pre = matches_of(p, rv.drop_last());
        let s = matches_of(p, rv);
        lemma_matches_of_iff(p, rv.drop_last(), j);
        assert(rv.drop_last().len() == rv.len() - 1);
        assert(forall|i: int| 0 <= i < rv.len() - 1 ==> #[trigger] rv.drop_last()[i] == rv[i]);
        if rv.last() == p {
            let last_id = (rv.len() - 1) as u16;
            assert(s == pre.push(last_id));
            if s.contains(j) {
                let k = choose|k: int| 0 <= k < s.len() && s[k] == j;
                if k < pre.len() {
                    assert(pre[k] == j);
                    assert(pre.contains(j));
                } else {
                    assert(j == last_id);
                }
            }
            if (j as int) < rv.len() && rv[j as int] == p {
                if (j as int) == rv.len() - 1 {
                    assert(s[pre.len() as int] == j);
                    assert(s.contains(j));
                } else {
                    assert(pre.contains(j));
                    let k = choose|k: int| 0 <= k < pre.len() && pre[k] == j;
                    assert(s[k] == j);
                    assert(s.contains(j));
                }
            }
        } else {
            assert(s == pre);
            if (j as int) < rv.len() && rv[j as int] == p {
                assert(j as int != rv.len() - 1);
            }
        }
    }
}

/// The ids in `matches_of` are strictly increasing, hence pairwise
/// distinct.
pub proof fn lemma_matches_of_increasing(p: Vec3, rv: Seq<Vec3>)
    requires
        rv.len() <= 0x10000,
    ensures
        forall|k1: int, k2: int|
            0 <= k1 < k2 < matches_of(p, rv).len()
                ==> #[trigger] matches_of(p, rv)[k1] < #[trigger] matches_of(p, rv)[k2],
        forall|k: int|
            0 <= k < matches_of(p, rv).len()
                ==> (#[trigger] matches_of(p, rv)[k] as int) < rv.len(),
    decreases rv.len(),
{
    if rv.len() > 0 {
        lemma_matches_of_increasing(p, rv.drop_last());
        let pre = matches_of(p, rv.drop_last());
        let s = matches_of(p, rv);
        if rv.last() == p {
            let last_id = (rv.len() - 1) as u16;
            assert(s == pre.push(last_id));
            assert forall|k1: int, k2: int| 0 <= k1 < k2 < s.len() implies #[trigger] s[k1]
                < #[trigger] s[k2] by {
                if k2 < pre.len() {
                    assert(s[k1] == pre[k1] && s[k2] == pre[k2]);
                } else {
                    assert(s[k2] == last_id);
                    assert(s[k1] == pre[k1]);
                    assert((pre[k1] as int) < rv.drop_last().len());
                }
            }
            assert forall|k: int| 0 <= k < s.len() implies (#[trigger] s[k] as int)
                < rv.len() by {
                if k < pre.len() {
                    assert(s[k] == pre[k]);
                    assert((pre[k] as int) < rv.drop_last().len());
                } else {
                    assert(s[k] == last_id);
                }
            }
        } else {
            assert(s == pre);
            assert forall|k: int| 0 <= k < s.len() implies (#[trigger] s[k] as int)
                < rv.len() by {
                assert((pre[k] as int) < rv.drop_last().len());
            }
        }
    }
}

/// Builds the forward map: canonical vertex id to the ascending list of
/// render ids at the same position.  Fails when a render vertex is
/// claimed by two canonical vertices (`DuplicateVertex`, reported on the
/// first such render vertex in scan order) or when a render vertex is
/// claimed by none (`UnmatchedVertex`, the lowest such id).
pub fn generate_vertex_map(mh_vertices: &Vec<Vec3>, vertices: &Vec<Vec3>) -> (r: Result<
    Vec<Vec<u16>>,
    CorrespondenceError,
>)
    requires
        mh_vertices@.len() <= 0x10000,
        vertices@.len() <= 0x10000,
    ensures
        (r matches Ok(map) ==> {
            &&& !has_duplicate(mh_vertices@, vertices@)
            &&& !has_unmatched(mh_vertices@, vertices@)
            &&& map@.len() == mh_vertices@.len()
            &&& forall|i: int|
                0 <= i < map@.len()
                    ==> #[trigger] map@[i]@ == matches_of(mh_vertices@[i], vertices@)
        }),
        (r matches Err(CorrespondenceError::DuplicateVertex { render }) ==> {
            &&& has_duplicate(mh_vertices@, vertices@)
            &&& duplicate_at(mh_vertices@, vertices@, render)
        }),
        (r matches Err(CorrespondenceError::UnmatchedVertex { render }) ==> {
            &&& !has_duplicate(mh_vertices@, vertices@)
            &&& has_unmatched(mh_vertices@, vertices@)
            &&& (render as int) < vertices@.len()
            &&& !matched_below(mh_vertices@, vertices@, render as int, mh_vertices@.len() as int)
        }),
{
    let ghost mh = mh_vertices@;
    let ghost rv = vertices@;
    let cn: usize = mh_vertices.len();
    let rn: usize = vertices.len();
    let mut map: Vec<Vec<u16>> = Vec::new();
    let mut assigned: Vec<bool> = vec![false; rn];

    let mut i: usize = 0;
    while i < cn
        invariant
            mh == mh_vertices@,
            rv == vertices@,
            cn == mh.len(),
            rn == rv.len(),
            cn <= 0x10000,
            rn <= 0x10000,
            i <= cn,
            map@.len() == i,
            assigned@.len() == rn,
            forall|i2: int|
                0 <= i2 < i ==> #[trigger] map@[i2]@ == matches_of(mh[i2], rv),
            forall|j2: int|
                0 <= j2 < rn
                    ==> (#[trigger] assigned@[j2] <==> matched_below(mh, rv, j2, i as int)),
            no_dup_below(mh, rv, i as int),
        decreases cn - i,
    {
        let p = mh_vertices[i];
        let mut list: Vec<u16> = Vec::new();
        let mut j: usize = 0;
        while j < rn
            invariant
                mh == mh_vertices@,
                rv == vertices@,
                cn == mh.len(),
                rn == rv.len(),
                cn <= 0x10000,
                rn <= 0x10000,
                i < cn,
                j <= rn,
                p == mh[i as int],
                assigned@.len() == rn,
                list@ == matches_of(p, rv.take(j as int)),
                forall|j2: int|
                    0 <= j2 < rn
                        ==> (#[trigger] assigned@[j2] <==> (matched_below(mh, rv, j2, i as int)
                            || (j2 < j && rv[j2] == p))),
                forall|j2: int|
                    0 <= j2 < j && rv[j2] == p ==> !matched_below(mh, rv, j2, i as int),
                no_dup_below(mh, rv, i as int),
            decreases rn - j,
        {
            if vertices[j] == p {
                if assigned[j] {
                    proof {
                        assert(assigned@[j as int]);
                        assert(rv[j as int] == mh[i as int]);
                        assert(matched_below(mh, rv, j as int, i as int));
                        let iw = choose|iw: int|
                            0 <= iw < i as int && rv[j as int] == #[trigger] mh[iw];
                        assert(both_claim(mh, rv, iw, i as int, j as int));
                        assert(both_claim(mh_vertices@, vertices@, iw, i as int, (j as u16) as int));
                        assert(duplicate_at(mh_vertices@, vertices@, j as u16));
                        assert(has_duplicate(mh_vertices@, vertices@));
                    }
                    return Err(CorrespondenceError::DuplicateVertex { render: j as u16 });
                }
                assigned[j] = true;
                list.push(j as u16);
            }
            proof {
                assert(rv.take(j + 1 as int).drop_last() =~= rv.take(j as int));
                assert(rv.take(j + 1 as int).last() == rv[j as int]);
            }
            j += 1;
        }
        proof {
            assert(rv.take(rn as int) =~= rv);
            assert forall|i1: int, i2: int, j2: int| i2 < i + 1 implies !both_claim(
                mh,
                rv,
                i1,
                i2,
                j2,
            ) by {
                if both_claim(mh, rv, i1, i2, j2) {
                    assert(i2 == i);
                    assert(rv[j2] == p);
                    assert(matched_below(mh, rv, j2, i as int));
                }
            }
        }
        map.push(list);
        i += 1;
    }

    let mut j: usize = 0;
    while j < rn
        invariant
            mh == mh_vertices@,
            rv == vertices@,
            cn == mh.len(),
            rn == rv.len(),
            rn <= 0x10000,
            j <= rn,
            map@.len() == cn,
            assigned@.len() == rn,
            forall|i2: int|
                0 <= i2 < cn ==> #[trigger] map@[i2]@ == matches_of(mh[i2], rv),
            forall|j2: int|
                0 <= j2 < rn
                    ==> (#[trigger] assigned@[j2] <==> matched_below(mh, rv, j2, cn as int)),
            no_dup_below(mh, rv, cn as int),
            forall|j2: int| 0 <= j2 < j ==> matched_below(mh, rv, j2, cn as int),
        decreases rn - j,
    {
        if !assigned[j] {
            proof {
                assert forall|i1: int, i2: int, j2: int| !both_claim(mh, rv, i1, i2, j2) by {}
            }
            return Err(CorrespondenceError::UnmatchedVertex { render: j as u16 });
        }
        j += 1;
    }
    proof {
        assert forall|i1: int, i2: int, j2: int| !both_claim(mh, rv, i1, i2, j2) by {}
        assert(!has_unmatched(mh, rv));
    }
    Ok(map)
}

/// The inverse map agrees with the forward map everywhere the forward
/// map speaks.
pub open spec fn is_inverse_of(inv: Seq<u16>, map: Seq<Vec<u16>>) -> bool {
    forall|i: int, k: int|
        0 <= i < map.len() && 0 <= k < map[i]@.len()
            ==> (#[trigger] map[i]@[k] as int) < inv.len() && inv[map[i]@[k] as int] as int == i
}

/// Every forward entry stays below the render vertex count `n`.
pub open spec fn entries_within(map: Seq<Vec<u16>>, n: int) -> bool {
    forall|i: int, k: int|
        0 <= i < map.len() && 0 <= k < map[i]@.len() ==> (#[trigger] map[i]@[k] as int) < n
}

/// No render id stands in two forward entries.
pub open spec fn entries_disjoint(map: Seq<Vec<u16>>) -> bool {
    forall|i1: int, k1: int, i2: int, k2: int|
        0 <= i1 < map.len() && 0 <= k1 < map[i1]@.len() && 0 <= i2 < map.len() && 0 <= k2
            < map[i2]@.len() && (i1 != i2 || k1 != k2)
            ==> #[trigger] map[i1]@[k1] != #[trigger] map[i2]@[k2]
}

/// Render id `j` stands in some forward entry.
pub open spec fn listed(map: Seq<Vec<u16>>, j: int) -> bool {
    exists|i: int, k: int|
        0 <= i < map.len() && 0 <= k < map[i]@.len() && #[trigger] map[i]@[k] as int == j
}

/// Every render id below `n` stands in some forward entry.
pub open spec fn entries_total(map: Seq<Vec<u16>>, n: int) -> bool {
    forall|j: int| 0 <= j < n ==> #[trigger] listed(map, j)
}

/// Derives the inverse map (render id to canonical id) from a complete,
/// conflict-free forward map over `render_count` render vertices.
pub fn generate_inverse_vertex_map(map: &Vec<Vec<u16>>, render_count: usize) -> (r: Vec<u16>)
    requires
        map@.len() <= 0x10000,
        entries_within(map@, render_count as int),
        entries_disjoint(map@),
    ensures
        r@.len() == render_count,
        is_inverse_of(r@, map@),
{
    let ghost m = map@;
    let cn: usize = map.len();
    let mut inv: Vec<u16> = vec![0u16; render_count];
    let mut i: usize = 0;
    while i < cn
        invariant
            m == map@,
            cn == m.len(),
            cn <= 0x10000,
            inv@.len() == render_count,
            entries_within(m, render_count as int),
            entries_disjoint(m),
            i <= cn,
            forall|i2: int, k: int|
                0 <= i2 < i && 0 <= k < m[i2]@.len()
                    ==> inv@[#[trigger] m[i2]@[k] as int] as int == i2,
        decreases cn - i,
    {
        let row_len: usize = map[i].len();
        let mut k: usize = 0;
        while k < row_len
            invariant
                m == map@,
                cn == m.len(),
                cn <= 0x10000,
                inv@.len() == render_count,
                entries_within(m, render_count as int),
                entries_disjoint(m),
                i < cn,
                k <= row_len,
                row_len == m[i as int]@.len(),
                forall|i2: int, k2: int|
                    0 <= i2 < i && 0 <= k2 < m[i2]@.len()
                        ==> inv@[#[trigger] m[i2]@[k2] as int] as int == i2,
                forall|k2: int|
                    0 <= k2 < k ==> inv@[#[trigger] m[i as int]@[k2] as int] as int == i as int,
            decreases row_len - k,
        {
            let j = map[i][k];
            inv[j as usize] = i as u16;
            k += 1;
        }
        i += 1;
    }
    inv
}

/// Law: the inverse of a forward map returns every render id that a
/// canonical vertex's forward entry lists back to that canonical vertex.
pub proof fn lemma_correspondence_round_trip(map: Seq<Vec<u16>>, inv: Seq<u16>, i: int, j: u16)
    requires
        is_inverse_of(inv, map),
        0 <= i < map.len(),
        map[i]@.contains(j),
    ensures
        (j as int) < inv.len(),
        inv[j as int] as int == i,
{
    let k = choose|k: int| 0 <= k < map[i]@.len() && map[i]@[k] == j;
    assert(map[i]@[k] == j);
}

/// A forward map built by exact matching is within range, conflict-free
/// and complete, so the inverse map can be derived from it.
pub proof fn lemma_vertex_map_wf(mh: Seq<Vec3>, rv: Seq<Vec3>, map: Seq<Vec<u16>>)
    requires
        rv.len() <= 0x10000,
        map.len() == mh.len(),
        forall|i: int| 0 <= i < map.len() ==> #[trigger] map[i]@ == matches_of(mh[i], rv),
        !has_duplicate(mh, rv),
        !has_unmatched(mh, rv),
    ensures
        entries_within(map, rv.len() as int),
        entries_disjoint(map),
        entries_total(map, rv.len() as int),
{
    assert forall|i: int, k: int|
        0 <= i < map.len() && 0 <= k < map[i]@.len() implies (#[trigger] map[i]@[k] as int)
        < rv.len() by {
        lemma_matches_of_increasing(mh[i], rv);
    }
    assert forall|i1: int, k1: int, i2: int, k2: int|
        0 <= i1 < map.len() && 0 <= k1 < map[i1]@.len() && 0 <= i2 < map.len() && 0 <= k2
            < map[i2]@.len() && (i1 != i2 || k1 != k2) implies #[trigger] map[i1]@[k1]
        != #[trigger] map[i2]@[k2] by {
        lemma_matches_of_increasing(mh[i1], rv);
        lemma_matches_of_increasing(mh[i2], rv);
        if map[i1]@[k1] == map[i2]@[k2] {
            let j = map[i1]@[k1];
            lemma_matches_of_iff(mh[i1], rv, j);
            lemma_matches_of_iff(mh[i2], rv, j);
            assert(matches_of(mh[i1], rv).contains(j)) by {
                assert(matches_of(mh[i1], rv)[k1] == j);
            }
            assert(matches_of(mh[i2], rv).contains(j)) by {
                assert(matches_of(mh[i2], rv)[k2] == j);
            }
            if i1 != i2 {
                if i1 < i2 {
                    assert(both_claim(mh, rv, i1, i2, j as int));
                } else {
                    assert(both_claim(mh, rv, i2, i1, j as int));
                }
                assert(false);
            } else {
                assert(k1 != k2);
                assert(map[i1]@[k1] != map[i2]@[k2]);
            }
        }
    }
    assert forall|j: int| 0 <= j < rv.len() implies #[trigger] listed(map, j) by {
        assert(!(!matched_below(mh, rv, j, mh.len() as int)));
        let i = choose|i: int| 0 <= i < mh.len() && rv[j] == #[trigger] mh[i];
        lemma_matches_of_iff(mh[i], rv, j as u16);
        assert(matches_of(mh[i], rv).contains(j as u16));
        let k = choose|k: int|
            0 <= k < matches_of(mh[i], rv).len() && matches_of(mh[i], rv)[k] == j as u16;
        assert(map[i]@[k] as int == j);
    }
}

} // verus!
