//! Mesh surgery: removing occluded or helper geometry and compacting
//! what survives.
//!
//! Deletion is face-granular.  After the doomed faces are dropped, the
//! vertices no surviving face references are dropped too, the remaining
//! vertices are renumbered into a compact index space in ascending order
//! of their old ids, and the faces are remapped accordingly.  The
//! correspondence map of the result is invalid; callers rebuild it.

use vstd::prelude::*;
use vstd::arithmetic::div_mod::{lemma_fundamental_div_mod, lemma_div_multiples_vanish_fancy};
use crate::fixed::{Vec2, Vec3};
use crate::text::split_lines;

verus! {

/// A triangle-list mesh: parallel per-vertex buffers and a flat index
/// buffer holding three entries per face.  (Smooth normals and tangents
/// are recomputed outside whenever the geometry changes.)
#[derive(Debug, Clone)]
pub struct TriMesh {
    pub positions: Vec<Vec3>,
    pub normals: Vec<Vec3>,
    pub uvs: Vec<Vec2>,
    pub indices: Vec<u16>,
}

/// Parallel buffers agree in length, the index count is a multiple of
/// three and every index points at a vertex.
pub open spec fn mesh_wf(m: TriMesh) -> bool {
    &&& m.normals@.len() == m.positions@.len()
    &&& m.uvs@.len() == m.positions@.len()
    &&& m.indices@.len() % 3 == 0
    &&& forall|t: int|
        0 <= t < m.indices@.len() ==> (#[trigger] m.indices@[t] as int) < m.positions@.len()
}

/// Number of faces of the mesh.
pub open spec fn face_count(m: TriMesh) -> int {
    m.indices@.len() as int / 3
}

/// How many of the first `upto` flags are set.
pub open spec fn count_true(s: Seq<bool>, upto: int) -> int
    decreases upto,
{
    if upto <= 0 {
        0
    } else {
        count_true(s, upto - 1) + if s[upto - 1] {
            1int
        } else {
            0int
        }
    }
}

/// Counting never exceeds the range counted over.
pub proof fn lemma_count_true_bounds(s: Seq<bool>, upto: int)
    ensures
        0 <= count_true(s, upto) <= if upto <= 0 {
            0int
        } else {
            upto
        },
    decreases upto,
{
    if upto > 0 {
        lemma_count_true_bounds(s, upto - 1);
    }
}

/// Counting over a longer prefix never counts less.
pub proof fn lemma_count_true_mono(s: Seq<bool>, a: int, b: int)
    requires
        a <= b,
    ensures
        count_true(s, a) <= count_true(s, b),
    decreases b - a,
{
    if a < b {
        lemma_count_true_mono(s, a, b - 1);
    }
}

/// All flags set: the count is the whole range.
pub proof fn lemma_count_true_all(s: Seq<bool>, upto: int)
    requires
        forall|i: int| 0 <= i < upto ==> s[i],
    ensures
        count_true(s, upto) == if upto <= 0 {
            0int
        } else {
            upto
        },
    decreases upto,
{
    if upto > 0 {
        lemma_count_true_all(s, upto - 1);
    }
}

/// No flag set: the count is zero.
pub proof fn lemma_count_true_none(s: Seq<bool>, upto: int)
    requires
        forall|i: int| 0 <= i < upto ==> !s[i],
    ensures
        count_true(s, upto) == 0,
    decreases upto,
{
    if upto > 0 {
        lemma_count_true_none(s, upto - 1);
    }
}

/// Compacts a mesh: keeps the faces whose flag is set and the vertices
/// whose flag is set, renumbering kept vertices ascending.  The caller
/// guarantees that every kept face stands on kept vertices only.
#[verifier::rlimit(100)]
fn compact_mesh(mesh: &TriMesh, vkeep: &Vec<bool>, fkeep: &Vec<bool>) -> (out: TriMesh)
    requires
        mesh_wf(*mesh),
        mesh.positions@.len() <= 0x10000,
        vkeep@.len() == mesh.positions@.len(),
        fkeep@.len() == face_count(*mesh),
        forall|f: int, c: int|
            0 <= f < fkeep@.len() && fkeep@[f] && 0 <= c < 3
                ==> vkeep@[#[trigger] mesh.indices@[3 * f + c] as int],
    ensures
        mesh_wf(out),
        out.positions@.len() == count_true(vkeep@, vkeep@.len() as int),
        forall|j: int|
            0 <= j < vkeep@.len() && vkeep@[j]
                ==> #[trigger] out.positions@[count_true(vkeep@, j)] == mesh.positions@[j],
        forall|j: int|
            0 <= j < vkeep@.len() && vkeep@[j]
                ==> #[trigger] out.normals@[count_true(vkeep@, j)] == mesh.normals@[j],
        forall|j: int|
            0 <= j < vkeep@.len() && vkeep@[j]
                ==> #[trigger] out.uvs@[count_true(vkeep@, j)] == mesh.uvs@[j],
        out.indices@.len() == 3 * count_true(fkeep@, fkeep@.len() as int),
        forall|f: int, c: int|
            0 <= f < fkeep@.len() && fkeep@[f] && 0 <= c < 3
                ==> #[trigger] out.indices@[3 * count_true(fkeep@, f) + c] as int == count_true(
                    vkeep@,
                    mesh.indices@[3 * f + c] as int,
                ),
{
    let ghost vk = vkeep@;
    let ghost fk = fkeep@;
    let n: usize = mesh.positions.len();
    let ni: usize = mesh.indices.len();
    let nf: usize = fkeep.len();
    proof {
        lemma_fundamental_div_mod(ni as int, 3);
        assert(ni == 3 * nf);
    }

    let mut positions: Vec<Vec3> = Vec::new();
    let mut normals: Vec<Vec3> = Vec::new();
    let mut uvs: Vec<Vec2> = Vec::new();
    let mut remap: Vec<u16> = Vec::new();

    let mut j: usize = 0;
    while j < n
        invariant
            vk == vkeep@,
            n == mesh.positions@.len(),
            n <= 0x10000,
            mesh_wf(*mesh),
            vk.len() == n,
            j <= n,
            remap@.len() == j,
            positions@.len() == count_true(vk, j as int),
            normals@.len() == positions@.len(),
            uvs@.len() == positions@.len(),
            forall|j2: int|
                0 <= j2 < j && vk[j2]
                    ==> #[trigger] positions@[count_true(vk, j2)] == mesh.positions@[j2],
            forall|j2: int|
                0 <= j2 < j && vk[j2]
                    ==> #[trigger] normals@[count_true(vk, j2)] == mesh.normals@[j2],
            forall|j2: int|
                0 <= j2 < j && vk[j2] ==> #[trigger] uvs@[count_true(vk, j2)] == mesh.uvs@[j2],
            forall|j2: int| 0 <= j2 < j ==> #[trigger] remap@[j2] as int == count_true(vk, j2),
        decreases n - j,
    {
        proof {
            lemma_count_true_bounds(vk, j as int);
        }
        let ghost old_positions = positions@;
        remap.push(positions.len() as u16);
        let kept: bool = vkeep[j];
        if kept {
            positions.push(mesh.positions[j]);
            normals.push(mesh.normals[j]);
            uvs.push(mesh.uvs[j]);
        }
        proof {
            if kept {
                assert(positions@ == old_positions.push(mesh.positions@[j as int]));
                assert(positions@.len() == count_true(vk, j as int) + 1);
                assert(positions@[count_true(vk, j as int)] == mesh.positions@[j as int]);
                assert(normals@[count_true(vk, j as int)] == mesh.normals@[j as int]);
                assert(uvs@[count_true(vk, j as int)] == mesh.uvs@[j as int]);
            }
            assert forall|j2: int| 0 <= j2 < j + 1 && vk[j2] implies #[trigger] positions@[count_true(
                vk,
                j2,
            )] == mesh.positions@[j2] by {
                if j2 < j {
                    lemma_count_true_mono(vk, j2 + 1, j as int);
                    lemma_count_true_bounds(vk, j2);
                }
            }
            assert forall|j2: int| 0 <= j2 < j + 1 && vk[j2] implies #[trigger] normals@[count_true(
                vk,
                j2,
            )] == mesh.normals@[j2] by {
                if j2 < j {
                    lemma_count_true_mono(vk, j2 + 1, j as int);
                    lemma_count_true_bounds(vk, j2);
                }
            }
            assert forall|j2: int| 0 <= j2 < j + 1 && vk[j2] implies #[trigger] uvs@[count_true(
                vk,
                j2,
            )] == mesh.uvs@[j2] by {
                if j2 < j {
                    lemma_count_true_mono(vk, j2 + 1, j as int);
                    lemma_count_true_bounds(vk, j2);
                }
            }
        }
        j += 1;
    }

    let mut indices: Vec<u16> = Vec::new();
    let mut f: usize = 0;
    while f < nf
        invariant
            vk == vkeep@,
            fk == fkeep@,
            n == mesh.positions@.len(),
            mesh_wf(*mesh),
            vk.len() == n,
            fk.len() == nf,
            ni == mesh.indices@.len(),
            ni == 3 * nf,
            remap@.len() == n,
            forall|j2: int| 0 <= j2 < n ==> #[trigger] remap@[j2] as int == count_true(vk, j2),
            forall|f2: int, c: int|
                0 <= f2 < fk.len() && fk[f2] && 0 <= c < 3
                    ==> vk[#[trigger] mesh.indices@[3 * f2 + c] as int],
            f <= nf,
            indices@.len() == 3 * count_true(fk, f as int),
            forall|f2: int, c: int|
                0 <= f2 < f && fk[f2] && 0 <= c < 3
                    ==> #[trigger] indices@[3 * count_true(fk, f2) + c] as int == count_true(
                        vk,
                        mesh.indices@[3 * f2 + c] as int,
                    ),
            forall|t: int|
                0 <= t < indices@.len()
                    ==> (#[trigger] indices@[t] as int) < count_true(vk, n as int),
        decreases nf - f,
    {
        if fkeep[f] {
            proof {
                lemma_count_true_bounds(fk, f as int);
            }
            let c0: u16 = mesh.indices[3 * f];
            let c1: u16 = mesh.indices[3 * f + 1];
            let c2: u16 = mesh.indices[3 * f + 2];
            proof {
                assert(mesh.indices@[3 * (f as int) + 0] == c0);
                assert(mesh.indices@[3 * (f as int) + 1] == c1);
                assert(mesh.indices@[3 * (f as int) + 2] == c2);
                assert(vk[c0 as int] && vk[c1 as int] && vk[c2 as int]);
                lemma_count_true_mono(vk, c0 as int + 1, n as int);
                lemma_count_true_mono(vk, c1 as int + 1, n as int);
                lemma_count_true_mono(vk, c2 as int + 1, n as int);
                lemma_count_true_bounds(vk, c0 as int);
                lemma_count_true_bounds(vk, c1 as int);
                lemma_count_true_bounds(vk, c2 as int);
            }
            indices.push(remap[c0 as usize]);
            indices.push(remap[c1 as usize]);
            indices.push(remap[c2 as usize]);
            proof {
                assert forall|f2: int, c: int| 0 <= f2 < f + 1 && fk[f2] && 0 <= c < 3 implies #[trigger] indices@[3
                    * count_true(fk, f2) + c] as int == count_true(
                    vk,
                    mesh.indices@[3 * f2 + c] as int,
                ) by {
                    if f2 < f {
                        lemma_count_true_mono(fk, f2 + 1, f as int);
                    }
                    lemma_count_true_bounds(fk, f2);
                }
            }
        }
        f += 1;
    }

    TriMesh { positions, normals, uvs, indices }
}

/// Face `f` is doomed: all three of its canonical-mapped vertices stand
/// in the delete set.  (A face with any surviving corner is kept, which
/// prevents holes where worn assets only partly overlap the body.)
pub open spec fn face_deleted(indices: Seq<u16>, inv: Seq<u16>, del: Seq<bool>, f: int) -> bool {
    &&& del[inv[indices[3 * f] as int] as int]
    &&& del[inv[indices[3 * f + 1] as int] as int]
    &&& del[inv[indices[3 * f + 2] as int] as int]
}

/// Render vertex `j` is referenced by some face at all.
pub open spec fn vertex_referenced(indices: Seq<u16>, j: int) -> bool {
    exists|t: int| 0 <= t < indices.len() && (#[trigger] indices[t] as int) == j
}

/// Render vertex `j` is referenced by some surviving face.
pub open spec fn vertex_kept(indices: Seq<u16>, inv: Seq<u16>, del: Seq<bool>, j: int) -> bool {
    exists|t: int|
        0 <= t < indices.len() && !face_deleted(indices, inv, del, t / 3)
            && (#[trigger] indices[t] as int) == j
}

/// Per-face keep flags of the whole mesh.
pub open spec fn face_flags(indices: Seq<u16>, inv: Seq<u16>, del: Seq<bool>) -> Seq<bool> {
    Seq::new(indices.len() / 3, |f: int| !face_deleted(indices, inv, del, f))
}

/// Per-vertex keep flags of the whole mesh.
pub open spec fn vertex_flags(indices: Seq<u16>, inv: Seq<u16>, del: Seq<bool>, n: int) -> Seq<
    bool,
> {
    Seq::new(n as nat, |j: int| vertex_kept(indices, inv, del, j))
}

/// The inverse map resolves every index of the mesh to a slot of the
/// delete table.
pub open spec fn prune_inputs_wf(mesh: TriMesh, inv: Seq<u16>, del: Seq<bool>) -> bool {
    &&& mesh_wf(mesh)
    &&& inv.len() == mesh.positions@.len()
    &&& forall|j: int| 0 <= j < inv.len() ==> (#[trigger] inv[j] as int) < del.len()
}

/// Removes the faces all of whose canonical-mapped vertices stand in
/// the delete set, drops the vertices that no surviving face
/// references, renumbers the survivors ascending and remaps the faces.
#[verifier::rlimit(100)]
pub fn delete_mesh_verts(mesh: &TriMesh, inv_vertex_map: &Vec<u16>, delete_verts: &Vec<bool>) -> (out: TriMesh)
    requires
        prune_inputs_wf(*mesh, inv_vertex_map@, delete_verts@),
        mesh.positions@.len() <= 0x10000,
    ensures
        mesh_wf(out),
        out.positions@.len() == count_true(
            vertex_flags(mesh.indices@, inv_vertex_map@, delete_verts@, mesh.positions@.len() as int),
            mesh.positions@.len() as int,
        ),
        out.indices@.len() == 3 * count_true(
            face_flags(mesh.indices@, inv_vertex_map@, delete_verts@),
            face_count(*mesh),
        ),
        forall|j: int|
            0 <= j < mesh.positions@.len() && #[trigger] vertex_kept(
                mesh.indices@,
                inv_vertex_map@,
                delete_verts@,
                j,
            ) ==> {
                &&& out.positions@[count_true(
                    vertex_flags(
                        mesh.indices@,
                        inv_vertex_map@,
                        delete_verts@,
                        mesh.positions@.len() as int,
                    ),
                    j,
                )] == mesh.positions@[j]
                &&& out.normals@[count_true(
                    vertex_flags(
                        mesh.indices@,
                        inv_vertex_map@,
                        delete_verts@,
                        mesh.positions@.len() as int,
                    ),
                    j,
                )] == mesh.normals@[j]
                &&& out.uvs@[count_true(
                    vertex_flags(
                        mesh.indices@,
                        inv_vertex_map@,
                        delete_verts@,
                        mesh.positions@.len() as int,
                    ),
                    j,
                )] == mesh.uvs@[j]
            },
        forall|f: int, c: int|
            0 <= f < face_count(*mesh) && !face_deleted(
                mesh.indices@,
                inv_vertex_map@,
                delete_verts@,
                f,
            ) && 0 <= c < 3
                ==> #[trigger] out.indices@[3 * count_true(
                    face_flags(mesh.indices@, inv_vertex_map@, delete_verts@),
                    f,
                ) + c] as int == count_true(
                    vertex_flags(
                        mesh.indices@,
                        inv_vertex_map@,
                        delete_verts@,
                        mesh.positions@.len() as int,
                    ),
                    mesh.indices@[3 * f + c] as int,
                ),
{
    let ghost ids = mesh.indices@;
    let ghost inv = inv_vertex_map@;
    let ghost del = delete_verts@;
    let n: usize = mesh.positions.len();
    let ni: usize = mesh.indices.len();
    let nf: usize = ni / 3;
    proof {
        lemma_fundamental_div_mod(ni as int, 3);
        assert(ni == 3 * nf);
    }

    // Decide the fate of every face.
    let mut fkeep: Vec<bool> = Vec::new();
    let mut f: usize = 0;
    while f < nf
        invariant
            ids == mesh.indices@,
            inv == inv_vertex_map@,
            del == delete_verts@,
            prune_inputs_wf(*mesh, inv, del),
            n == mesh.positions@.len(),
            ni == ids.len(),
            ni == 3 * nf,
            f <= nf,
            fkeep@.len() == f,
            forall|f2: int|
                0 <= f2 < f ==> (#[trigger] fkeep@[f2] <==> !face_deleted(ids, inv, del, f2)),
        decreases nf - f,
    {
        let a: bool = delete_verts[inv_vertex_map[mesh.indices[3 * f] as usize] as usize];
        let b: bool = delete_verts[inv_vertex_map[mesh.indices[3 * f + 1] as usize] as usize];
        let c: bool = delete_verts[inv_vertex_map[mesh.indices[3 * f + 2] as usize] as usize];
        fkeep.push(!(a && b && c));
        f += 1;
    }

    // Mark every vertex a surviving face references.
    let mut vkeep: Vec<bool> = vec![false; n];
    let mut f2: usize = 0;
    while f2 < nf
        invariant
            ids == mesh.indices@,
            inv == inv_vertex_map@,
            del == delete_verts@,
            prune_inputs_wf(*mesh, inv, del),
            n == mesh.positions@.len(),
            ni == ids.len(),
            ni == 3 * nf,
            fkeep@.len() == nf,
            forall|f3: int|
                0 <= f3 < nf ==> (#[trigger] fkeep@[f3] <==> !face_deleted(ids, inv, del, f3)),
            f2 <= nf,
            vkeep@.len() == n,
            forall|j: int| 0 <= j < n && #[trigger] vkeep@[j] ==> vertex_kept(ids, inv, del, j),
            forall|t: int|
                0 <= t < 3 * f2 && !face_deleted(ids, inv, del, t / 3)
                    ==> vkeep@[#[trigger] ids[t] as int],
        decreases nf - f2,
    {
        let keep_face: bool = fkeep[f2];
        if keep_face {
            let c0: u16 = mesh.indices[3 * f2];
            let c1: u16 = mesh.indices[3 * f2 + 1];
            let c2: u16 = mesh.indices[3 * f2 + 2];
            vkeep[c0 as usize] = true;
            vkeep[c1 as usize] = true;
            vkeep[c2 as usize] = true;
            proof {
                lemma_div_multiples_vanish_fancy(f2 as int, 0, 3);
                lemma_div_multiples_vanish_fancy(f2 as int, 1, 3);
                lemma_div_multiples_vanish_fancy(f2 as int, 2, 3);
                assert((3 * f2 as int) / 3 == f2 as int);
                assert(ids[3 * (f2 as int) + 0] == c0);
                assert forall|j: int| 0 <= j < n && #[trigger] vkeep@[j] implies vertex_kept(
                    ids,
                    inv,
                    del,
                    j,
                ) by {
                    if j == c0 as int {
                        assert(ids[3 * (f2 as int) + 0] as int == j);
                    } else if j == c1 as int {
                        assert(ids[3 * (f2 as int) + 1] as int == j);
                    } else if j == c2 as int {
                        assert(ids[3 * (f2 as int) + 2] as int == j);
                    }
                }
            }
        }
        proof {
            assert forall|t: int|
                0 <= t < 3 * (f2 + 1) && !face_deleted(ids, inv, del, t / 3) implies vkeep@[#[trigger] ids[t] as int] by {
                if t >= 3 * f2 {
                    lemma_fundamental_div_mod(t, 3);
                    assert(t / 3 == f2 as int);
                    assert(t == 3 * (f2 as int) + (t - 3 * (f2 as int)));
                }
            }
        }
        f2 += 1;
    }

    proof {
        assert forall|j: int| 0 <= j < n implies (vkeep@[j] <==> vertex_kept(ids, inv, del, j)) by {
            if vertex_kept(ids, inv, del, j) {
                let t = choose|t: int|
                    0 <= t < ids.len() && !face_deleted(ids, inv, del, t / 3)
                        && (#[trigger] ids[t] as int) == j;
                assert(vkeep@[ids[t] as int]);
            }
        }
        assert(vkeep@ =~= vertex_flags(ids, inv, del, n as int));
        assert(fkeep@ =~= face_flags(ids, inv, del));
        assert forall|f3: int, c: int|
            0 <= f3 < fkeep@.len() && fkeep@[f3] && 0 <= c < 3 implies vkeep@[#[trigger] ids[3 * f3
            + c] as int] by {
            let t = 3 * f3 + c;
            lemma_div_multiples_vanish_fancy(f3, c, 3);
            assert(t / 3 == f3);
            assert(!face_deleted(ids, inv, del, t / 3));
        }
    }

    compact_mesh(mesh, &vkeep, &fkeep)
}

/// Law: with an empty delete set nothing is doomed — every face
/// survives, and so does every vertex that some face references.
pub proof fn lemma_prune_empty_delete(indices: Seq<u16>, inv: Seq<u16>, del: Seq<bool>, n: int)
    requires
        indices.len() % 3 == 0,
        forall|t: int| 0 <= t < indices.len() ==> (#[trigger] indices[t] as int) < inv.len(),
        forall|j: int| 0 <= j < inv.len() ==> (#[trigger] inv[j] as int) < del.len(),
        forall|c: int| 0 <= c < del.len() ==> !del[c],
        forall|j: int| 0 <= j < n ==> #[trigger] vertex_referenced(indices, j),
    ensures
        count_true(face_flags(indices, inv, del), indices.len() as int / 3) == indices.len() as int
            / 3,
        count_true(vertex_flags(indices, inv, del, n), n) == if n <= 0 {
            0int
        } else {
            n
        },
{
    let nf = indices.len() as int / 3;
    lemma_fundamental_div_mod(indices.len() as int, 3);
    assert(indices.len() == 3 * nf);
    assert forall|f: int| 0 <= f < nf implies face_flags(indices, inv, del)[f] by {
        assert(0 <= 3 * f && 3 * f + 2 < indices.len());
        assert(!del[inv[indices[3 * f] as int] as int]);
    }
    lemma_count_true_all(face_flags(indices, inv, del), nf);
    assert forall|j: int| 0 <= j < n implies vertex_flags(indices, inv, del, n)[j] by {
        assert(vertex_referenced(indices, j));
        let t = choose|t: int| 0 <= t < indices.len() && (#[trigger] indices[t] as int) == j;
        lemma_fundamental_div_mod(t, 3);
        assert(0 <= t / 3 < nf);
        assert(0 <= 3 * (t / 3) && 3 * (t / 3) + 2 < indices.len());
        assert(!face_deleted(indices, inv, del, t / 3));
        assert(vertex_kept(indices, inv, del, j));
    }
    lemma_count_true_all(vertex_flags(indices, inv, del, n), n);
}

/// Law: a delete set that covers every canonical vertex dooms every
/// face, and with no surviving face no vertex is kept: the pruned mesh
/// has zero faces and zero vertices, and that is not an error.
pub proof fn lemma_prune_full_delete(indices: Seq<u16>, inv: Seq<u16>, del: Seq<bool>, n: int)
    requires
        indices.len() % 3 == 0,
        forall|t: int| 0 <= t < indices.len() ==> (#[trigger] indices[t] as int) < inv.len(),
        forall|j: int| 0 <= j < inv.len() ==> (#[trigger] inv[j] as int) < del.len(),
        forall|c: int| 0 <= c < del.len() ==> del[c],
    ensures
        count_true(face_flags(indices, inv, del), indices.len() as int / 3) == 0,
        count_true(vertex_flags(indices, inv, del, n), n) == 0,
{
    let nf = indices.len() as int / 3;
    lemma_fundamental_div_mod(indices.len() as int, 3);
    assert(indices.len() == 3 * nf);
    assert forall|f: int| 0 <= f < nf implies !face_flags(indices, inv, del)[f] by {
        assert(0 <= 3 * f && 3 * f + 2 < indices.len());
        assert(del[inv[indices[3 * f] as int] as int]);
        assert(del[inv[indices[3 * f + 1] as int] as int]);
        assert(del[inv[indices[3 * f + 2] as int] as int]);
    }
    lemma_count_true_none(face_flags(indices, inv, del), nf);
    assert forall|j: int| 0 <= j < n implies !vertex_flags(indices, inv, del, n)[j] by {
        if vertex_kept(indices, inv, del, j) {
            let t = choose|t: int|
                0 <= t < indices.len() && !face_deleted(indices, inv, del, t / 3)
                    && (#[trigger] indices[t] as int) == j;
            lemma_fundamental_div_mod(t, 3);
            assert(0 <= t / 3 < nf);
            assert(0 <= 3 * (t / 3) && 3 * (t / 3) + 2 < indices.len());
        }
    }
    lemma_count_true_none(vertex_flags(indices, inv, del, n), n);
}

/// Render vertex `j` belongs to the body: its canonical vertex lies
/// below the body vertex count (helper vertices come after the body's).
pub open spec fn body_vertex(inv: Seq<u16>, body_count: int, j: int) -> bool {
    (inv[j] as int) < body_count
}

/// Per-vertex body flags.
pub open spec fn body_vertex_flags(inv: Seq<u16>, body_count: int) -> Seq<bool> {
    Seq::new(inv.len(), |j: int| body_vertex(inv, body_count, j))
}

/// A face survives the helper strip when all three of its vertices are
/// body vertices.
pub open spec fn body_face(indices: Seq<u16>, inv: Seq<u16>, body_count: int, f: int) -> bool {
    &&& body_vertex(inv, body_count, indices[3 * f] as int)
    &&& body_vertex(inv, body_count, indices[3 * f + 1] as int)
    &&& body_vertex(inv, body_count, indices[3 * f + 2] as int)
}

/// Per-face body flags.
pub open spec fn body_face_flags(indices: Seq<u16>, inv: Seq<u16>, body_count: int) -> Seq<bool> {
    Seq::new(indices.len() / 3, |f: int| body_face(indices, inv, body_count, f))
}

/// Strips the helper geometry from the combined authoring mesh: only
/// render vertices whose canonical vertex is a body vertex stay, a face
/// stays when all three of its corners stay, and the survivors are
/// renumbered ascending.
#[verifier::rlimit(60)]
pub fn generate_mesh_without_helpers(
    mesh: &TriMesh,
    inv_vertex_map: &Vec<u16>,
    body_vertices: u16,
) -> (out: TriMesh)
    requires
        mesh_wf(*mesh),
        mesh.positions@.len() <= 0x10000,
        inv_vertex_map@.len() == mesh.positions@.len(),
    ensures
        mesh_wf(out),
        out.positions@.len() == count_true(
            body_vertex_flags(inv_vertex_map@, body_vertices as int),
            mesh.positions@.len() as int,
        ),
        out.indices@.len() == 3 * count_true(
            body_face_flags(mesh.indices@, inv_vertex_map@, body_vertices as int),
            face_count(*mesh),
        ),
        forall|j: int|
            0 <= j < mesh.positions@.len() && body_vertex(inv_vertex_map@, body_vertices as int, j)
                ==> #[trigger] out.positions@[count_true(
                    body_vertex_flags(inv_vertex_map@, body_vertices as int),
                    j,
                )] == mesh.positions@[j],
        forall|j: int|
            0 <= j < mesh.positions@.len() && body_vertex(inv_vertex_map@, body_vertices as int, j)
                ==> #[trigger] out.normals@[count_true(
                    body_vertex_flags(inv_vertex_map@, body_vertices as int),
                    j,
                )] == mesh.normals@[j],
        forall|j: int|
            0 <= j < mesh.positions@.len() && body_vertex(inv_vertex_map@, body_vertices as int, j)
                ==> #[trigger] out.uvs@[count_true(
                    body_vertex_flags(inv_vertex_map@, body_vertices as int),
                    j,
                )] == mesh.uvs@[j],
        forall|f: int, c: int|
            0 <= f < face_count(*mesh) && body_face(
                mesh.indices@,
                inv_vertex_map@,
                body_vertices as int,
                f,
            ) && 0 <= c < 3
                ==> #[trigger] out.indices@[3 * count_true(
                    body_face_flags(mesh.indices@, inv_vertex_map@, body_vertices as int),
                    f,
                ) + c] as int == count_true(
                    body_vertex_flags(inv_vertex_map@, body_vertices as int),
                    mesh.indices@[3 * f + c] as int,
                ),
{
    let ghost ids = mesh.indices@;
    let ghost inv = inv_vertex_map@;
    let ghost bc = body_vertices as int;
    let n: usize = mesh.positions.len();
    let ni: usize = mesh.indices.len();
    let nf: usize = ni / 3;
    proof {
        lemma_fundamental_div_mod(ni as int, 3);
        assert(ni == 3 * nf);
    }

    let mut vkeep: Vec<bool> = Vec::new();
    let mut j: usize = 0;
    while j < n
        invariant
            inv == inv_vertex_map@,
            n == inv.len(),
            bc == body_vertices as int,
            j <= n,
            vkeep@.len() == j,
            forall|j2: int| 0 <= j2 < j ==> (#[trigger] vkeep@[j2] <==> body_vertex(inv, bc, j2)),
        decreases n - j,
    {
        vkeep.push(inv_vertex_map[j] < body_vertices);
        j += 1;
    }

    let mut fkeep: Vec<bool> = Vec::new();
    let mut f: usize = 0;
    while f < nf
        invariant
            ids == mesh.indices@,
            inv == inv_vertex_map@,
            bc == body_vertices as int,
            mesh_wf(*mesh),
            n == mesh.positions@.len(),
            n == inv.len(),
            ni == ids.len(),
            ni == 3 * nf,
            vkeep@.len() == n,
            forall|j2: int| 0 <= j2 < n ==> (#[trigger] vkeep@[j2] <==> body_vertex(inv, bc, j2)),
            f <= nf,
            fkeep@.len() == f,
            forall|f2: int|
                0 <= f2 < f ==> (#[trigger] fkeep@[f2] <==> body_face(ids, inv, bc, f2)),
        decreases nf - f,
    {
        let a: bool = inv_vertex_map[mesh.indices[3 * f] as usize] < body_vertices;
        let b: bool = inv_vertex_map[mesh.indices[3 * f + 1] as usize] < body_vertices;
        let c: bool = inv_vertex_map[mesh.indices[3 * f + 2] as usize] < body_vertices;
        fkeep.push(a && b && c);
        f += 1;
    }

    proof {
        assert(vkeep@ =~= body_vertex_flags(inv, bc));
        assert(fkeep@ =~= body_face_flags(ids, inv, bc));
        assert forall|f3: int, c: int|
            0 <= f3 < fkeep@.len() && fkeep@[f3] && 0 <= c < 3 implies vkeep@[#[trigger] ids[3 * f3
            + c] as int] by {
            assert(body_face(ids, inv, bc, f3));
        }
    }
    compact_mesh(mesh, &vkeep, &fkeep)
}

/// A vertex line of an obj file: `v` and a space.
pub open spec fn is_v_line(line: Seq<u8>) -> bool {
    line.len() >= 2 && line[0] == 118 && line[1] == 32
}

/// One line's contribution to the obj vertex list: a vertex line must
/// carry three coordinates; any other line carries nothing.
pub open spec fn obj_step(acc: Option<Seq<Vec3>>, line: Seq<u8>) -> Option<Seq<Vec3>> {
    match acc {
        None => None,
        Some(vs) => {
            if !is_v_line(line) {
                Some(vs)
            } else {
                let lt = crate::text::tokens(line);
                if lt.len() >= 4 {
                    match (
                        crate::text::fixed_of_token(lt[1]),
                        crate::text::fixed_of_token(lt[2]),
                        crate::text::fixed_of_token(lt[3]),
                    ) {
                        (Some(x), Some(y), Some(z)) => Some(vs.push(Vec3 { x, y, z })),
                        _ => None,
                    }
                } else {
                    None
                }
            }
        },
    }
}

/// The vertices the first `i` lines of an obj file denote.
pub open spec fn obj_vertices(lines: Seq<Seq<u8>>, i: int) -> Option<Seq<Vec3>>
    decreases i,
{
    if i <= 0 {
        Some(Seq::empty())
    } else {
        obj_step(obj_vertices(lines, i - 1), lines[i - 1])
    }
}

/// A failed obj parse stays failed.
pub proof fn lemma_obj_none_persists(lines: Seq<Seq<u8>>, i: int, j: int)
    requires
        0 <= i <= j,
        obj_vertices(lines, i) is None,
    ensures
        obj_vertices(lines, j) is None,
    decreases j - i,
{
    if i < j {
        lemma_obj_none_persists(lines, i, j - 1);
    }
}

/// Reads the vertex positions out of an obj text: every `v` line in
/// order.  A `v` line with fewer than three readable coordinates is a
/// parse error naming the line.
pub fn parse_obj_vertices(text: &Vec<u8>) -> (r: Result<Vec<Vec3>, crate::errors::ParseError>)
    ensures
        (r matches Ok(vs) ==> obj_vertices(split_lines(text@), split_lines(text@).len() as int)
            == Some(vs@)),
        (r matches Err(pe) ==> {
            &&& obj_vertices(split_lines(text@), split_lines(text@).len() as int) is None
            &&& (pe.line as int) < split_lines(text@).len()
            &&& obj_vertices(split_lines(text@), pe.line as int) is Some
            &&& obj_vertices(split_lines(text@), pe.line as int + 1) is None
        }),
{
    let ghost ls = split_lines(text@);
    let lines: Vec<Vec<u8>> = crate::text::split_lines_exec(text);
    let nl: usize = lines.len();
    let mut out: Vec<Vec3> = Vec::new();
    let mut i: usize = 0;
    while i < nl
        invariant
            ls == split_lines(text@),
            nl == ls.len(),
            lines@.len() == nl,
            forall|k: int| 0 <= k < nl ==> (#[trigger] lines@[k])@ == ls[k],
            i <= nl,
            obj_vertices(ls, i as int) == Some(out@),
        decreases nl - i,
    {
        let line: &Vec<u8> = &lines[i];
        let is_v: bool = line.len() >= 2 && line[0] == 118 && line[1] == 32;
        if is_v {
            let toks: Vec<Vec<u8>> = crate::text::tokenize(line);
            let ghost lt = crate::text::tokens(ls[i as int]);
            proof {
                assert(line@ == ls[i as int]);
                assert(toks@.len() == lt.len());
                assert(forall|k: int| 0 <= k < toks@.len() ==> (#[trigger] toks@[k])@ == lt[k]);
            }
            if toks.len() >= 4 {
                let x = crate::text::parse_fixed(&toks[1]);
                let y = crate::text::parse_fixed(&toks[2]);
                let z = crate::text::parse_fixed(&toks[3]);
                match (x, y, z) {
                    (Some(xv), Some(yv), Some(zv)) => {
                        out.push(Vec3 { x: xv, y: yv, z: zv });
                        proof {
                            assert(out@ =~= obj_vertices(ls, i as int + 1).unwrap());
                        }
                    },
                    _ => {
                        proof {
                            assert(obj_vertices(ls, i as int + 1) is None);
                            lemma_obj_none_persists(ls, i as int + 1, nl as int);
                        }
                        return Err(crate::errors::ParseError { line: i });
                    },
                }
            } else {
                proof {
                    assert(obj_vertices(ls, i as int + 1) is None);
                    lemma_obj_none_persists(ls, i as int + 1, nl as int);
                }
                return Err(crate::errors::ParseError { line: i });
            }
        }
        i += 1;
    }
    Ok(out)
}

} // verus!
