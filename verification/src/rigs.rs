//! Rig and skeleton construction.
//!
//! A named rig is a set of bones, each with a parent name and a head
//! and tail placement strategy over the helper mesh.  Building lays the
//! bones out root-first (by topological depth, ties in authoring
//! order), synthesizes an explicit `Root` when the unparented bone is a
//! hip-style bone, and places every head and tail from the helper
//! positions.  The result is a plain arena — name, parent index, head
//! and tail — for the host to hang its scene graph and transforms on;
//! composing the global matrices and inverting the bind poses is the
//! host's floating-point work.

use vstd::prelude::*;
use crate::errors::ConfigError;
use crate::fixed::{quot_trunc, GVec3, Vec3};

verus! {

/// The rig families the loader knows.
#[derive(Debug, Clone, Copy, PartialEq, Eq, Structural, Hash)]
pub enum RigType {
    NoRig,
    DefaultRig,
    Mixamo,
    GameEngine,
}

/// How one end of a bone is placed on the helper mesh.
#[derive(Debug, Clone)]
pub struct BoneTransform {
    pub strategy: String,
    pub cube_name: Option<String>,
    pub vertex_indices: Option<Vec<u16>>,
    pub vertex_index: Option<u16>,
}

/// One bone of a rig definition.
#[derive(Debug, Clone)]
pub struct BoneData {
    pub head: BoneTransform,
    pub parent: String,
    pub tail: BoneTransform,
}

/// Named vertex groups of the canonical mesh: each name maps to pairs
/// of canonical vertex ids.
#[derive(Debug, Clone)]
pub struct VertexGroups {
    pub groups: Vec<(String, Vec<(u16, u16)>)>,
}

/// One laid-out bone: name, parent position in the skeleton (the root
/// has none), and head and tail world positions.
#[derive(Debug, Clone)]
pub struct BoneNode {
    pub name: String,
    pub parent: Option<usize>,
    pub head: Vec3,
    pub tail: Vec3,
}

/// An ordered, root-first bone arena.
#[derive(Debug, Clone)]
pub struct Skeleton {
    pub bones: Vec<BoneNode>,
}

/// Position of the first group with this name, or -1.
pub open spec fn group_index(gs: Seq<(String, Vec<(u16, u16)>)>, name: Seq<char>) -> int
    decreases gs.len(),
{
    if gs.len() == 0 {
        -1
    } else if gs[0].0@ == name {
        0
    } else {
        let rest = group_index(gs.subrange(1, gs.len() as int), name);
        if rest == -1 {
            -1
        } else {
            rest + 1
        }
    }
}

pub proof fn lemma_group_index_props(gs: Seq<(String, Vec<(u16, u16)>)>, name: Seq<char>)
    ensures
        group_index(gs, name) == -1 ==> forall|g: int|
            0 <= g < gs.len() ==> (#[trigger] gs[g]).0@ != name,
        group_index(gs, name) != -1 ==> {
            &&& 0 <= group_index(gs, name) < gs.len()
            &&& gs[group_index(gs, name)].0@ == name
            &&& forall|g: int|
                0 <= g < group_index(gs, name) ==> (#[trigger] gs[g]).0@ != name
        },
    decreases gs.len(),
{
    if gs.len() > 0 {
        let rest = gs.subrange(1, gs.len() as int);
        lemma_group_index_props(rest, name);
        assert(forall|g: int| 0 <= g < rest.len() ==> #[trigger] rest[g] == gs[g + 1]);
        if gs[0].0@ != name {
            let rti = group_index(rest, name);
            if rti == -1 {
                assert forall|g: int| 0 <= g < gs.len() implies (#[trigger] gs[g]).0@ != name by {
                    if g > 0 {
                        assert(rest[g - 1] == gs[g]);
                    }
                }
            } else {
                assert(gs[group_index(gs, name)] == rest[rti]);
                assert forall|g: int|
                    0 <= g < group_index(gs, name) implies (#[trigger] gs[g]).0@ != name by {
                    if g > 0 {
                        assert(rest[g - 1] == gs[g]);
                    }
                }
            }
        }
    }
}

/// The two canonical vertices one placement strategy names, or nothing
/// when the strategy is unknown or its data is missing.
pub open spec fn bone_vertices_spec(b: BoneTransform, vg: VertexGroups) -> Option<(u16, u16)> {
    if b.strategy@ == "MEAN"@ {
        match b.vertex_indices {
            Some(v) => if v@.len() >= 2 {
                Some((v@[0], v@[1]))
            } else {
                None
            },
            None => None,
        }
    } else if b.strategy@ == "CUBE"@ {
        match b.cube_name {
            Some(n) => {
                let gi = group_index(vg.groups@, n@);
                if gi != -1 && vg.groups@[gi].1@.len() >= 1 {
                    Some((vg.groups@[gi].1@[0].0, vg.groups@[gi].1@[0].1))
                } else {
                    None
                }
            },
            None => None,
        }
    } else if b.strategy@ == "VERTEX"@ {
        match b.vertex_index {
            Some(v) => Some((v, v)),
            None => None,
        }
    } else {
        None
    }
}

/// The strategy names the builder understands.
pub open spec fn strategy_known(b: BoneTransform) -> bool {
    b.strategy@ == "MEAN"@ || b.strategy@ == "CUBE"@ || b.strategy@ == "VERTEX"@
}

/// Resolves one placement strategy to its two canonical vertices.
/// An unrecognized strategy is a fatal configuration error; a known
/// strategy whose data is absent from the tables is one too.
pub fn get_bone_vertices(bone: &BoneTransform, vg: &VertexGroups) -> (r: Result<
    (u16, u16),
    ConfigError,
>)
    ensures
        (r matches Ok(p) ==> bone_vertices_spec(*bone, *vg) == Some(p)),
        (r is Err ==> bone_vertices_spec(*bone, *vg) is None),
        (r matches Err(e) ==> (e matches ConfigError::UnknownStrategy { bone: s } <==> !strategy_known(
            *bone,
        ))),
        (r matches Err(e) ==> (e matches ConfigError::UnknownStrategy { bone: s2 }
            || e matches ConfigError::MissingPlacement { bone: s3 })),
{
    let mean = "MEAN".to_owned();
    let cube = "CUBE".to_owned();
    let vertex = "VERTEX".to_owned();
    if bone.strategy == mean {
        match &bone.vertex_indices {
            Some(v) => {
                if v.len() >= 2 {
                    Ok((v[0], v[1]))
                } else {
                    Err(ConfigError::MissingPlacement { bone: bone.strategy.clone() })
                }
            },
            None => Err(ConfigError::MissingPlacement { bone: bone.strategy.clone() }),
        }
    } else if bone.strategy == cube {
        match &bone.cube_name {
            Some(n) => {
                let ghost gs = vg.groups@;
                let gn: usize = vg.groups.len();
                let mut found: bool = false;
                let mut g: usize = 0;
                let mut scan: usize = 0;
                while scan < gn
                    invariant
                        gs == vg.groups@,
                        gn == gs.len(),
                        scan <= gn,
                        !found ==> forall|g2: int|
                            0 <= g2 < scan ==> (#[trigger] gs[g2]).0@ != n@,
                        found ==> {
                            &&& g < scan
                            &&& gs[g as int].0@ == n@
                            &&& forall|g2: int| 0 <= g2 < g ==> (#[trigger] gs[g2]).0@ != n@
                        },
                    decreases gn - scan,
                {
                    if !found && vg.groups[scan].0 == *n {
                        found = true;
                        g = scan;
                    }
                    scan += 1;
                }
                proof {
                    lemma_group_index_props(gs, n@);
                    if found {
                        if group_index(gs, n@) == -1 {
                            assert(false);
                        }
                        assert(group_index(gs, n@) <= g as int);
                        assert(group_index(gs, n@) == g as int);
                    } else {
                        if group_index(gs, n@) != -1 {
                            assert(gs[group_index(gs, n@)].0@ == n@);
                            assert(false);
                        }
                    }
                }
                if found && vg.groups[g].1.len() >= 1 {
                    let pair: (u16, u16) = vg.groups[g].1[0];
                    Ok(pair)
                } else {
                    Err(ConfigError::MissingPlacement { bone: bone.strategy.clone() })
                }
            },
            None => Err(ConfigError::MissingPlacement { bone: bone.strategy.clone() }),
        }
    } else if bone.strategy == vertex {
        match bone.vertex_index {
            Some(v) => Ok((v, v)),
            None => Err(ConfigError::MissingPlacement { bone: bone.strategy.clone() }),
        }
    } else {
        Err(ConfigError::UnknownStrategy { bone: bone.strategy.clone() })
    }
}

/// Truncating half, for midpoints.
fn half(n: i64) -> (r: i64)
    requires
        -0x7fff_ffff_ffff_ffff <= n,
    ensures
        r == quot_trunc(n as int, 2),
{
    if n >= 0 {
        ((n as u64) / 2u64) as i64
    } else {
        let mag: i64 = -n;
        -(((mag as u64) / 2u64) as i64)
    }
}

/// Midpoint of two positions, componentwise, truncating toward zero.
pub open spec fn gv_mid(a: GVec3, b: GVec3) -> GVec3 {
    GVec3 {
        x: quot_trunc(a.x + b.x, 2),
        y: quot_trunc(a.y + b.y, 2),
        z: quot_trunc(a.z + b.z, 2),
    }
}

/// Where one bone end sits: the midpoint of its two strategy vertices'
/// helper positions.
pub open spec fn end_pos_spec(b: BoneTransform, vg: VertexGroups, helpers: Seq<Vec3>) -> GVec3
    recommends
        bone_vertices_spec(b, vg) is Some,
{
    let p = bone_vertices_spec(b, vg).unwrap();
    gv_mid(helpers[p.0 as int]@, helpers[p.1 as int]@)
}

/// Computes a bone end's world position from the helper positions.
pub fn get_bone_transform(bone: &BoneTransform, vg: &VertexGroups, helpers: &Vec<Vec3>) -> (r:
    Result<Vec3, ConfigError>)
    requires
        forall|v: int| 0 <= v < helpers@.len() ==> crate::fixed::gv_in_range((#[trigger] helpers@[v])@),
    ensures
        (r matches Ok(p) ==> {
            &&& bone_vertices_spec(*bone, *vg) matches Some(pr)
            &&& (pr.0 as int) < helpers@.len()
            &&& (pr.1 as int) < helpers@.len()
            &&& p@ == end_pos_spec(*bone, *vg, helpers@)
        }),
        (r is Err ==> (bone_vertices_spec(*bone, *vg) is None || {
            let pr = bone_vertices_spec(*bone, *vg).unwrap();
            (pr.0 as int) >= helpers@.len() || (pr.1 as int) >= helpers@.len()
        })),
        (r matches Err(e) ==> (e matches ConfigError::UnknownStrategy { bone: s2 }
            || e matches ConfigError::MissingPlacement { bone: s3 })),
{
    let (v1, v2) = match get_bone_vertices(bone, vg) {
        Ok(p) => p,
        Err(e) => {
            return Err(e);
        },
    };
    if (v1 as usize) >= helpers.len() || (v2 as usize) >= helpers.len() {
        return Err(ConfigError::MissingPlacement { bone: bone.strategy.clone() });
    }
    let a: Vec3 = helpers[v1 as usize];
    let b: Vec3 = helpers[v2 as usize];
    Ok(Vec3 { x: half(a.x + b.x), y: half(a.y + b.y), z: half(a.z + b.z) })
}

/// Position of the first bone with this name, or -1.
pub open spec fn bone_index(cfg: Seq<(String, BoneData)>, name: Seq<char>) -> int
    decreases cfg.len(),
{
    if cfg.len() == 0 {
        -1
    } else if cfg[0].0@ == name {
        0
    } else {
        let rest = bone_index(cfg.subrange(1, cfg.len() as int), name);
        if rest == -1 {
            -1
        } else {
            rest + 1
        }
    }
}

pub proof fn lemma_bone_index_props(cfg: Seq<(String, BoneData)>, name: Seq<char>)
    ensures
        bone_index(cfg, name) == -1 ==> forall|b: int|
            0 <= b < cfg.len() ==> (#[trigger] cfg[b]).0@ != name,
        bone_index(cfg, name) != -1 ==> {
            &&& 0 <= bone_index(cfg, name) < cfg.len()
            &&& cfg[bone_index(cfg, name)].0@ == name
            &&& forall|b: int| 0 <= b < bone_index(cfg, name) ==> (#[trigger] cfg[b]).0@ != name
        },
    decreases cfg.len(),
{
    if cfg.len() > 0 {
        let rest = cfg.subrange(1, cfg.len() as int);
        lemma_bone_index_props(rest, name);
        assert(forall|b: int| 0 <= b < rest.len() ==> #[trigger] rest[b] == cfg[b + 1]);
        if cfg[0].0@ != name {
            let rti = bone_index(rest, name);
            if rti == -1 {
                assert forall|b: int| 0 <= b < cfg.len() implies (#[trigger] cfg[b]).0@ != name by {
                    if b > 0 {
                        assert(rest[b - 1] == cfg[b]);
                    }
                }
            } else {
                assert(cfg[bone_index(cfg, name)] == rest[rti]);
                assert forall|b: int|
                    0 <= b < bone_index(cfg, name) implies (#[trigger] cfg[b]).0@ != name by {
                    if b > 0 {
                        assert(rest[b - 1] == cfg[b]);
                    }
                }
            }
        }
    }
}

/// Finds the first bone with this name.
fn find_bone(config: &Vec<(String, BoneData)>, name: &String) -> (r: Option<usize>)
    ensures
        (r matches Some(b) ==> bone_index(config@, name@) == b as int),
        (r is None ==> bone_index(config@, name@) == -1),
{
    let ghost cfg = config@;
    let cn: usize = config.len();
    let mut scan: usize = 0;
    let mut found: bool = false;
    let mut b: usize = 0;
    while scan < cn
        invariant
            cfg == config@,
            cn == cfg.len(),
            scan <= cn,
            !found ==> forall|b2: int| 0 <= b2 < scan ==> (#[trigger] cfg[b2]).0@ != name@,
            found ==> {
                &&& b < scan
                &&& cfg[b as int].0@ == name@
                &&& forall|b2: int| 0 <= b2 < b ==> (#[trigger] cfg[b2]).0@ != name@
            },
        decreases cn - scan,
    {
        if !found && config[scan].0 == *name {
            found = true;
            b = scan;
        }
        scan += 1;
    }
    proof {
        lemma_bone_index_props(cfg, name@);
    }
    if found {
        Some(b)
    } else {
        None
    }
}

/// Topological depth of a bone, following the parent chain with fuel:
/// -1 when a parent is missing or the chain never reaches a root.
pub open spec fn depth_idx(cfg: Seq<(String, BoneData)>, i: int, fuel: nat) -> int
    decreases fuel,
{
    if fuel == 0 {
        -1
    } else if cfg[i].1.parent@.len() == 0 {
        0
    } else {
        let j = bone_index(cfg, cfg[i].1.parent@);
        if j == -1 {
            -1
        } else {
            let d = depth_idx(cfg, j, (fuel - 1) as nat);
            if d == -1 {
                -1
            } else {
                d + 1
            }
        }
    }
}

/// The depth of a bone, with enough fuel for any acyclic chain.
pub open spec fn depth_of(cfg: Seq<(String, BoneData)>, i: int) -> int {
    depth_idx(cfg, i, (cfg.len() + 1) as nat)
}

/// More fuel never changes a settled depth.
pub proof fn lemma_depth_fuel_mono(cfg: Seq<(String, BoneData)>, i: int, f1: nat, f2: nat)
    requires
        f1 <= f2,
        depth_idx(cfg, i, f1) != -1,
    ensures
        depth_idx(cfg, i, f2) == depth_idx(cfg, i, f1),
    decreases f1,
{
    if f1 > 0 && cfg[i].1.parent@.len() > 0 {
        let j = bone_index(cfg, cfg[i].1.parent@);
        lemma_depth_fuel_mono(cfg, j, (f1 - 1) as nat, (f2 - 1) as nat);
    }
}

/// The number of unparented bones among the first `upto`.
pub open spec fn root_count(cfg: Seq<(String, BoneData)>, upto: int) -> int
    decreases upto,
{
    if upto <= 0 {
        0
    } else {
        root_count(cfg, upto - 1) + if cfg[upto - 1].1.parent@.len() == 0 {
            1int
        } else {
            0int
        }
    }
}

/// The first unparented bone, or -1.
pub open spec fn first_root(cfg: Seq<(String, BoneData)>, upto: int) -> int
    decreases upto,
{
    if upto <= 0 {
        -1
    } else {
        let r = first_root(cfg, upto - 1);
        if r != -1 {
            r
        } else if cfg[upto - 1].1.parent@.len() == 0 {
            upto - 1
        } else {
            -1
        }
    }
}

/// The depths of all bones.
pub open spec fn depths_seq(cfg: Seq<(String, BoneData)>) -> Seq<int> {
    Seq::new(cfg.len(), |i: int| depth_of(cfg, i))
}

/// How many of the first `upto` depths are below `d`.
pub open spec fn cnt_lt(ds: Seq<int>, d: int, upto: int) -> int
    decreases upto,
{
    if upto <= 0 {
        0
    } else {
        cnt_lt(ds, d, upto - 1) + if ds[upto - 1] < d {
            1int
        } else {
            0int
        }
    }
}

/// How many of the first `upto` depths equal `d`.
pub open spec fn cnt_eq(ds: Seq<int>, d: int, upto: int) -> int
    decreases upto,
{
    if upto <= 0 {
        0
    } else {
        cnt_eq(ds, d, upto - 1) + if ds[upto - 1] == d {
            1int
        } else {
            0int
        }
    }
}

/// Where a bone stands in depth order, ties broken by authoring order:
/// all strictly shallower bones come first, then the equally deep ones
/// that were authored earlier.
pub open spec fn pos_of(ds: Seq<int>, i: int) -> int {
    cnt_lt(ds, ds[i], ds.len() as int) + cnt_eq(ds, ds[i], i)
}

/// Raising the threshold by one absorbs the equal count.
pub proof fn lemma_cnt_lt_step(ds: Seq<int>, d: int, upto: int)
    ensures
        cnt_lt(ds, d + 1, upto) == cnt_lt(ds, d, upto) + cnt_eq(ds, d, upto),
    decreases upto,
{
    if upto > 0 {
        lemma_cnt_lt_step(ds, d, upto - 1);
    }
}

/// Counts over longer prefixes never shrink, and grow by at most one
/// per element.
pub proof fn lemma_cnt_eq_mono(ds: Seq<int>, d: int, a: int, b: int)
    requires
        a <= b,
    ensures
        cnt_eq(ds, d, a) <= cnt_eq(ds, d, b),
    decreases b - a,
{
    if a < b {
        lemma_cnt_eq_mono(ds, d, a, b - 1);
    }
}

/// Counting bounds.
pub proof fn lemma_cnt_bounds(ds: Seq<int>, d: int, upto: int)
    ensures
        0 <= cnt_lt(ds, d, upto),
        0 <= cnt_eq(ds, d, upto),
        cnt_lt(ds, d, upto) + cnt_eq(ds, d, upto) <= if upto <= 0 {
            0int
        } else {
            upto
        },
    decreases upto,
{
    if upto > 0 {
        lemma_cnt_bounds(ds, d, upto - 1);
    }
}

/// Law: a strictly shallower bone stands strictly earlier.
pub proof fn lemma_pos_precedes(ds: Seq<int>, j: int, i: int)
    requires
        0 <= j < ds.len(),
        0 <= i < ds.len(),
        ds[j] < ds[i],
    ensures
        pos_of(ds, j) < pos_of(ds, i),
{
    let n = ds.len() as int;
    lemma_cnt_eq_split(ds, ds[j], j);
    lemma_cnt_eq_mono(ds, ds[j], j + 1, n);
    lemma_cnt_lt_step(ds, ds[j], n);
    lemma_cnt_lt_mono_threshold(ds, ds[j] + 1, ds[i], n);
    lemma_cnt_bounds(ds, ds[i], i);
    assert(pos_of(ds, j) + 1 <= cnt_lt(ds, ds[j], n) + cnt_eq(ds, ds[j], n));
}

/// A higher threshold never counts fewer.
pub proof fn lemma_cnt_lt_mono_threshold(ds: Seq<int>, d1: int, d2: int, upto: int)
    requires
        d1 <= d2,
    ensures
        cnt_lt(ds, d1, upto) <= cnt_lt(ds, d2, upto),
    decreases upto,
{
    if upto > 0 {
        lemma_cnt_lt_mono_threshold(ds, d1, d2, upto - 1);
    }
}

/// A bone's position stays within the arena.
pub proof fn lemma_pos_in_range(ds: Seq<int>, i: int)
    requires
        0 <= i < ds.len(),
    ensures
        0 <= pos_of(ds, i) < ds.len(),
{
    let n = ds.len() as int;
    lemma_cnt_bounds(ds, ds[i], i);
    lemma_cnt_bounds(ds, ds[i], n);
    lemma_cnt_eq_split(ds, ds[i], i);
    lemma_cnt_eq_mono(ds, ds[i], i + 1, n);
    lemma_cnt_plus_le(ds, ds[i], n);
}

/// One element with the counted depth contributes one.
pub proof fn lemma_cnt_eq_split(ds: Seq<int>, d: int, i: int)
    requires
        0 <= i < ds.len(),
        ds[i] == d,
    ensures
        cnt_eq(ds, d, i + 1) == cnt_eq(ds, d, i) + 1,
{
}

/// Both counts together never exceed the prefix.
pub proof fn lemma_cnt_plus_le(ds: Seq<int>, d: int, upto: int)
    ensures
        cnt_lt(ds, d, upto) + cnt_eq(ds, d, upto) <= if upto <= 0 {
            0int
        } else {
            upto
        },
    decreases upto,
{
    if upto > 0 {
        lemma_cnt_plus_le(ds, d, upto - 1);
    }
}

/// The suffix 'Hips' marks a hip-style root bone.
pub open spec fn spec_ends_with_hips(s: Seq<char>) -> bool {
    s.len() >= 4 && s[s.len() - 4] == 'H' && s[s.len() - 3] == 'i' && s[s.len() - 2] == 'p'
        && s[s.len() - 1] == 's'
}

fn ends_with_hips(name: &String) -> (r: bool)
    ensures
        r == spec_ends_with_hips(name@),
{
    let s: &str = name.as_str();
    let n: usize = s.unicode_len();
    if n < 4 {
        return false;
    }
    let c0: char = s.get_char(n - 4);
    let c1: char = s.get_char(n - 3);
    let c2: char = s.get_char(n - 2);
    let c3: char = s.get_char(n - 1);
    c0 == 'H' && c1 == 'i' && c2 == 'p' && c3 == 's'
}

/// Every bone's head and tail placement resolves against the vertex
/// groups and the helper mesh.
pub open spec fn placements_ok(cfg: Seq<(String, BoneData)>, vg: VertexGroups, n: int) -> bool {
    forall|i: int|
        0 <= i < cfg.len() ==> {
            &&& bone_vertices_spec((#[trigger] cfg[i]).1.head, vg) matches Some(hp)
                && (hp.0 as int) < n && (hp.1 as int) < n
            &&& bone_vertices_spec(cfg[i].1.tail, vg) matches Some(tp) && (tp.0 as int) < n
                && (tp.1 as int) < n
        }
}

/// Depths are never below -1.
pub proof fn lemma_depth_idx_min(cfg: Seq<(String, BoneData)>, i: int, fuel: nat)
    ensures
        depth_idx(cfg, i, fuel) >= -1,
    decreases fuel,
{
    if fuel > 0 && cfg[i].1.parent@.len() > 0 {
        let j = bone_index(cfg, cfg[i].1.parent@);
        if j != -1 {
            lemma_depth_idx_min(cfg, j, (fuel - 1) as nat);
        }
    }
}

/// A bone is at depth zero exactly when it is unparented.
pub proof fn lemma_depth_zero_is_root(cfg: Seq<(String, BoneData)>, i: int)
    requires
        0 <= i < cfg.len(),
        depth_of(cfg, i) != -1,
    ensures
        depth_of(cfg, i) == 0 <==> cfg[i].1.parent@.len() == 0,
        depth_of(cfg, i) >= 0,
{
    if cfg[i].1.parent@.len() > 0 {
        let j = bone_index(cfg, cfg[i].1.parent@);
        if j != -1 {
            lemma_depth_idx_min(cfg, j, cfg.len() as nat);
        }
    }
}

/// `first_root` finds an unparented bone when the count is positive.
pub proof fn lemma_first_root_props(cfg: Seq<(String, BoneData)>, upto: int)
    ensures
        root_count(cfg, upto) > 0 ==> {
            &&& 0 <= first_root(cfg, upto) < upto
            &&& cfg[first_root(cfg, upto)].1.parent@.len() == 0
        },
        root_count(cfg, upto) == 0 ==> first_root(cfg, upto) == -1,
        first_root(cfg, upto) != -1 ==> root_count(cfg, upto) > 0,
    decreases upto,
{
    if upto > 0 {
        lemma_first_root_props(cfg, upto - 1);
        let rp = first_root(cfg, upto - 1);
        if rp != -1 {
            assert(first_root(cfg, upto) == rp);
            assert(root_count(cfg, upto) >= root_count(cfg, upto - 1));
        } else {
            if cfg[upto - 1].1.parent@.len() == 0 {
                assert(first_root(cfg, upto) == upto - 1);
                assert(root_count(cfg, upto) == root_count(cfg, upto - 1) + 1);
                assert(root_count(cfg, upto - 1) >= 0) by {
                    lemma_root_count_nonneg(cfg, upto - 1);
                }
            }
        }
    }
}

/// Root counts are never negative.
pub proof fn lemma_root_count_nonneg(cfg: Seq<(String, BoneData)>, upto: int)
    ensures
        root_count(cfg, upto) >= 0,
    decreases upto,
{
    if upto > 0 {
        lemma_root_count_nonneg(cfg, upto - 1);
    }
}

/// Depths settle strictly below their fuel.
pub proof fn lemma_depth_idx_max(cfg: Seq<(String, BoneData)>, i: int, fuel: nat)
    ensures
        depth_idx(cfg, i, fuel) < fuel,
    decreases fuel,
{
    if fuel > 0 && cfg[i].1.parent@.len() > 0 {
        let j = bone_index(cfg, cfg[i].1.parent@);
        if j != -1 {
            lemma_depth_idx_max(cfg, j, (fuel - 1) as nat);
        }
    }
}

/// Computes one bone's topological depth by walking its parent chain;
/// `None` when a parent is missing or the chain never ends.
fn bone_depth(config: &Vec<(String, BoneData)>, i: usize) -> (r: Option<usize>)
    requires
        (i as int) < config@.len(),
        config@.len() <= 0xffff,
    ensures
        (r matches Some(d) ==> depth_of(config@, i as int) == d as int && (d as int)
            <= config@.len()),
        (r is None ==> depth_of(config@, i as int) == -1),
{
    let ghost cfg = config@;
    let n: usize = config.len();
    let ghost fuel_total = (n + 1) as nat;
    let mut cur: usize = i;
    let mut d: usize = 0;
    loop
        invariant
            cfg == config@,
            n == cfg.len(),
            n <= 0xffff,
            (i as int) < n,
            (cur as int) < n,
            d <= n + 1,
            ({
                let x = depth_idx(cfg, cur as int, (n + 1 - d) as nat);
                &&& (depth_of(cfg, i as int) == -1 <==> x == -1)
                &&& (x != -1 ==> depth_of(cfg, i as int) == d + x)
            }),
        decreases n + 1 - d,
    {
        if d > n {
            proof {
                assert(depth_idx(cfg, cur as int, 0) == -1);
            }
            return None;
        }
        let parent: &String = &config[cur].1.parent;
        if parent.as_str().is_empty() {
            proof {
                assert(depth_idx(cfg, cur as int, (n + 1 - d) as nat) == 0);
            }
            return Some(d);
        }
        match find_bone(config, parent) {
            None => {
                proof {
                    assert(depth_idx(cfg, cur as int, (n + 1 - d) as nat) == -1);
                }
                return None;
            },
            Some(j) => {
                proof {
                    lemma_bone_index_props(cfg, parent@);
                    lemma_depth_idx_min(cfg, j as int, (n + 1 - d - 1) as nat);
                    assert(depth_idx(cfg, cur as int, (n + 1 - d) as nat) == {
                        let dd = depth_idx(cfg, j as int, (n + 1 - d - 1) as nat);
                        if dd == -1 {
                            -1int
                        } else {
                            dd + 1
                        }
                    });
                }
                cur = j;
                d += 1;
            },
        }
    }
}

/// A placed bone of the arena is in order and correctly filled.
pub open spec fn node_ok(
    cfg: Seq<(String, BoneData)>,
    vg: VertexGroups,
    helpers: Seq<Vec3>,
    bones: Seq<BoneNode>,
    i: int,
    base: int,
    hips: bool,
) -> bool {
    let ds = depths_seq(cfg);
    let p = pos_of(ds, i) + base;
    &&& 0 <= p < bones.len()
    &&& bones[p].name == cfg[i].0
    &&& bones[p].head@ == end_pos_spec(cfg[i].1.head, vg, helpers)
    &&& bones[p].tail@ == end_pos_spec(cfg[i].1.tail, vg, helpers)
    &&& (cfg[i].1.parent@.len() == 0 ==> bones[p].parent == (if hips {
        Some(0usize)
    } else {
        None::<usize>
    }))
    &&& (cfg[i].1.parent@.len() > 0 ==> bones[p].parent == Some(
        (pos_of(ds, bone_index(cfg, cfg[i].1.parent@)) + base) as usize,
    ))
}

/// Lays out the skeleton for a rig definition over the current helper
/// positions: exactly one unparented bone is expected; every bone's
/// depth must resolve (no missing parent, no cycle); every head and
/// tail placement must resolve; bones are ordered by depth with ties
/// in authoring order; and when the root bone is hip-style an explicit
/// `Root` bone at the origin is synthesized in front and the hip bone
/// re-parented under it, so parents always precede children.
#[verifier::rlimit(100)]
pub fn build_rig(config: &Vec<(String, BoneData)>, vg: &VertexGroups, helpers: &Vec<Vec3>) -> (r:
    Result<Skeleton, ConfigError>)
    requires
        forall|v: int| 0 <= v < helpers@.len() ==> crate::fixed::gv_in_range((#[trigger] helpers@[v])@),
        config@.len() <= 0xffff,
    ensures
        (r matches Ok(sk) ==> {
            let cfg = config@;
            let ds = depths_seq(cfg);
            let ri = first_root(cfg, cfg.len() as int);
            let hips = spec_ends_with_hips(cfg[ri].0@);
            let base = if hips {
                1int
            } else {
                0int
            };
            &&& root_count(cfg, cfg.len() as int) == 1
            &&& (forall|i: int| 0 <= i < cfg.len() ==> depth_of(cfg, i) != -1)
            &&& placements_ok(cfg, *vg, helpers@.len() as int)
            &&& sk.bones@.len() == cfg.len() + base
            &&& (hips ==> {
                &&& sk.bones@[0].name@ == "Root"@
                &&& sk.bones@[0].parent is None
                &&& sk.bones@[0].head@ == crate::fixed::gv_zero()
                &&& sk.bones@[0].tail@ == crate::fixed::gv_zero()
            })
            &&& (forall|i: int|
                0 <= i < cfg.len() ==> node_ok(cfg, *vg, helpers@, sk.bones@, i, base, hips))
            &&& (forall|p: int|
                0 <= p < sk.bones@.len() ==> ((#[trigger] sk.bones@[p].parent) matches Some(q)
                    ==> (q as int) < p))
        }),
        (r matches Err(e) ==> {
            let cfg = config@;
            &&& (e matches ConfigError::RootCount { roots } ==> root_count(cfg, cfg.len() as int)
                != 1)
            &&& (e matches ConfigError::BrokenHierarchy { bone } ==> exists|i: int|
                0 <= i < cfg.len() && #[trigger] depth_of(cfg, i) == -1)
            &&& ((e matches ConfigError::UnknownStrategy { bone } || e matches ConfigError::MissingPlacement {
                bone,
            }) ==> !placements_ok(cfg, *vg, helpers@.len() as int))
            &&& !(e matches ConfigError::MissingMorph { name })
        }),
{
    let ghost cfg = config@;
    let n: usize = config.len();

    // Exactly one unparented bone.
    let mut roots: usize = 0;
    let mut first_i: usize = 0;
    let mut i: usize = 0;
    while i < n
        invariant
            cfg == config@,
            n == cfg.len(),
            i <= n,
            roots as int == root_count(cfg, i as int),
            roots <= i,
            roots > 0 ==> first_i as int == first_root(cfg, i as int),
            roots == 0 ==> first_root(cfg, i as int) == -1,
        decreases n - i,
    {
        if config[i].1.parent.as_str().is_empty() {
            if roots == 0 {
                first_i = i;
            }
            roots += 1;
        }
        i += 1;
    }
    if roots != 1 {
        return Err(ConfigError::RootCount { roots });
    }

    // Every bone's topological depth.
    let mut depths: Vec<usize> = Vec::new();
    let mut i2: usize = 0;
    while i2 < n
        invariant
            cfg == config@,
            n == cfg.len(),
            n <= 0xffff,
            i2 <= n,
            depths@.len() == i2,
            forall|k: int|
                0 <= k < i2 ==> (#[trigger] depths@[k] as int) == depth_of(cfg, k) && (
                depths@[k] as int) <= n,
        decreases n - i2,
    {
        match bone_depth(config, i2) {
            Some(d) => {
                depths.push(d);
            },
            None => {
                proof {
                    assert(depth_of(cfg, i2 as int) == -1);
                }
                return Err(ConfigError::BrokenHierarchy { bone: config[i2].0.clone() });
            },
        }
        i2 += 1;
    }

    // Every head and tail placement.
    let mut heads: Vec<Vec3> = Vec::new();
    let mut tails: Vec<Vec3> = Vec::new();
    let mut i3: usize = 0;
    while i3 < n
        invariant
            cfg == config@,
            n == cfg.len(),
            forall|v: int|
                0 <= v < helpers@.len() ==> crate::fixed::gv_in_range((#[trigger] helpers@[v])@),
            i3 <= n,
            heads@.len() == i3,
            tails@.len() == i3,
            forall|k: int|
                0 <= k < i3 ==> {
                    &&& bone_vertices_spec((#[trigger] cfg[k]).1.head, *vg) matches Some(hp)
                        && (hp.0 as int) < helpers@.len() && (hp.1 as int) < helpers@.len()
                    &&& bone_vertices_spec(cfg[k].1.tail, *vg) matches Some(tp) && (tp.0 as int)
                        < helpers@.len() && (tp.1 as int) < helpers@.len()
                    &&& heads@[k]@ == end_pos_spec(cfg[k].1.head, *vg, helpers@)
                    &&& tails@[k]@ == end_pos_spec(cfg[k].1.tail, *vg, helpers@)
                },
        decreases n - i3,
    {
        let h = match get_bone_transform(&config[i3].1.head, vg, helpers) {
            Ok(p) => p,
            Err(e) => {
                proof {
                    assert(!placements_ok(cfg, *vg, helpers@.len() as int));
                }
                return Err(e);
            },
        };
        let t = match get_bone_transform(&config[i3].1.tail, vg, helpers) {
            Ok(p) => p,
            Err(e) => {
                proof {
                    assert(!placements_ok(cfg, *vg, helpers@.len() as int));
                }
                return Err(e);
            },
        };
        heads.push(h);
        tails.push(t);
        i3 += 1;
    }

    // Root style.
    proof {
        lemma_first_root_props(cfg, n as int);
    }
    let hips: bool = ends_with_hips(&config[first_i].0);
    let base: usize = if hips {
        1
    } else {
        0
    };

    let ghost ds = depths_seq(cfg);
    proof {
        assert(forall|k: int| 0 <= k < n ==> #[trigger] ds[k] == depth_of(cfg, k));
        assert forall|k: int| 0 <= k < n implies #[trigger] ds[k] >= 0 by {
            assert(depths@[k] as int == ds[k]);
        }
        lemma_cnt_lt_none(ds, 0, n as int);
    }

    let mut out: Vec<BoneNode> = Vec::new();
    if hips {
        out.push(
            BoneNode {
                name: "Root".to_owned(),
                parent: None,
                head: Vec3 { x: 0, y: 0, z: 0 },
                tail: Vec3 { x: 0, y: 0, z: 0 },
            },
        );
    }
    let mut positions: Vec<usize> = vec![0usize; n];

    let mut d: usize = 0;
    while d <= n
        invariant
            cfg == config@,
            n == cfg.len(),
            n <= 0xffff,
            ds == depths_seq(cfg),
            forall|k: int| 0 <= k < n ==> #[trigger] ds[k] == depth_of(cfg, k),
            depths@.len() == n,
            forall|k: int|
                0 <= k < n ==> (#[trigger] depths@[k] as int) == ds[k] && (depths@[k] as int) <= n,
            forall|k: int| 0 <= k < n ==> #[trigger] ds[k] >= 0,
            heads@.len() == n,
            tails@.len() == n,
            forall|k: int|
                0 <= k < n ==> {
                    &&& bone_vertices_spec((#[trigger] cfg[k]).1.head, *vg) matches Some(hp)
                        && (hp.0 as int) < helpers@.len() && (hp.1 as int) < helpers@.len()
                    &&& bone_vertices_spec(cfg[k].1.tail, *vg) matches Some(tp) && (tp.0 as int)
                        < helpers@.len() && (tp.1 as int) < helpers@.len()
                    &&& heads@[k]@ == end_pos_spec(cfg[k].1.head, *vg, helpers@)
                    &&& tails@[k]@ == end_pos_spec(cfg[k].1.tail, *vg, helpers@)
                },
            root_count(cfg, n as int) == 1,
            first_i as int == first_root(cfg, n as int),
            hips == spec_ends_with_hips(cfg[first_i as int].0@),
            base == if hips {
                1int
            } else {
                0int
            },
            positions@.len() == n,
            d <= n + 1,
            out@.len() == base + cnt_lt(ds, d as int, n as int),
            hips ==> {
                &&& out@.len() >= 1
                &&& out@[0].name@ == "Root"@
                &&& out@[0].parent is None
                &&& out@[0].head@ == crate::fixed::gv_zero()
                &&& out@[0].tail@ == crate::fixed::gv_zero()
            },
            forall|k: int|
                0 <= k < n && ds[k] < d ==> {
                    &&& #[trigger] positions@[k] as int == pos_of(ds, k) + base
                    &&& node_ok(cfg, *vg, helpers@, out@, k, base as int, hips)
                },
            forall|p: int|
                0 <= p < out@.len() ==> ((#[trigger] out@[p].parent) matches Some(q) ==> (
                q as int) < p),
        decreases n + 1 - d,
    {
        let mut i4: usize = 0;
        while i4 < n
            invariant
                cfg == config@,
                n == cfg.len(),
                n <= 0xffff,
                ds == depths_seq(cfg),
                forall|k: int| 0 <= k < n ==> #[trigger] ds[k] == depth_of(cfg, k),
                depths@.len() == n,
                forall|k: int|
                    0 <= k < n ==> (#[trigger] depths@[k] as int) == ds[k] && (depths@[k] as int)
                        <= n,
                forall|k: int| 0 <= k < n ==> #[trigger] ds[k] >= 0,
                heads@.len() == n,
                tails@.len() == n,
                forall|k: int|
                    0 <= k < n ==> {
                        &&& bone_vertices_spec((#[trigger] cfg[k]).1.head, *vg) matches Some(hp)
                            && (hp.0 as int) < helpers@.len() && (hp.1 as int) < helpers@.len()
                        &&& bone_vertices_spec(cfg[k].1.tail, *vg) matches Some(tp) && (
                        tp.0 as int) < helpers@.len() && (tp.1 as int) < helpers@.len()
                        &&& heads@[k]@ == end_pos_spec(cfg[k].1.head, *vg, helpers@)
                        &&& tails@[k]@ == end_pos_spec(cfg[k].1.tail, *vg, helpers@)
                    },
                root_count(cfg, n as int) == 1,
                first_i as int == first_root(cfg, n as int),
                hips == spec_ends_with_hips(cfg[first_i as int].0@),
                base == if hips {
                    1int
                } else {
                    0int
                },
                positions@.len() == n,
                d <= n,
                i4 <= n,
                out@.len() == base + cnt_lt(ds, d as int, n as int) + cnt_eq(ds, d as int, i4 as int),
                hips ==> {
                    &&& out@.len() >= 1
                    &&& out@[0].name@ == "Root"@
                    &&& out@[0].parent is None
                    &&& out@[0].head@ == crate::fixed::gv_zero()
                    &&& out@[0].tail@ == crate::fixed::gv_zero()
                },
                forall|k: int|
                    0 <= k < n && (ds[k] < d || (ds[k] == d && k < i4)) ==> {
                        &&& #[trigger] positions@[k] as int == pos_of(ds, k) + base
                        &&& node_ok(cfg, *vg, helpers@, out@, k, base as int, hips)
                    },
                forall|p: int|
                    0 <= p < out@.len() ==> ((#[trigger] out@[p].parent) matches Some(q) ==> (
                    q as int) < p),
            decreases n - i4,
        {
            if depths[i4] == d {
                proof {
                    lemma_cnt_bounds(ds, d as int, n as int);
                    lemma_cnt_bounds(ds, d as int, i4 as int);
                    lemma_pos_in_range(ds, i4 as int);
                }
                let parent_ref: &String = &config[i4].1.parent;
                let parent_opt: Option<usize>;
                if parent_ref.as_str().is_empty() {
                    parent_opt = if hips {
                        Some(0)
                    } else {
                        None
                    };
                } else {
                    match find_bone(config, parent_ref) {
                        Some(j) => {
                            proof {
                                lemma_bone_index_props(cfg, parent_ref@);
                                assert(depth_of(cfg, i4 as int) != -1);
                                let fl = (n + 1) as nat;
                                assert(depth_idx(cfg, i4 as int, fl) == {
                                    let dd = depth_idx(cfg, j as int, (fl - 1) as nat);
                                    if dd == -1 {
                                        -1int
                                    } else {
                                        dd + 1
                                    }
                                });
                                lemma_depth_fuel_mono(cfg, j as int, (fl - 1) as nat, fl);
                                assert(ds[j as int] == ds[i4 as int] - 1);
                                lemma_pos_precedes(ds, j as int, i4 as int);
                            }
                            parent_opt = Some(positions[j]);
                        },
                        None => {
                            proof {
                                lemma_bone_index_props(cfg, parent_ref@);
                                assert(depth_idx(cfg, i4 as int, (n + 1) as nat) == -1);
                                assert(false);
                            }
                            return Err(ConfigError::BrokenHierarchy { bone: config[i4].0.clone() });
                        },
                    }
                }
                let p: usize = out.len();
                let ghost old_positions = positions@;
                let ghost old_out = out@;
                positions[i4] = p;
                out.push(
                    BoneNode {
                        name: config[i4].0.clone(),
                        parent: parent_opt,
                        head: heads[i4],
                        tail: tails[i4],
                    },
                );
                proof {
                    lemma_cnt_eq_split(ds, d as int, i4 as int);
                    assert(ds[i4 as int] == d as int);
                    assert(p as int == pos_of(ds, i4 as int) + base);
                    assert(out@.len() == old_out.len() + 1);
                    assert(forall|q: int| 0 <= q < old_out.len() ==> #[trigger] out@[q] == old_out[q]);
                    assert(forall|k: int|
                        0 <= k < n && k != i4 ==> #[trigger] positions@[k] == old_positions[k]);
                    assert(positions@[i4 as int] == p);
                    assert(heads@[i4 as int]@ == end_pos_spec(cfg[i4 as int].1.head, *vg, helpers@));
                    assert(tails@[i4 as int]@ == end_pos_spec(cfg[i4 as int].1.tail, *vg, helpers@));
                    assert(out@[p as int].name == cfg[i4 as int].0);
                    assert(out@[p as int].head == heads@[i4 as int]);
                    assert(out@[p as int].tail == tails@[i4 as int]);
                    assert(out@[p as int].parent == parent_opt);
                    if cfg[i4 as int].1.parent@.len() == 0 {
                        lemma_depth_zero_is_root(cfg, i4 as int);
                        assert(ds[i4 as int] == 0);
                        if hips {
                            assert(out@.len() >= 2);
                            assert(p as int >= 1);
                        }
                    }
                    assert(node_ok(cfg, *vg, helpers@, out@, i4 as int, base as int, hips));
                    assert forall|k: int|
                        0 <= k < n && (ds[k] < d || (ds[k] == d && k < i4 + 1)) implies {
                        &&& #[trigger] positions@[k] as int == pos_of(ds, k) + base
                        &&& node_ok(cfg, *vg, helpers@, out@, k, base as int, hips)
                    } by {
                        if k == i4 as int {
                        } else {
                            lemma_pos_in_range(ds, k);
                            assert(positions@[k] == old_positions[k]);
                            assert(node_ok(cfg, *vg, helpers@, old_out, k, base as int, hips));
                            assert(out@[pos_of(ds, k) + base] == old_out[pos_of(ds, k) + base]);
                        }
                    }
                }
            }
            i4 += 1;
        }
        proof {
            lemma_cnt_lt_step(ds, d as int, n as int);
            lemma_cnt_eq_mono(ds, d as int, i4 as int, n as int);
            assert forall|k: int| 0 <= k < n && ds[k] < d + 1 implies {
                &&& #[trigger] positions@[k] as int == pos_of(ds, k) + base
                &&& node_ok(cfg, *vg, helpers@, out@, k, base as int, hips)
            } by {
                assert(ds[k] < d || (ds[k] == d && k < n));
            }
        }
        d += 1;
    }
    proof {
        assert forall|k: int| 0 <= k < n implies {
            &&& #[trigger] positions@[k] as int == pos_of(ds, k) + base
            &&& node_ok(cfg, *vg, helpers@, out@, k, base as int, hips)
        } by {
            assert(depths@[k] as int == ds[k]);
            assert(ds[k] <= n);
        }
        assert forall|k: int| 0 <= k < n implies #[trigger] ds[k] < n + 1 by {
            assert(depths@[k] as int == ds[k]);
        }
        lemma_cnt_lt_all(ds, (n + 1) as int, n as int);
        assert(placements_ok(cfg, *vg, helpers@.len() as int));
        assert forall|i5: int| 0 <= i5 < cfg.len() implies depth_of(cfg, i5) != -1 by {
            assert(depths@[i5] as int == ds[i5]);
            assert(ds[i5] >= 0);
        }
        let ri = first_root(cfg, cfg.len() as int);
        assert(ri == first_i as int);
        assert(spec_ends_with_hips(cfg[ri].0@) == hips);
        let sbase = if spec_ends_with_hips(cfg[ri].0@) {
            1int
        } else {
            0int
        };
        assert(sbase == base as int);
        assert forall|k: int|
            0 <= k < cfg.len() implies node_ok(
            cfg,
            *vg,
            helpers@,
            out@,
            k,
            sbase,
            spec_ends_with_hips(cfg[ri].0@),
        ) by {
            assert(positions@[k] as int >= 0);
            assert(ds[k] < d);
            assert(positions@[k] as int == pos_of(ds, k) + base && node_ok(
                cfg,
                *vg,
                helpers@,
                out@,
                k,
                base as int,
                hips,
            ));
        }
    }
    Ok(Skeleton { bones: out })
}

/// A threshold at or below every depth counts nothing.
pub proof fn lemma_cnt_lt_none(ds: Seq<int>, d: int, upto: int)
    requires
        forall|k: int| 0 <= k < upto ==> #[trigger] ds[k] >= d,
    ensures
        cnt_lt(ds, d, upto) == 0,
    decreases upto,
{
    if upto > 0 {
        lemma_cnt_lt_none(ds, d, upto - 1);
    }
}

/// A threshold above every depth counts the whole prefix.
pub proof fn lemma_cnt_lt_all(ds: Seq<int>, d: int, upto: int)
    requires
        forall|k: int| 0 <= k < upto ==> #[trigger] ds[k] < d,
    ensures
        cnt_lt(ds, d, upto) == if upto <= 0 {
            0int
        } else {
            upto
        },
    decreases upto,
{
    if upto > 0 {
        lemma_cnt_lt_all(ds, d, upto - 1);
    }
}

} // verus!
