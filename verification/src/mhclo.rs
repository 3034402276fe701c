//! The asset description text format.
//!
//! One file per body part or equipment item: header key/value lines
//! (`obj_file`, `x_scale`/`y_scale`/`z_scale`, `z_depth`, repeatable
//! `tag`, `name`) until a `verts` sentinel opens the vertex-mapping
//! block, where each line is either one canonical id or nine numbers
//! (three corner ids, three weights renormalized to sum to one, three
//! offset components); a `delete_verts` sentinel opens a block of
//! whitespace tokens that are bare ids or `A - B` inclusive ranges.
//! Lines starting `#` and blank lines are ignored; anything else is a
//! parse error naming the offending line.

use vstd::prelude::*;
use crate::assets::{HelperMap, ScaleData, Triangle};
use crate::errors::ParseError;
use crate::fixed::{scaled_div, Vec3};
use crate::text::{
    fixed_of_token, i8_of_token, parse_fixed, parse_i8, parse_u16, split_lines, split_lines_exec,
    tokenize, tokens, u16_of_token,
};

verus! {

/// The slots a body part can occupy.
#[derive(Debug, Clone, Copy, PartialEq, Eq, Structural, Hash)]
pub enum BodyPartSlot {
    Eyes,
    Tongue,
    Teeth,
    Eyelashes,
    Eyebrows,
    Hair,
}

/// The slots an equipment item can occupy.
#[derive(Debug, Clone, Copy, PartialEq, Eq, Structural, Hash)]
pub enum EquipmentSlot {
    Torso,
}

/// Which block of the file a line belongs to.
#[derive(Debug, Clone, Copy, PartialEq, Eq, Structural)]
pub enum Section {
    Header,
    Vertices,
    DeleteVerts,
}

/// Everything one asset description file holds, with names still as
/// raw bytes (the caller decides how to decode them).
#[derive(Debug, Clone)]
pub struct ParsedMhclo {
    pub name: Vec<u8>,
    pub obj_file: Vec<u8>,
    pub tags: Vec<Vec<u8>>,
    pub z_depth: i8,
    pub x_scale: ScaleData,
    pub y_scale: ScaleData,
    pub z_scale: ScaleData,
    pub helper_maps: Vec<HelperMap>,
    pub delete_verts: Vec<u16>,
}

/// The parser's state after some prefix of the lines.
pub struct MhcloModel {
    pub err: Option<int>,
    pub section: Section,
    pub name: Seq<u8>,
    pub obj_file: Seq<u8>,
    pub tags: Seq<Seq<u8>>,
    pub z_depth: i8,
    pub x_scale: ScaleData,
    pub y_scale: ScaleData,
    pub z_scale: ScaleData,
    pub helpers: Seq<HelperMap>,
    pub dels: Seq<u16>,
}

pub open spec fn mhclo_init() -> MhcloModel {
    MhcloModel {
        err: None,
        section: Section::Header,
        name: Seq::empty(),
        obj_file: Seq::empty(),
        tags: Seq::empty(),
        z_depth: 0,
        x_scale: ScaleData { min: 0, max: 0, scale: 0 },
        y_scale: ScaleData { min: 0, max: 0, scale: 0 },
        z_scale: ScaleData { min: 0, max: 0, scale: 0 },
        helpers: Seq::empty(),
        dels: Seq::empty(),
    }
}

pub open spec fn kw_verts() -> Seq<u8> {
    seq![118u8, 101u8, 114u8, 116u8, 115u8]
}

pub open spec fn kw_delete_verts() -> Seq<u8> {
    seq![100u8, 101u8, 108u8, 101u8, 116u8, 101u8, 95u8, 118u8, 101u8, 114u8, 116u8, 115u8]
}

pub open spec fn kw_obj_file() -> Seq<u8> {
    seq![111u8, 98u8, 106u8, 95u8, 102u8, 105u8, 108u8, 101u8]
}

pub open spec fn kw_x_scale() -> Seq<u8> {
    seq![120u8, 95u8, 115u8, 99u8, 97u8, 108u8, 101u8]
}

pub open spec fn kw_y_scale() -> Seq<u8> {
    seq![121u8, 95u8, 115u8, 99u8, 97u8, 108u8, 101u8]
}

pub open spec fn kw_z_scale() -> Seq<u8> {
    seq![122u8, 95u8, 115u8, 99u8, 97u8, 108u8, 101u8]
}

pub open spec fn kw_z_depth() -> Seq<u8> {
    seq![122u8, 95u8, 100u8, 101u8, 112u8, 116u8, 104u8]
}

pub open spec fn kw_tag() -> Seq<u8> {
    seq![116u8, 97u8, 103u8]
}

pub open spec fn kw_name() -> Seq<u8> {
    seq![110u8, 97u8, 109u8, 101u8]
}

pub open spec fn kw_material() -> Seq<u8> {
    seq![109u8, 97u8, 116u8, 101u8, 114u8, 105u8, 97u8, 108u8]
}

pub open spec fn kw_dash() -> Seq<u8> {
    seq![45u8]
}

/// The model with a failure recorded on this line.
pub open spec fn fail(m: MhcloModel, lineno: int) -> MhcloModel {
    MhcloModel { err: Some(lineno), ..m }
}

/// A comment line starts with `#`.
pub open spec fn is_comment(line: Seq<u8>) -> bool {
    line.len() > 0 && line[0] == 35
}

/// One header line's effect.
pub open spec fn header_step(m: MhcloModel, lt: Seq<Seq<u8>>, lineno: int) -> MhcloModel {
    let t0 = lt[0];
    if t0 == kw_obj_file() {
        if lt.len() >= 2 {
            MhcloModel { obj_file: lt.last(), ..m }
        } else {
            fail(m, lineno)
        }
    } else if t0 == kw_x_scale() {
        if lt.len() >= 4 {
            match (u16_of_token(lt[1]), u16_of_token(lt[2]), fixed_of_token(lt[3])) {
                (Some(a), Some(b), Some(c)) => MhcloModel {
                    x_scale: ScaleData { min: a, max: b, scale: c },
                    ..m
                },
                _ => fail(m, lineno),
            }
        } else {
            fail(m, lineno)
        }
    } else if t0 == kw_y_scale() {
        if lt.len() >= 4 {
            match (u16_of_token(lt[1]), u16_of_token(lt[2]), fixed_of_token(lt[3])) {
                (Some(a), Some(b), Some(c)) => MhcloModel {
                    y_scale: ScaleData { min: a, max: b, scale: c },
                    ..m
                },
                _ => fail(m, lineno),
            }
        } else {
            fail(m, lineno)
        }
    } else if t0 == kw_z_scale() {
        if lt.len() >= 4 {
            match (u16_of_token(lt[1]), u16_of_token(lt[2]), fixed_of_token(lt[3])) {
                (Some(a), Some(b), Some(c)) => MhcloModel {
                    z_scale: ScaleData { min: a, max: b, scale: c },
                    ..m
                },
                _ => fail(m, lineno),
            }
        } else {
            fail(m, lineno)
        }
    } else if t0 == kw_z_depth() {
        if lt.len() >= 2 {
            match i8_of_token(lt[1]) {
                Some(d) => MhcloModel { z_depth: d, ..m },
                None => fail(m, lineno),
            }
        } else {
            fail(m, lineno)
        }
    } else if t0 == kw_tag() {
        if lt.len() >= 2 {
            MhcloModel { tags: m.tags.push(lt.last()), ..m }
        } else {
            fail(m, lineno)
        }
    } else if t0 == kw_name() {
        if lt.len() >= 2 {
            MhcloModel { name: lt.last(), ..m }
        } else {
            fail(m, lineno)
        }
    } else {
        m
    }
}

/// The triangle a nine-number vertex line denotes, weights renormalized
/// to sum to one (kept as given when they sum to zero).
pub open spec fn triangle_of(
    v0: u16,
    v1: u16,
    v2: u16,
    w0: i64,
    w1: i64,
    w2: i64,
    o0: i64,
    o1: i64,
    o2: i64,
) -> Triangle {
    let total = w0 + w1 + w2;
    if total != 0 {
        Triangle {
            v0,
            v1,
            v2,
            w0: scaled_div(w0 as int, total) as i64,
            w1: scaled_div(w1 as int, total) as i64,
            w2: scaled_div(w2 as int, total) as i64,
            offset: Vec3 { x: o0, y: o1, z: o2 },
        }
    } else {
        Triangle { v0, v1, v2, w0, w1, w2, offset: Vec3 { x: o0, y: o1, z: o2 } }
    }
}

/// One vertex-block line's effect.
pub open spec fn verts_step(m: MhcloModel, lt: Seq<Seq<u8>>, lineno: int) -> MhcloModel {
    if lt[0] == kw_material() {
        m
    } else if lt.len() == 9 {
        match (u16_of_token(lt[0]), u16_of_token(lt[1]), u16_of_token(lt[2])) {
            (Some(v0), Some(v1), Some(v2)) => {
                match (fixed_of_token(lt[3]), fixed_of_token(lt[4]), fixed_of_token(lt[5])) {
                    (Some(w0), Some(w1), Some(w2)) => {
                        match (
                            fixed_of_token(lt[6]),
                            fixed_of_token(lt[7]),
                            fixed_of_token(lt[8]),
                        ) {
                            (Some(o0), Some(o1), Some(o2)) => MhcloModel {
                                helpers: m.helpers.push(
                                    HelperMap::Triangulated(
                                        triangle_of(v0, v1, v2, w0, w1, w2, o0, o1, o2),
                                    ),
                                ),
                                ..m
                            },
                            _ => fail(m, lineno),
                        }
                    },
                    _ => fail(m, lineno),
                }
            },
            _ => fail(m, lineno),
        }
    } else if lt.len() == 1 {
        match u16_of_token(lt[0]) {
            Some(v) => MhcloModel { helpers: m.helpers.push(HelperMap::Single(v)), ..m },
            None => fail(m, lineno),
        }
    } else {
        fail(m, lineno)
    }
}

/// The canonical ids of an inclusive range, ascending; empty when the
/// bounds are inverted.
pub open spec fn range_ids(s: u16, v: u16) -> Seq<u16>
    decreases v - s,
{
    if s > v {
        Seq::empty()
    } else if s == v {
        seq![s]
    } else {
        range_ids(s, (v - 1) as u16).push(v)
    }
}

/// Folding one delete-block line's tokens: collected ids, a pending
/// start id, and whether a range dash was just seen.  `None` is a parse
/// failure.
pub open spec fn del_fold(lt: Seq<Seq<u8>>, j: int) -> Option<(Seq<u16>, Option<u16>, bool)>
    decreases j,
{
    if j <= 0 {
        Some((Seq::empty(), None, false))
    } else {
        match del_fold(lt, j - 1) {
            None => None,
            Some((acc, st, grouping)) => {
                let tok = lt[j - 1];
                if grouping {
                    match (st, u16_of_token(tok)) {
                        (Some(s), Some(v)) => Some((acc + range_ids(s, v), None, false)),
                        _ => None,
                    }
                } else if tok == kw_dash() {
                    Some((acc, st, true))
                } else {
                    match u16_of_token(tok) {
                        Some(v) => {
                            match st {
                                Some(s) => Some((acc.push(s), Some(v), false)),
                                None => Some((acc, Some(v), false)),
                            }
                        },
                        None => None,
                    }
                }
            },
        }
    }
}

/// A failed token fold stays failed.
pub proof fn lemma_del_fold_none_persists(lt: Seq<Seq<u8>>, j: int, j2: int)
    requires
        0 <= j <= j2,
        del_fold(lt, j) is None,
    ensures
        del_fold(lt, j2) is None,
    decreases j2 - j,
{
    if j < j2 {
        lemma_del_fold_none_persists(lt, j, j2 - 1);
    }
}

/// One delete-block line's effect: its ids (with a dangling start id
/// flushed) join the delete list.
pub open spec fn del_step(m: MhcloModel, lt: Seq<Seq<u8>>, lineno: int) -> MhcloModel {
    match del_fold(lt, lt.len() as int) {
        None => fail(m, lineno),
        Some((acc, st, grouping)) => {
            match st {
                Some(s) => MhcloModel { dels: m.dels + acc.push(s), ..m },
                None => MhcloModel { dels: m.dels + acc, ..m },
            }
        },
    }
}

/// One line's effect on the parser state.
pub open spec fn mhclo_step(m: MhcloModel, line: Seq<u8>, lineno: int) -> MhcloModel {
    if m.err is Some {
        m
    } else {
        let lt = tokens(line);
        if is_comment(line) || lt.len() == 0 {
            m
        } else if lt[0] == kw_verts() {
            MhcloModel { section: Section::Vertices, ..m }
        } else if lt[0] == kw_delete_verts() {
            MhcloModel { section: Section::DeleteVerts, ..m }
        } else if m.section is Header {
            header_step(m, lt, lineno)
        } else if m.section is Vertices {
            verts_step(m, lt, lineno)
        } else {
            del_step(m, lt, lineno)
        }
    }
}

/// The parser state after the first `i` lines.
pub open spec fn mhclo_after(lines: Seq<Seq<u8>>, i: int) -> MhcloModel
    decreases i,
{
    if i <= 0 {
        mhclo_init()
    } else {
        mhclo_step(mhclo_after(lines, i - 1), lines[i - 1], i - 1)
    }
}

/// A recorded failure never goes away.
pub proof fn lemma_mhclo_err_persists(lines: Seq<Seq<u8>>, i: int, j: int)
    requires
        0 <= i <= j,
        mhclo_after(lines, i).err is Some,
    ensures
        mhclo_after(lines, j).err == mhclo_after(lines, i).err,
    decreases j - i,
{
    if i < j {
        lemma_mhclo_err_persists(lines, i, j - 1);
    }
}

/// Whether two byte vectors hold the same bytes.
fn bytes_is(a: &Vec<u8>, b: &Vec<u8>) -> (r: bool)
    ensures
        r == (a@ == b@),
{
    if a.len() != b.len() {
        return false;
    }
    let n: usize = a.len();
    let mut i: usize = 0;
    while i < n
        invariant
            n == a@.len(),
            n == b@.len(),
            i <= n,
            forall|k: int| 0 <= k < i ==> a@[k] == b@[k],
        decreases n - i,
    {
        if a[i] != b[i] {
            return false;
        }
        i += 1;
    }
    proof {
        assert(a@ =~= b@);
    }
    true
}

fn kw_vec(which: u8) -> (v: Vec<u8>)
    requires
        which < 11,
    ensures
        which == 0 ==> v@ == kw_verts(),
        which == 1 ==> v@ == kw_delete_verts(),
        which == 2 ==> v@ == kw_obj_file(),
        which == 3 ==> v@ == kw_x_scale(),
        which == 4 ==> v@ == kw_y_scale(),
        which == 5 ==> v@ == kw_z_scale(),
        which == 6 ==> v@ == kw_z_depth(),
        which == 7 ==> v@ == kw_tag(),
        which == 8 ==> v@ == kw_name(),
        which == 9 ==> v@ == kw_material(),
        which == 10 ==> v@ == kw_dash(),
{
    let mut v: Vec<u8> = Vec::new();
    if which == 0 {
        v.push(118);
        v.push(101);
        v.push(114);
        v.push(116);
        v.push(115);
        proof {
            assert(v@ =~= kw_verts());
        }
    } else if which == 1 {
        v.push(100);
        v.push(101);
        v.push(108);
        v.push(101);
        v.push(116);
        v.push(101);
        v.push(95);
        v.push(118);
        v.push(101);
        v.push(114);
        v.push(116);
        v.push(115);
        proof {
            assert(v@ =~= kw_delete_verts());
        }
    } else if which == 2 {
        v.push(111);
        v.push(98);
        v.push(106);
        v.push(95);
        v.push(102);
        v.push(105);
        v.push(108);
        v.push(101);
        proof {
            assert(v@ =~= kw_obj_file());
        }
    } else if which == 3 {
        v.push(120);
        v.push(95);
        v.push(115);
        v.push(99);
        v.push(97);
        v.push(108);
        v.push(101);
        proof {
            assert(v@ =~= kw_x_scale());
        }
    } else if which == 4 {
        v.push(121);
        v.push(95);
        v.push(115);
        v.push(99);
        v.push(97);
        v.push(108);
        v.push(101);
        proof {
            assert(v@ =~= kw_y_scale());
        }
    } else if which == 5 {
        v.push(122);
        v.push(95);
        v.push(115);
        v.push(99);
        v.push(97);
        v.push(108);
        v.push(101);
        proof {
            assert(v@ =~= kw_z_scale());
        }
    } else if which == 6 {
        v.push(122);
        v.push(95);
        v.push(100);
        v.push(101);
        v.push(112);
        v.push(116);
        v.push(104);
        proof {
            assert(v@ =~= kw_z_depth());
        }
    } else if which == 7 {
        v.push(116);
        v.push(97);
        v.push(103);
        proof {
            assert(v@ =~= kw_tag());
        }
    } else if which == 8 {
        v.push(110);
        v.push(97);
        v.push(109);
        v.push(101);
        proof {
            assert(v@ =~= kw_name());
        }
    } else if which == 9 {
        v.push(109);
        v.push(97);
        v.push(116);
        v.push(101);
        v.push(114);
        v.push(105);
        v.push(97);
        v.push(108);
        proof {
            assert(v@ =~= kw_material());
        }
    } else {
        v.push(45);
        proof {
            assert(v@ =~= kw_dash());
        }
    }
    v
}

/// Marks the failing line and carries the failure to the end of the
/// fold.
fn finish_err(Ghost(ls): Ghost<Seq<Seq<u8>>>, i: usize) -> (r: ParseError)
    requires
        i < ls.len(),
        mhclo_after(ls, i as int + 1).err == Some(i as int),
    ensures
        r.line == i,
        mhclo_after(ls, ls.len() as int).err == Some(i as int),
{
    proof {
        lemma_mhclo_err_persists(ls, i as int + 1, ls.len() as int);
    }
    ParseError { line: i }
}

/// Marks which canonical vertices stand in a delete list: flag `j` is
/// set exactly when the list holds `j`.
pub fn delete_flags(ids: &Vec<u16>, n: usize) -> (r: Vec<bool>)
    requires
        n <= 0x10000,
        forall|k: int| 0 <= k < ids@.len() ==> (#[trigger] ids@[k] as int) < n,
    ensures
        r@.len() == n,
        forall|j: int| 0 <= j < n ==> (#[trigger] r@[j] <==> ids@.contains(j as u16)),
{
    let mut flags: Vec<bool> = vec![false; n];
    let nk: usize = ids.len();
    let mut k: usize = 0;
    while k < nk
        invariant
            nk == ids@.len(),
            n <= 0x10000,
            k <= nk,
            flags@.len() == n,
            forall|k2: int| 0 <= k2 < nk ==> (#[trigger] ids@[k2] as int) < n,
            forall|j: int|
                0 <= j < n ==> (#[trigger] flags@[j] <==> ids@.take(k as int).contains(j as u16)),
        decreases nk - k,
    {
        let id: u16 = ids[k];
        flags[id as usize] = true;
        proof {
            assert(ids@.take(k as int + 1).drop_last() =~= ids@.take(k as int));
            assert(ids@.take(k as int + 1).last() == ids@[k as int]);
            assert forall|j: int| 0 <= j < n implies (#[trigger] flags@[j]
                <==> ids@.take(k as int + 1).contains(j as u16)) by {
                let pre = ids@.take(k as int);
                let now = ids@.take(k as int + 1);
                if flags@[j] {
                    if j == id as int {
                        assert(now[k as int] == j as u16);
                        assert(now.contains(j as u16));
                    } else {
                        let w = choose|w: int| 0 <= w < pre.len() && pre[w] == j as u16;
                        assert(now[w] == j as u16);
                        assert(now.contains(j as u16));
                    }
                } else {
                    if now.contains(j as u16) {
                        let w = choose|w: int| 0 <= w < now.len() && now[w] == j as u16;
                        if w < pre.len() {
                            assert(pre[w] == j as u16);
                            assert(pre.contains(j as u16));
                        } else {
                            assert(j == id as int);
                        }
                    }
                }
            }
        }
        k += 1;
    }
    proof {
        assert(ids@.take(nk as int) =~= ids@);
    }
    flags
}

/// The sentinel and key tokens of the format, built once.
struct Keywords {
    verts: Vec<u8>,
    delv: Vec<u8>,
    obj: Vec<u8>,
    xs: Vec<u8>,
    ys: Vec<u8>,
    zs: Vec<u8>,
    zd: Vec<u8>,
    tag: Vec<u8>,
    name: Vec<u8>,
    material: Vec<u8>,
    dash: Vec<u8>,
}

spec fn kw_wf(k: Keywords) -> bool {
    &&& k.verts@ == kw_verts()
    &&& k.delv@ == kw_delete_verts()
    &&& k.obj@ == kw_obj_file()
    &&& k.xs@ == kw_x_scale()
    &&& k.ys@ == kw_y_scale()
    &&& k.zs@ == kw_z_scale()
    &&& k.zd@ == kw_z_depth()
    &&& k.tag@ == kw_tag()
    &&& k.name@ == kw_name()
    &&& k.material@ == kw_material()
    &&& k.dash@ == kw_dash()
}

fn make_keywords() -> (k: Keywords)
    ensures
        kw_wf(k),
{
    Keywords {
        verts: kw_vec(0),
        delv: kw_vec(1),
        obj: kw_vec(2),
        xs: kw_vec(3),
        ys: kw_vec(4),
        zs: kw_vec(5),
        zd: kw_vec(6),
        tag: kw_vec(7),
        name: kw_vec(8),
        material: kw_vec(9),
        dash: kw_vec(10),
    }
}

/// The parser's working state, one field per model field.
struct ParserState {
    section: Section,
    name: Vec<u8>,
    obj_file: Vec<u8>,
    tags: Vec<Vec<u8>>,
    z_depth: i8,
    x_scale: ScaleData,
    y_scale: ScaleData,
    z_scale: ScaleData,
    helpers: Vec<HelperMap>,
    dels: Vec<u16>,
}

spec fn st_models(st: ParserState, m: MhcloModel) -> bool {
    &&& m.err is None
    &&& st.section == m.section
    &&& st.name@ == m.name
    &&& st.obj_file@ == m.obj_file
    &&& st.tags@.len() == m.tags.len()
    &&& (forall|k: int| 0 <= k < st.tags@.len() ==> (#[trigger] st.tags@[k])@ == m.tags[k])
    &&& st.z_depth == m.z_depth
    &&& st.x_scale == m.x_scale
    &&& st.y_scale == m.y_scale
    &&& st.z_scale == m.z_scale
    &&& st.helpers@ == m.helpers
    &&& st.dels@ == m.dels
}

/// The token views of a tokenized line.
spec fn toks_model(toks: Seq<Vec<u8>>, lt: Seq<Seq<u8>>) -> bool {
    &&& toks.len() == lt.len()
    &&& forall|k: int| 0 <= k < toks.len() ==> (#[trigger] toks[k])@ == lt[k]
}

/// Applies one header line.
fn apply_header_line(
    st: &mut ParserState,
    toks: Vec<Vec<u8>>,
    kws: &Keywords,
    Ghost(lt): Ghost<Seq<Seq<u8>>>,
    Ghost(m): Ghost<MhcloModel>,
    Ghost(lineno): Ghost<int>,
) -> (ok: bool)
    requires
        kw_wf(*kws),
        st_models(*old(st), m),
        toks_model(toks@, lt),
        lt.len() > 0,
    ensures
        ok ==> st_models(*final(st), header_step(m, lt, lineno)),
        !ok ==> header_step(m, lt, lineno).err == Some(lineno),
{
    if bytes_is(&toks[0], &kws.obj) {
        if toks.len() >= 2 {
            let mut toks2 = toks;
            match toks2.pop() {
                Some(last) => {
                    st.obj_file = last;
                },
                None => {},
            }
            proof {
                assert(st.obj_file@ == lt.last());
            }
            true
        } else {
            false
        }
    } else if bytes_is(&toks[0], &kws.xs) {
        if toks.len() >= 4 {
            match (parse_u16(&toks[1]), parse_u16(&toks[2]), parse_fixed(&toks[3])) {
                (Some(av), Some(bv), Some(cv)) => {
                    st.x_scale = ScaleData { min: av, max: bv, scale: cv };
                    true
                },
                _ => false,
            }
        } else {
            false
        }
    } else if bytes_is(&toks[0], &kws.ys) {
        if toks.len() >= 4 {
            match (parse_u16(&toks[1]), parse_u16(&toks[2]), parse_fixed(&toks[3])) {
                (Some(av), Some(bv), Some(cv)) => {
                    st.y_scale = ScaleData { min: av, max: bv, scale: cv };
                    true
                },
                _ => false,
            }
        } else {
            false
        }
    } else if bytes_is(&toks[0], &kws.zs) {
        if toks.len() >= 4 {
            match (parse_u16(&toks[1]), parse_u16(&toks[2]), parse_fixed(&toks[3])) {
                (Some(av), Some(bv), Some(cv)) => {
                    st.z_scale = ScaleData { min: av, max: bv, scale: cv };
                    true
                },
                _ => false,
            }
        } else {
            false
        }
    } else if bytes_is(&toks[0], &kws.zd) {
        if toks.len() >= 2 {
            match parse_i8(&toks[1]) {
                Some(d) => {
                    st.z_depth = d;
                    true
                },
                None => false,
            }
        } else {
            false
        }
    } else if bytes_is(&toks[0], &kws.tag) {
        if toks.len() >= 2 {
            let mut toks2 = toks;
            match toks2.pop() {
                Some(last) => {
                    st.tags.push(last);
                },
                None => {},
            }
            proof {
                assert(st.tags@.len() == header_step(m, lt, lineno).tags.len());
                assert(forall|k: int|
                    0 <= k < st.tags@.len()
                        ==> (#[trigger] st.tags@[k])@ == header_step(m, lt, lineno).tags[k]);
            }
            true
        } else {
            false
        }
    } else if bytes_is(&toks[0], &kws.name) {
        if toks.len() >= 2 {
            let mut toks2 = toks;
            match toks2.pop() {
                Some(last) => {
                    st.name = last;
                },
                None => {},
            }
            proof {
                assert(st.name@ == lt.last());
            }
            true
        } else {
            false
        }
    } else {
        true
    }
}

/// Applies one vertex-block line.
fn apply_verts_line(
    st: &mut ParserState,
    toks: Vec<Vec<u8>>,
    kws: &Keywords,
    Ghost(lt): Ghost<Seq<Seq<u8>>>,
    Ghost(m): Ghost<MhcloModel>,
    Ghost(lineno): Ghost<int>,
) -> (ok: bool)
    requires
        kw_wf(*kws),
        st_models(*old(st), m),
        toks_model(toks@, lt),
        lt.len() > 0,
    ensures
        ok ==> st_models(*final(st), verts_step(m, lt, lineno)),
        !ok ==> verts_step(m, lt, lineno).err == Some(lineno),
{
    if bytes_is(&toks[0], &kws.material) {
        true
    } else if toks.len() == 9 {
        let v0 = parse_u16(&toks[0]);
        let v1 = parse_u16(&toks[1]);
        let v2 = parse_u16(&toks[2]);
        let w0 = parse_fixed(&toks[3]);
        let w1 = parse_fixed(&toks[4]);
        let w2 = parse_fixed(&toks[5]);
        let o0 = parse_fixed(&toks[6]);
        let o1 = parse_fixed(&toks[7]);
        let o2 = parse_fixed(&toks[8]);
        match (v0, v1, v2, w0, w1, w2, o0, o1, o2) {
            (
                Some(av0),
                Some(av1),
                Some(av2),
                Some(aw0),
                Some(aw1),
                Some(aw2),
                Some(ao0),
                Some(ao1),
                Some(ao2),
            ) => {
                let total: i64 = aw0 + aw1 + aw2;
                let tri: Triangle = if total != 0 {
                    Triangle {
                        v0: av0,
                        v1: av1,
                        v2: av2,
                        w0: crate::fixed::div_scaled(aw0, total),
                        w1: crate::fixed::div_scaled(aw1, total),
                        w2: crate::fixed::div_scaled(aw2, total),
                        offset: Vec3 { x: ao0, y: ao1, z: ao2 },
                    }
                } else {
                    Triangle {
                        v0: av0,
                        v1: av1,
                        v2: av2,
                        w0: aw0,
                        w1: aw1,
                        w2: aw2,
                        offset: Vec3 { x: ao0, y: ao1, z: ao2 },
                    }
                };
                proof {
                    assert(tri == triangle_of(av0, av1, av2, aw0, aw1, aw2, ao0, ao1, ao2));
                    assert(st.helpers@ == m.helpers);
                }
                st.helpers.push(HelperMap::Triangulated(tri));
                true
            },
            _ => false,
        }
    } else if toks.len() == 1 {
        match parse_u16(&toks[0]) {
            Some(v) => {
                st.helpers.push(HelperMap::Single(v));
                true
            },
            None => false,
        }
    } else {
        false
    }
}

/// Applies one delete-block line.
fn apply_del_line(
    st: &mut ParserState,
    toks: Vec<Vec<u8>>,
    kws: &Keywords,
    Ghost(lt): Ghost<Seq<Seq<u8>>>,
    Ghost(m): Ghost<MhcloModel>,
    Ghost(lineno): Ghost<int>,
) -> (ok: bool)
    requires
        kw_wf(*kws),
        st_models(*old(st), m),
        toks_model(toks@, lt),
        lt.len() > 0,
    ensures
        ok ==> st_models(*final(st), del_step(m, lt, lineno)),
        !ok ==> del_step(m, lt, lineno).err == Some(lineno),
{
    let tn: usize = toks.len();
    let mut start: Option<u16> = None;
    let mut grouping: bool = false;
    let ghost base = st.dels@;
    let mut j: usize = 0;
    while j < tn
        invariant
            kw_wf(*kws),
            toks_model(toks@, lt),
            tn == lt.len(),
            j <= tn,
            st.dels@.len() >= base.len(),
            st_models_except_dels(*st, m),
            del_fold(lt, j as int) matches Some(f) && st.dels@ == base + f.0 && start == f.1
                && grouping == f.2,
            base == m.dels,
        decreases tn - j,
    {
        let tok: &Vec<u8> = &toks[j];
        let ghost trip = del_fold(lt, j as int).unwrap();
        proof {
            assert(tok@ == lt[j as int]);
        }
        if grouping {
            let pv = parse_u16(tok);
            match (start, pv) {
                (Some(s), Some(v)) => {
                    let ghost before = st.dels@;
                    if s <= v {
                        let mut cur: u16 = s;
                        while cur < v
                            invariant
                                s <= cur <= v,
                                cur > s ==> st.dels@ == before + range_ids(s, (cur - 1) as u16),
                                cur == s ==> st.dels@ == before,
                                st_models_except_dels(*st, m),
                            decreases v - cur,
                        {
                            st.dels.push(cur);
                            proof {
                                if cur > s {
                                    assert(range_ids(s, cur) == range_ids(s, (cur - 1) as u16).push(
                                        cur,
                                    ));
                                    assert(st.dels@ =~= before + range_ids(s, cur));
                                } else {
                                    assert(range_ids(s, s) == seq![s]);
                                    assert(st.dels@ =~= before + range_ids(s, s));
                                }
                            }
                            cur += 1;
                        }
                        st.dels.push(v);
                        proof {
                            if v > s {
                                assert(range_ids(s, v) == range_ids(s, (v - 1) as u16).push(v));
                                assert(st.dels@ =~= before + range_ids(s, v));
                            } else {
                                assert(range_ids(s, s) == seq![s]);
                                assert(st.dels@ =~= before + range_ids(s, s));
                            }
                        }
                    } else {
                        proof {
                            assert(range_ids(s, v) == Seq::<u16>::empty());
                            assert(st.dels@ =~= before + range_ids(s, v));
                        }
                    }
                    start = None;
                    grouping = false;
                    proof {
                        assert(st.dels@ =~= base + (trip.0 + range_ids(s, v)));
                    }
                },
                _ => {
                    proof {
                        assert(del_fold(lt, j as int + 1) is None);
                        lemma_del_fold_none_persists(lt, j as int + 1, lt.len() as int);
                    }
                    return false;
                },
            }
        } else if bytes_is(tok, &kws.dash) {
            grouping = true;
        } else {
            match parse_u16(tok) {
                Some(v) => {
                    match start {
                        Some(s) => {
                            st.dels.push(s);
                            proof {
                                assert(st.dels@ =~= base + trip.0.push(s));
                            }
                        },
                        None => {},
                    }
                    start = Some(v);
                },
                None => {
                    proof {
                        assert(del_fold(lt, j as int + 1) is None);
                        lemma_del_fold_none_persists(lt, j as int + 1, lt.len() as int);
                    }
                    return false;
                },
            }
        }
        j += 1;
    }
    match start {
        Some(s) => {
            st.dels.push(s);
        },
        None => {},
    }
    proof {
        let (accf, stf, grpf) = del_fold(lt, lt.len() as int).unwrap();
        if stf is Some {
            assert(st.dels@ =~= base + accf.push(stf.unwrap()));
        }
        assert(st.dels@ == del_step(m, lt, lineno).dels);
    }
    true
}

/// Everything of the model relation but the delete list.
spec fn st_models_except_dels(st: ParserState, m: MhcloModel) -> bool {
    &&& m.err is None
    &&& st.section == m.section
    &&& st.name@ == m.name
    &&& st.obj_file@ == m.obj_file
    &&& st.tags@.len() == m.tags.len()
    &&& (forall|k: int| 0 <= k < st.tags@.len() ==> (#[trigger] st.tags@[k])@ == m.tags[k])
    &&& st.z_depth == m.z_depth
    &&& st.x_scale == m.x_scale
    &&& st.y_scale == m.y_scale
    &&& st.z_scale == m.z_scale
    &&& st.helpers@ == m.helpers
}

/// Applies one line of the file to the parser state.
fn apply_line(
    st: &mut ParserState,
    line: &Vec<u8>,
    kws: &Keywords,
    Ghost(m): Ghost<MhcloModel>,
    Ghost(lineno): Ghost<int>,
) -> (ok: bool)
    requires
        kw_wf(*kws),
        st_models(*old(st), m),
    ensures
        ok ==> st_models(*final(st), mhclo_step(m, line@, lineno)),
        !ok ==> mhclo_step(m, line@, lineno).err == Some(lineno),
{
    let ghost lt = tokens(line@);
    if line.len() > 0 && line[0] == 35 {
        proof {
            assert(is_comment(line@));
        }
        return true;
    }
    let toks: Vec<Vec<u8>> = tokenize(line);
    if toks.len() == 0 {
        return true;
    }
    if bytes_is(&toks[0], &kws.verts) {
        st.section = Section::Vertices;
        proof {
            assert(lt[0] == kw_verts());
        }
        return true;
    }
    if bytes_is(&toks[0], &kws.delv) {
        st.section = Section::DeleteVerts;
        proof {
            assert(lt[0] != kw_verts());
            assert(lt[0] == kw_delete_verts());
        }
        return true;
    }
    proof {
        assert(lt[0] != kw_verts());
        assert(lt[0] != kw_delete_verts());
    }
    match st.section {
        Section::Header => apply_header_line(st, toks, kws, Ghost(lt), Ghost(m), Ghost(lineno)),
        Section::Vertices => apply_verts_line(st, toks, kws, Ghost(lt), Ghost(m), Ghost(lineno)),
        Section::DeleteVerts => apply_del_line(st, toks, kws, Ghost(lt), Ghost(m), Ghost(lineno)),
    }
}

/// Parses one asset description file.  On success the result reflects,
/// field by field, what the line-by-line grammar of the format assigns
/// to the text; the first malformed line fails the parse and is named
/// in the error.
pub fn parse_human_asset(text: &Vec<u8>) -> (r: Result<ParsedMhclo, ParseError>)
    ensures
        (r matches Ok(a) ==> {
            let m = mhclo_after(split_lines(text@), split_lines(text@).len() as int);
            &&& m.err is None
            &&& a.name@ == m.name
            &&& a.obj_file@ == m.obj_file
            &&& a.tags@.len() == m.tags.len()
            &&& forall|k: int| 0 <= k < a.tags@.len() ==> (#[trigger] a.tags@[k])@ == m.tags[k]
            &&& a.z_depth == m.z_depth
            &&& a.x_scale == m.x_scale
            &&& a.y_scale == m.y_scale
            &&& a.z_scale == m.z_scale
            &&& a.helper_maps@ == m.helpers
            &&& a.delete_verts@ == m.dels
        }),
        (r matches Err(pe) ==> mhclo_after(split_lines(text@), split_lines(text@).len() as int).err
            == Some(pe.line as int)),
{
    let ghost ls = split_lines(text@);
    let lines: Vec<Vec<u8>> = split_lines_exec(text);
    let nl: usize = lines.len();
    let kws = make_keywords();

    let mut st = ParserState {
        section: Section::Header,
        name: Vec::new(),
        obj_file: Vec::new(),
        tags: Vec::new(),
        z_depth: 0,
        x_scale: ScaleData { min: 0, max: 0, scale: 0 },
        y_scale: ScaleData { min: 0, max: 0, scale: 0 },
        z_scale: ScaleData { min: 0, max: 0, scale: 0 },
        helpers: Vec::new(),
        dels: Vec::new(),
    };
    proof {
        assert(st_models(st, mhclo_init()));
    }

    let mut i: usize = 0;
    while i < nl
        invariant
            ls == split_lines(text@),
            nl == ls.len(),
            lines@.len() == nl,
            forall|k: int| 0 <= k < nl ==> (#[trigger] lines@[k])@ == ls[k],
            kw_wf(kws),
            i <= nl,
            st_models(st, mhclo_after(ls, i as int)),
        decreases nl - i,
    {
        let ghost mcur = mhclo_after(ls, i as int);
        proof {
            assert(mhclo_after(ls, i as int + 1) == mhclo_step(mcur, ls[i as int], i as int));
        }
        let ok = apply_line(&mut st, &lines[i], &kws, Ghost(mcur), Ghost(i as int));
        if !ok {
            return Err(finish_err(Ghost(ls), i));
        }
        i += 1;
    }
    Ok(
        ParsedMhclo {
            name: st.name,
            obj_file: st.obj_file,
            tags: st.tags,
            z_depth: st.z_depth,
            x_scale: st.x_scale,
            y_scale: st.y_scale,
            z_scale: st.z_scale,
            helper_maps: st.helpers,
            delete_verts: st.dels,
        },
    )
}

} // verus!
