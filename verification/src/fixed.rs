//! Fixed-point scalars and 3-vectors.
//!
//! Every geometric quantity of the pipeline (positions, displacements,
//! morph weights, barycentric weights, calibration scales) is held in
//! micro-units: an `i64` counting `1/SCALE`-ths of a world unit.  All
//! arithmetic is exact integer arithmetic; products are rescaled with a
//! truncating (round-toward-zero) division, mirroring what a scalar unit
//! would do, and every operation carries explicit magnitude bounds so
//! that nothing can overflow.

use vstd::prelude::*;

verus! {

/// Number of micro-units in one world unit.
pub const SCALE: i64 = 1_000_000;

/// Magnitude bound on any stored scalar (about 2147 world units):
/// small enough that a product of two bounded scalars fits an `i64`.
pub const MAG_LIMIT: i64 = 0x8000_0000;

/// Absolute value.
pub open spec fn iabs(n: int) -> int {
    if n >= 0 {
        n
    } else {
        -n
    }
}

/// Truncating (round-toward-zero) quotient, the division a scalar unit
/// performs on signed integers.
pub open spec fn quot_trunc(n: int, d: int) -> int
    recommends
        d != 0,
{
    if (n >= 0) == (d >= 0) {
        iabs(n) / iabs(d)
    } else {
        -(iabs(n) / iabs(d))
    }
}

/// Product of two micro-unit scalars, brought back to micro-units.
pub open spec fn scaled(a: int, b: int) -> int {
    quot_trunc(a * b, SCALE as int)
}

/// Quotient of two micro-unit scalars, brought back to micro-units.
pub open spec fn scaled_div(a: int, b: int) -> int
    recommends
        b != 0,
{
    quot_trunc(a * SCALE, b)
}

/// Truncating quotients never grow: `|n| <= m` gives `|n / d| <= m / d`.
pub proof fn lemma_quot_trunc_bound(n: int, d: int, m: int)
    requires
        d > 0,
        iabs(n) <= m,
    ensures
        iabs(quot_trunc(n, d)) <= m / d,
        iabs(quot_trunc(n, d)) * d <= iabs(n),
{
    vstd::arithmetic::div_mod::lemma_div_is_ordered(iabs(n), m, d);
    vstd::arithmetic::div_mod::lemma_div_pos_is_pos(iabs(n), d);
    vstd::arithmetic::div_mod::lemma_fundamental_div_mod(iabs(n), d);
    vstd::arithmetic::div_mod::lemma_remainder_lower(iabs(n), d);
    assert(iabs(n) / d * d <= iabs(n)) by (nonlinear_arith)
        requires d > 0, iabs(n) >= 0, iabs(n) % d >= 0, iabs(n) == d * (iabs(n) / d) + iabs(n) % d,
    ;
}

/// A weight between 0 and 1 shrinks what it scales.
pub proof fn lemma_scaled_by_unit_weight(a: int, w: int)
    requires
        0 <= w <= SCALE,
    ensures
        iabs(scaled(a, w)) <= iabs(a),
{
    assert(iabs(a * w) <= iabs(a) * (SCALE as int)) by (nonlinear_arith)
        requires 0 <= w <= SCALE,
    ;
    lemma_quot_trunc_bound(a * w, SCALE as int, iabs(a) * (SCALE as int));
    vstd::arithmetic::div_mod::lemma_div_multiples_vanish(iabs(a), SCALE as int);
}

/// Scaling by weight zero gives zero.
pub proof fn lemma_scaled_zero(a: int)
    ensures
        scaled(a, 0) == 0,
{
    vstd::arithmetic::div_mod::lemma_div_of0(SCALE as int);
}

/// A rescaled product of non-negative scalars is non-negative.
pub proof fn lemma_scaled_nonneg(a: int, b: int)
    requires
        a >= 0,
        b >= 0,
    ensures
        scaled(a, b) >= 0,
{
    assert(a * b >= 0) by (nonlinear_arith)
        requires a >= 0, b >= 0,
    ;
    vstd::arithmetic::div_mod::lemma_div_pos_is_pos(iabs(a * b), SCALE as int);
}

/// General magnitude bound on a rescaled product.
pub proof fn lemma_scaled_bound(a: int, b: int, m: int, n: int)
    requires
        iabs(a) <= m,
        iabs(b) <= n,
    ensures
        iabs(scaled(a, b)) <= m * n / (SCALE as int),
{
    assert(iabs(a * b) <= m * n) by (nonlinear_arith)
        requires iabs(a) <= m, iabs(b) <= n,
    ;
    lemma_quot_trunc_bound(a * b, SCALE as int, m * n);
}

/// Truncating division of a micro-unit scalar by `SCALE`, the one
/// division primitive everything else is built on.
fn div_by_scale(n: i64) -> (r: i64)
    requires
        -0x7fff_ffff_ffff_ffff <= n,
    ensures
        r == quot_trunc(n as int, SCALE as int),
{
    proof {
        vstd::arithmetic::div_mod::lemma_div_pos_is_pos(iabs(n as int), SCALE as int);
        vstd::arithmetic::div_mod::lemma_div_is_ordered(iabs(n as int), 0x7fff_ffff_ffff_ffff, SCALE as int);
    }
    if n >= 0 {
        ((n as u64) / (SCALE as u64)) as i64
    } else {
        let mag: i64 = -n;
        -(((mag as u64) / (SCALE as u64)) as i64)
    }
}

/// Rescaled product of two bounded micro-unit scalars.
pub fn mul_scaled(a: i64, b: i64) -> (r: i64)
    requires
        -MAG_LIMIT <= a <= MAG_LIMIT,
        -MAG_LIMIT <= b <= MAG_LIMIT,
    ensures
        r == scaled(a as int, b as int),
{
    proof {
        assert(iabs(a as int * b as int) <= 0x4000_0000_0000_0000) by (nonlinear_arith)
            requires -MAG_LIMIT <= a <= MAG_LIMIT, -MAG_LIMIT <= b <= MAG_LIMIT,
        ;
    }
    let p: i64 = a * b;
    div_by_scale(p)
}

/// Rescaled quotient of two bounded micro-unit scalars.
pub fn div_scaled(a: i64, b: i64) -> (r: i64)
    requires
        b != 0,
        -0x1_0000_0000 <= a <= 0x1_0000_0000,
        -0x2000_0000_0000 <= b <= 0x2000_0000_0000,
    ensures
        r == scaled_div(a as int, b as int),
{
    proof {
        assert(iabs(a as int * SCALE as int) <= 0x2000_0000_0000_0000) by (nonlinear_arith)
            requires -0x1_0000_0000 <= a <= 0x1_0000_0000,
        ;
        vstd::arithmetic::div_mod::lemma_div_pos_is_pos(iabs(a as int * SCALE as int), iabs(b as int));
        vstd::arithmetic::div_mod::lemma_div_is_ordered(
            iabs(a as int * SCALE as int),
            0x2000_0000_0000_0000,
            iabs(b as int),
        );
        vstd::arithmetic::div_mod::lemma_div_is_ordered_by_denominator(
            0x2000_0000_0000_0000,
            1,
            iabs(b as int),
        );
    }
    let p: i64 = a * SCALE;
    let pm: u64 = if p >= 0 { p as u64 } else { (-p) as u64 };
    let bm: u64 = if b >= 0 { b as u64 } else { (-b) as u64 };
    let q: i64 = (pm / bm) as i64;
    if (p >= 0) == (b >= 0) {
        q
    } else {
        -q
    }
}

/// A 2-vector of micro-unit texture coordinates.
#[derive(Clone, Copy, PartialEq, Eq, Structural, Debug)]
pub struct Vec2 {
    pub x: i64,
    pub y: i64,
}

/// A 3-vector of micro-unit coordinates.
#[derive(Clone, Copy, PartialEq, Eq, Structural, Debug)]
pub struct Vec3 {
    pub x: i64,
    pub y: i64,
    pub z: i64,
}

/// The mathematical value of a [`Vec3`]: three unbounded integers.
pub struct GVec3 {
    pub x: int,
    pub y: int,
    pub z: int,
}

impl View for Vec3 {
    type V = GVec3;

    open spec fn view(&self) -> GVec3 {
        GVec3 { x: self.x as int, y: self.y as int, z: self.z as int }
    }
}

/// Component-wise sum.
pub open spec fn gv_add(a: GVec3, b: GVec3) -> GVec3 {
    GVec3 { x: a.x + b.x, y: a.y + b.y, z: a.z + b.z }
}

/// Component-wise difference.
pub open spec fn gv_sub(a: GVec3, b: GVec3) -> GVec3 {
    GVec3 { x: a.x - b.x, y: a.y - b.y, z: a.z - b.z }
}

/// Component-wise rescaled product with a scalar weight.
pub open spec fn gv_scaled(v: GVec3, w: int) -> GVec3 {
    GVec3 { x: scaled(v.x, w), y: scaled(v.y, w), z: scaled(v.z, w) }
}

/// Component-wise rescaled product of two vectors.
pub open spec fn gv_mul(a: GVec3, b: GVec3) -> GVec3 {
    GVec3 { x: scaled(a.x, b.x), y: scaled(a.y, b.y), z: scaled(a.z, b.z) }
}

/// The zero vector.
pub open spec fn gv_zero() -> GVec3 {
    GVec3 { x: 0, y: 0, z: 0 }
}

/// All three components within magnitude `m`.
pub open spec fn gv_within(v: GVec3, m: int) -> bool {
    iabs(v.x) <= m && iabs(v.y) <= m && iabs(v.z) <= m
}

/// All three components within the library's magnitude bound.
pub open spec fn gv_in_range(v: GVec3) -> bool {
    gv_within(v, MAG_LIMIT as int)
}

impl Vec3 {
    /// The origin.
    pub fn zero() -> (r: Vec3)
        ensures
            r@ == gv_zero(),
    {
        Vec3 { x: 0, y: 0, z: 0 }
    }

    /// Component-wise sum of two bounded vectors.
    pub fn add(self, other: Vec3) -> (r: Vec3)
        requires
            gv_within(self@, 0x3fff_ffff_ffff_ffff),
            gv_within(other@, 0x3fff_ffff_ffff_ffff),
        ensures
            r@ == gv_add(self@, other@),
    {
        Vec3 { x: self.x + other.x, y: self.y + other.y, z: self.z + other.z }
    }

    /// Component-wise difference of two bounded vectors.
    pub fn sub(self, other: Vec3) -> (r: Vec3)
        requires
            gv_within(self@, 0x3fff_ffff_ffff_ffff),
            gv_within(other@, 0x3fff_ffff_ffff_ffff),
        ensures
            r@ == gv_sub(self@, other@),
    {
        Vec3 { x: self.x - other.x, y: self.y - other.y, z: self.z - other.z }
    }

    /// Component-wise rescaled product with a bounded scalar weight.
    pub fn scale(self, w: i64) -> (r: Vec3)
        requires
            gv_in_range(self@),
            -MAG_LIMIT <= w <= MAG_LIMIT,
        ensures
            r@ == gv_scaled(self@, w as int),
    {
        Vec3 { x: mul_scaled(self.x, w), y: mul_scaled(self.y, w), z: mul_scaled(self.z, w) }
    }

    /// Component-wise rescaled product of two bounded vectors.
    pub fn mul(self, other: Vec3) -> (r: Vec3)
        requires
            gv_in_range(self@),
            gv_in_range(other@),
        ensures
            r@ == gv_mul(self@, other@),
    {
        Vec3 {
            x: mul_scaled(self.x, other.x),
            y: mul_scaled(self.y, other.y),
            z: mul_scaled(self.z, other.z),
        }
    }
}

} // verus!
