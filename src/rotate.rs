//! Rotation about the `y` axis by an angle with rational sine and cosine.
//!
//! The angle is given by a Pythagorean triple: `cos = cos_num / hyp` and
//! `sin = sin_num / hyp` with `cos_num^2 + sin_num^2 == hyp^2`. Rotated
//! coordinates are rounded down to the lattice.
use vstd::prelude::*;
use crate::aabb::{max_int, min_int, AABB, BOX_LIMIT};
use crate::hit_record::NORMAL_LIMIT;
use crate::hittable::{box_spec, Scene};
use crate::vec3::{lemma_mul_within, Vec3, COORD_LIMIT};

verus! {

/// Largest hypotenuse of a rotation's triple.
pub const HYP_LIMIT: i64 = 1_048_576;

/// Object `ptr` rotated about the `y` axis; `bbox` is its box in world
/// coordinates, if it has one. The child is hit along a rounded copy of the
/// ray in its own coordinates; a hit counts only where the world ray meets
/// `bbox` by then, so that the box holds every hit reported.
#[derive(Clone, Copy, Debug, PartialEq, Eq, Structural)]
pub struct RotateY {
    pub ptr: usize,
    pub cos_num: i64,
    pub sin_num: i64,
    pub hyp: i64,
    pub bbox: Option<AABB>,
}

/// World to object coordinates: rotation by minus the angle.
pub open spec fn to_object(c: int, s: int, h: int, v: (int, int, int)) -> (int, int, int) {
    ((c * v.0 - s * v.2) / h, v.1, (s * v.0 + c * v.2) / h)
}

/// Object to world coordinates: rotation by the angle.
pub open spec fn to_world(c: int, s: int, h: int, v: (int, int, int)) -> (int, int, int) {
    ((c * v.0 + s * v.2) / h, v.1, (c * v.2 - s * v.0) / h)
}

/// Components within the normal limit, else halved (rounding down).
pub open spec fn fit_normal(v: (int, int, int)) -> (int, int, int) {
    if -NORMAL_LIMIT <= v.0 <= NORMAL_LIMIT && -NORMAL_LIMIT <= v.1 <= NORMAL_LIMIT
        && -NORMAL_LIMIT <= v.2 <= NORMAL_LIMIT {
        v
    } else {
        (v.0 / 2, v.1 / 2, v.2 / 2)
    }
}

pub open spec fn triple_in_limit(v: (int, int, int)) -> bool {
    &&& -COORD_LIMIT <= v.0 <= COORD_LIMIT
    &&& -COORD_LIMIT <= v.1 <= COORD_LIMIT
    &&& -COORD_LIMIT <= v.2 <= COORD_LIMIT
}

pub open spec fn lattice(v: (int, int, int)) -> Vec3 {
    Vec3 { x: v.0 as i64, y: v.1 as i64, z: v.2 as i64 }
}

/// Rounded-down and rounded-up images of `x` and `z` under the world
/// rotation, for the `x` (`first`) or `z` result coordinate.
pub open spec fn rot_floor(c: int, s: int, h: int, x: int, z: int, first: bool) -> int {
    if first {
        (c * x + s * z) / h
    } else {
        (c * z - s * x) / h
    }
}

pub open spec fn rot_ceil(c: int, s: int, h: int, x: int, z: int, first: bool) -> int {
    if first {
        -((-(c * x + s * z)) / h)
    } else {
        -((s * x - c * z) / h)
    }
}

pub open spec fn min4(a: int, b: int, c: int, d: int) -> int {
    min_int(min_int(a, b), min_int(c, d))
}

pub open spec fn max4(a: int, b: int, c: int, d: int) -> int {
    max_int(max_int(a, b), max_int(c, d))
}

/// Low end, on the rotated `x` (`first`) or `z` axis, of the images of the
/// four corners of `b`'s extent in the `x`-`z` plane.
pub open spec fn rotated_lo(c: int, s: int, h: int, b: AABB, first: bool) -> int {
    min4(
        rot_floor(c, s, h, b.lo(0), b.lo(2), first),
        rot_floor(c, s, h, b.lo(0), b.hi(2), first),
        rot_floor(c, s, h, b.hi(0), b.lo(2), first),
        rot_floor(c, s, h, b.hi(0), b.hi(2), first),
    )
}

pub open spec fn rotated_hi(c: int, s: int, h: int, b: AABB, first: bool) -> int {
    max4(
        rot_ceil(c, s, h, b.lo(0), b.lo(2), first),
        rot_ceil(c, s, h, b.lo(0), b.hi(2), first),
        rot_ceil(c, s, h, b.hi(0), b.lo(2), first),
        rot_ceil(c, s, h, b.hi(0), b.hi(2), first),
    )
}

/// The world box holding the rotated corners of `b`, if it stays within
/// the box limit.
pub open spec fn rotated_box(c: int, s: int, h: int, b: AABB) -> Option<AABB> {
    let x0 = rotated_lo(c, s, h, b, true);
    let x1 = rotated_hi(c, s, h, b, true);
    let z0 = rotated_lo(c, s, h, b, false);
    let z1 = rotated_hi(c, s, h, b, false);
    if -BOX_LIMIT <= x0 && x1 <= BOX_LIMIT && -BOX_LIMIT <= z0 && z1 <= BOX_LIMIT {
        Some(
            AABB {
                minimum: Vec3 { x: x0 as i64, y: b.lo(1) as i64, z: z0 as i64 },
                maximum: Vec3 { x: x1 as i64, y: b.hi(1) as i64, z: z1 as i64 },
            },
        )
    } else {
        None
    }
}

impl RotateY {
    /// The rotation's triple is Pythagorean, with a bounded hypotenuse.
    pub open spec fn angle_wf(self) -> bool {
        &&& 0 < self.hyp <= HYP_LIMIT
        &&& -self.hyp <= self.cos_num <= self.hyp
        &&& -self.hyp <= self.sin_num <= self.hyp
        &&& self.cos_num * self.cos_num + self.sin_num * self.sin_num == self.hyp * self.hyp
    }

    pub open spec fn wf(self) -> bool {
        &&& self.angle_wf()
        &&& self.bbox matches Some(b) ==> b.wf()
    }

    /// The rotation of object `ptr` of the scene; its box is the rotated box
    /// of the object's own box over `[time0, time1]`.
    pub fn new(
        scene: &Scene,
        ptr: usize,
        cos_num: i64,
        sin_num: i64,
        hyp: i64,
        time0: i64,
        time1: i64,
    ) -> (rot: RotateY)
        requires
            scene.wf(),
            0 < hyp <= HYP_LIMIT,
            -hyp <= cos_num <= hyp,
            -hyp <= sin_num <= hyp,
            cos_num * cos_num + sin_num * sin_num == hyp * hyp,
        ensures
            rot.ptr == ptr && rot.cos_num == cos_num && rot.sin_num == sin_num && rot.hyp == hyp,
            rot.bbox == (match box_spec(scene.objects@, ptr as int, time0 as int, time1 as int) {
                None => None,
                Some(b) => rotated_box(cos_num as int, sin_num as int, hyp as int, b),
            }),
            rot.wf(),
    {
        let child_box = scene.bounding_box(ptr, time0, time1);
        let bbox = match child_box {
            None => None,
            Some(b) => rotate_box(cos_num, sin_num, hyp, &b),
        };
        RotateY { ptr, cos_num, sin_num, hyp, bbox }
    }

    /// World coordinates to object coordinates, `None` beyond the
    /// coordinate limit.
    pub fn to_object(&self, v: &Vec3) -> (r: Option<Vec3>)
        requires
            self.angle_wf(),
            v.in_limit(),
        ensures
            ({
                let t = to_object(self.cos_num as int, self.sin_num as int, self.hyp as int, v@);
                &&& r.is_some() == triple_in_limit(t)
                &&& r matches Some(w) ==> w@ == t && w.in_limit()
            }),
    {
        let c = self.cos_num as i128;
        let s = self.sin_num as i128;
        let h = self.hyp as i128;
        proof {
            lemma_mul_within(c as int, v.x as int, 0x10_0000, 0x100_0000);
            lemma_mul_within(s as int, v.z as int, 0x10_0000, 0x100_0000);
            lemma_mul_within(s as int, v.x as int, 0x10_0000, 0x100_0000);
            lemma_mul_within(c as int, v.z as int, 0x10_0000, 0x100_0000);
        }
        let x = floor_div_wide(c * (v.x as i128) - s * (v.z as i128), h);
        let z = floor_div_wide(s * (v.x as i128) + c * (v.z as i128), h);
        let lim = COORD_LIMIT as i128;
        if x < -lim || x > lim || z < -lim || z > lim {
            return None;
        }
        Some(Vec3::new(x as i64, v.y, z as i64))
    }

    /// An object-space normal turned into world space, halved when the
    /// rotation pushed a component beyond the normal limit.
    pub fn normal_to_world(&self, n: &Vec3) -> (r: Vec3)
        requires
            self.angle_wf(),
            n.within(NORMAL_LIMIT as int),
        ensures
            r@ == fit_normal(to_world(self.cos_num as int, self.sin_num as int, self.hyp as int, n@)),
            r.within(NORMAL_LIMIT as int),
    {
        let c = self.cos_num as i128;
        let s = self.sin_num as i128;
        let h = self.hyp as i128;
        proof {
            lemma_mul_within(c as int, n.x as int, 0x10_0000, 0x100_0000);
            lemma_mul_within(s as int, n.z as int, 0x10_0000, 0x100_0000);
            lemma_mul_within(s as int, n.x as int, 0x10_0000, 0x100_0000);
            lemma_mul_within(c as int, n.z as int, 0x10_0000, 0x100_0000);
            lemma_rotated_within(c as int, s as int, h as int, n.x as int, n.z as int);
            lemma_rotated_within(c as int, s as int, h as int, n.z as int, n.x as int);
        }
        let x = floor_div_wide(c * (n.x as i128) + s * (n.z as i128), h);
        let z = floor_div_wide(c * (n.z as i128) - s * (n.x as i128), h);
        let lim = NORMAL_LIMIT as i128;
        if x < -lim || x > lim || z < -lim || z > lim {
            proof {
                assert(-2 * NORMAL_LIMIT <= x <= 2 * NORMAL_LIMIT);
                assert(-2 * NORMAL_LIMIT <= z <= 2 * NORMAL_LIMIT);
            }
            Vec3::new(
                floor_div_wide(x, 2) as i64,
                floor_div_wide(n.y as i128, 2) as i64,
                floor_div_wide(z, 2) as i64,
            )
        } else {
            Vec3::new(x as i64, n.y, z as i64)
        }
    }
}

/// `|a * x + b * z| <= 2 * h * limit`, so the rounded quotient by `h` lies
/// within twice the limit.
proof fn lemma_rotated_within(a: int, b: int, h: int, x: int, z: int)
    requires
        0 < h,
        -h <= a <= h,
        -h <= b <= h,
        -NORMAL_LIMIT <= x <= NORMAL_LIMIT,
        -NORMAL_LIMIT <= z <= NORMAL_LIMIT,
    ensures
        -2 * NORMAL_LIMIT <= (a * x + b * z) / h <= 2 * NORMAL_LIMIT,
        -2 * NORMAL_LIMIT <= (a * x - b * z) / h <= 2 * NORMAL_LIMIT,
{
    let l = NORMAL_LIMIT as int;
    assert(-(h * l) <= a * x <= h * l) by (nonlinear_arith)
        requires
            -h <= a <= h,
            -l <= x <= l,
            h > 0,
            l > 0,
    ;
    assert(-(h * l) <= b * z <= h * l) by (nonlinear_arith)
        requires
            -h <= b <= h,
            -l <= z <= l,
            h > 0,
            l > 0,
    ;
    let n = a * x + b * z;
    assert(-2 * l <= n / h <= 2 * l) by (nonlinear_arith)
        requires
            -(2 * (h * l)) <= n <= 2 * (h * l),
            h > 0,
            l > 0,
    ;
    let m = a * x - b * z;
    assert(-2 * l <= m / h <= 2 * l) by (nonlinear_arith)
        requires
            -(2 * (h * l)) <= m <= 2 * (h * l),
            h > 0,
            l > 0,
    ;
}

/// Division rounding down, for a positive divisor.
pub fn floor_div_wide(n: i128, d: i128) -> (q: i128)
    requires
        0 < d <= 0x1_0000_0000_0000_0000,
        -0x1_0000_0000_0000_0000_0000_0000 <= n <= 0x1_0000_0000_0000_0000_0000_0000,
    ensures
        q == n / d,
        n >= 0 ==> 0 <= q <= n,
        n < 0 ==> n <= q < 0,
{
    crate::sphere::floor_div(n, d)
}

/// The world box of a rotated box.
fn rotate_box(c: i64, s: i64, h: i64, b: &AABB) -> (r: Option<AABB>)
    requires
        0 < h <= HYP_LIMIT,
        -h <= c <= h,
        -h <= s <= h,
        b.wf(),
    ensures
        r == rotated_box(c as int, s as int, h as int, *b),
        r matches Some(bb) ==> bb.wf(),
{
    let lx = min_i(b.minimum.x, b.maximum.x);
    let hx = max_i(b.minimum.x, b.maximum.x);
    let lz = min_i(b.minimum.z, b.maximum.z);
    let hz = max_i(b.minimum.z, b.maximum.z);
    let ly = min_i(b.minimum.y, b.maximum.y);
    let hy = max_i(b.minimum.y, b.maximum.y);
    let x0 = min_i128(
        min_i128(rot_lo(c, s, h, lx, lz, true), rot_lo(c, s, h, lx, hz, true)),
        min_i128(rot_lo(c, s, h, hx, lz, true), rot_lo(c, s, h, hx, hz, true)),
    );
    let x1 = max_i128(
        max_i128(rot_hi(c, s, h, lx, lz, true), rot_hi(c, s, h, lx, hz, true)),
        max_i128(rot_hi(c, s, h, hx, lz, true), rot_hi(c, s, h, hx, hz, true)),
    );
    let z0 = min_i128(
        min_i128(rot_lo(c, s, h, lx, lz, false), rot_lo(c, s, h, lx, hz, false)),
        min_i128(rot_lo(c, s, h, hx, lz, false), rot_lo(c, s, h, hx, hz, false)),
    );
    let z1 = max_i128(
        max_i128(rot_hi(c, s, h, lx, lz, false), rot_hi(c, s, h, lx, hz, false)),
        max_i128(rot_hi(c, s, h, hx, lz, false), rot_hi(c, s, h, hx, hz, false)),
    );
    let lim = BOX_LIMIT as i128;
    if x0 < -lim || x1 > lim || z0 < -lim || z1 > lim {
        return None;
    }
    proof {
        assert(b.lo(0) == lx && b.hi(0) == hx && b.lo(2) == lz && b.hi(2) == hz);
        assert(b.lo(1) == ly && b.hi(1) == hy);
        lemma_floor_le_ceil(c as int, s as int, h as int, lx as int, lz as int, true);
        lemma_floor_le_ceil(c as int, s as int, h as int, lx as int, lz as int, false);
    }
    Some(AABB::new(Vec3::new(x0 as i64, ly, z0 as i64), Vec3::new(x1 as i64, hy, z1 as i64)))
}

/// The rounded-down image never exceeds the rounded-up one.
proof fn lemma_floor_le_ceil(c: int, s: int, h: int, x: int, z: int, first: bool)
    requires
        h > 0,
    ensures
        rot_floor(c, s, h, x, z, first) <= rot_ceil(c, s, h, x, z, first),
{
    let n = if first { c * x + s * z } else { c * z - s * x };
    assert(n / h <= -((-n) / h)) by (nonlinear_arith)
        requires
            h > 0,
    ;
    if !first {
        assert(s * x - c * z == -n);
    }
}

fn min_i(a: i64, b: i64) -> (r: i64)
    ensures
        r == min_int(a as int, b as int),
{
    if a <= b {
        a
    } else {
        b
    }
}

fn max_i(a: i64, b: i64) -> (r: i64)
    ensures
        r == max_int(a as int, b as int),
{
    if a <= b {
        b
    } else {
        a
    }
}

fn min_i128(a: i128, b: i128) -> (r: i128)
    ensures
        r == min_int(a as int, b as int),
{
    if a <= b {
        a
    } else {
        b
    }
}

fn max_i128(a: i128, b: i128) -> (r: i128)
    ensures
        r == max_int(a as int, b as int),
{
    if a <= b {
        b
    } else {
        a
    }
}

/// Rounded-down image of a corner.
fn rot_lo(c: i64, s: i64, h: i64, x: i64, z: i64, first: bool) -> (r: i128)
    requires
        0 < h <= HYP_LIMIT,
        -h <= c <= h,
        -h <= s <= h,
        -BOX_LIMIT <= x <= BOX_LIMIT,
        -BOX_LIMIT <= z <= BOX_LIMIT,
    ensures
        r == rot_floor(c as int, s as int, h as int, x as int, z as int, first),
{
    proof {
        lemma_mul_within(c as int, x as int, 0x10_0000, 0x100_0000_0000);
        lemma_mul_within(s as int, z as int, 0x10_0000, 0x100_0000_0000);
        lemma_mul_within(s as int, x as int, 0x10_0000, 0x100_0000_0000);
        lemma_mul_within(c as int, z as int, 0x10_0000, 0x100_0000_0000);
    }
    let (ci, si, hi, xi, zi) = (c as i128, s as i128, h as i128, x as i128, z as i128);
    if first {
        floor_div_wide(ci * xi + si * zi, hi)
    } else {
        floor_div_wide(ci * zi - si * xi, hi)
    }
}

/// Rounded-up image of a corner.
fn rot_hi(c: i64, s: i64, h: i64, x: i64, z: i64, first: bool) -> (r: i128)
    requires
        0 < h <= HYP_LIMIT,
        -h <= c <= h,
        -h <= s <= h,
        -BOX_LIMIT <= x <= BOX_LIMIT,
        -BOX_LIMIT <= z <= BOX_LIMIT,
    ensures
        r == rot_ceil(c as int, s as int, h as int, x as int, z as int, first),
{
    proof {
        lemma_mul_within(c as int, x as int, 0x10_0000, 0x100_0000_0000);
        lemma_mul_within(s as int, z as int, 0x10_0000, 0x100_0000_0000);
        lemma_mul_within(s as int, x as int, 0x10_0000, 0x100_0000_0000);
        lemma_mul_within(c as int, z as int, 0x10_0000, 0x100_0000_0000);
    }
    let (ci, si, hi, xi, zi) = (c as i128, s as i128, h as i128, x as i128, z as i128);
    if first {
        -floor_div_wide(-(ci * xi + si * zi), hi)
    } else {
        -floor_div_wide(si * xi - ci * zi, hi)
    }
}

} // verus!
