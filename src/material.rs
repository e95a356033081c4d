//! The exact part of the dielectric (glass) scattering rule.
use vstd::prelude::*;
use crate::hit_record::{HitRecord, NORMAL_LIMIT};
use crate::ray::Ray;
use crate::vec3::{dot3, lemma_mul_within};

verus! {

/// Largest numerator or denominator of an index of refraction.
pub const IOR_LIMIT: i64 = 1024;

/// Glass with index of refraction `ir_num / ir_den`.
#[derive(Clone, Copy, Debug, PartialEq, Eq, Structural)]
pub struct Dielectric {
    pub ir_num: i64,
    pub ir_den: i64,
}

/// Ratio of indices of refraction across the surface, as (numerator,
/// denominator): `1 / ir` entering through the front face, `ir` leaving.
pub open spec fn refraction_ratio(m: Dielectric, front_face: bool) -> (int, int) {
    if front_face {
        (m.ir_den as int, m.ir_num as int)
    } else {
        (m.ir_num as int, m.ir_den as int)
    }
}

/// Snell's law has no solution: `ratio * sin(theta) > 1`, where `theta` is
/// the angle between the reversed direction `d` and the normal `n`, so that
/// `sin^2 = 1 - (d.n)^2 / (|d|^2 |n|^2)`; squared and cleared of
/// denominators.
pub open spec fn cannot_refract_spec(ratio: (int, int), d: (int, int, int), n: (int, int, int)) -> bool {
    let dd = dot3(d, d);
    let nn = dot3(n, n);
    let dn = dot3(d, n);
    ratio.0 * ratio.0 * (dd * nn - dn * dn) > ratio.1 * ratio.1 * (dd * nn)
}

impl Dielectric {
    pub open spec fn wf(self) -> bool {
        0 < self.ir_num <= IOR_LIMIT && 0 < self.ir_den <= IOR_LIMIT
    }

    pub fn new(ir_num: i64, ir_den: i64) -> (m: Dielectric)
        ensures
            m.ir_num == ir_num && m.ir_den == ir_den,
    {
        Dielectric { ir_num, ir_den }
    }

    /// Whether refraction is impossible at this hit (total internal
    /// reflection).
    pub fn cannot_refract(&self, r_in: &Ray, rec: &HitRecord) -> (res: bool)
        requires
            self.wf(),
            r_in.wf(),
            rec.normal.within(NORMAL_LIMIT as int),
        ensures
            res == cannot_refract_spec(refraction_ratio(*self, rec.front_face), r_in.dir@, rec.normal@),
    {
        let (p, q) = if rec.front_face {
            (self.ir_den as i128, self.ir_num as i128)
        } else {
            (self.ir_num as i128, self.ir_den as i128)
        };
        let d = r_in.dir;
        let n = rec.normal;
        let dd = d.dot(&d);
        let nn = n.dot(&n);
        let dn = d.dot(&n);
        proof {
            lemma_dot_square_bound(d@);
            lemma_dot_square_bound(n@);
            lemma_mul_within(d.x as int, n.x as int, 0x100_0000, 0x100_0000);
            lemma_mul_within(d.y as int, n.y as int, 0x100_0000, 0x100_0000);
            lemma_mul_within(d.z as int, n.z as int, 0x100_0000, 0x100_0000);
            lemma_mul_within(dd as int, nn as int, 0x3_0000_0000_0000, 0x3_0000_0000_0000);
            lemma_mul_within(dn as int, dn as int, 0x3_0000_0000_0000, 0x3_0000_0000_0000);
            lemma_mul_within(p as int, p as int, 0x400, 0x400);
            lemma_mul_within(q as int, q as int, 0x400, 0x400);
        }
        let prod = dd * nn;
        let diff = prod - dn * dn;
        proof {
            lemma_mul_within(p * p, diff as int, 0x10_0000, 0x12_0000_0000_0000_0000_0000_0000);
            lemma_mul_within(q * q, prod as int, 0x10_0000, 0x9_0000_0000_0000_0000_0000_0000);
        }
        p * p * diff > q * q * prod
    }

    /// Whether the scattered ray is the reflection: always when refraction
    /// is impossible, else when the random draw fell below the reflectance
    /// (`draw_below_reflectance`, decided by the caller).
    pub fn reflects(&self, r_in: &Ray, rec: &HitRecord, draw_below_reflectance: bool) -> (res: bool)
        requires
            self.wf(),
            r_in.wf(),
            rec.normal.within(NORMAL_LIMIT as int),
        ensures
            res == (cannot_refract_spec(refraction_ratio(*self, rec.front_face), r_in.dir@, rec.normal@)
                || draw_below_reflectance),
    {
        self.cannot_refract(r_in, rec) || draw_below_reflectance
    }
}

proof fn lemma_dot_square_bound(v: (int, int, int))
    requires
        -0x100_0000 <= v.0 <= 0x100_0000,
        -0x100_0000 <= v.1 <= 0x100_0000,
        -0x100_0000 <= v.2 <= 0x100_0000,
    ensures
        0 <= dot3(v, v) <= 0x3_0000_0000_0000,
{
    lemma_mul_within(v.0, v.0, 0x100_0000, 0x100_0000);
    lemma_mul_within(v.1, v.1, 0x100_0000, 0x100_0000);
    lemma_mul_within(v.2, v.2, 0x100_0000, 0x100_0000);
    assert(v.0 * v.0 >= 0 && v.1 * v.1 >= 0 && v.2 * v.2 >= 0) by (nonlinear_arith);
}

/// Leaving glass of index `ir` at an angle whose sine exceeds `1 / ir`,
/// the ray is reflected whatever the random draw: with `theta` the angle
/// between the reversed direction and the normal, `ir * sin(theta) > 1`
/// is stated as `ir^2 * sin^2(theta) > 1` with
/// `sin^2 = (|d|^2 |n|^2 - (d.n)^2) / (|d|^2 |n|^2)`.
pub proof fn lemma_total_internal_reflection(
    m: Dielectric,
    d: (int, int, int),
    n: (int, int, int),
    draw_below_reflectance: bool,
)
    requires
        m.wf(),
        ({
            let dd = dot3(d, d);
            let nn = dot3(n, n);
            let dn = dot3(d, n);
            m.ir_num * m.ir_num * (dd * nn - dn * dn) > m.ir_den * m.ir_den * (dd * nn)
        }),
    ensures
        cannot_refract_spec(refraction_ratio(m, false), d, n) || draw_below_reflectance,
        cannot_refract_spec(refraction_ratio(m, false), d, n),
{
}

} // verus!
