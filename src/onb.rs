//! Orthogonal bases built around a direction.
use vstd::prelude::*;
use crate::vec3::{cross3, dot3, lemma_mul_within, Vec3, Wide3};

verus! {

/// Three mutually orthogonal lattice vectors, `w` along a given direction.
///
/// The axes are exact integer vectors and are not scaled to unit length:
/// `v` is `w × a` for a helper axis `a`, and `u` is `w × v`.
#[derive(Clone, Copy, Debug, PartialEq, Eq, Structural)]
pub struct Onb {
    pub u_axis: Vec3,
    pub v_axis: Vec3,
    pub w_axis: Vec3,
}

/// Largest magnitude of a component of a basis axis built from an
/// in-limit direction.
pub const AXIS_LIMIT: i64 = 0x2_0000_0000_0000;

/// The helper axis: `y` when `n` lies close to the `x` axis (its `x`
/// component exceeds nine tenths of its length), else `x`.
pub open spec fn helper_axis(n: (int, int, int)) -> (int, int, int) {
    if 100 * (n.0 * n.0) > 81 * dot3(n, n) {
        (0, 1, 0)
    } else {
        (1, 0, 0)
    }
}

impl Onb {
    pub fn u(&self) -> (r: Vec3)
        ensures
            r == self.u_axis,
    {
        self.u_axis
    }

    pub fn v(&self) -> (r: Vec3)
        ensures
            r == self.v_axis,
    {
        self.v_axis
    }

    pub fn w(&self) -> (r: Vec3)
        ensures
            r == self.w_axis,
    {
        self.w_axis
    }

    /// The combination `a.x * u + a.y * v + a.z * w`.
    pub fn local_vec(&self, a: &Vec3) -> (r: Wide3)
        requires
            a.in_limit(),
            self.u_axis.within(AXIS_LIMIT as int),
            self.v_axis.within(AXIS_LIMIT as int),
            self.w_axis.within(AXIS_LIMIT as int),
        ensures
            r@ == (
                a.x * self.u_axis.x + a.y * self.v_axis.x + a.z * self.w_axis.x,
                a.x * self.u_axis.y + a.y * self.v_axis.y + a.z * self.w_axis.y,
                a.x * self.u_axis.z + a.y * self.v_axis.z + a.z * self.w_axis.z,
            ),
    {
        let u = self.u_axis;
        let v = self.v_axis;
        let w = self.w_axis;
        proof {
            let l = AXIS_LIMIT as int;
            lemma_mul_within(a.x as int, u.x as int, 0x100_0000, l);
            lemma_mul_within(a.y as int, v.x as int, 0x100_0000, l);
            lemma_mul_within(a.z as int, w.x as int, 0x100_0000, l);
            lemma_mul_within(a.x as int, u.y as int, 0x100_0000, l);
            lemma_mul_within(a.y as int, v.y as int, 0x100_0000, l);
            lemma_mul_within(a.z as int, w.y as int, 0x100_0000, l);
            lemma_mul_within(a.x as int, u.z as int, 0x100_0000, l);
            lemma_mul_within(a.y as int, v.z as int, 0x100_0000, l);
            lemma_mul_within(a.z as int, w.z as int, 0x100_0000, l);
        }
        let ax = a.x as i128;
        let ay = a.y as i128;
        let az = a.z as i128;
        Wide3::new(
            ax * (u.x as i128) + ay * (v.x as i128) + az * (w.x as i128),
            ax * (u.y as i128) + ay * (v.y as i128) + az * (w.y as i128),
            ax * (u.z as i128) + ay * (v.z as i128) + az * (w.z as i128),
        )
    }

    /// The basis with `w` equal to `n`, `v = n × a` and `u = n × v`, where
    /// `a` is the helper axis of `n`. The three axes are mutually orthogonal.
    pub fn build_from_w(n: Vec3) -> (b: Onb)
        requires
            n.in_limit(),
        ensures
            b.w_axis == n,
            b.v_axis@ == cross3(n@, helper_axis(n@)),
            b.u_axis@ == cross3(n@, b.v_axis@),
            dot3(b.u_axis@, b.v_axis@) == 0,
            dot3(b.v_axis@, b.w_axis@) == 0,
            dot3(b.u_axis@, b.w_axis@) == 0,
            b.u_axis.within(AXIS_LIMIT as int),
            b.v_axis.within(AXIS_LIMIT as int),
            b.w_axis.within(AXIS_LIMIT as int),
    {
        let nn = n.dot(&n);
        let nx = n.x as i128;
        proof {
            lemma_mul_within(n.x as int, n.x as int, 0x100_0000, 0x100_0000);
            assert(0 <= nn <= 3 * 0x1_0000_0000_0000) by (nonlinear_arith)
                requires
                    nn == n.x * n.x + n.y * n.y + n.z * n.z,
                    -0x100_0000 <= n.x <= 0x100_0000,
                    -0x100_0000 <= n.y <= 0x100_0000,
                    -0x100_0000 <= n.z <= 0x100_0000,
            ;
        }
        let v = if 100 * (nx * nx) > 81 * nn {
            Vec3::new(-n.z, 0, n.x)
        } else {
            Vec3::new(0, n.z, -n.y)
        };
        assert(v@ == cross3(n@, helper_axis(n@)));
        proof {
            lemma_mul_within(n.x as int, v.x as int, 0x100_0000, 0x100_0000);
            lemma_mul_within(n.x as int, v.y as int, 0x100_0000, 0x100_0000);
            lemma_mul_within(n.x as int, v.z as int, 0x100_0000, 0x100_0000);
            lemma_mul_within(n.y as int, v.x as int, 0x100_0000, 0x100_0000);
            lemma_mul_within(n.y as int, v.y as int, 0x100_0000, 0x100_0000);
            lemma_mul_within(n.y as int, v.z as int, 0x100_0000, 0x100_0000);
            lemma_mul_within(n.z as int, v.x as int, 0x100_0000, 0x100_0000);
            lemma_mul_within(n.z as int, v.y as int, 0x100_0000, 0x100_0000);
            lemma_mul_within(n.z as int, v.z as int, 0x100_0000, 0x100_0000);
        }
        let u = Vec3::new(
            n.y * v.z - n.z * v.y,
            n.z * v.x - n.x * v.z,
            n.x * v.y - n.y * v.x,
        );
        proof {
            lemma_cross_orthogonal(n@, helper_axis(n@));
            lemma_cross_orthogonal(n@, v@);
        }
        Onb { u_axis: u, v_axis: v, w_axis: n }
    }
}

/// A cross product is orthogonal to both of its factors.
pub proof fn lemma_cross_orthogonal(a: (int, int, int), b: (int, int, int))
    ensures
        dot3(cross3(a, b), a) == 0,
        dot3(cross3(a, b), b) == 0,
        dot3(a, cross3(a, b)) == 0,
        dot3(b, cross3(a, b)) == 0,
{
    assert(dot3(cross3(a, b), a) == 0) by (nonlinear_arith);
    assert(dot3(cross3(a, b), b) == 0) by (nonlinear_arith);
}

} // verus!
