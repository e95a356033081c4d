//! Direction sampling around a surface normal.
use vstd::prelude::*;
use crate::onb::{helper_axis, Onb, AXIS_LIMIT};
use crate::vec3::{cross3, dot3, Vec3};

verus! {

/// Cosine-weighted sampling about a normal: the basis that the samples are
/// expressed in. Densities and draws involve angles and are computed by the
/// renderer from this basis.
#[derive(Clone, Copy, Debug, PartialEq, Eq, Structural)]
pub struct CosinePdf {
    pub uvw: Onb,
}

impl CosinePdf {
    /// The sampler about the normal `w`.
    pub fn new(w: &Vec3) -> (p: CosinePdf)
        requires
            w.in_limit(),
        ensures
            p.uvw.w_axis == *w,
            p.uvw.v_axis@ == cross3(w@, helper_axis(w@)),
            p.uvw.u_axis@ == cross3(w@, p.uvw.v_axis@),
            p.uvw.u_axis.within(AXIS_LIMIT as int),
            p.uvw.v_axis.within(AXIS_LIMIT as int),
            p.uvw.w_axis.within(AXIS_LIMIT as int),
    {
        let uvw = Onb::build_from_w(*w);
        CosinePdf { uvw }
    }

    /// Whether `direction` lies in the open hemisphere about the normal,
    /// where the density is positive.
    pub fn in_hemisphere(&self, direction: &Vec3) -> (r: bool)
        requires
            direction.in_limit(),
            self.uvw.w_axis.in_limit(),
        ensures
            r == (dot3(direction@, self.uvw.w_axis@) > 0),
    {
        direction.dot(&self.uvw.w_axis) > 0
    }
}

} // verus!
