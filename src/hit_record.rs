//! The record of a ray–surface intersection.
use vstd::prelude::*;
use crate::param::Param;
use crate::ray::Ray;
use crate::vec3::{dot3, Vec3};

verus! {

/// Largest magnitude of a normal component handed to [`HitRecord::set_face_normal`].
pub const NORMAL_LIMIT: i64 = 16_777_216;

/// Where a ray met a surface.
///
/// `normal` is a (not normalized) vector that never points along the incoming
/// ray; `front_face` records whether the surface's outward normal pointed
/// against it. `mat` indexes the material table of the scene. `uv` holds the
/// surface coordinates of a planar hit; for a sphere they depend on angles
/// and are left to the caller.
#[derive(Clone, Copy, Debug, PartialEq, Eq, Structural)]
pub struct HitRecord {
    pub t: Param,
    pub normal: Vec3,
    pub front_face: bool,
    pub mat: usize,
    pub uv: Option<SurfaceUv>,
}

/// Surface coordinates of a hit, each a fraction.
#[derive(Clone, Copy, Debug, PartialEq, Eq, Structural)]
pub struct SurfaceUv {
    pub u: Param,
    pub v: Param,
}

pub open spec fn neg3(v: (int, int, int)) -> (int, int, int) {
    (-v.0, -v.1, -v.2)
}

/// The ray meets the surface from its outer side.
pub open spec fn faces_front(r: Ray, outward: (int, int, int)) -> bool {
    dot3(r.dir@, outward) < 0
}

/// The normal after orientation against the ray.
pub open spec fn oriented_normal(r: Ray, outward: (int, int, int)) -> (int, int, int) {
    if faces_front(r, outward) {
        outward
    } else {
        neg3(outward)
    }
}

/// What a hit record says, over mathematical integers.
pub struct HitView {
    pub t: (int, int),
    pub normal: (int, int, int),
    pub front_face: bool,
    pub mat: usize,
    pub uv: Option<((int, int), (int, int))>,
}

/// The record of a hit at `t` whose outward normal is `outward`.
pub open spec fn hit_view(
    r: Ray,
    t: (int, int),
    outward: (int, int, int),
    mat: usize,
    uv: Option<((int, int), (int, int))>,
) -> HitView {
    HitView {
        t,
        normal: oriented_normal(r, outward),
        front_face: faces_front(r, outward),
        mat,
        uv,
    }
}

pub open spec fn opt_view(h: Option<HitRecord>) -> Option<HitView> {
    match h {
        None => None,
        Some(rec) => Some(rec@),
    }
}

impl HitRecord {
    pub open spec fn view(self) -> HitView {
        HitView {
            t: self.t@,
            normal: self.normal@,
            front_face: self.front_face,
            mat: self.mat,
            uv: match self.uv {
                None => None,
                Some(w) => Some((w.u@, w.v@)),
            },
        }
    }

    /// `self` records `outward` oriented against `r`.
    pub open spec fn oriented(self, r: Ray, outward: (int, int, int)) -> bool {
        &&& self.front_face == faces_front(r, outward)
        &&& self.normal@ == oriented_normal(r, outward)
    }

    pub fn new() -> (r: HitRecord)
        ensures
            r.t@ == (0int, 1int),
            r.normal@ == (0int, 0int, 0int),
            !r.front_face,
            r.mat == 0,
            r.uv.is_none(),
    {
        HitRecord {
            t: Param::from_int(0),
            normal: Vec3::new(0, 0, 0),
            front_face: false,
            mat: 0,
            uv: None,
        }
    }

    /// Stores `outward_normal`, flipped if needed so that it opposes the
    /// ray, and whether it already did.
    pub fn set_face_normal(&mut self, r: &Ray, outward_normal: Vec3)
        requires
            r.wf(),
            outward_normal.within(NORMAL_LIMIT as int),
        ensures
            final(self).oriented(*r, outward_normal@),
            final(self).t == old(self).t,
            final(self).mat == old(self).mat,
            final(self).uv == old(self).uv,
            dot3(r.dir@, final(self).normal@) <= 0,
            final(self).normal.within(NORMAL_LIMIT as int),
    {
        let dn = r.dir.dot(&outward_normal);
        self.front_face = dn < 0;
        self.normal = if self.front_face {
            outward_normal
        } else {
            outward_normal.neg()
        };
        proof {
            lemma_oriented_opposes(*r, outward_normal@);
        }
    }
}

/// The oriented normal never points along the ray, and the surface faces
/// the ray exactly when its outward normal does not point along it (for an
/// outward normal not perpendicular to the ray).
pub proof fn lemma_oriented_opposes(r: Ray, outward: (int, int, int))
    ensures
        dot3(r.dir@, oriented_normal(r, outward)) <= 0,
        dot3(r.dir@, outward) != 0 ==> (faces_front(r, outward) <==> dot3(r.dir@, outward) <= 0),
{
    assert(dot3(r.dir@, neg3(outward)) == -dot3(r.dir@, outward)) by (nonlinear_arith);
}

} // verus!
