//! The exact part of a participating medium: where a ray is inside it.
use vstd::prelude::*;
use crate::hittable::{hit_spec, Scene};
use crate::param::{q_le, q_lt, Param, PARAM_LIMIT};
use crate::ray::Ray;

verus! {

/// A medium filling the convex object `boundary` of a scene. How far a ray
/// travels inside before scattering is drawn by the renderer.
#[derive(Clone, Copy, Debug, PartialEq, Eq, Structural)]
pub struct ConstantMedium {
    pub boundary: usize,
}

/// The next fraction after `t` with the same denominator: the exit is
/// searched for strictly after the entry.
pub open spec fn after(t: (int, int)) -> (int, int) {
    (t.0 + 1, t.1)
}

pub open spec fn q_max(a: (int, int), b: (int, int)) -> (int, int) {
    if q_le(a, b) {
        b
    } else {
        a
    }
}

pub open spec fn q_min(a: (int, int), b: (int, int)) -> (int, int) {
    if q_le(a, b) {
        a
    } else {
        b
    }
}

/// The parameter interval inside the boundary: from its first hit (over all
/// parameters) to its next hit after that, clamped to `[t_min, t_max]` and
/// to parameters of at least zero; `None` when either hit is missing or the
/// clamped interval is empty.
pub open spec fn interval_spec(
    w: Seq<crate::hittable::Hittable>,
    boundary: int,
    r: Ray,
    t_min: (int, int),
    t_max: (int, int),
) -> Option<((int, int), (int, int))> {
    match hit_spec(w, boundary, r, (-PARAM_LIMIT as int, 1), (PARAM_LIMIT as int, 1)) {
        None => None,
        Some(h1) => if h1.t.0 >= PARAM_LIMIT {
            None
        } else {
            match hit_spec(w, boundary, r, after(h1.t), (PARAM_LIMIT as int, 1)) {
            None => None,
            Some(h2) => {
                let t1 = q_max(q_max(h1.t, t_min), (0, 1));
                let t2 = q_min(h2.t, t_max);
                if q_lt(t1, t2) {
                    Some((t1, t2))
                } else {
                    None
                }
            },
        }
        },
    }
}

impl ConstantMedium {
    pub fn new(boundary: usize) -> (m: ConstantMedium)
        ensures
            m.boundary == boundary,
    {
        ConstantMedium { boundary }
    }

    /// Entry and exit parameters of the ray within the medium.
    pub fn interval(&self, scene: &Scene, r: &Ray, t_min: Param, t_max: Param) -> (res: Option<(Param, Param)>)
        requires
            scene.wf(),
            r.wf(),
            t_min.wf(),
            t_max.wf(),
        ensures
            match res {
                None => interval_spec(scene.objects@, self.boundary as int, *r, t_min@, t_max@).is_none(),
                Some((a, b)) => a.wf() && b.wf() && interval_spec(
                    scene.objects@,
                    self.boundary as int,
                    *r,
                    t_min@,
                    t_max@,
                ) == Some((a@, b@)),
            },
    {
        let rec1 = match scene.hit(self.boundary, r, Param::neg_infinity(), Param::infinity()) {
            None => return None,
            Some(h) => h,
        };
        let t = rec1.t;
        if t.num >= PARAM_LIMIT {
            return None;
        }
        let gap = Param::new(t.num + 1, t.den);
        let rec2 = match scene.hit(self.boundary, r, gap, Param::infinity()) {
            None => return None,
            Some(h) => h,
        };
        let t1 = rec1.t.max(&t_min).max(&Param::from_int(0));
        let t2 = rec2.t.min(&t_max);
        if t1.lt(&t2) {
            Some((t1, t2))
        } else {
            None
        }
    }
}

} // verus!
