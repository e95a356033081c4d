//! Rays: an origin, a direction and a timestamp.
use vstd::prelude::*;
use crate::vec3::{Point3, Vec3};

verus! {

#[derive(Clone, Copy, Debug, PartialEq, Eq, Structural)]
pub struct Ray {
    pub orig: Point3,
    pub dir: Vec3,
    pub tm: i64,
}

impl Ray {
    /// Origin and direction lie within the coordinate limit.
    pub open spec fn wf(self) -> bool {
        self.orig.in_limit() && self.dir.in_limit()
    }

    pub fn new(orig: Point3, dir: Vec3, time: i64) -> (r: Ray)
        ensures
            r.orig == orig && r.dir == dir && r.tm == time,
    {
        Ray { orig, dir, tm: time }
    }

    pub fn origin(&self) -> (r: Point3)
        ensures
            r == self.orig,
    {
        self.orig
    }

    pub fn direction(&self) -> (r: Vec3)
        ensures
            r == self.dir,
    {
        self.dir
    }

    pub fn time(&self) -> (r: i64)
        ensures
            r == self.tm,
    {
        self.tm
    }
}

} // verus!
