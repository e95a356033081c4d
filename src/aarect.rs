//! Axis-aligned rectangles.
use vstd::prelude::*;
use crate::aabb::AABB;
use crate::hit_record::{hit_view, opt_view, HitRecord, HitView, SurfaceUv, NORMAL_LIMIT};
use crate::param::Param;
use crate::ray::Ray;
use crate::sphere::in_interval;
use crate::vec3::{lemma_mul_within, Vec3, COORD_LIMIT};

verus! {

/// A rectangle in the plane where coordinate `k_ax` equals `k`, spanning
/// `[a0, a1]` on axis `a_ax` and `[b0, b1]` on axis `b_ax`.
pub struct Plane {
    pub k_ax: int,
    pub a_ax: int,
    pub b_ax: int,
    pub a0: int,
    pub a1: int,
    pub b0: int,
    pub b1: int,
    pub k: int,
}

/// Parameter where the ray crosses the plane `coordinate k_ax == k`;
/// `None` for a ray parallel to it.
pub open spec fn plane_t(r: Ray, k_ax: int, k: int) -> Option<(int, int)> {
    let d = r.dir.comp(k_ax);
    let o = r.orig.comp(k_ax);
    if d == 0 {
        None
    } else if d > 0 {
        Some((k - o, d))
    } else {
        Some((o - k, -d))
    }
}

/// Coordinate `ax` of the point at parameter `t`, times `t`'s denominator.
pub open spec fn scaled_coord(r: Ray, ax: int, t: (int, int)) -> int {
    r.orig.comp(ax) * t.1 + t.0 * r.dir.comp(ax)
}

/// Parameter of the hit of rectangle `p`, if the ray crosses its plane
/// inside the rectangle and within `[t_min, t_max]`.
pub open spec fn rect_t(p: Plane, r: Ray, t_min: (int, int), t_max: (int, int)) -> Option<(int, int)> {
    match plane_t(r, p.k_ax, p.k) {
        None => None,
        Some(t) => if in_interval(t, t_min, t_max) && p.a0 * t.1 <= scaled_coord(r, p.a_ax, t)
            <= p.a1 * t.1 && p.b0 * t.1 <= scaled_coord(r, p.b_ax, t) <= p.b1 * t.1 {
            Some(t)
        } else {
            None
        },
    }
}

/// Unit vector along axis `ax`.
pub open spec fn axis_unit(ax: int) -> (int, int, int) {
    if ax == 0 {
        (1, 0, 0)
    } else if ax == 1 {
        (0, 1, 0)
    } else {
        (0, 0, 1)
    }
}

/// Surface coordinates of the hit at `t`: the fractions of the way across
/// the rectangle on its two axes; defined for rectangles of positive area.
pub open spec fn rect_uv(p: Plane, r: Ray, t: (int, int)) -> Option<((int, int), (int, int))> {
    if p.a0 < p.a1 && p.b0 < p.b1 {
        Some(
            (
                (scaled_coord(r, p.a_ax, t) - p.a0 * t.1, t.1 * (p.a1 - p.a0)),
                (scaled_coord(r, p.b_ax, t) - p.b0 * t.1, t.1 * (p.b1 - p.b0)),
            ),
        )
    } else {
        None
    }
}

/// The hit record of a ray and rectangle `p`, if any.
pub open spec fn rect_view(p: Plane, mat: usize, r: Ray, t_min: (int, int), t_max: (int, int)) -> Option<HitView> {
    match rect_t(p, r, t_min, t_max) {
        None => None,
        Some(t) => Some(hit_view(r, t, axis_unit(p.k_ax), mat, rect_uv(p, r, t))),
    }
}

/// The record that a hit of rectangle `p` at `t` produces.
pub open spec fn rect_record(p: Plane, mat: usize, r: Ray, t: (int, int), rec: HitRecord) -> bool {
    &&& rec.t@ == t
    &&& rec.oriented(r, axis_unit(p.k_ax))
    &&& rec.mat == mat
    &&& match rect_uv(p, r, t) {
        None => rec.uv.is_none(),
        Some((u, v)) => rec.uv matches Some(w) && w.u@ == u && w.v@ == v,
    }
}

/// The rectangle's box, one lattice step thick on either side of its plane.
pub open spec fn rect_box(p: Plane) -> AABB {
    let lo = |ax: int|
        if ax == p.k_ax {
            p.k - 1
        } else if ax == p.a_ax {
            p.a0
        } else {
            p.b0
        };
    let hi = |ax: int|
        if ax == p.k_ax {
            p.k + 1
        } else if ax == p.a_ax {
            p.a1
        } else {
            p.b1
        };
    AABB {
        minimum: Vec3 { x: lo(0) as i64, y: lo(1) as i64, z: lo(2) as i64 },
        maximum: Vec3 { x: hi(0) as i64, y: hi(1) as i64, z: hi(2) as i64 },
    }
}

/// Coordinates of a rectangle lie within the coordinate limit.
pub open spec fn plane_wf(p: Plane) -> bool {
    &&& -COORD_LIMIT <= p.a0 <= COORD_LIMIT
    &&& -COORD_LIMIT <= p.a1 <= COORD_LIMIT
    &&& -COORD_LIMIT <= p.b0 <= COORD_LIMIT
    &&& -COORD_LIMIT <= p.b1 <= COORD_LIMIT
    &&& -COORD_LIMIT <= p.k <= COORD_LIMIT
    &&& 0 <= p.k_ax < 3
    &&& 0 <= p.a_ax < 3
    &&& 0 <= p.b_ax < 3
    &&& p.k_ax != p.a_ax
    &&& p.k_ax != p.b_ax
    &&& p.a_ax != p.b_ax
}

/// A rectangle's box holds every hit that the rectangle reports.
pub proof fn lemma_rect_hit_in_box(p: Plane, r: Ray, t_min: (int, int), t_max: (int, int))
    requires
        plane_wf(p),
        t_min.1 > 0,
        t_max.1 > 0,
        rect_t(p, r, t_min, t_max).is_some(),
    ensures
        crate::aabb::hit_spec(rect_box(p), r, t_min, t_max),
{
    let t = rect_t(p, r, t_min, t_max).unwrap();
    let b = rect_box(p);
    let d = r.dir.comp(p.k_ax);
    let o = r.orig.comp(p.k_ax);
    assert(o * t.1 + t.0 * d == p.k * t.1) by (nonlinear_arith)
        requires
            (d > 0 && t == (p.k - o, d)) || (d < 0 && t == (o - p.k, -d)),
    ;
    assert(p.a0 <= p.a1) by (nonlinear_arith)
        requires
            p.a0 * t.1 <= p.a1 * t.1,
            t.1 > 0,
    ;
    assert(p.b0 <= p.b1) by (nonlinear_arith)
        requires
            p.b0 * t.1 <= p.b1 * t.1,
            t.1 > 0,
    ;
    assert((p.k - 1) * t.1 <= p.k * t.1 <= (p.k + 1) * t.1) by (nonlinear_arith)
        requires
            t.1 > 0,
    ;
    assert forall|ax: int| 0 <= ax < 3 implies b.lo(ax) * t.1 <= #[trigger] r.orig.comp(ax) * t.1
        + t.0 * r.dir.comp(ax) <= b.hi(ax) * t.1 by {
        if ax == p.k_ax {
            assert(b.lo(ax) == p.k - 1 && b.hi(ax) == p.k + 1);
        } else if ax == p.a_ax {
            assert(b.lo(ax) == p.a0 && b.hi(ax) == p.a1);
        } else {
            assert(ax == p.b_ax);
            assert(b.lo(ax) == p.b0 && b.hi(ax) == p.b1);
        }
    }
    crate::aabb::lemma_point_in_box_hits(b, r, t, t_min, t_max);
}

/// Rectangle in the plane `z == k`.
#[derive(Clone, Copy, Debug, PartialEq, Eq, Structural)]
pub struct XyRect {
    pub x0: i64,
    pub x1: i64,
    pub y0: i64,
    pub y1: i64,
    pub k: i64,
    pub mat: usize,
}

/// Rectangle in the plane `y == k`.
#[derive(Clone, Copy, Debug, PartialEq, Eq, Structural)]
pub struct XzRect {
    pub x0: i64,
    pub x1: i64,
    pub z0: i64,
    pub z1: i64,
    pub k: i64,
    pub mat: usize,
}

/// Rectangle in the plane `x == k`.
#[derive(Clone, Copy, Debug, PartialEq, Eq, Structural)]
pub struct YzRect {
    pub y0: i64,
    pub y1: i64,
    pub z0: i64,
    pub z1: i64,
    pub k: i64,
    pub mat: usize,
}

impl XyRect {
    pub open spec fn plane(self) -> Plane {
        Plane {
            k_ax: 2,
            a_ax: 0,
            b_ax: 1,
            a0: self.x0 as int,
            a1: self.x1 as int,
            b0: self.y0 as int,
            b1: self.y1 as int,
            k: self.k as int,
        }
    }

    pub open spec fn wf(self) -> bool {
        plane_wf(self.plane())
    }

    pub fn new(x0: i64, x1: i64, y0: i64, y1: i64, k: i64, mat: usize) -> (s: XyRect)
        ensures
            s == (XyRect { x0, x1, y0, y1, k, mat }),
    {
        XyRect { x0, x1, y0, y1, k, mat }
    }

    pub fn hit(&self, r: &Ray, t_min: Param, t_max: Param) -> (res: Option<HitRecord>)
        requires
            self.wf(),
            r.wf(),
            t_min.wf(),
            t_max.wf(),
        ensures
            res.is_some() == rect_t(self.plane(), *r, t_min@, t_max@).is_some(),
            res matches Some(rec) ==> rect_record(
                self.plane(),
                self.mat,
                *r,
                rect_t(self.plane(), *r, t_min@, t_max@).unwrap(),
                rec,
            ),
            opt_view(res) == rect_view(self.plane(), self.mat, *r, t_min@, t_max@),
            res matches Some(rec) ==> rec.t.wf() && rec.normal.within(NORMAL_LIMIT as int),
    {
        hit_plane(2, 0, 1, self.x0, self.x1, self.y0, self.y1, self.k, self.mat, r, t_min, t_max)
    }

    pub fn bounding_box(&self) -> (b: AABB)
        requires
            self.wf(),
        ensures
            b == rect_box(self.plane()),
            b.wf(),
    {
        AABB::new(
            Vec3::new(self.x0, self.y0, self.k - 1),
            Vec3::new(self.x1, self.y1, self.k + 1),
        )
    }
}

impl XzRect {
    pub open spec fn plane(self) -> Plane {
        Plane {
            k_ax: 1,
            a_ax: 0,
            b_ax: 2,
            a0: self.x0 as int,
            a1: self.x1 as int,
            b0: self.z0 as int,
            b1: self.z1 as int,
            k: self.k as int,
        }
    }

    pub open spec fn wf(self) -> bool {
        plane_wf(self.plane())
    }

    pub fn new(x0: i64, x1: i64, z0: i64, z1: i64, k: i64, mat: usize) -> (s: XzRect)
        ensures
            s == (XzRect { x0, x1, z0, z1, k, mat }),
    {
        XzRect { x0, x1, z0, z1, k, mat }
    }

    pub fn hit(&self, r: &Ray, t_min: Param, t_max: Param) -> (res: Option<HitRecord>)
        requires
            self.wf(),
            r.wf(),
            t_min.wf(),
            t_max.wf(),
        ensures
            res.is_some() == rect_t(self.plane(), *r, t_min@, t_max@).is_some(),
            res matches Some(rec) ==> rect_record(
                self.plane(),
                self.mat,
                *r,
                rect_t(self.plane(), *r, t_min@, t_max@).unwrap(),
                rec,
            ),
            opt_view(res) == rect_view(self.plane(), self.mat, *r, t_min@, t_max@),
            res matches Some(rec) ==> rec.t.wf() && rec.normal.within(NORMAL_LIMIT as int),
    {
        hit_plane(1, 0, 2, self.x0, self.x1, self.z0, self.z1, self.k, self.mat, r, t_min, t_max)
    }

    pub fn bounding_box(&self) -> (b: AABB)
        requires
            self.wf(),
        ensures
            b == rect_box(self.plane()),
            b.wf(),
    {
        AABB::new(
            Vec3::new(self.x0, self.k - 1, self.z0),
            Vec3::new(self.x1, self.k + 1, self.z1),
        )
    }
}

impl YzRect {
    pub open spec fn plane(self) -> Plane {
        Plane {
            k_ax: 0,
            a_ax: 1,
            b_ax: 2,
            a0: self.y0 as int,
            a1: self.y1 as int,
            b0: self.z0 as int,
            b1: self.z1 as int,
            k: self.k as int,
        }
    }

    pub open spec fn wf(self) -> bool {
        plane_wf(self.plane())
    }

    pub fn new(y0: i64, y1: i64, z0: i64, z1: i64, k: i64, mat: usize) -> (s: YzRect)
        ensures
            s == (YzRect { y0, y1, z0, z1, k, mat }),
    {
        YzRect { y0, y1, z0, z1, k, mat }
    }

    pub fn hit(&self, r: &Ray, t_min: Param, t_max: Param) -> (res: Option<HitRecord>)
        requires
            self.wf(),
            r.wf(),
            t_min.wf(),
            t_max.wf(),
        ensures
            res.is_some() == rect_t(self.plane(), *r, t_min@, t_max@).is_some(),
            res matches Some(rec) ==> rect_record(
                self.plane(),
                self.mat,
                *r,
                rect_t(self.plane(), *r, t_min@, t_max@).unwrap(),
                rec,
            ),
            opt_view(res) == rect_view(self.plane(), self.mat, *r, t_min@, t_max@),
            res matches Some(rec) ==> rec.t.wf() && rec.normal.within(NORMAL_LIMIT as int),
    {
        hit_plane(0, 1, 2, self.y0, self.y1, self.z0, self.z1, self.k, self.mat, r, t_min, t_max)
    }

    pub fn bounding_box(&self) -> (b: AABB)
        requires
            self.wf(),
        ensures
            b == rect_box(self.plane()),
            b.wf(),
    {
        AABB::new(
            Vec3::new(self.k - 1, self.y0, self.z0),
            Vec3::new(self.k + 1, self.y1, self.z1),
        )
    }
}

/// Intersection of a ray with an axis-aligned rectangle.
fn hit_plane(
    k_ax: usize,
    a_ax: usize,
    b_ax: usize,
    a0: i64,
    a1: i64,
    b0: i64,
    b1: i64,
    k: i64,
    mat: usize,
    r: &Ray,
    t_min: Param,
    t_max: Param,
) -> (res: Option<HitRecord>)
    requires
        plane_wf(
            Plane {
                k_ax: k_ax as int,
                a_ax: a_ax as int,
                b_ax: b_ax as int,
                a0: a0 as int,
                a1: a1 as int,
                b0: b0 as int,
                b1: b1 as int,
                k: k as int,
            },
        ),
        r.wf(),
        t_min.wf(),
        t_max.wf(),
    ensures
        ({
            let p = Plane {
                k_ax: k_ax as int,
                a_ax: a_ax as int,
                b_ax: b_ax as int,
                a0: a0 as int,
                a1: a1 as int,
                b0: b0 as int,
                b1: b1 as int,
                k: k as int,
            };
            &&& res.is_some() == rect_t(p, *r, t_min@, t_max@).is_some()
            &&& res matches Some(rec) ==> rect_record(
                p,
                mat,
                *r,
                rect_t(p, *r, t_min@, t_max@).unwrap(),
                rec,
            )
            &&& opt_view(res) == rect_view(p, mat, *r, t_min@, t_max@)
            &&& res matches Some(rec) ==> rec.t.wf() && rec.normal.within(NORMAL_LIMIT as int)
        }),
{
    let ghost p = Plane {
        k_ax: k_ax as int,
        a_ax: a_ax as int,
        b_ax: b_ax as int,
        a0: a0 as int,
        a1: a1 as int,
        b0: b0 as int,
        b1: b1 as int,
        k: k as int,
    };
    let d = r.dir.get(k_ax);
    let o = r.orig.get(k_ax);
    if d == 0 {
        return None;
    }
    let t = if d > 0 {
        Param::new(k - o, d)
    } else {
        Param::new(o - k, -d)
    };
    assert(plane_t(*r, k_ax as int, k as int) == Some(t@));
    if !(t_min.le(&t) && t.le(&t_max)) {
        return None;
    }
    let num = t.num as i128;
    let den = t.den as i128;
    let oa = r.orig.get(a_ax) as i128;
    let da = r.dir.get(a_ax) as i128;
    let ob = r.orig.get(b_ax) as i128;
    let db = r.dir.get(b_ax) as i128;
    proof {
        lemma_mul_within(oa as int, den as int, 0x100_0000, 0x100_0000);
        lemma_mul_within(num as int, da as int, 0x200_0000, 0x100_0000);
        lemma_mul_within(ob as int, den as int, 0x100_0000, 0x100_0000);
        lemma_mul_within(num as int, db as int, 0x200_0000, 0x100_0000);
        lemma_mul_within(a0 as int, den as int, 0x100_0000, 0x100_0000);
        lemma_mul_within(a1 as int, den as int, 0x100_0000, 0x100_0000);
        lemma_mul_within(b0 as int, den as int, 0x100_0000, 0x100_0000);
        lemma_mul_within(b1 as int, den as int, 0x100_0000, 0x100_0000);
    }
    let xa = oa * den + num * da;
    let xb = ob * den + num * db;
    let lo_a = (a0 as i128) * den;
    let hi_a = (a1 as i128) * den;
    let lo_b = (b0 as i128) * den;
    let hi_b = (b1 as i128) * den;
    if xa < lo_a || xa > hi_a || xb < lo_b || xb > hi_b {
        return None;
    }
    let mut rec = HitRecord::new();
    rec.t = t;
    rec.mat = mat;
    if a0 < a1 && b0 < b1 {
        proof {
            lemma_mul_within(den as int, (a1 - a0) as int, 0x100_0000, 0x200_0000);
            lemma_mul_within(den as int, (b1 - b0) as int, 0x100_0000, 0x200_0000);
            assert(den * (a1 - a0) > 0) by (nonlinear_arith)
                requires
                    den > 0,
                    a1 - a0 > 0,
            ;
            assert(den * (b1 - b0) > 0) by (nonlinear_arith)
                requires
                    den > 0,
                    b1 - b0 > 0,
            ;
        }
        let u = Param::new((xa - lo_a) as i64, (den * ((a1 - a0) as i128)) as i64);
        let v = Param::new((xb - lo_b) as i64, (den * ((b1 - b0) as i128)) as i64);
        rec.uv = Some(SurfaceUv { u, v });
    }
    let n = if k_ax == 0 {
        Vec3::new(1, 0, 0)
    } else if k_ax == 1 {
        Vec3::new(0, 1, 0)
    } else {
        Vec3::new(0, 0, 1)
    };
    rec.set_face_normal(r, n);
    Some(rec)
}

} // verus!
