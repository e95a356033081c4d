//! Spheres, static and moving.
use vstd::prelude::*;
use crate::aabb::AABB;
use crate::hit_record::{hit_view, neg3, opt_view, HitRecord, HitView, NORMAL_LIMIT};
use crate::param::{q_le, Param};
use crate::ray::Ray;
use crate::rtweekend::{isqrt, isqrt_spec, lemma_isqrt_exists};
use crate::vec3::{dot3, lemma_mul_within, Point3, Vec3, COORD_LIMIT};

verus! {

#[derive(Clone, Copy, Debug, PartialEq, Eq, Structural)]
pub struct Sphere {
    pub center: Point3,
    /// A negative radius keeps the same surface with inward normals.
    pub radius: i64,
    pub mat: usize,
}

/// Smaller and larger root of the ray–sphere quadratic, rounded towards the
/// inside of the sphere (the integer square root of the discriminant), as
/// fractions over `|direction|^2`; `None` when the ray misses the sphere or
/// has no direction.
pub open spec fn sphere_roots(center: Point3, radius: int, r: Ray) -> Option<((int, int), (int, int))> {
    let oc = (r.orig.x - center.x, r.orig.y - center.y, r.orig.z - center.z);
    let a = dot3(r.dir@, r.dir@);
    let half_b = dot3(oc, r.dir@);
    let c = dot3(oc, oc) - radius * radius;
    let disc = half_b * half_b - a * c;
    if a == 0 || disc < 0 {
        None
    } else {
        let s = isqrt_spec(disc);
        Some(((-half_b - s, a), (-half_b + s, a)))
    }
}

/// `t` lies in `[t_min, t_max]`.
pub open spec fn in_interval(t: (int, int), t_min: (int, int), t_max: (int, int)) -> bool {
    q_le(t_min, t) && q_le(t, t_max)
}

/// Parameter of the reported hit: the smaller root if it lies in range,
/// else the larger one if it does.
pub open spec fn sphere_t(center: Point3, radius: int, r: Ray, t_min: (int, int), t_max: (int, int)) -> Option<(int, int)> {
    match sphere_roots(center, radius, r) {
        None => None,
        Some((near, far)) => if in_interval(near, t_min, t_max) {
            Some(near)
        } else if in_interval(far, t_min, t_max) {
            Some(far)
        } else {
            None
        },
    }
}

/// The point at parameter `t` minus the center, times `t`'s denominator.
pub open spec fn scaled_offset(center: Point3, r: Ray, t: (int, int)) -> (int, int, int) {
    (
        (r.orig.x - center.x) * t.1 + t.0 * r.dir.x,
        (r.orig.y - center.y) * t.1 + t.0 * r.dir.y,
        (r.orig.z - center.z) * t.1 + t.0 * r.dir.z,
    )
}

/// Outward normal at parameter `t`: the hit point minus the center,
/// rounded down to the lattice, and reversed for a negative radius.
pub open spec fn sphere_outward(center: Point3, radius: int, r: Ray, t: (int, int)) -> (int, int, int) {
    let p = scaled_offset(center, r, t);
    let v = (p.0 / t.1, p.1 / t.1, p.2 / t.1);
    if radius < 0 {
        neg3(v)
    } else {
        v
    }
}

/// The record that a hit of a sphere at parameter `t` produces.
pub open spec fn sphere_record(center: Point3, radius: int, mat: usize, r: Ray, t: (int, int), rec: HitRecord) -> bool {
    &&& rec.t@ == t
    &&& rec.oriented(r, sphere_outward(center, radius, r, t))
    &&& rec.mat == mat
    &&& rec.uv.is_none()
}

/// The hit record of a ray and a sphere, if any.
pub open spec fn sphere_view(center: Point3, radius: int, mat: usize, r: Ray, t_min: (int, int), t_max: (int, int)) -> Option<HitView> {
    match sphere_t(center, radius, r, t_min, t_max) {
        None => None,
        Some(t) => Some(hit_view(r, t, sphere_outward(center, radius, r, t), mat, None)),
    }
}

impl Sphere {
    pub open spec fn wf(self) -> bool {
        self.center.in_limit() && -COORD_LIMIT <= self.radius <= COORD_LIMIT
    }

    pub fn new(center: Point3, radius: i64, mat: usize) -> (s: Sphere)
        ensures
            s.center == center && s.radius == radius && s.mat == mat,
    {
        Sphere { center, radius, mat }
    }

    pub fn hit(&self, r: &Ray, t_min: Param, t_max: Param) -> (res: Option<HitRecord>)
        requires
            self.wf(),
            r.wf(),
            t_min.wf(),
            t_max.wf(),
        ensures
            res.is_some() == sphere_t(self.center, self.radius as int, *r, t_min@, t_max@).is_some(),
            res matches Some(rec) ==> sphere_record(
                self.center,
                self.radius as int,
                self.mat,
                *r,
                sphere_t(self.center, self.radius as int, *r, t_min@, t_max@).unwrap(),
                rec,
            ),
            opt_view(res) == sphere_view(self.center, self.radius as int, self.mat, *r, t_min@, t_max@),
            res matches Some(rec) ==> rec.t.wf() && rec.normal.within(NORMAL_LIMIT as int),
    {
        hit_ball(&self.center, self.radius, self.mat, r, t_min, t_max)
    }

    /// The cube `center ± |radius|`.
    pub fn bounding_box(&self) -> (b: AABB)
        requires
            self.wf(),
        ensures
            b == ball_box(self.center, self.radius as int),
    {
        ball_bounds(&self.center, self.radius)
    }
}

pub open spec fn abs_int(x: int) -> int {
    if x < 0 {
        -x
    } else {
        x
    }
}

/// The cube `center ± |radius|`.
pub open spec fn ball_box(center: Point3, radius: int) -> AABB {
    let q = abs_int(radius);
    AABB {
        minimum: Vec3 {
            x: (center.x - q) as i64,
            y: (center.y - q) as i64,
            z: (center.z - q) as i64,
        },
        maximum: Vec3 {
            x: (center.x + q) as i64,
            y: (center.y + q) as i64,
            z: (center.z + q) as i64,
        },
    }
}

fn ball_bounds(center: &Point3, radius: i64) -> (b: AABB)
    requires
        center.in_limit(),
        -COORD_LIMIT <= radius <= COORD_LIMIT,
    ensures
        b == ball_box(*center, radius as int),
        b.wf(),
        b.ordered(),
{
    let q = if radius < 0 {
        -radius
    } else {
        radius
    };
    let b = AABB::new(
        Vec3::new(center.x - q, center.y - q, center.z - q),
        Vec3::new(center.x + q, center.y + q, center.z + q),
    );
    assert(b.ordered()) by {
        assert forall|a: int| 0 <= a < 3 implies #[trigger] b.minimum.comp(a) <= b.maximum.comp(a) by {}
    }
    b
}

/// Intersection of a ray with the sphere of the given center and radius.
fn hit_ball(center: &Point3, radius: i64, mat: usize, r: &Ray, t_min: Param, t_max: Param) -> (res: Option<HitRecord>)
    requires
        center.in_limit(),
        -COORD_LIMIT <= radius <= COORD_LIMIT,
        r.wf(),
        t_min.wf(),
        t_max.wf(),
    ensures
        res.is_some() == sphere_t(*center, radius as int, *r, t_min@, t_max@).is_some(),
        res matches Some(rec) ==> sphere_record(
            *center,
            radius as int,
            mat,
            *r,
            sphere_t(*center, radius as int, *r, t_min@, t_max@).unwrap(),
            rec,
        ),
        opt_view(res) == sphere_view(*center, radius as int, mat, *r, t_min@, t_max@),
        res matches Some(rec) ==> rec.t.wf() && rec.normal.within(NORMAL_LIMIT as int),
{
    let oc = r.orig.sub(center);
    let d = r.dir;
    proof {
        assert(oc.within(0x200_0000));
        assert(d.within(0x100_0000));
    }
    let a = d.dot(&d);
    let half_b = oc.dot(&d);
    let oc2 = oc.dot(&oc);
    proof {
        lemma_dot_bound(d@, d@, 0x100_0000, 0x100_0000);
        lemma_dot_bound(oc@, d@, 0x200_0000, 0x100_0000);
        lemma_dot_bound(oc@, oc@, 0x200_0000, 0x200_0000);
        lemma_mul_within(radius as int, radius as int, 0x100_0000, 0x100_0000);
        assert(0 <= a);
        assert(0 <= oc2);
        assert(a * a >= 0) by (nonlinear_arith);
    }
    let c = oc2 - (radius as i128) * (radius as i128);
    proof {
        lemma_mul_within(half_b as int, half_b as int, 0x6_0000_0000_0000, 0x6_0000_0000_0000);
        lemma_mul_within(a as int, c as int, 0x3_0000_0000_0000, 0xd_0000_0000_0000);
    }
    let disc = half_b * half_b - a * c;
    if a == 0 || disc < 0 {
        return None;
    }
    let s = isqrt(disc as u128) as i128;
    let near = Param::new((-half_b - s) as i64, a as i64);
    let far = Param::new((-half_b + s) as i64, a as i64);
    let root = if t_min.le(&near) && near.le(&t_max) {
        near
    } else if t_min.le(&far) && far.le(&t_max) {
        far
    } else {
        return None;
    };
    let den = root.den as i128;
    let num = root.num as i128;
    proof {
        lemma_mul_within(oc.x as int, den as int, 0x200_0000, 0x3_0000_0000_0000);
        lemma_mul_within(oc.y as int, den as int, 0x200_0000, 0x3_0000_0000_0000);
        lemma_mul_within(oc.z as int, den as int, 0x200_0000, 0x3_0000_0000_0000);
        lemma_mul_within(num as int, d.x as int, 0x20_0000_0000_0000, 0x100_0000);
        lemma_mul_within(num as int, d.y as int, 0x20_0000_0000_0000, 0x100_0000);
        lemma_mul_within(num as int, d.z as int, 0x20_0000_0000_0000, 0x100_0000);
    }
    let px = (oc.x as i128) * den + num * (d.x as i128);
    let py = (oc.y as i128) * den + num * (d.y as i128);
    let pz = (oc.z as i128) * den + num * (d.z as i128);
    proof {
        lemma_root_in_ball(
            oc@,
            d@,
            radius as int,
            s as int,
            num as int,
        );
        lemma_div_within(px as int, den as int, radius as int);
        lemma_div_within(py as int, den as int, radius as int);
        lemma_div_within(pz as int, den as int, radius as int);
    }
    let mut n = Vec3::new(
        floor_div(px, den) as i64,
        floor_div(py, den) as i64,
        floor_div(pz, den) as i64,
    );
    if radius < 0 {
        n = n.neg();
    }
    let mut rec = HitRecord::new();
    rec.t = root;
    rec.mat = mat;
    rec.set_face_normal(r, n);
    Some(rec)
}

/// A point at a (rounded) root of the ray–sphere quadratic lies in the
/// closed ball: with `P` the point minus the center times `a = |d|^2`,
/// `|P|^2 <= radius^2 * a^2`.
pub proof fn lemma_root_in_ball(oc: (int, int, int), d: (int, int, int), radius: int, s: int, num: int)
    requires
        dot3(d, d) > 0,
        0 <= s,
        s * s <= dot3(oc, d) * dot3(oc, d) - dot3(d, d) * (dot3(oc, oc) - radius * radius),
        num == -dot3(oc, d) - s || num == -dot3(oc, d) + s,
    ensures
        ({
            let a = dot3(d, d);
            let p = (oc.0 * a + num * d.0, oc.1 * a + num * d.1, oc.2 * a + num * d.2);
            &&& p.0 * p.0 <= (radius * a) * (radius * a)
            &&& p.1 * p.1 <= (radius * a) * (radius * a)
            &&& p.2 * p.2 <= (radius * a) * (radius * a)
        }),
{
    let a = dot3(d, d);
    let hb = dot3(oc, d);
    let o2 = dot3(oc, oc);
    let p0 = oc.0 * a + num * d.0;
    let p1 = oc.1 * a + num * d.1;
    let p2 = oc.2 * a + num * d.2;
    assert(num * num + 2 * num * hb == s * s - hb * hb) by (nonlinear_arith)
        requires
            num == -hb - s || num == -hb + s,
    ;
    lemma_square_expand(oc.0, d.0, a, num);
    lemma_square_expand(oc.1, d.1, a, num);
    lemma_square_expand(oc.2, d.2, a, num);
    let aa = a * a;
    let an = a * num;
    let nn = num * num;
    assert(aa * o2 == aa * (oc.0 * oc.0) + aa * (oc.1 * oc.1) + aa * (oc.2 * oc.2)) by (nonlinear_arith)
        requires
            o2 == oc.0 * oc.0 + oc.1 * oc.1 + oc.2 * oc.2,
    ;
    assert(an * hb == an * (oc.0 * d.0) + an * (oc.1 * d.1) + an * (oc.2 * d.2)) by (nonlinear_arith)
        requires
            hb == oc.0 * d.0 + oc.1 * d.1 + oc.2 * d.2,
    ;
    assert(nn * a == nn * (d.0 * d.0) + nn * (d.1 * d.1) + nn * (d.2 * d.2)) by (nonlinear_arith)
        requires
            a == d.0 * d.0 + d.1 * d.1 + d.2 * d.2,
    ;
    assert(p0 * p0 + p1 * p1 + p2 * p2 == aa * o2 + 2 * (an * hb) + nn * a);
    assert(aa * o2 + 2 * (an * hb) + nn * a == a * a * o2 + 2 * a * num * hb + num * num * a) by (nonlinear_arith)
        requires
            aa == a * a,
            an == a * num,
            nn == num * num,
    ;
    assert(a * a * o2 + 2 * a * num * hb + num * num * a == a * (a * o2 + s * s - hb * hb))
        by (nonlinear_arith)
        requires
            num * num + 2 * num * hb == s * s - hb * hb,
    ;
    assert(a * (a * o2 + s * s - hb * hb) <= (radius * a) * (radius * a)) by (nonlinear_arith)
        requires
            a > 0,
            s * s <= hb * hb - a * (o2 - radius * radius),
    ;
    assert(p0 * p0 >= 0 && p1 * p1 >= 0 && p2 * p2 >= 0) by (nonlinear_arith);
}

proof fn lemma_square_expand(x: int, y: int, a: int, n: int)
    ensures
        (x * a + n * y) * (x * a + n * y) == (a * a) * (x * x) + 2 * ((a * n) * (x * y)) + (n * n) * (y * y),
{
    let u = x * a;
    let v = n * y;
    assert((u + v) * (u + v) == u * u + 2 * (u * v) + v * v) by (nonlinear_arith);
    assert(u * u == (a * a) * (x * x)) by (nonlinear_arith)
        requires
            u == x * a,
    ;
    assert(u * v == (a * n) * (x * y)) by (nonlinear_arith)
        requires
            u == x * a,
            v == n * y,
    ;
    assert(v * v == (n * n) * (y * y)) by (nonlinear_arith)
        requires
            v == n * y,
    ;
}

/// From `p^2 <= (radius * den)^2` the rounded quotient `p / den` lies
/// within `|radius|`.
proof fn lemma_div_within(p: int, den: int, radius: int)
    requires
        den > 0,
        p * p <= (radius * den) * (radius * den),
    ensures
        -abs_int(radius) <= p / den <= abs_int(radius),
{
    let q = abs_int(radius);
    assert((radius * den) * (radius * den) == (q * den) * (q * den)) by (nonlinear_arith)
        requires
            q == radius || q == -radius,
    ;
    assert(q * den >= 0) by (nonlinear_arith)
        requires
            q >= 0,
            den > 0,
    ;
    assert(-(q * den) <= p <= q * den) by (nonlinear_arith)
        requires
            p * p <= (q * den) * (q * den),
            q * den >= 0,
    ;
    assert(-q <= p / den <= q) by (nonlinear_arith)
        requires
            -(q * den) <= p <= q * den,
            den > 0,
            q >= 0,
    ;
}

/// A sphere's box holds every hit that the sphere reports: the ray passes
/// the slab test of `ball_box` over the same parameter interval.
pub proof fn lemma_sphere_hit_in_box(
    center: Point3,
    radius: int,
    r: Ray,
    t_min: (int, int),
    t_max: (int, int),
)
    requires
        center.in_limit(),
        -COORD_LIMIT <= radius <= COORD_LIMIT,
        r.wf(),
        t_min.1 > 0,
        t_max.1 > 0,
        sphere_t(center, radius, r, t_min, t_max).is_some(),
    ensures
        crate::aabb::hit_spec(ball_box(center, radius), r, t_min, t_max),
{
    let oc = (r.orig.x - center.x, r.orig.y - center.y, r.orig.z - center.z);
    let d = r.dir@;
    let a = dot3(d, d);
    let hb = dot3(oc, d);
    let c = dot3(oc, oc) - radius * radius;
    let disc = hb * hb - a * c;
    assert(d.0 * d.0 >= 0 && d.1 * d.1 >= 0 && d.2 * d.2 >= 0) by (nonlinear_arith);
    lemma_isqrt_exists(disc);
    let s = isqrt_spec(disc);
    let t = sphere_t(center, radius, r, t_min, t_max).unwrap();
    assert(t.1 == a && (t.0 == -hb - s || t.0 == -hb + s));
    lemma_root_in_ball(oc, d, radius, s, t.0);
    let q = abs_int(radius);
    let b = ball_box(center, radius);
    assert forall|ax: int| 0 <= ax < 3 implies b.lo(ax) * t.1 <= #[trigger] r.orig.comp(ax) * t.1
        + t.0 * r.dir.comp(ax) <= b.hi(ax) * t.1 by {
        let o = r.orig.comp(ax);
        let cc = center.comp(ax);
        let dd = r.dir.comp(ax);
        let p = (o - cc) * a + t.0 * dd;
        assert(p * p <= (radius * a) * (radius * a));
        assert((radius * a) * (radius * a) == (q * a) * (q * a)) by (nonlinear_arith)
            requires
                q == radius || q == -radius,
        ;
        assert(q * a >= 0) by (nonlinear_arith)
            requires
                q >= 0,
                a > 0,
        ;
        assert(-(q * a) <= p <= q * a) by (nonlinear_arith)
            requires
                p * p <= (q * a) * (q * a),
                q * a >= 0,
        ;
        assert(b.lo(ax) == cc - q && b.hi(ax) == cc + q);
        assert((cc - q) * a == cc * a - q * a) by (nonlinear_arith);
        assert((cc + q) * a == cc * a + q * a) by (nonlinear_arith);
        assert(o * a + t.0 * dd == cc * a + p) by (nonlinear_arith)
            requires
                p == (o - cc) * a + t.0 * dd,
        ;
    }
    crate::aabb::lemma_point_in_box_hits(b, r, t, t_min, t_max);
}

/// Bounds a dot product by the bounds of its factors.
proof fn lemma_dot_bound(u: (int, int, int), v: (int, int, int), lu: int, lv: int)
    requires
        -lu <= u.0 <= lu,
        -lu <= u.1 <= lu,
        -lu <= u.2 <= lu,
        -lv <= v.0 <= lv,
        -lv <= v.1 <= lv,
        -lv <= v.2 <= lv,
    ensures
        -3 * (lu * lv) <= dot3(u, v) <= 3 * (lu * lv),
        u == v ==> dot3(u, v) >= 0,
{
    lemma_mul_within(u.0, v.0, lu, lv);
    lemma_mul_within(u.1, v.1, lu, lv);
    lemma_mul_within(u.2, v.2, lu, lv);
    assert(u.0 * u.0 >= 0 && u.1 * u.1 >= 0 && u.2 * u.2 >= 0) by (nonlinear_arith);
}

/// A sphere whose center moves linearly from `center0` at `time0` to
/// `center1` at `time1`.
#[derive(Clone, Copy, Debug, PartialEq, Eq, Structural)]
pub struct MovingSphere {
    pub center0: Point3,
    pub center1: Point3,
    pub time0: i64,
    pub time1: i64,
    pub radius: i64,
    pub mat: usize,
}

/// Time stamps of moving objects lie within this magnitude.
pub const TIME_LIMIT: i64 = 0x1_0000_0000;

/// Length of the time interval between the two keyframes.
pub open spec fn time_span(s: MovingSphere) -> int {
    if s.time0 < s.time1 {
        s.time1 - s.time0
    } else {
        s.time0 - s.time1
    }
}

/// Change of a center coordinate from `a` (at `time0`) to `b` (at `time1`),
/// with the sign it has per unit of time moving from `time0` towards
/// `time1`; divided by `time_span` it is the rate of change per unit of
/// time.
pub open spec fn signed_delta(s: MovingSphere, a: int, b: int) -> int {
    if s.time0 < s.time1 {
        b - a
    } else {
        a - b
    }
}

/// Center at `time`, rounded down to the lattice: the center at `time0`
/// plus `(time - time0) / (time1 - time0)` of the way to the center at
/// `time1`, for keyframe times in either order.
pub open spec fn moving_center(s: MovingSphere, time: int) -> (int, int, int) {
    let span = time_span(s);
    let k = time - s.time0;
    (
        s.center0.x + (k * signed_delta(s, s.center0.x as int, s.center1.x as int)) / span,
        s.center0.y + (k * signed_delta(s, s.center0.y as int, s.center1.y as int)) / span,
        s.center0.z + (k * signed_delta(s, s.center0.z as int, s.center1.z as int)) / span,
    )
}

pub open spec fn lattice_point(v: (int, int, int)) -> Point3 {
    Vec3 { x: v.0 as i64, y: v.1 as i64, z: v.2 as i64 }
}

/// The center at `time` lies within the coordinate limit.
pub open spec fn center_in_limit(s: MovingSphere, time: int) -> bool {
    let c = moving_center(s, time);
    &&& -COORD_LIMIT <= c.0 <= COORD_LIMIT
    &&& -COORD_LIMIT <= c.1 <= COORD_LIMIT
    &&& -COORD_LIMIT <= c.2 <= COORD_LIMIT
}

impl MovingSphere {
    pub open spec fn wf(self) -> bool {
        &&& self.center0.in_limit()
        &&& self.center1.in_limit()
        &&& -TIME_LIMIT <= self.time0 <= TIME_LIMIT
        &&& -TIME_LIMIT <= self.time1 <= TIME_LIMIT
        &&& self.time0 != self.time1
        &&& -COORD_LIMIT <= self.radius <= COORD_LIMIT
    }

    pub fn new(
        center0: Point3,
        center1: Point3,
        time0: i64,
        time1: i64,
        radius: i64,
        mat: usize,
    ) -> (s: MovingSphere)
        ensures
            s.center0 == center0 && s.center1 == center1 && s.time0 == time0 && s.time1 == time1
                && s.radius == radius && s.mat == mat,
    {
        MovingSphere { center0, center1, time0, time1, radius, mat }
    }

    /// Center at `time`, or `None` when it lies outside the coordinate limit.
    pub fn center(&self, time: i64) -> (c: Option<Point3>)
        requires
            self.wf(),
        ensures
            c.is_some() == center_in_limit(*self, time as int),
            c matches Some(p) ==> p@ == moving_center(*self, time as int) && p.in_limit(),
    {
        let forward = self.time0 < self.time1;
        let span = if forward {
            (self.time1 - self.time0) as i128
        } else {
            (self.time0 - self.time1) as i128
        };
        let k = time as i128 - self.time0 as i128;
        let (dx, dy, dz) = if forward {
            (
                (self.center1.x - self.center0.x) as i128,
                (self.center1.y - self.center0.y) as i128,
                (self.center1.z - self.center0.z) as i128,
            )
        } else {
            (
                (self.center0.x - self.center1.x) as i128,
                (self.center0.y - self.center1.y) as i128,
                (self.center0.z - self.center1.z) as i128,
            )
        };
        proof {
            lemma_mul_within(k as int, dx as int, 0x1_0000_0000_0000_0000, 0x200_0000);
            lemma_mul_within(k as int, dy as int, 0x1_0000_0000_0000_0000, 0x200_0000);
            lemma_mul_within(k as int, dz as int, 0x1_0000_0000_0000_0000, 0x200_0000);
        }
        let x = self.center0.x as i128 + floor_div(k * dx, span);
        let y = self.center0.y as i128 + floor_div(k * dy, span);
        let z = self.center0.z as i128 + floor_div(k * dz, span);
        let lim = COORD_LIMIT as i128;
        if x < -lim || x > lim || y < -lim || y > lim || z < -lim || z > lim {
            return None;
        }
        Some(Vec3::new(x as i64, y as i64, z as i64))
    }

    pub fn hit(&self, r: &Ray, t_min: Param, t_max: Param) -> (res: Option<HitRecord>)
        requires
            self.wf(),
            r.wf(),
            t_min.wf(),
            t_max.wf(),
        ensures
            !center_in_limit(*self, r.tm as int) ==> res.is_none(),
            center_in_limit(*self, r.tm as int) ==> {
                let c = lattice_point(moving_center(*self, r.tm as int));
                &&& res.is_some() == sphere_t(c, self.radius as int, *r, t_min@, t_max@).is_some()
                &&& res matches Some(rec) ==> sphere_record(
                    c,
                    self.radius as int,
                    self.mat,
                    *r,
                    sphere_t(c, self.radius as int, *r, t_min@, t_max@).unwrap(),
                    rec,
                )
                &&& opt_view(res) == sphere_view(c, self.radius as int, self.mat, *r, t_min@, t_max@)
            },
            res matches Some(rec) ==> rec.t.wf() && rec.normal.within(NORMAL_LIMIT as int),
    {
        match self.center(r.tm) {
            None => None,
            Some(c) => {
                assert(c == lattice_point(moving_center(*self, r.tm as int)));
                hit_ball(&c, self.radius, self.mat, r, t_min, t_max)
            },
        }
    }

    /// The box holding the sphere at both `time0` and `time1`, or `None`
    /// when the center at either time lies outside the coordinate limit.
    pub fn bounding_box(&self, time0: i64, time1: i64) -> (b: Option<AABB>)
        requires
            self.wf(),
        ensures
            b.is_some() == (center_in_limit(*self, time0 as int) && center_in_limit(
                *self,
                time1 as int,
            )),
            b matches Some(bb) ==> bb == crate::aabb::surrounding_spec(
                ball_box(lattice_point(moving_center(*self, time0 as int)), self.radius as int),
                ball_box(lattice_point(moving_center(*self, time1 as int)), self.radius as int),
            ) && bb.wf() && bb.ordered(),
    {
        let c0 = self.center(time0);
        let c1 = self.center(time1);
        match (c0, c1) {
            (Some(p0), Some(p1)) => {
                let b0 = ball_bounds(&p0, self.radius);
                let b1 = ball_bounds(&p1, self.radius);
                proof {
                    crate::aabb::lemma_surrounding_encloses(b0, b1);
                }
                Some(AABB::surrounding_box(&b0, &b1))
            },
            _ => None,
        }
    }
}

/// Division rounding down, for a positive divisor.
pub fn floor_div(n: i128, d: i128) -> (q: i128)
    requires
        0 < d <= 0x1_0000_0000_0000_0000,
        -0x1_0000_0000_0000_0000_0000_0000 <= n <= 0x1_0000_0000_0000_0000_0000_0000,
    ensures
        q == n / d,
        n >= 0 ==> 0 <= q <= n,
        n < 0 ==> n <= q < 0,
{
    if n >= 0 {
        assert(0 <= n / d <= n) by (nonlinear_arith)
            requires
                n >= 0,
                d > 0,
        ;
        n / d
    } else {
        let m = -n;
        let q0 = (m + d - 1) / d;
        proof {
            let mm: int = m + d - 1;
            assert(d * q0 <= mm < d * q0 + d) by (nonlinear_arith)
                requires
                    q0 as int == mm / (d as int),
                    d > 0,
                    mm >= 0,
            ;
            assert(-q0 == n / d) by (nonlinear_arith)
                requires
                    d * q0 <= mm < d * q0 + d,
                    mm == m + d - 1,
                    m == -n,
                    d > 0,
            ;
            assert(1 <= q0 <= m) by (nonlinear_arith)
                requires
                    d * q0 <= mm < d * q0 + d,
                    mm == m + d - 1,
                    m >= 1,
                    d > 0,
            ;
        }
        -q0
    }
}

} // verus!
