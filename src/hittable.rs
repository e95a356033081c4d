//! The scene: intersectable objects kept in an arena.
//!
//! Composite objects (lists, translations, hierarchy nodes) refer to their
//! children by index, and every child comes before its parent, so one child
//! may be shared by many parents and nothing is ever mutated once added.
use vstd::prelude::*;
use crate::aabb::{hit_spec as box_hit, surrounding_spec, AABB, BOX_LIMIT};
use crate::aarect::{rect_box, rect_view, XyRect, XzRect, YzRect};
use crate::hit_record::{neg3, hit_view, opt_view, HitRecord, HitView, NORMAL_LIMIT};
use crate::param::Param;
use crate::ray::Ray;
use crate::sphere::{
    ball_box, center_in_limit, lattice_point, moving_center, sphere_view, MovingSphere, Sphere,
};
use crate::rotate::{fit_normal, lattice, to_object, to_world, triple_in_limit, RotateY};
use crate::vec3::{Vec3, COORD_LIMIT};

verus! {

/// Indices of the objects of a list; a hit of the list is the closest hit
/// of its members.
#[derive(Clone, Debug)]
pub struct HittableList {
    pub objects: Vec<usize>,
}

/// Object `ptr` moved by `offset`.
#[derive(Clone, Copy, Debug, PartialEq, Eq, Structural)]
pub struct Translate {
    pub ptr: usize,
    pub offset: Vec3,
}

/// A node of a bounding-volume hierarchy: two children and the box that
/// holds them both.
#[derive(Clone, Copy, Debug, PartialEq, Eq, Structural)]
pub struct BVH {
    pub left: usize,
    pub right: usize,
    pub tree_box: AABB,
}

#[derive(Clone, Debug)]
pub enum Hittable {
    Sphere(Sphere),
    MovingSphere(MovingSphere),
    XyRect(XyRect),
    XzRect(XzRect),
    YzRect(YzRect),
    List(HittableList),
    Translate(Translate),
    RotateY(RotateY),
    Bvh(BVH),
    /// The placeholder of a hierarchy over no objects: no ray meets it, and
    /// its box is the single point at the origin.
    Empty,
}

/// The arena of a scene's objects.
pub struct Scene {
    pub objects: Vec<Hittable>,
}

impl HittableList {
    pub fn new() -> (l: HittableList)
        ensures
            l.objects@ == Seq::<usize>::empty(),
    {
        HittableList { objects: Vec::new() }
    }

    pub fn add(&mut self, object: usize)
        ensures
            final(self).objects@ == old(self).objects@.push(object),
    {
        self.objects.push(object);
    }
}

impl Translate {
    pub fn new(ptr: usize, offset: Vec3) -> (t: Translate)
        ensures
            t.ptr == ptr && t.offset == offset,
    {
        Translate { ptr, offset }
    }
}

/// The object's own data is well formed and its children come before `i`.
pub open spec fn object_wf(h: Hittable, i: int) -> bool {
    match h {
        Hittable::Sphere(s) => s.wf(),
        Hittable::MovingSphere(m) => m.wf(),
        Hittable::XyRect(p) => p.wf(),
        Hittable::XzRect(p) => p.wf(),
        Hittable::YzRect(p) => p.wf(),
        Hittable::List(l) => forall|k: int| 0 <= k < l.objects@.len() ==> #[trigger] l.objects@[k] < i,
        Hittable::Translate(t) => t.ptr < i && t.offset.in_limit(),
        Hittable::RotateY(t) => t.ptr < i && t.wf(),
        Hittable::Bvh(n) => n.left < i && n.right < i && n.tree_box.wf(),
        Hittable::Empty => true,
    }
}

pub open spec fn scene_wf(w: Seq<Hittable>) -> bool {
    forall|i: int| 0 <= i < w.len() ==> #[trigger] object_wf(w[i], i)
}

/// The ray as seen from an object moved by `offset`.
pub open spec fn moved_ray(r: Ray, offset: Vec3) -> Ray {
    Ray {
        orig: Vec3 {
            x: (r.orig.x - offset.x) as i64,
            y: (r.orig.y - offset.y) as i64,
            z: (r.orig.z - offset.z) as i64,
        },
        dir: r.dir,
        tm: r.tm,
    }
}

/// The moved ray's origin stays within the coordinate limit.
pub open spec fn moved_in_limit(r: Ray, offset: Vec3) -> bool {
    &&& -COORD_LIMIT <= r.orig.x - offset.x <= COORD_LIMIT
    &&& -COORD_LIMIT <= r.orig.y - offset.y <= COORD_LIMIT
    &&& -COORD_LIMIT <= r.orig.z - offset.z <= COORD_LIMIT
}

/// The surface's outward normal behind a record: its normal, reversed when
/// the ray met the surface from behind.
pub open spec fn outward_of(h: HitView) -> (int, int, int) {
    if h.front_face {
        h.normal
    } else {
        neg3(h.normal)
    }
}

pub open spec fn list_len(w: Seq<Hittable>, i: int) -> int {
    if 0 <= i < w.len() {
        match w[i] {
            Hittable::List(l) => l.objects@.len() as int,
            _ => 0,
        }
    } else {
        0
    }
}

/// The hit record of object `i` of the scene, if the ray meets it within
/// `[t_min, t_max]`.
pub open spec fn hit_spec(
    w: Seq<Hittable>,
    i: int,
    r: Ray,
    t_min: (int, int),
    t_max: (int, int),
) -> Option<HitView>
    decreases i, list_len(w, i) + 2,
{
    if !(0 <= i < w.len()) {
        None
    } else {
        match w[i] {
            Hittable::Sphere(s) => sphere_view(s.center, s.radius as int, s.mat, r, t_min, t_max),
            Hittable::MovingSphere(m) => if center_in_limit(m, r.tm as int) {
                sphere_view(
                    lattice_point(moving_center(m, r.tm as int)),
                    m.radius as int,
                    m.mat,
                    r,
                    t_min,
                    t_max,
                )
            } else {
                None
            },
            Hittable::XyRect(p) => rect_view(p.plane(), p.mat, r, t_min, t_max),
            Hittable::XzRect(p) => rect_view(p.plane(), p.mat, r, t_min, t_max),
            Hittable::YzRect(p) => rect_view(p.plane(), p.mat, r, t_min, t_max),
            Hittable::List(l) => list_scan(w, i, l.objects@, l.objects@.len() as int, r, t_min, t_max),
            Hittable::Translate(tr) => if tr.ptr < i && moved_in_limit(r, tr.offset) {
                hit_spec(w, tr.ptr as int, moved_ray(r, tr.offset), t_min, t_max)
            } else {
                None
            },
            Hittable::RotateY(rt) => if rt.ptr < i {
                match rotated_ray(rt, r) {
                    None => None,
                    Some(local) => match hit_spec(w, rt.ptr as int, local, t_min, t_max) {
                        None => None,
                        Some(h) => if within_own_box(rt, r, t_min, h.t) {
                            Some(
                                hit_view(
                                    r,
                                    h.t,
                                    fit_normal(
                                        to_world(
                                            rt.cos_num as int,
                                            rt.sin_num as int,
                                            rt.hyp as int,
                                            outward_of(h),
                                        ),
                                    ),
                                    h.mat,
                                    h.uv,
                                ),
                            )
                        } else {
                            None
                        },
                    },
                }
            } else {
                None
            },
            Hittable::Empty => None,
            Hittable::Bvh(n) => if n.left < i && n.right < i && box_hit(n.tree_box, r, t_min, t_max) {
                let hl = hit_spec(w, n.left as int, r, t_min, t_max);
                let hr = hit_spec(
                    w,
                    n.right as int,
                    r,
                    t_min,
                    match hl {
                        None => t_max,
                        Some(h) => h.t,
                    },
                );
                if hr.is_some() {
                    hr
                } else {
                    hl
                }
            } else {
                None
            },
        }
    }
}

/// Closest-so-far scan over the first `n` members of a list whose members
/// come before `bound`: each member is tried with the interval's upper end
/// lowered to the last hit, and the last hit found wins.
pub open spec fn list_scan(
    w: Seq<Hittable>,
    bound: int,
    ids: Seq<usize>,
    n: int,
    r: Ray,
    t_min: (int, int),
    t_max: (int, int),
) -> Option<HitView>
    decreases bound, n + 1,
{
    if n <= 0 || n > ids.len() {
        None
    } else {
        let prev = list_scan(w, bound, ids, n - 1, r, t_min, t_max);
        let upper = match prev {
            None => t_max,
            Some(h) => h.t,
        };
        let id = ids[n - 1] as int;
        let cur = if id < bound {
            hit_spec(w, id, r, t_min, upper)
        } else {
            None
        };
        if cur.is_some() {
            cur
        } else {
            prev
        }
    }
}

/// The bounding box of object `i` over the time interval `[time0, time1]`,
/// if it has one.
pub open spec fn box_spec(w: Seq<Hittable>, i: int, time0: int, time1: int) -> Option<AABB>
    decreases i, list_len(w, i) + 2,
{
    if !(0 <= i < w.len()) {
        None
    } else {
        match w[i] {
            Hittable::Sphere(s) => Some(ball_box(s.center, s.radius as int)),
            Hittable::MovingSphere(m) => if center_in_limit(m, time0) && center_in_limit(m, time1) {
                Some(
                    surrounding_spec(
                        ball_box(lattice_point(moving_center(m, time0)), m.radius as int),
                        ball_box(lattice_point(moving_center(m, time1)), m.radius as int),
                    ),
                )
            } else {
                None
            },
            Hittable::XyRect(p) => Some(rect_box(p.plane())),
            Hittable::XzRect(p) => Some(rect_box(p.plane())),
            Hittable::YzRect(p) => Some(rect_box(p.plane())),
            Hittable::List(l) => list_box(w, i, l.objects@, l.objects@.len() as int, time0, time1),
            Hittable::Translate(tr) => if tr.ptr < i {
                match box_spec(w, tr.ptr as int, time0, time1) {
                    None => None,
                    Some(b) => shifted_box(b, tr.offset),
                }
            } else {
                None
            },
            Hittable::RotateY(rt) => rt.bbox,
            Hittable::Bvh(n) => Some(n.tree_box),
            Hittable::Empty => Some(point_box()),
        }
    }
}

/// The world ray meets the rotated object's own box (if it has one) within
/// `[t_min, t]`. A hit found along the rounded object-space ray counts only
/// then, so that the box holds every hit the rotated object reports.
pub open spec fn within_own_box(rt: RotateY, r: Ray, t_min: (int, int), t: (int, int)) -> bool {
    match rt.bbox {
        None => true,
        Some(b) => box_hit(b, r, t_min, t),
    }
}

/// The box holding only the origin.
pub open spec fn point_box() -> AABB {
    AABB { minimum: Vec3 { x: 0, y: 0, z: 0 }, maximum: Vec3 { x: 0, y: 0, z: 0 } }
}

/// The ray in the rotated object's own coordinates, if it stays within the
/// coordinate limit.
pub open spec fn rotated_ray(rt: RotateY, r: Ray) -> Option<Ray> {
    let c = rt.cos_num as int;
    let s = rt.sin_num as int;
    let h = rt.hyp as int;
    let o = to_object(c, s, h, r.orig@);
    let d = to_object(c, s, h, r.dir@);
    if triple_in_limit(o) && triple_in_limit(d) {
        Some(Ray { orig: lattice(o), dir: lattice(d), tm: r.tm })
    } else {
        None
    }
}

/// `b` moved by `offset`, if it stays within the box limit.
pub open spec fn shifted_box(b: AABB, offset: Vec3) -> Option<AABB> {
    let lo = (b.minimum.x + offset.x, b.minimum.y + offset.y, b.minimum.z + offset.z);
    let hi = (b.maximum.x + offset.x, b.maximum.y + offset.y, b.maximum.z + offset.z);
    if -BOX_LIMIT <= lo.0 <= BOX_LIMIT && -BOX_LIMIT <= lo.1 <= BOX_LIMIT && -BOX_LIMIT <= lo.2
        <= BOX_LIMIT && -BOX_LIMIT <= hi.0 <= BOX_LIMIT && -BOX_LIMIT <= hi.1 <= BOX_LIMIT
        && -BOX_LIMIT <= hi.2 <= BOX_LIMIT {
        Some(
            AABB {
                minimum: Vec3 { x: lo.0 as i64, y: lo.1 as i64, z: lo.2 as i64 },
                maximum: Vec3 { x: hi.0 as i64, y: hi.1 as i64, z: hi.2 as i64 },
            },
        )
    } else {
        None
    }
}

/// The box surrounding the first `n` members of a list; `None` for no
/// members or when a member has no box.
pub open spec fn list_box(
    w: Seq<Hittable>,
    bound: int,
    ids: Seq<usize>,
    n: int,
    time0: int,
    time1: int,
) -> Option<AABB>
    decreases bound, n + 1,
{
    if n <= 0 || n > ids.len() {
        None
    } else {
        let id = ids[n - 1] as int;
        let cur = if id < bound {
            box_spec(w, id, time0, time1)
        } else {
            None
        };
        if n == 1 {
            cur
        } else {
            match (list_box(w, bound, ids, n - 1, time0, time1), cur) {
                (Some(a), Some(b)) => Some(surrounding_spec(a, b)),
                _ => None,
            }
        }
    }
}

impl Scene {
    pub open spec fn wf(self) -> bool {
        scene_wf(self.objects@)
    }

    pub fn new() -> (s: Scene)
        ensures
            s.objects@ == Seq::<Hittable>::empty(),
            s.wf(),
    {
        Scene { objects: Vec::new() }
    }

    pub fn len(&self) -> (n: usize)
        ensures
            n == self.objects@.len(),
    {
        self.objects.len()
    }

    /// Appends an object whose children are already in the scene and
    /// returns its index.
    pub fn add(&mut self, object: Hittable) -> (i: usize)
        requires
            old(self).wf(),
            object_wf(object, old(self).objects@.len() as int),
        ensures
            final(self).objects@ == old(self).objects@.push(object),
            i == old(self).objects@.len(),
            final(self).wf(),
    {
        let i = self.objects.len();
        self.objects.push(object);
        proof {
            assert forall|j: int| 0 <= j < self.objects@.len() implies #[trigger] object_wf(
                self.objects@[j],
                j,
            ) by {
                if j < i {
                    assert(object_wf(old(self).objects@[j], j));
                }
            }
        }
        i
    }

    /// The closest hit of object `i` with the ray within `[t_min, t_max]`.
    pub fn hit(&self, i: usize, r: &Ray, t_min: Param, t_max: Param) -> (res: Option<HitRecord>)
        requires
            self.wf(),
            r.wf(),
            t_min.wf(),
            t_max.wf(),
        ensures
            opt_view(res) == hit_spec(self.objects@, i as int, *r, t_min@, t_max@),
            res matches Some(rec) ==> rec.t.wf() && rec.normal.within(NORMAL_LIMIT as int),
        decreases i, list_len(self.objects@, i as int) + 2,
    {
        if i >= self.objects.len() {
            return None;
        }
        proof {
            assert(object_wf(self.objects@[i as int], i as int));
        }
        match &self.objects[i] {
            Hittable::Sphere(s) => s.hit(r, t_min, t_max),
            Hittable::MovingSphere(m) => m.hit(r, t_min, t_max),
            Hittable::XyRect(p) => p.hit(r, t_min, t_max),
            Hittable::XzRect(p) => p.hit(r, t_min, t_max),
            Hittable::YzRect(p) => p.hit(r, t_min, t_max),
            Hittable::List(l) => self.hit_list(i, l, r, t_min, t_max),
            Hittable::Translate(tr) => {
                let lim = COORD_LIMIT;
                let ox = r.orig.x - tr.offset.x;
                let oy = r.orig.y - tr.offset.y;
                let oz = r.orig.z - tr.offset.z;
                if ox < -lim || ox > lim || oy < -lim || oy > lim || oz < -lim || oz > lim {
                    return None;
                }
                let moved = Ray::new(Vec3::new(ox, oy, oz), r.dir, r.tm);
                assert(moved == moved_ray(*r, tr.offset));
                self.hit(tr.ptr, &moved, t_min, t_max)
            },
            Hittable::RotateY(rt) => {
                let o = match rt.to_object(&r.orig) {
                    None => return None,
                    Some(o) => o,
                };
                let d = match rt.to_object(&r.dir) {
                    None => return None,
                    Some(d) => d,
                };
                let local = Ray::new(o, d, r.tm);
                assert(rotated_ray(*rt, *r) == Some(local));
                match self.hit(rt.ptr, &local, t_min, t_max) {
                    None => None,
                    Some(rec) => {
                        if let Some(b) = rt.bbox {
                            if !b.hit(r, t_min, rec.t) {
                                return None;
                            }
                        }
                        let mut rec = rec;
                        let outward = if rec.front_face {
                            rec.normal
                        } else {
                            rec.normal.neg()
                        };
                        let n = rt.normal_to_world(&outward);
                        rec.set_face_normal(r, n);
                        Some(rec)
                    },
                }
            },
            Hittable::Empty => None,
            Hittable::Bvh(n) => {
                if !n.tree_box.hit(r, t_min, t_max) {
                    return None;
                }
                let hl = self.hit(n.left, r, t_min, t_max);
                let upper = match &hl {
                    None => t_max,
                    Some(h) => h.t,
                };
                let hr = self.hit(n.right, r, t_min, upper);
                if hr.is_some() {
                    hr
                } else {
                    hl
                }
            },
        }
    }

    /// The bounding box of object `i` over `[time0, time1]`, if it has one.
    pub fn bounding_box(&self, i: usize, time0: i64, time1: i64) -> (res: Option<AABB>)
        requires
            self.wf(),
        ensures
            res == box_spec(self.objects@, i as int, time0 as int, time1 as int),
            res matches Some(b) ==> b.wf(),
        decreases i, list_len(self.objects@, i as int) + 2,
    {
        if i >= self.objects.len() {
            return None;
        }
        proof {
            assert(object_wf(self.objects@[i as int], i as int));
        }
        match &self.objects[i] {
            Hittable::Sphere(s) => Some(s.bounding_box()),
            Hittable::MovingSphere(m) => m.bounding_box(time0, time1),
            Hittable::XyRect(p) => Some(p.bounding_box()),
            Hittable::XzRect(p) => Some(p.bounding_box()),
            Hittable::YzRect(p) => Some(p.bounding_box()),
            Hittable::List(l) => self.list_bounding_box(i, l, time0, time1),
            Hittable::Translate(tr) => match self.bounding_box(tr.ptr, time0, time1) {
                None => None,
                Some(b) => {
                    let lim = BOX_LIMIT;
                    let lo = Vec3::new(
                        b.minimum.x + tr.offset.x,
                        b.minimum.y + tr.offset.y,
                        b.minimum.z + tr.offset.z,
                    );
                    let hi = Vec3::new(
                        b.maximum.x + tr.offset.x,
                        b.maximum.y + tr.offset.y,
                        b.maximum.z + tr.offset.z,
                    );
                    if lo.x < -lim || lo.x > lim || lo.y < -lim || lo.y > lim || lo.z < -lim
                        || lo.z > lim || hi.x < -lim || hi.x > lim || hi.y < -lim || hi.y > lim
                        || hi.z < -lim || hi.z > lim {
                        None
                    } else {
                        Some(AABB::new(lo, hi))
                    }
                },
            },
            Hittable::RotateY(rt) => rt.bbox,
            Hittable::Bvh(n) => Some(n.tree_box),
            Hittable::Empty => Some(AABB::new(Vec3::zero(), Vec3::zero())),
        }
    }

    fn list_bounding_box(&self, i: usize, l: &HittableList, time0: i64, time1: i64) -> (res: Option<AABB>)
        requires
            self.wf(),
            i < self.objects@.len(),
            self.objects@[i as int] == Hittable::List(*l),
        ensures
            res == list_box(self.objects@, i as int, l.objects@, l.objects@.len() as int, time0 as int, time1 as int),
            res matches Some(b) ==> b.wf(),
        decreases i, list_len(self.objects@, i as int) + 1,
    {
        let mut acc: Option<AABB> = None;
        let mut k: usize = 0;
        while k < l.objects.len()
            invariant
                self.wf(),
                i < self.objects@.len(),
                self.objects@[i as int] == Hittable::List(*l),
                0 <= k <= l.objects@.len(),
                acc == list_box(self.objects@, i as int, l.objects@, k as int, time0 as int, time1 as int),
                acc matches Some(b) ==> b.wf(),
            decreases l.objects@.len() - k,
        {
            let id = l.objects[k];
            proof {
                assert(object_wf(self.objects@[i as int], i as int));
                assert(id < i);
            }
            let cur = self.bounding_box(id, time0, time1);
            if k == 0 {
                acc = cur;
            } else {
                acc = match (acc, cur) {
                    (Some(a), Some(b)) => {
                        proof {
                            crate::aabb::lemma_surrounding_encloses(a, b);
                        }
                        Some(AABB::surrounding_box(&a, &b))
                    },
                    _ => None,
                };
            }
            k = k + 1;
        }
        acc
    }

    fn hit_list(&self, i: usize, l: &HittableList, r: &Ray, t_min: Param, t_max: Param) -> (res: Option<HitRecord>)
        requires
            self.wf(),
            r.wf(),
            t_min.wf(),
            t_max.wf(),
            i < self.objects@.len(),
            self.objects@[i as int] == Hittable::List(*l),
        ensures
            opt_view(res) == list_scan(self.objects@, i as int, l.objects@, l.objects@.len() as int, *r, t_min@, t_max@),
            res matches Some(rec) ==> rec.t.wf() && rec.normal.within(NORMAL_LIMIT as int),
        decreases i, list_len(self.objects@, i as int) + 1,
    {
        let mut result: Option<HitRecord> = None;
        let mut closest = t_max;
        let mut k: usize = 0;
        while k < l.objects.len()
            invariant
                self.wf(),
                r.wf(),
                t_min.wf(),
                t_max.wf(),
                closest.wf(),
                i < self.objects@.len(),
                self.objects@[i as int] == Hittable::List(*l),
                0 <= k <= l.objects@.len(),
                opt_view(result) == list_scan(self.objects@, i as int, l.objects@, k as int, *r, t_min@, t_max@),
                result matches Some(rec) ==> rec.t.wf() && closest == rec.t && rec.normal.within(
                    NORMAL_LIMIT as int,
                ),
                result.is_none() ==> closest == t_max,
            decreases l.objects@.len() - k,
        {
            let id = l.objects[k];
            proof {
                assert(object_wf(self.objects@[i as int], i as int));
                assert(id < i);
            }
            let cur = self.hit(id, r, t_min, closest);
            match cur {
                Some(rec) => {
                    closest = rec.t;
                    result = Some(rec);
                },
                None => {},
            }
            k = k + 1;
        }
        result
    }
}

/// `w2` extends `w`: it holds `w`'s objects at the same indices.
pub open spec fn extends(w2: Seq<Hittable>, w: Seq<Hittable>) -> bool {
    w.len() <= w2.len() && forall|j: int| 0 <= j < w.len() ==> #[trigger] w2[j] == w[j]
}

/// Adding objects to a scene leaves the boxes of the objects already in it
/// unchanged.
pub proof fn lemma_box_extend(w: Seq<Hittable>, w2: Seq<Hittable>, i: int, time0: int, time1: int)
    requires
        extends(w2, w),
        0 <= i < w.len(),
    ensures
        box_spec(w2, i, time0, time1) == box_spec(w, i, time0, time1),
    decreases i, list_len(w, i) + 2,
{
    assert(w2[i] == w[i]);
    match w[i] {
        Hittable::List(l) => {
            lemma_list_box_extend(w, w2, i, l.objects@, l.objects@.len() as int, time0, time1);
        },
        Hittable::Translate(tr) => {
            if tr.ptr < i {
                lemma_box_extend(w, w2, tr.ptr as int, time0, time1);
            }
        },
        Hittable::RotateY(_) => {},
        _ => {},
    }
}

proof fn lemma_list_box_extend(
    w: Seq<Hittable>,
    w2: Seq<Hittable>,
    bound: int,
    ids: Seq<usize>,
    n: int,
    time0: int,
    time1: int,
)
    requires
        extends(w2, w),
        0 <= bound < w.len(),
    ensures
        list_box(w2, bound, ids, n, time0, time1) == list_box(w, bound, ids, n, time0, time1),
    decreases bound, n + 1,
{
    if 0 < n <= ids.len() {
        lemma_list_box_extend(w, w2, bound, ids, n - 1, time0, time1);
        let id = ids[n - 1] as int;
        if 0 <= id < bound {
            lemma_box_extend(w, w2, id, time0, time1);
        }
    }
}

/// Adding objects to a scene leaves the hits of the objects already in it
/// unchanged.
pub proof fn lemma_hit_extend(
    w: Seq<Hittable>,
    w2: Seq<Hittable>,
    i: int,
    r: Ray,
    t_min: (int, int),
    t_max: (int, int),
)
    requires
        extends(w2, w),
        0 <= i < w.len(),
    ensures
        hit_spec(w2, i, r, t_min, t_max) == hit_spec(w, i, r, t_min, t_max),
    decreases i, list_len(w, i) + 2,
{
    assert(w2[i] == w[i]);
    match w[i] {
        Hittable::List(l) => {
            lemma_list_hit_extend(w, w2, i, l.objects@, l.objects@.len() as int, r, t_min, t_max);
        },
        Hittable::Translate(tr) => {
            if tr.ptr < i {
                lemma_hit_extend(w, w2, tr.ptr as int, moved_ray(r, tr.offset), t_min, t_max);
            }
        },
        Hittable::RotateY(rt) => {
            if rt.ptr < i {
                if let Some(local) = rotated_ray(rt, r) {
                    lemma_hit_extend(w, w2, rt.ptr as int, local, t_min, t_max);
                }
            }
        },
        Hittable::Bvh(n) => {
            if n.left < i && n.right < i {
                lemma_hit_extend(w, w2, n.left as int, r, t_min, t_max);
                let hl = hit_spec(w, n.left as int, r, t_min, t_max);
                let upper = match hl {
                    None => t_max,
                    Some(h) => h.t,
                };
                lemma_hit_extend(w, w2, n.right as int, r, t_min, upper);
            }
        },
        _ => {},
    }
}

proof fn lemma_list_hit_extend(
    w: Seq<Hittable>,
    w2: Seq<Hittable>,
    bound: int,
    ids: Seq<usize>,
    n: int,
    r: Ray,
    t_min: (int, int),
    t_max: (int, int),
)
    requires
        extends(w2, w),
        0 <= bound < w.len(),
    ensures
        list_scan(w2, bound, ids, n, r, t_min, t_max) == list_scan(w, bound, ids, n, r, t_min, t_max),
    decreases bound, n + 1,
{
    if 0 < n <= ids.len() {
        lemma_list_hit_extend(w, w2, bound, ids, n - 1, r, t_min, t_max);
        let prev = list_scan(w, bound, ids, n - 1, r, t_min, t_max);
        let upper = match prev {
            None => t_max,
            Some(h) => h.t,
        };
        let id = ids[n - 1] as int;
        if 0 <= id < bound {
            lemma_hit_extend(w, w2, id, r, t_min, upper);
        }
    }
}

/// Wrappers keep the orientation their child found. A translated object
/// reports exactly its child's record for the moved ray (parameter, normal
/// and `front_face`). A rotated object turns the child's outward normal into
/// world space and orients that against the world ray: `front_face` holds
/// exactly when the turned outward normal points against the ray (for a
/// hit that lies within the rotated object's own box).
pub proof fn lemma_wrapper_orientation(
    w: Seq<Hittable>,
    i: int,
    r: Ray,
    t_min: (int, int),
    t_max: (int, int),
)
    requires
        0 <= i < w.len(),
    ensures
        w[i] matches Hittable::Translate(tr) ==> (tr.ptr < i && moved_in_limit(r, tr.offset)
            ==> hit_spec(w, i, r, t_min, t_max) == hit_spec(
            w,
            tr.ptr as int,
            moved_ray(r, tr.offset),
            t_min,
            t_max,
        )),
        w[i] matches Hittable::RotateY(rt) ==> (rt.ptr < i ==> (rotated_ray(rt, r) matches Some(
            local,
        ) ==> (hit_spec(w, rt.ptr as int, local, t_min, t_max) matches Some(h) ==> (
            within_own_box(rt, r, t_min, h.t) ==> {
            let n_w = fit_normal(
                to_world(rt.cos_num as int, rt.sin_num as int, rt.hyp as int, outward_of(h)),
            );
            hit_spec(w, i, r, t_min, t_max) matches Some(g) && g.t == h.t && g.front_face
                == crate::hit_record::faces_front(r, n_w) && g.normal == crate::hit_record::oriented_normal(r, n_w)
        })))),
{
}

} // verus!
