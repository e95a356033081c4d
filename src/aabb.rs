//! Axis-aligned bounding boxes and the slab test.
use vstd::prelude::*;
use crate::param::{lemma_q_le_trans, q_le, q_lt, Param};
use crate::ray::Ray;
use crate::vec3::{Point3, Vec3};

verus! {

/// Largest magnitude of a box coordinate.
pub const BOX_LIMIT: i64 = 0x100_0000_0000;

/// A box given by two corners. Each axis spans the range between the two
/// corners' components on that axis; boxes built by this library keep
/// `minimum <= maximum` on every axis.
#[derive(Clone, Copy, Debug, PartialEq, Eq, Structural)]
pub struct AABB {
    pub minimum: Point3,
    pub maximum: Point3,
}

pub open spec fn min_int(a: int, b: int) -> int {
    if a <= b {
        a
    } else {
        b
    }
}

pub open spec fn max_int(a: int, b: int) -> int {
    if a <= b {
        b
    } else {
        a
    }
}

impl AABB {
    pub open spec fn wf(self) -> bool {
        self.minimum.within(BOX_LIMIT as int) && self.maximum.within(BOX_LIMIT as int)
    }

    /// Corners ordered on every axis.
    pub open spec fn ordered(self) -> bool {
        forall|a: int| 0 <= a < 3 ==> #[trigger] self.minimum.comp(a) <= self.maximum.comp(a)
    }

    /// Low end of the box's extent on axis `a`.
    pub open spec fn lo(self, a: int) -> int {
        min_int(self.minimum.comp(a), self.maximum.comp(a))
    }

    /// High end of the box's extent on axis `a`.
    pub open spec fn hi(self, a: int) -> int {
        max_int(self.minimum.comp(a), self.maximum.comp(a))
    }

    /// Every point of `inner` lies in `self`.
    pub open spec fn encloses(self, inner: AABB) -> bool {
        forall|a: int|
            0 <= a < 3 ==> self.lo(a) <= #[trigger] inner.lo(a) && inner.hi(a) <= self.hi(a)
    }

    pub fn new(minimum: Point3, maximum: Point3) -> (r: AABB)
        ensures
            r.minimum == minimum && r.maximum == maximum,
    {
        AABB { minimum, maximum }
    }

    pub fn min(&self) -> (r: Point3)
        ensures
            r == self.minimum,
    {
        self.minimum
    }

    pub fn max(&self) -> (r: Point3)
        ensures
            r == self.maximum,
    {
        self.maximum
    }

    /// The smallest box holding both boxes: componentwise minimum of the
    /// minimum corners and maximum of the maximum corners, on all three axes.
    pub fn surrounding_box(box0: &AABB, box1: &AABB) -> (r: AABB)
        ensures
            r == surrounding_spec(*box0, *box1),
    {
        let small = Vec3::new(
            min_i64(box0.minimum.x, box1.minimum.x),
            min_i64(box0.minimum.y, box1.minimum.y),
            min_i64(box0.minimum.z, box1.minimum.z),
        );
        let big = Vec3::new(
            max_i64(box0.maximum.x, box1.maximum.x),
            max_i64(box0.maximum.y, box1.maximum.y),
            max_i64(box0.maximum.z, box1.maximum.z),
        );
        AABB { minimum: small, maximum: big }
    }

    /// Slab test: does the ray pass through the box for some parameter in
    /// `[t_min, t_max]`? Each axis narrows the parameter interval to the
    /// part where the ray is inside that axis's slab; a ray parallel to a
    /// slab passes it when its origin lies within the slab.
    pub fn hit(&self, r: &Ray, t_min: Param, t_max: Param) -> (res: bool)
        requires
            self.wf(),
            r.wf(),
            t_min.wf(),
            t_max.wf(),
        ensures
            res == hit_spec(*self, *r, t_min@, t_max@),
    {
        let mut lo_t = t_min;
        let mut hi_t = t_max;
        let ghost mut lo_src: int = -1;
        let ghost mut hi_src: int = -1;
        if t_max.lt(&t_min) {
            return false;
        }
        let mut a: usize = 0;
        while a < 3
            invariant
                0 <= a <= 3,
                self.wf(),
                r.wf(),
                t_min.wf(),
                t_max.wf(),
                lo_t.wf(),
                hi_t.wf(),
                q_le(t_min@, t_max@),
                q_le(lo_t@, hi_t@),
                -1 <= lo_src < a,
                -1 <= hi_src < a,
                lo_src == -1 ==> lo_t == t_min,
                lo_src >= 0 ==> r.dir.comp(lo_src) != 0 && lo_t@ == slab_near(*self, *r, lo_src),
                hi_src == -1 ==> hi_t == t_max,
                hi_src >= 0 ==> r.dir.comp(hi_src) != 0 && hi_t@ == slab_far(*self, *r, hi_src),
                q_le(t_min@, lo_t@),
                q_le(hi_t@, t_max@),
                forall|c: int|
                    0 <= c < a && r.dir.comp(c) != 0 ==> q_le(slab_near(*self, *r, c), lo_t@)
                        && q_le(hi_t@, slab_far(*self, *r, c)),
                forall|c: int| 0 <= c < a ==> axis_ok(*self, *r, c, t_min@, t_max@),
                forall|c: int, e: int|
                    0 <= c < a && 0 <= e < a ==> pair_ok(*self, *r, c, e),
            decreases 3 - a,
        {
            let d = r.dir.get(a);
            let o = r.orig.get(a);
            let e0 = self.minimum.get(a);
            let e1 = self.maximum.get(a);
            let lo = min_i64(e0, e1);
            let hi = max_i64(e0, e1);
            if d == 0 {
                if o < lo || o > hi {
                    assert(!axis_ok(*self, *r, a as int, t_min@, t_max@));
                    return false;
                }
            } else {
                let near = if d > 0 {
                    Param::new(lo - o, d)
                } else {
                    Param::new(o - hi, -d)
                };
                let far = if d > 0 {
                    Param::new(hi - o, d)
                } else {
                    Param::new(o - lo, -d)
                };
                proof {
                    lemma_near_le_far(*self, *r, a as int);
                }
                let new_lo = lo_t.max(&near);
                let new_hi = hi_t.min(&far);
                if new_hi.lt(&new_lo) {
                    proof {
                        let ls = if q_le(lo_t@, near@) { a as int } else { lo_src };
                        let hs = if q_le(hi_t@, far@) { hi_src } else { a as int };
                        lemma_miss_witness(*self, *r, t_min@, t_max@, ls, hs, new_lo@, new_hi@);
                    }
                    return false;
                }
                proof {
                    let ghost old_lo = lo_t;
                    let ghost old_hi = hi_t;
                    lemma_param_max_bounds(old_lo, near);
                    lemma_param_min_bounds(old_hi, far);
                    assert forall|c: int|
                        0 <= c <= a && r.dir.comp(c) != 0 implies q_le(
                        slab_near(*self, *r, c),
                        new_lo@,
                    ) && q_le(new_hi@, slab_far(*self, *r, c)) by {
                        if c < a {
                            lemma_q_le_trans(slab_near(*self, *r, c), old_lo@, new_lo@);
                            lemma_q_le_trans(new_hi@, old_hi@, slab_far(*self, *r, c));
                        }
                    }
                    lemma_q_le_trans(t_min@, old_lo@, new_lo@);
                    lemma_q_le_trans(new_hi@, old_hi@, t_max@);
                    lemma_narrowed_ok(*self, *r, t_min@, t_max@, a as int, new_lo@, new_hi@);
                    lo_src = if q_le(old_lo@, near@) { a as int } else { lo_src };
                    hi_src = if q_le(old_hi@, far@) { hi_src } else { a as int };
                }
                lo_t = new_lo;
                hi_t = new_hi;
            }
            a = a + 1;
        }
        true
    }
}

pub open spec fn surrounding_spec(box0: AABB, box1: AABB) -> AABB {
    AABB {
        minimum: Vec3 {
            x: min_int(box0.minimum.x as int, box1.minimum.x as int) as i64,
            y: min_int(box0.minimum.y as int, box1.minimum.y as int) as i64,
            z: min_int(box0.minimum.z as int, box1.minimum.z as int) as i64,
        },
        maximum: Vec3 {
            x: max_int(box0.maximum.x as int, box1.maximum.x as int) as i64,
            y: max_int(box0.maximum.y as int, box1.maximum.y as int) as i64,
            z: max_int(box0.maximum.z as int, box1.maximum.z as int) as i64,
        },
    }
}

/// Parameter at which the ray enters the slab of axis `a` (direction
/// component nonzero), as (numerator, positive denominator).
pub open spec fn slab_near(b: AABB, r: Ray, a: int) -> (int, int) {
    let d = r.dir.comp(a);
    let o = r.orig.comp(a);
    if d > 0 {
        (b.lo(a) - o, d)
    } else {
        (o - b.hi(a), -d)
    }
}

/// Parameter at which the ray leaves the slab of axis `a`.
pub open spec fn slab_far(b: AABB, r: Ray, a: int) -> (int, int) {
    let d = r.dir.comp(a);
    let o = r.orig.comp(a);
    if d > 0 {
        (b.hi(a) - o, d)
    } else {
        (o - b.lo(a), -d)
    }
}

/// Axis `a` on its own admits a parameter in `[t_min, t_max]`.
pub open spec fn axis_ok(b: AABB, r: Ray, a: int, t_min: (int, int), t_max: (int, int)) -> bool {
    if r.dir.comp(a) == 0 {
        b.lo(a) <= r.orig.comp(a) <= b.hi(a)
    } else {
        q_le(t_min, slab_far(b, r, a)) && q_le(slab_near(b, r, a), t_max)
    }
}

/// The ray enters the slab of axis `a` before it leaves that of axis `c`.
pub open spec fn pair_ok(b: AABB, r: Ray, a: int, c: int) -> bool {
    r.dir.comp(a) != 0 && r.dir.comp(c) != 0 ==> q_le(slab_near(b, r, a), slab_far(b, r, c))
}

/// The ray meets the box at some parameter in `[t_min, t_max]`: the interval
/// is not empty, and every entry parameter (of `t_min` and the three slabs)
/// is at most every exit parameter (of `t_max` and the three slabs).
pub open spec fn hit_spec(b: AABB, r: Ray, t_min: (int, int), t_max: (int, int)) -> bool {
    &&& q_le(t_min, t_max)
    &&& forall|a: int| 0 <= a < 3 ==> #[trigger] axis_ok(b, r, a, t_min, t_max)
    &&& forall|a: int, c: int| 0 <= a < 3 && 0 <= c < 3 ==> #[trigger] pair_ok(b, r, a, c)
}

fn min_i64(a: i64, b: i64) -> (r: i64)
    ensures
        r == min_int(a as int, b as int),
{
    if a <= b {
        a
    } else {
        b
    }
}

fn max_i64(a: i64, b: i64) -> (r: i64)
    ensures
        r == max_int(a as int, b as int),
{
    if a <= b {
        b
    } else {
        a
    }
}

proof fn lemma_param_max_bounds(x: Param, y: Param)
    ensures
        q_le(x@, (if q_le(x@, y@) { y } else { x })@),
        q_le(y@, (if q_le(x@, y@) { y } else { x })@),
{
}

proof fn lemma_param_min_bounds(x: Param, y: Param)
    ensures
        q_le((if q_le(x@, y@) { x } else { y })@, x@),
        q_le((if q_le(x@, y@) { x } else { y })@, y@),
{
}

/// On one axis the entry parameter never exceeds the exit parameter.
proof fn lemma_near_le_far(b: AABB, r: Ray, a: int)
    requires
        0 <= a < 3,
        r.dir.comp(a) != 0,
    ensures
        q_le(slab_near(b, r, a), slab_far(b, r, a)),
{
    let d = r.dir.comp(a);
    let o = r.orig.comp(a);
    let lo = b.lo(a);
    let hi = b.hi(a);
    assert(lo <= hi);
    if d > 0 {
        assert((lo - o) * d <= (hi - o) * d) by (nonlinear_arith)
            requires
                lo <= hi,
                d > 0,
        ;
    } else {
        assert((o - hi) * (-d) <= (o - lo) * (-d)) by (nonlinear_arith)
            requires
                lo <= hi,
                d < 0,
        ;
    }
}

/// When the narrowed interval is empty, some entry parameter lies after
/// some exit parameter, so the box is missed.
proof fn lemma_miss_witness(
    b: AABB,
    r: Ray,
    t_min: (int, int),
    t_max: (int, int),
    ls: int,
    hs: int,
    lo: (int, int),
    hi: (int, int),
)
    requires
        -1 <= ls < 3,
        -1 <= hs < 3,
        ls == -1 ==> lo == t_min,
        ls >= 0 ==> r.dir.comp(ls) != 0 && lo == slab_near(b, r, ls),
        hs == -1 ==> hi == t_max,
        hs >= 0 ==> r.dir.comp(hs) != 0 && hi == slab_far(b, r, hs),
        q_lt(hi, lo),
    ensures
        !hit_spec(b, r, t_min, t_max),
{
    if hit_spec(b, r, t_min, t_max) {
        if ls == -1 && hs == -1 {
        } else if ls == -1 {
            assert(axis_ok(b, r, hs, t_min, t_max));
        } else if hs == -1 {
            assert(axis_ok(b, r, ls, t_min, t_max));
        } else {
            assert(pair_ok(b, r, ls, hs));
        }
    }
}

/// After axis `a` narrowed the interval to a nonempty `[lo, hi]` that lies
/// between all entry and exit parameters seen so far, every condition that
/// involves axis `a` holds.
proof fn lemma_narrowed_ok(
    b: AABB,
    r: Ray,
    t_min: (int, int),
    t_max: (int, int),
    a: int,
    lo: (int, int),
    hi: (int, int),
)
    requires
        0 <= a < 3,
        r.dir.comp(a) != 0,
        t_min.1 > 0,
        t_max.1 > 0,
        lo.1 > 0,
        hi.1 > 0,
        q_le(lo, hi),
        q_le(t_min, lo),
        q_le(hi, t_max),
        forall|c: int|
            0 <= c <= a && r.dir.comp(c) != 0 ==> q_le(slab_near(b, r, c), lo) && q_le(
                hi,
                slab_far(b, r, c),
            ),
    ensures
        axis_ok(b, r, a, t_min, t_max),
        forall|c: int| 0 <= c <= a ==> pair_ok(b, r, a, c) && pair_ok(b, r, c, a),
{
    let na = slab_near(b, r, a);
    let fa = slab_far(b, r, a);
    assert(na.1 > 0 && fa.1 > 0);
    lemma_q_le_trans(lo, hi, fa);
    lemma_q_le_trans(t_min, lo, fa);
    lemma_q_le_trans(na, lo, hi);
    lemma_q_le_trans(na, hi, t_max);
    assert forall|c: int| 0 <= c <= a implies pair_ok(b, r, a, c) && pair_ok(b, r, c, a) by {
        if r.dir.comp(c) != 0 {
            let nc = slab_near(b, r, c);
            let fc = slab_far(b, r, c);
            assert(nc.1 > 0 && fc.1 > 0);
            lemma_q_le_trans(lo, hi, fc);
            lemma_q_le_trans(na, lo, fc);
            lemma_q_le_trans(lo, hi, fa);
            lemma_q_le_trans(nc, lo, fa);
        }
    }
}

/// The box with the two corners' components on axis `a` exchanged.
pub open spec fn swap_axis(b: AABB, a: int) -> AABB {
    if a == 0 {
        AABB {
            minimum: Vec3 { x: b.maximum.x, ..b.minimum },
            maximum: Vec3 { x: b.minimum.x, ..b.maximum },
        }
    } else if a == 1 {
        AABB {
            minimum: Vec3 { y: b.maximum.y, ..b.minimum },
            maximum: Vec3 { y: b.minimum.y, ..b.maximum },
        }
    } else {
        AABB {
            minimum: Vec3 { z: b.maximum.z, ..b.minimum },
            maximum: Vec3 { z: b.minimum.z, ..b.maximum },
        }
    }
}

/// Which corner holds the low end of an axis does not matter to the slab
/// test: exchanging the two corners' components on any one axis leaves the
/// result of `hit` unchanged, for every ray and parameter interval.
pub proof fn lemma_hit_swap_symmetric(
    b: AABB,
    r: Ray,
    t_min: (int, int),
    t_max: (int, int),
    a: int,
)
    requires
        0 <= a < 3,
    ensures
        hit_spec(swap_axis(b, a), r, t_min, t_max) == hit_spec(b, r, t_min, t_max),
{
    let s = swap_axis(b, a);
    assert forall|c: int| 0 <= c < 3 implies s.lo(c) == b.lo(c) && s.hi(c) == b.hi(c) by {}
    assert forall|c: int| 0 <= c < 3 implies slab_near(s, r, c) == slab_near(b, r, c)
        && slab_far(s, r, c) == slab_far(b, r, c) by {}
    if hit_spec(b, r, t_min, t_max) {
        assert forall|c: int| 0 <= c < 3 implies #[trigger] axis_ok(s, r, c, t_min, t_max) by {
            assert(axis_ok(b, r, c, t_min, t_max));
        }
        assert forall|c: int, e: int| 0 <= c < 3 && 0 <= e < 3 implies #[trigger] pair_ok(
            s,
            r,
            c,
            e,
        ) by {
            assert(pair_ok(b, r, c, e));
        }
    }
    if hit_spec(s, r, t_min, t_max) {
        assert forall|c: int| 0 <= c < 3 implies #[trigger] axis_ok(b, r, c, t_min, t_max) by {
            assert(axis_ok(s, r, c, t_min, t_max));
        }
        assert forall|c: int, e: int| 0 <= c < 3 && 0 <= e < 3 implies #[trigger] pair_ok(
            b,
            r,
            c,
            e,
        ) by {
            assert(pair_ok(s, r, c, e));
        }
    }
}

/// The surrounding box reaches at least as low as both boxes' minimum
/// corners and at least as high as both boxes' maximum corners, on every
/// axis; for boxes with ordered corners it encloses both.
pub proof fn lemma_surrounding_encloses(box0: AABB, box1: AABB)
    ensures
        forall|a: int|
            0 <= a < 3 ==> {
                &&& #[trigger] surrounding_spec(box0, box1).minimum.comp(a) <= box0.minimum.comp(a)
                &&& surrounding_spec(box0, box1).minimum.comp(a) <= box1.minimum.comp(a)
                &&& surrounding_spec(box0, box1).maximum.comp(a) >= box0.maximum.comp(a)
                &&& surrounding_spec(box0, box1).maximum.comp(a) >= box1.maximum.comp(a)
            },
        box0.ordered() && box1.ordered() ==> surrounding_spec(box0, box1).ordered()
            && surrounding_spec(box0, box1).encloses(box0) && surrounding_spec(
            box0,
            box1,
        ).encloses(box1),
        box0.wf() && box1.wf() ==> surrounding_spec(box0, box1).wf(),
{
    let s = surrounding_spec(box0, box1);
    if box0.ordered() && box1.ordered() {
        assert forall|a: int| 0 <= a < 3 implies #[trigger] s.minimum.comp(a) <= s.maximum.comp(
            a,
        ) by {
            assert(box0.minimum.comp(a) <= box0.maximum.comp(a));
        }
        assert forall|a: int| 0 <= a < 3 implies s.lo(a) <= #[trigger] box0.lo(a) && box0.hi(a)
            <= s.hi(a) && s.lo(a) <= #[trigger] box1.lo(a) && box1.hi(a) <= s.hi(a) by {
            assert(box0.minimum.comp(a) <= box0.maximum.comp(a));
            assert(box1.minimum.comp(a) <= box1.maximum.comp(a));
            assert(s.minimum.comp(a) <= s.maximum.comp(a));
        }
    }
}

/// A ray that meets a box meets every box enclosing it, over the same
/// parameter interval.
pub proof fn lemma_hit_enclosing(
    big: AABB,
    small: AABB,
    r: Ray,
    t_min: (int, int),
    t_max: (int, int),
)
    requires
        big.encloses(small),
        t_min.1 > 0,
        t_max.1 > 0,
        hit_spec(small, r, t_min, t_max),
    ensures
        hit_spec(big, r, t_min, t_max),
{
    assert forall|c: int| 0 <= c < 3 && r.dir.comp(c) != 0 implies q_le(
        slab_near(big, r, c),
        slab_near(small, r, c),
    ) && q_le(slab_far(small, r, c), slab_far(big, r, c)) by {
        assert(big.lo(c) <= small.lo(c) && small.hi(c) <= big.hi(c));
        lemma_same_den_le(slab_near(big, r, c), slab_near(small, r, c));
        lemma_same_den_le(slab_far(small, r, c), slab_far(big, r, c));
    }
    assert forall|c: int| 0 <= c < 3 implies #[trigger] axis_ok(big, r, c, t_min, t_max) by {
        assert(axis_ok(small, r, c, t_min, t_max));
        assert(big.lo(c) <= small.lo(c) && small.hi(c) <= big.hi(c));
        if r.dir.comp(c) != 0 {
            lemma_q_le_trans(t_min, slab_far(small, r, c), slab_far(big, r, c));
            lemma_q_le_trans(slab_near(big, r, c), slab_near(small, r, c), t_max);
        }
    }
    assert forall|c: int, e: int| 0 <= c < 3 && 0 <= e < 3 implies #[trigger] pair_ok(
        big,
        r,
        c,
        e,
    ) by {
        assert(pair_ok(small, r, c, e));
        if r.dir.comp(c) != 0 && r.dir.comp(e) != 0 {
            lemma_q_le_trans(slab_near(big, r, c), slab_near(small, r, c), slab_far(small, r, e));
            lemma_q_le_trans(slab_near(big, r, c), slab_far(small, r, e), slab_far(big, r, e));
        }
    }
}

proof fn lemma_same_den_le(x: (int, int), y: (int, int))
    requires
        x.1 == y.1,
        x.1 > 0,
        x.0 <= y.0,
    ensures
        q_le(x, y),
{
    assert(x.0 * y.1 <= y.0 * x.1) by (nonlinear_arith)
        requires
            x.1 == y.1,
            x.1 > 0,
            x.0 <= y.0,
    ;
}

/// A ray whose point at parameter `t` (a fraction in `[t_min, t_max]`)
/// lies in the box passes the slab test over `[t_min, t_max]`. The point's
/// coordinates are given times `t`'s denominator.
pub proof fn lemma_point_in_box_hits(
    b: AABB,
    r: Ray,
    t: (int, int),
    t_min: (int, int),
    t_max: (int, int),
)
    requires
        t.1 > 0,
        t_min.1 > 0,
        t_max.1 > 0,
        q_le(t_min, t),
        q_le(t, t_max),
        forall|a: int|
            0 <= a < 3 ==> b.lo(a) * t.1 <= #[trigger] r.orig.comp(a) * t.1 + t.0 * r.dir.comp(a)
                <= b.hi(a) * t.1,
    ensures
        hit_spec(b, r, t_min, t_max),
{
    assert forall|a: int| 0 <= a < 3 && r.dir.comp(a) != 0 implies q_le(slab_near(b, r, a), t) && q_le(
        t,
        slab_far(b, r, a),
    ) by {
        assert(b.lo(a) * t.1 <= r.orig.comp(a) * t.1 + t.0 * r.dir.comp(a) <= b.hi(a) * t.1);
        lemma_axis_bracket(b.lo(a), b.hi(a), r.orig.comp(a), r.dir.comp(a), t.0, t.1);
    }
    assert forall|a: int| 0 <= a < 3 implies #[trigger] axis_ok(b, r, a, t_min, t_max) by {
        assert(b.lo(a) * t.1 <= r.orig.comp(a) * t.1 + t.0 * r.dir.comp(a) <= b.hi(a) * t.1);
        if r.dir.comp(a) == 0 {
            lemma_axis_bracket(b.lo(a), b.hi(a), r.orig.comp(a), 0, t.0, t.1);
        } else {
            lemma_q_le_trans(t_min, t, slab_far(b, r, a));
            lemma_q_le_trans(slab_near(b, r, a), t, t_max);
        }
    }
    assert forall|a: int, c: int| 0 <= a < 3 && 0 <= c < 3 implies #[trigger] pair_ok(b, r, a, c) by {
        if r.dir.comp(a) != 0 && r.dir.comp(c) != 0 {
            lemma_q_le_trans(slab_near(b, r, a), t, slab_far(b, r, c));
        }
    }
    lemma_q_le_trans(t_min, t, t_max);
}

/// On one axis: a coordinate `o + t * d` within `[lo, hi]` (scaled by the
/// denominator `t1`) puts `t` between the slab's entry and exit.
proof fn lemma_axis_bracket(lo: int, hi: int, o: int, d: int, t0: int, t1: int)
    requires
        t1 > 0,
        lo * t1 <= o * t1 + t0 * d <= hi * t1,
    ensures
        d > 0 ==> q_le((lo - o, d), (t0, t1)) && q_le((t0, t1), (hi - o, d)),
        d < 0 ==> q_le((o - hi, -d), (t0, t1)) && q_le((t0, t1), (o - lo, -d)),
        d == 0 ==> lo <= o <= hi,
{
    if d == 0 {
        assert(lo <= o <= hi) by (nonlinear_arith)
            requires
                t1 > 0,
                lo * t1 <= o * t1 + t0 * d <= hi * t1,
                d == 0,
        ;
    } else {
        assert((lo - o) * t1 == lo * t1 - o * t1) by (nonlinear_arith);
        assert((hi - o) * t1 == hi * t1 - o * t1) by (nonlinear_arith);
        assert((o - hi) * t1 == o * t1 - hi * t1) by (nonlinear_arith);
        assert((o - lo) * t1 == o * t1 - lo * t1) by (nonlinear_arith);
        assert(t0 * (-d) == -(t0 * d)) by (nonlinear_arith);
    }
}

/// A ray that meets a box up to parameter `t` meets it up to any later
/// parameter.
pub proof fn lemma_hit_widen(b: AABB, r: Ray, t_min: (int, int), t: (int, int), t_max: (int, int))
    requires
        t_min.1 > 0,
        t.1 > 0,
        t_max.1 > 0,
        hit_spec(b, r, t_min, t),
        q_le(t, t_max),
    ensures
        hit_spec(b, r, t_min, t_max),
{
    lemma_q_le_trans(t_min, t, t_max);
    assert forall|a: int| 0 <= a < 3 implies #[trigger] axis_ok(b, r, a, t_min, t_max) by {
        assert(axis_ok(b, r, a, t_min, t));
        if r.dir.comp(a) != 0 {
            lemma_q_le_trans(slab_near(b, r, a), t, t_max);
        }
    }
    assert forall|a: int, c: int| 0 <= a < 3 && 0 <= c < 3 implies #[trigger] pair_ok(b, r, a, c) by {
        assert(pair_ok(b, r, a, c));
    }
}

/// Enclosing is transitive.
pub proof fn lemma_encloses_trans(a: AABB, b: AABB, c: AABB)
    requires
        a.encloses(b),
        b.encloses(c),
    ensures
        a.encloses(c),
{
    assert forall|x: int| 0 <= x < 3 implies a.lo(x) <= #[trigger] c.lo(x) && c.hi(x) <= a.hi(x) by {
        lemma_encloses_at(a, b, x);
        lemma_encloses_at(b, c, x);
    }
}

proof fn lemma_encloses_at(big: AABB, small: AABB, x: int)
    requires
        big.encloses(small),
        0 <= x < 3,
    ensures
        big.lo(x) <= small.lo(x) && small.hi(x) <= big.hi(x),
{
    assert(big.lo(x) <= small.lo(x) && small.hi(x) <= big.hi(x));
}

/// The surrounding box is ordered and encloses each ordered box it was
/// made from, whatever the other box is.
pub proof fn lemma_surrounding_encloses_ordered(box0: AABB, box1: AABB)
    ensures
        box0.ordered() ==> surrounding_spec(box0, box1).ordered() && surrounding_spec(
            box0,
            box1,
        ).encloses(box0),
        box1.ordered() ==> surrounding_spec(box0, box1).ordered() && surrounding_spec(
            box0,
            box1,
        ).encloses(box1),
{
    let s = surrounding_spec(box0, box1);
    if box0.ordered() {
        assert forall|a: int| 0 <= a < 3 implies #[trigger] s.minimum.comp(a) <= s.maximum.comp(a) by {
            assert(box0.minimum.comp(a) <= box0.maximum.comp(a));
        }
        assert forall|a: int| 0 <= a < 3 implies s.lo(a) <= #[trigger] box0.lo(a) && box0.hi(a)
            <= s.hi(a) by {
            assert(box0.minimum.comp(a) <= box0.maximum.comp(a));
            assert(s.minimum.comp(a) <= s.maximum.comp(a));
        }
    }
    if box1.ordered() {
        assert forall|a: int| 0 <= a < 3 implies #[trigger] s.minimum.comp(a) <= s.maximum.comp(a) by {
            assert(box1.minimum.comp(a) <= box1.maximum.comp(a));
        }
        assert forall|a: int| 0 <= a < 3 implies s.lo(a) <= #[trigger] box1.lo(a) && box1.hi(a)
            <= s.hi(a) by {
            assert(box1.minimum.comp(a) <= box1.maximum.comp(a));
            assert(s.minimum.comp(a) <= s.maximum.comp(a));
        }
    }
}

} // verus!
