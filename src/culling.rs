//! Why testing a bounding box first never loses a hit: every object's box
//! holds every hit that the object reports.
use vstd::prelude::*;
use vstd::arithmetic::div_mod::lemma_div_is_ordered;
use crate::aabb::{
    hit_spec as box_hit, lemma_encloses_trans, lemma_hit_enclosing, lemma_hit_widen,
    lemma_surrounding_encloses_ordered, min_int, max_int, slab_far, slab_near, axis_ok, pair_ok,
    surrounding_spec, AABB,
};
use crate::aarect::lemma_rect_hit_in_box;
use crate::bvh::{leaves, lemma_leaves_members, members, sound_tree};
use crate::hittable::{
    box_spec, hit_spec, list_box, list_len, list_scan, moved_in_limit, moved_ray, object_wf,
    scene_wf, shifted_box, Hittable,
};
use crate::param::{lemma_q_le_trans, q_le};
use crate::ray::Ray;
use crate::sphere::{
    ball_box, center_in_limit, lattice_point, lemma_sphere_hit_in_box, moving_center, sphere_roots,
    MovingSphere,
};
use crate::vec3::Vec3;

verus! {

/// Every box that the scene's objects report over `[time0, time1]` has its
/// corners ordered.
pub open spec fn boxes_ordered(w: Seq<Hittable>, time0: int, time1: int) -> bool {
    forall|j: int|
        0 <= j < w.len() ==> (#[trigger] box_spec(w, j, time0, time1) matches Some(b) ==> b.ordered())
}

/// A reported hit lies in `[t_min, t_max]` and has a positive denominator.
pub proof fn lemma_hit_range(w: Seq<Hittable>, i: int, r: Ray, t_min: (int, int), t_max: (int, int))
    requires
        scene_wf(w),
        t_min.1 > 0,
        t_max.1 > 0,
    ensures
        hit_spec(w, i, r, t_min, t_max) matches Some(h) ==> h.t.1 > 0 && q_le(t_min, h.t) && q_le(
            h.t,
            t_max,
        ),
    decreases i, list_len(w, i) + 2,
{
    if 0 <= i < w.len() {
        match w[i] {
            Hittable::Sphere(s) => {
                lemma_root_den(s.center, s.radius as int, r);
            },
            Hittable::MovingSphere(m) => {
                lemma_root_den(lattice_point(moving_center(m, r.tm as int)), m.radius as int, r);
            },
            Hittable::List(l) => {
                lemma_list_range(w, i, l.objects@, l.objects@.len() as int, r, t_min, t_max);
            },
            Hittable::Translate(tr) => {
                if tr.ptr < i {
                    lemma_hit_range(w, tr.ptr as int, moved_ray(r, tr.offset), t_min, t_max);
                }
            },
            Hittable::RotateY(rt) => {
                if rt.ptr < i {
                    if let Some(local) = crate::hittable::rotated_ray(rt, r) {
                        lemma_hit_range(w, rt.ptr as int, local, t_min, t_max);
                    }
                }
            },
            Hittable::Bvh(n) => {
                if n.left < i && n.right < i {
                    lemma_hit_range(w, n.left as int, r, t_min, t_max);
                    let hl = hit_spec(w, n.left as int, r, t_min, t_max);
                    let upper = match hl {
                        None => t_max,
                        Some(h) => h.t,
                    };
                    lemma_hit_range(w, n.right as int, r, t_min, upper);
                    if let Some(hr) = hit_spec(w, n.right as int, r, t_min, upper) {
                        if let Some(h) = hl {
                            lemma_q_le_trans(hr.t, h.t, t_max);
                        }
                    }
                }
            },
            _ => {},
        }
    }
}

pub proof fn lemma_list_range(
    w: Seq<Hittable>,
    bound: int,
    ids: Seq<usize>,
    n: int,
    r: Ray,
    t_min: (int, int),
    t_max: (int, int),
)
    requires
        scene_wf(w),
        t_min.1 > 0,
        t_max.1 > 0,
    ensures
        list_scan(w, bound, ids, n, r, t_min, t_max) matches Some(h) ==> h.t.1 > 0 && q_le(t_min, h.t)
            && q_le(h.t, t_max),
    decreases bound, n + 1,
{
    if 0 < n <= ids.len() {
        lemma_list_range(w, bound, ids, n - 1, r, t_min, t_max);
        let prev = list_scan(w, bound, ids, n - 1, r, t_min, t_max);
        let upper = match prev {
            None => t_max,
            Some(h) => h.t,
        };
        let id = ids[n - 1] as int;
        if id < bound {
            lemma_hit_range(w, id, r, t_min, upper);
            if let Some(c) = hit_spec(w, id, r, t_min, upper) {
                if let Some(h) = prev {
                    lemma_q_le_trans(c.t, h.t, t_max);
                }
            }
        }
    }
}

/// The roots of the ray–sphere quadratic have a positive denominator.
proof fn lemma_root_den(center: Vec3, radius: int, r: Ray)
    ensures
        sphere_roots(center, radius, r) matches Some((near, far)) ==> near.1 > 0 && far.1 > 0,
{
    let d = r.dir@;
    assert(d.0 * d.0 >= 0 && d.1 * d.1 >= 0 && d.2 * d.2 >= 0) by (nonlinear_arith);
}

/// A hit of a list is the hit of one of its members, over an interval that
/// ends no later than the list's own.
proof fn lemma_list_member(
    w: Seq<Hittable>,
    bound: int,
    ids: Seq<usize>,
    n: int,
    r: Ray,
    t_min: (int, int),
    t_max: (int, int),
) -> (res: (int, (int, int)))
    requires
        scene_wf(w),
        t_min.1 > 0,
        t_max.1 > 0,
        list_scan(w, bound, ids, n, r, t_min, t_max).is_some(),
    ensures
        0 <= res.0 < n <= ids.len(),
        ids[res.0] < bound,
        res.1.1 > 0,
        q_le(res.1, t_max),
        hit_spec(w, ids[res.0] as int, r, t_min, res.1) == list_scan(w, bound, ids, n, r, t_min, t_max),
    decreases n,
{
    let prev = list_scan(w, bound, ids, n - 1, r, t_min, t_max);
    let upper = match prev {
        None => t_max,
        Some(h) => h.t,
    };
    let id = ids[n - 1] as int;
    let cur = if id < bound {
        hit_spec(w, id, r, t_min, upper)
    } else {
        None
    };
    lemma_list_range(w, bound, ids, n - 1, r, t_min, t_max);
    if cur.is_some() {
        (n - 1, upper)
    } else {
        let (k, u) = lemma_list_member(w, bound, ids, n - 1, r, t_min, t_max);
        (k, u)
    }
}

/// The box of a list encloses the box of each member that has one with
/// ordered corners.
proof fn lemma_list_box_encloses(
    w: Seq<Hittable>,
    bound: int,
    ids: Seq<usize>,
    n: int,
    time0: int,
    time1: int,
    k: int,
)
    requires
        0 <= k < n <= ids.len(),
        ids[k] < bound,
        list_box(w, bound, ids, n, time0, time1).is_some(),
    ensures
        box_spec(w, ids[k] as int, time0, time1).is_some(),
        box_spec(w, ids[k] as int, time0, time1).unwrap().ordered() ==> {
            let b = list_box(w, bound, ids, n, time0, time1).unwrap();
            b.ordered() && b.encloses(box_spec(w, ids[k] as int, time0, time1).unwrap())
        },
    decreases n,
{
    let id = ids[n - 1] as int;
    let cur = if id < bound {
        box_spec(w, id, time0, time1)
    } else {
        None
    };
    if n == 1 {
        if box_spec(w, ids[k] as int, time0, time1).unwrap().ordered() {
            let b = cur.unwrap();
            assert forall|a: int| 0 <= a < 3 implies b.lo(a) <= #[trigger] b.lo(a) && b.hi(a) <= b.hi(a) by {}
        }
    } else {
        let prev = list_box(w, bound, ids, n - 1, time0, time1);
        assert(prev.is_some() && cur.is_some());
        let s = surrounding_spec(prev.unwrap(), cur.unwrap());
        lemma_surrounding_encloses_ordered(prev.unwrap(), cur.unwrap());
        if k < n - 1 {
            lemma_list_box_encloses(w, bound, ids, n - 1, time0, time1, k);
            if box_spec(w, ids[k] as int, time0, time1).unwrap().ordered() {
                lemma_encloses_trans(s, prev.unwrap(), box_spec(w, ids[k] as int, time0, time1).unwrap());
            }
        }
    }
}

/// Rounding down a linear interpolation keeps it between its ends.
proof fn lemma_interpolation_between(k0: int, k: int, k1: int, delta: int, span: int)
    requires
        span > 0,
        k0 <= k <= k1,
    ensures
        min_int((k0 * delta) / span, (k1 * delta) / span) <= (k * delta) / span <= max_int(
            (k0 * delta) / span,
            (k1 * delta) / span,
        ),
{
    if delta >= 0 {
        assert(k0 * delta <= k * delta <= k1 * delta) by (nonlinear_arith)
            requires
                k0 <= k <= k1,
                delta >= 0,
        ;
        lemma_div_is_ordered(k0 * delta, k * delta, span);
        lemma_div_is_ordered(k * delta, k1 * delta, span);
    } else {
        assert(k1 * delta <= k * delta <= k0 * delta) by (nonlinear_arith)
            requires
                k0 <= k <= k1,
                delta < 0,
        ;
        lemma_div_is_ordered(k1 * delta, k * delta, span);
        lemma_div_is_ordered(k * delta, k0 * delta, span);
    }
}

/// Between the two time stamps of its box, a moving sphere's box encloses
/// the sphere's box at the ray's time.
proof fn lemma_moving_box_encloses(m: MovingSphere, time: int, time0: int, time1: int)
    requires
        m.wf(),
        time0 <= time <= time1,
        center_in_limit(m, time),
        center_in_limit(m, time0),
        center_in_limit(m, time1),
    ensures
        surrounding_spec(
            ball_box(lattice_point(moving_center(m, time0)), m.radius as int),
            ball_box(lattice_point(moving_center(m, time1)), m.radius as int),
        ).encloses(ball_box(lattice_point(moving_center(m, time)), m.radius as int)),
        ball_box(lattice_point(moving_center(m, time)), m.radius as int).ordered(),
{
    let span = crate::sphere::time_span(m);
    let b0 = ball_box(lattice_point(moving_center(m, time0)), m.radius as int);
    let b1 = ball_box(lattice_point(moving_center(m, time1)), m.radius as int);
    let bt = ball_box(lattice_point(moving_center(m, time)), m.radius as int);
    let s = surrounding_spec(b0, b1);
    lemma_interpolation_between(time0 - m.time0, time - m.time0, time1 - m.time0, crate::sphere::signed_delta(m, m.center0.x as int, m.center1.x as int), span);
    lemma_interpolation_between(time0 - m.time0, time - m.time0, time1 - m.time0, crate::sphere::signed_delta(m, m.center0.y as int, m.center1.y as int), span);
    lemma_interpolation_between(time0 - m.time0, time - m.time0, time1 - m.time0, crate::sphere::signed_delta(m, m.center0.z as int, m.center1.z as int), span);
    assert forall|a: int| 0 <= a < 3 implies #[trigger] bt.minimum.comp(a) <= bt.maximum.comp(a) by {}
    assert forall|a: int| 0 <= a < 3 implies #[trigger] b0.minimum.comp(a) <= b0.maximum.comp(a) by {}
    lemma_surrounding_encloses_ordered(b0, b1);
    assert forall|a: int| 0 <= a < 3 implies s.lo(a) <= #[trigger] bt.lo(a) && bt.hi(a) <= s.hi(a) by {}
}

/// Moving a box by `offset` and the ray by `-offset` leaves the slab test
/// unchanged.
proof fn lemma_shift_hit(b: AABB, offset: Vec3, r: Ray, t_min: (int, int), t_max: (int, int))
    requires
        b.wf(),
        offset.in_limit(),
        moved_in_limit(r, offset),
        shifted_box(b, offset).is_some(),
    ensures
        box_hit(shifted_box(b, offset).unwrap(), r, t_min, t_max) == box_hit(b, moved_ray(r, offset), t_min, t_max),
{
    let sb = shifted_box(b, offset).unwrap();
    let mr = moved_ray(r, offset);
    assert forall|a: int| 0 <= a < 3 implies slab_near(sb, r, a) == slab_near(b, mr, a) && slab_far(
        sb,
        r,
        a,
    ) == slab_far(b, mr, a) && (sb.lo(a) <= r.orig.comp(a) <= sb.hi(a)) == (b.lo(a) <= mr.orig.comp(a)
        <= b.hi(a)) by {}
    assert forall|a: int| 0 <= a < 3 implies #[trigger] axis_ok(sb, r, a, t_min, t_max) == axis_ok(
        b,
        mr,
        a,
        t_min,
        t_max,
    ) by {
        assert(slab_near(sb, r, a) == slab_near(b, mr, a) && slab_far(sb, r, a) == slab_far(b, mr, a));
    }
    assert forall|a: int, c: int| 0 <= a < 3 && 0 <= c < 3 implies #[trigger] pair_ok(sb, r, a, c)
        == pair_ok(b, mr, a, c) by {
        assert(slab_near(sb, r, a) == slab_near(b, mr, a) && slab_far(sb, r, c) == slab_far(b, mr, c));
    }
    if box_hit(sb, r, t_min, t_max) {
        assert forall|a: int| 0 <= a < 3 implies #[trigger] axis_ok(b, mr, a, t_min, t_max) by {
            assert(axis_ok(sb, r, a, t_min, t_max));
        }
        assert forall|a: int, c: int| 0 <= a < 3 && 0 <= c < 3 implies #[trigger] pair_ok(b, mr, a, c) by {
            assert(pair_ok(sb, r, a, c));
        }
    }
    if box_hit(b, mr, t_min, t_max) {
        assert forall|a: int| 0 <= a < 3 implies #[trigger] axis_ok(sb, r, a, t_min, t_max) by {
            assert(axis_ok(b, mr, a, t_min, t_max));
        }
        assert forall|a: int, c: int| 0 <= a < 3 && 0 <= c < 3 implies #[trigger] pair_ok(sb, r, a, c) by {
            assert(pair_ok(b, mr, a, c));
        }
    }
}

/// The bounding box of an object holds every hit that the object reports:
/// when the object is hit within `[t_min, t_max]`, the ray passes the slab
/// test of its box over `[t_min, t_max]`. So a hierarchy that skips a
/// subtree whose box the ray misses skips no hit. This holds for rays whose
/// time lies in the interval the boxes were computed for, in scenes whose
/// boxes have ordered corners.
pub proof fn lemma_box_holds_hits(
    w: Seq<Hittable>,
    i: int,
    r: Ray,
    t_min: (int, int),
    t_max: (int, int),
    time0: int,
    time1: int,
)
    requires
        scene_wf(w),
        boxes_ordered(w, time0, time1),
        r.wf(),
        t_min.1 > 0,
        t_max.1 > 0,
        time0 <= r.tm <= time1,
        hit_spec(w, i, r, t_min, t_max).is_some(),
        box_spec(w, i, time0, time1).is_some(),
    ensures
        box_hit(box_spec(w, i, time0, time1).unwrap(), r, t_min, t_max),
    decreases i,
{
    assert(object_wf(w[i], i));
    match w[i] {
        Hittable::Sphere(s) => {
            lemma_sphere_hit_in_box(s.center, s.radius as int, r, t_min, t_max);
        },
        Hittable::MovingSphere(m) => {
            let c = lattice_point(moving_center(m, r.tm as int));
            lemma_sphere_hit_in_box(c, m.radius as int, r, t_min, t_max);
            lemma_moving_box_encloses(m, r.tm as int, time0, time1);
            lemma_hit_enclosing(
                box_spec(w, i, time0, time1).unwrap(),
                ball_box(c, m.radius as int),
                r,
                t_min,
                t_max,
            );
        },
        Hittable::XyRect(p) => {
            lemma_rect_hit_in_box(p.plane(), r, t_min, t_max);
        },
        Hittable::XzRect(p) => {
            lemma_rect_hit_in_box(p.plane(), r, t_min, t_max);
        },
        Hittable::YzRect(p) => {
            lemma_rect_hit_in_box(p.plane(), r, t_min, t_max);
        },
        Hittable::List(l) => {
            let ids = l.objects@;
            let n = ids.len() as int;
            let (k, u) = lemma_list_member(w, i, ids, n, r, t_min, t_max);
            let id = ids[k] as int;
            lemma_list_box_encloses(w, i, ids, n, time0, time1, k);
            assert(box_spec(w, id, time0, time1) matches Some(b) ==> b.ordered());
            lemma_box_holds_hits(w, id, r, t_min, u, time0, time1);
            let bm = box_spec(w, id, time0, time1).unwrap();
            lemma_hit_widen(bm, r, t_min, u, t_max);
            lemma_hit_enclosing(box_spec(w, i, time0, time1).unwrap(), bm, r, t_min, t_max);
        },
        Hittable::Translate(tr) => {
            let mr = moved_ray(r, tr.offset);
            let cb = box_spec(w, tr.ptr as int, time0, time1).unwrap();
            lemma_box_wf(w, tr.ptr as int, time0, time1);
            lemma_box_holds_hits(w, tr.ptr as int, mr, t_min, t_max, time0, time1);
            lemma_shift_hit(cb, tr.offset, r, t_min, t_max);
        },
        Hittable::RotateY(rt) => {
            // A rotated object reports a hit only within its own box.
            lemma_hit_range(w, i, r, t_min, t_max);
            let h = hit_spec(w, i, r, t_min, t_max).unwrap();
            lemma_hit_widen(rt.bbox.unwrap(), r, t_min, h.t, t_max);
        },
        Hittable::Bvh(_) => {},
        Hittable::Empty => {},
    }
}

/// Reported boxes lie within the box limit.
pub proof fn lemma_box_wf(w: Seq<Hittable>, i: int, time0: int, time1: int)
    requires
        scene_wf(w),
    ensures
        box_spec(w, i, time0, time1) matches Some(b) ==> b.wf(),
    decreases i, list_len(w, i) + 2,
{
    if 0 <= i < w.len() {
        assert(object_wf(w[i], i));
        match w[i] {
            Hittable::MovingSphere(m) => {
                let t0 = time0;
                let t1 = time1;
                if center_in_limit(m, t0) && center_in_limit(m, t1) {
                    let b0 = ball_box(lattice_point(moving_center(m, t0)), m.radius as int);
                    let b1 = ball_box(lattice_point(moving_center(m, t1)), m.radius as int);
                    crate::aabb::lemma_surrounding_encloses(b0, b1);
                }
            },
            Hittable::List(l) => {
                lemma_list_box_wf(w, i, l.objects@, l.objects@.len() as int, time0, time1);
            },
            _ => {},
        }
    }
}

proof fn lemma_list_box_wf(
    w: Seq<Hittable>,
    bound: int,
    ids: Seq<usize>,
    n: int,
    time0: int,
    time1: int,
)
    requires
        scene_wf(w),
    ensures
        list_box(w, bound, ids, n, time0, time1) matches Some(b) ==> b.wf(),
    decreases bound, n + 1,
{
    if 0 < n <= ids.len() {
        let id = ids[n - 1] as int;
        if id < bound {
            lemma_box_wf(w, id, time0, time1);
        }
        lemma_list_box_wf(w, bound, ids, n - 1, time0, time1);
        if n > 1 {
            if let (Some(a), Some(b)) = (
                list_box(w, bound, ids, n - 1, time0, time1),
                if id < bound {
                    box_spec(w, id, time0, time1)
                } else {
                    None
                },
            ) {
                crate::aabb::lemma_surrounding_encloses(a, b);
            }
        }
    }
}

/// A scan reads only the first `n` members.
proof fn lemma_scan_prefix(
    w: Seq<Hittable>,
    bound: int,
    s1: Seq<usize>,
    s2: Seq<usize>,
    n: int,
    r: Ray,
    t_min: (int, int),
    t_max: (int, int),
)
    requires
        0 <= n <= s1.len(),
        n <= s2.len(),
        forall|k: int| 0 <= k < n ==> s1[k] == s2[k],
    ensures
        list_scan(w, bound, s1, n, r, t_min, t_max) == list_scan(w, bound, s2, n, r, t_min, t_max),
    decreases n,
{
    if n > 0 {
        lemma_scan_prefix(w, bound, s1, s2, n - 1, r, t_min, t_max);
    }
}

/// Scanning `a` then `b` is scanning `a` and then scanning `b` below the
/// hit found in `a`.
proof fn lemma_scan_concat(
    w: Seq<Hittable>,
    bound: int,
    a: Seq<usize>,
    b: Seq<usize>,
    m: int,
    r: Ray,
    t_min: (int, int),
    t_max: (int, int),
)
    requires
        0 <= m <= b.len(),
    ensures
        ({
            let p = list_scan(w, bound, a, a.len() as int, r, t_min, t_max);
            let upper = match p {
                None => t_max,
                Some(h) => h.t,
            };
            let q = list_scan(w, bound, b, m, r, t_min, upper);
            list_scan(w, bound, a + b, a.len() + m, r, t_min, t_max) == if q.is_some() {
                q
            } else {
                p
            }
        }),
    decreases m,
{
    if m == 0 {
        lemma_scan_prefix(w, bound, a + b, a, a.len() as int, r, t_min, t_max);
    } else {
        lemma_scan_concat(w, bound, a, b, m - 1, r, t_min, t_max);
        assert((a + b)[a.len() + m - 1] == b[m - 1]);
    }
}

/// A scan over members that all miss finds nothing.
proof fn lemma_scan_all_miss(
    w: Seq<Hittable>,
    bound: int,
    s: Seq<usize>,
    n: int,
    r: Ray,
    t_min: (int, int),
    t_max: (int, int),
)
    requires
        n <= s.len(),
        forall|k: int| 0 <= k < n && s[k] < bound ==> #[trigger] hit_spec(w, s[k] as int, r, t_min, t_max).is_none(),
    ensures
        list_scan(w, bound, s, n, r, t_min, t_max).is_none(),
    decreases n,
{
    if n > 0 {
        lemma_scan_all_miss(w, bound, s, n - 1, r, t_min, t_max);
        if s[n - 1] < bound {
            assert(hit_spec(w, s[n - 1] as int, r, t_min, t_max).is_none());
        }
    }
}

/// The box of a sound hierarchy encloses the box of each of its leaves,
/// which lie below the base.
proof fn lemma_tree_encloses_leaf(
    w: Seq<Hittable>,
    i: int,
    base: int,
    time0: int,
    time1: int,
    k: int,
)
    requires
        scene_wf(w),
        boxes_ordered(w, time0, time1),
        sound_tree(w, i, base, time0, time1),
        0 <= i < w.len() <= usize::MAX,
        box_spec(w, i, time0, time1).is_some(),
        0 <= k < leaves(w, i, base).len(),
    ensures
        leaves(w, i, base)[k] < base,
        box_spec(w, leaves(w, i, base)[k] as int, time0, time1).is_some(),
        box_spec(w, i, time0, time1).unwrap().encloses(
            box_spec(w, leaves(w, i, base)[k] as int, time0, time1).unwrap(),
        ),
    decreases i,
{
    if 0 <= i < base {
        let one = seq![i as usize];
        assert(one[0] == i as usize);
        assert(leaves(w, i, base) == one);
        assert(k == 0);
        let b = box_spec(w, i, time0, time1).unwrap();
        assert forall|a: int| 0 <= a < 3 implies b.lo(a) <= #[trigger] b.lo(a) && b.hi(a) <= b.hi(a) by {}
    } else if let Hittable::Bvh(n) = w[i] {
        let l = n.left as int;
        let r = n.right as int;
        let bl = box_spec(w, l, time0, time1).unwrap();
        let br = box_spec(w, r, time0, time1).unwrap();
        assert(box_spec(w, l, time0, time1) matches Some(x) ==> x.ordered());
        assert(box_spec(w, r, time0, time1) matches Some(x) ==> x.ordered());
        lemma_surrounding_encloses_ordered(bl, br);
        let ll = leaves(w, l, base);
        let lr = leaves(w, r, base);
        assert(leaves(w, i, base) == ll + lr);
        if k < ll.len() {
            assert((ll + lr)[k] == ll[k]);
            lemma_tree_encloses_leaf(w, l, base, time0, time1, k);
            lemma_encloses_trans(n.tree_box, bl, box_spec(w, ll[k] as int, time0, time1).unwrap());
        } else {
            assert((ll + lr)[k] == lr[k - ll.len()]);
            lemma_tree_encloses_leaf(w, r, base, time0, time1, k - ll.len());
            lemma_encloses_trans(n.tree_box, br, box_spec(w, lr[k - ll.len()] as int, time0, time1).unwrap());
        }
    }
}

/// A sound hierarchy reports exactly what a linear closest-hit scan over
/// its leaves, from left to right, reports.
proof fn lemma_tree_scan(
    w: Seq<Hittable>,
    i: int,
    base: int,
    r: Ray,
    t_min: (int, int),
    t_max: (int, int),
    time0: int,
    time1: int,
)
    requires
        scene_wf(w),
        boxes_ordered(w, time0, time1),
        r.wf(),
        t_min.1 > 0,
        t_max.1 > 0,
        time0 <= r.tm <= time1,
        sound_tree(w, i, base, time0, time1),
        0 <= i < w.len() <= usize::MAX,
        box_spec(w, i, time0, time1).is_some(),
    ensures
        hit_spec(w, i, r, t_min, t_max) == list_scan(
            w,
            base,
            leaves(w, i, base),
            leaves(w, i, base).len() as int,
            r,
            t_min,
            t_max,
        ),
    decreases i,
{
    let lv = leaves(w, i, base);
    if 0 <= i < base {
        let one = seq![i as usize];
        assert(one[0] == i as usize);
        assert(lv == one);
        assert(lv.len() == 1);
        assert(list_scan(w, base, lv, 0, r, t_min, t_max).is_none());
    } else if let Hittable::Bvh(n) = w[i] {
        let l = n.left as int;
        let rr = n.right as int;
        assert(lv == leaves(w, l, base) + leaves(w, rr, base));
        assert(box_spec(w, i, time0, time1) == Some(n.tree_box));
        if !box_hit(n.tree_box, r, t_min, t_max) {
            assert forall|k: int| 0 <= k < lv.len() && lv[k] < base implies #[trigger] hit_spec(
                w,
                lv[k] as int,
                r,
                t_min,
                t_max,
            ).is_none() by {
                lemma_tree_encloses_leaf(w, i, base, time0, time1, k);
                let m = lv[k] as int;
                if hit_spec(w, m, r, t_min, t_max).is_some() {
                    lemma_box_holds_hits(w, m, r, t_min, t_max, time0, time1);
                    lemma_hit_enclosing(n.tree_box, box_spec(w, m, time0, time1).unwrap(), r, t_min, t_max);
                }
            }
            lemma_scan_all_miss(w, base, lv, lv.len() as int, r, t_min, t_max);
        } else {
            lemma_tree_scan(w, l, base, r, t_min, t_max, time0, time1);
            let hl = hit_spec(w, l, r, t_min, t_max);
            let upper = match hl {
                None => t_max,
                Some(h) => h.t,
            };
            lemma_hit_range(w, l, r, t_min, t_max);
            lemma_tree_scan(w, rr, base, r, t_min, upper, time0, time1);
            lemma_scan_concat(
                w,
                base,
                leaves(w, l, base),
                leaves(w, rr, base),
                leaves(w, rr, base).len() as int,
                r,
                t_min,
                t_max,
            );
        }
    }
}

/// A hierarchy built over a nonempty list of objects finds the same hit as
/// testing its objects one by one and keeping the closest: it reports
/// exactly what the closest-so-far scan over its leaves reports, and its
/// leaves are the listed objects. This holds for rays whose time lies in
/// the interval the hierarchy was built for, in scenes whose boxes have
/// ordered corners.
pub proof fn lemma_hierarchy_matches_linear_scan(
    w_old: Seq<Hittable>,
    w: Seq<Hittable>,
    root: int,
    ids: Seq<usize>,
    r: Ray,
    t_min: (int, int),
    t_max: (int, int),
    time0: int,
    time1: int,
)
    requires
        crate::bvh::built(w_old, w, root, time0, time1),
        w.len() <= usize::MAX,
        members(w, root, w_old.len() as int) == ids.to_set(),
        sound_tree(w, root, w_old.len() as int, time0, time1),
        boxes_ordered(w, time0, time1),
        r.wf(),
        t_min.1 > 0,
        t_max.1 > 0,
        time0 <= r.tm <= time1,
    ensures
        hit_spec(w, root, r, t_min, t_max) == list_scan(
            w,
            w_old.len() as int,
            leaves(w, root, w_old.len() as int),
            leaves(w, root, w_old.len() as int).len() as int,
            r,
            t_min,
            t_max,
        ),
        leaves(w, root, w_old.len() as int).to_set() == ids.to_set(),
{
    lemma_tree_scan(w, root, w_old.len() as int, r, t_min, t_max, time0, time1);
    lemma_leaves_members(w, root, w_old.len() as int);
}

} // verus!
