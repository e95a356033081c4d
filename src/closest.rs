//! The closest hit does not depend on the order in which objects are
//! tried: narrowing the parameter interval only drops hits beyond it, and
//! a closest-so-far scan finds the least hit parameter of its members.
use vstd::prelude::*;
use crate::aabb::{
    hit_spec as box_hit, lemma_hit_enclosing, lemma_hit_widen, lemma_surrounding_encloses_ordered,
};
use crate::aarect::{axis_unit, rect_t, rect_view, Plane};
use crate::hit_record::lemma_oriented_opposes;
use crate::rotate::{fit_normal, to_world};
use crate::bvh::{node_sound, nodes_sound};
use crate::culling::{
    boxes_ordered, lemma_box_holds_hits, lemma_hit_range, lemma_list_range,
};
use crate::hit_record::HitView;
use crate::hittable::{
    box_spec, hit_spec, list_len, list_scan, moved_ray, object_wf, rotated_ray, scene_wf, Hittable,
};
use crate::param::{lemma_q_le_trans, q_le};
use crate::ray::Ray;
use crate::rtweekend::{isqrt_spec, lemma_isqrt_exists};
use crate::sphere::{
    lattice_point, moving_center, sphere_outward, sphere_roots, sphere_t, sphere_view,
};
use crate::vec3::{dot3, Point3};

verus! {

/// `a` is the result over a narrower interval ending at `t_a` than `b`:
/// a hit in `a` is a hit in `b` at the same parameter value, and a hit in
/// `b` no later than `t_a` is also found in `a`.
pub open spec fn narrows(a: Option<HitView>, b: Option<HitView>, t_a: (int, int)) -> bool {
    &&& (a matches Some(x) ==> (b matches Some(y) && q_le(x.t, y.t) && q_le(y.t, x.t)))
    &&& (b matches Some(y) ==> (q_le(y.t, t_a) ==> a.is_some()))
}

/// The conditions under which boxes never cull hits (see `culling`).
pub open spec fn valid_for(w: Seq<Hittable>, r: Ray, time0: int, time1: int) -> bool {
    &&& scene_wf(w)
    &&& boxes_ordered(w, time0, time1)
    &&& nodes_sound(w, time0, time1)
    &&& r.wf()
    &&& time0 <= r.tm <= time1
}

proof fn lemma_sphere_narrows(
    center: Point3,
    radius: int,
    mat: usize,
    r: Ray,
    t_min: (int, int),
    t_a: (int, int),
    t_b: (int, int),
)
    requires
        t_min.1 > 0,
        t_a.1 > 0,
        t_b.1 > 0,
        q_le(t_a, t_b),
    ensures
        narrows(
            sphere_view(center, radius, mat, r, t_min, t_a),
            sphere_view(center, radius, mat, r, t_min, t_b),
            t_a,
        ),
{
    if let Some((near, far)) = sphere_roots(center, radius, r) {
        let oc = (r.orig.x - center.x, r.orig.y - center.y, r.orig.z - center.z);
        let d = r.dir@;
        let a = dot3(d, d);
        let hb = dot3(oc, d);
        let disc = hb * hb - a * (dot3(oc, oc) - radius * radius);
        lemma_isqrt_exists(disc);
        let s = isqrt_spec(disc);
        assert(d.0 * d.0 >= 0 && d.1 * d.1 >= 0 && d.2 * d.2 >= 0) by (nonlinear_arith);
        assert((-hb - s) * a <= (-hb + s) * a) by (nonlinear_arith)
            requires
                s >= 0,
                a > 0,
        ;
        assert(q_le(near, far));
        if sphere_t(center, radius, r, t_min, t_a) == Some(far) && q_le(t_min, near) {
            lemma_q_le_trans(near, far, t_a);
        }
        if let Some(t) = sphere_t(center, radius, r, t_min, t_a) {
            lemma_q_le_trans(t, t_a, t_b);
        }
        if let Some(t) = sphere_t(center, radius, r, t_min, t_b) {
            if q_le(t, t_a) && t == far && q_le(t_min, near) && q_le(near, t_b) {
            } else if q_le(t, t_a) && t == far {
                assert(!q_le(t_min, near) || !q_le(near, t_b));
                if q_le(t_min, near) {
                    lemma_q_le_trans(near, far, t_b);
                }
            }
        }
    }
}

proof fn lemma_rect_narrows(
    p: Plane,
    mat: usize,
    r: Ray,
    t_min: (int, int),
    t_a: (int, int),
    t_b: (int, int),
)
    requires
        t_min.1 > 0,
        t_a.1 > 0,
        t_b.1 > 0,
        q_le(t_a, t_b),
    ensures
        narrows(rect_view(p, mat, r, t_min, t_a), rect_view(p, mat, r, t_min, t_b), t_a),
{
    if let Some(t) = rect_t(p, r, t_min, t_a) {
        lemma_q_le_trans(t, t_a, t_b);
    }
}

/// Narrowing the interval of any object narrows its result. Scene
/// conditions as in `valid_for`.
pub proof fn lemma_hit_narrows(
    w: Seq<Hittable>,
    i: int,
    r: Ray,
    t_min: (int, int),
    t_a: (int, int),
    t_b: (int, int),
    time0: int,
    time1: int,
)
    requires
        valid_for(w, r, time0, time1),
        t_min.1 > 0,
        t_a.1 > 0,
        t_b.1 > 0,
        q_le(t_a, t_b),
    ensures
        narrows(hit_spec(w, i, r, t_min, t_a), hit_spec(w, i, r, t_min, t_b), t_a),
    decreases i, list_len(w, i) + 2,
{
    if 0 <= i < w.len() {
        assert(object_wf(w[i], i));
        match w[i] {
            Hittable::Sphere(s) => {
                lemma_sphere_narrows(s.center, s.radius as int, s.mat, r, t_min, t_a, t_b);
            },
            Hittable::MovingSphere(m) => {
                lemma_sphere_narrows(
                    lattice_point(moving_center(m, r.tm as int)),
                    m.radius as int,
                    m.mat,
                    r,
                    t_min,
                    t_a,
                    t_b,
                );
            },
            Hittable::XyRect(p) => {
                lemma_rect_narrows(p.plane(), p.mat, r, t_min, t_a, t_b);
            },
            Hittable::XzRect(p) => {
                lemma_rect_narrows(p.plane(), p.mat, r, t_min, t_a, t_b);
            },
            Hittable::YzRect(p) => {
                lemma_rect_narrows(p.plane(), p.mat, r, t_min, t_a, t_b);
            },
            Hittable::List(l) => {
                lemma_list_narrows(w, i, l.objects@, l.objects@.len() as int, r, t_min, t_a, t_b, time0, time1);
            },
            Hittable::Translate(tr) => {
                if crate::hittable::moved_in_limit(r, tr.offset) {
                    lemma_hit_narrows(w, tr.ptr as int, moved_ray(r, tr.offset), t_min, t_a, t_b, time0, time1);
                }
            },
            Hittable::RotateY(rt) => {
                if rt.ptr < i {
                    if let Some(local) = rotated_ray(rt, r) {
                        lemma_hit_narrows(w, rt.ptr as int, local, t_min, t_a, t_b, time0, time1);
                        lemma_hit_range(w, rt.ptr as int, local, t_min, t_a);
                        lemma_hit_range(w, rt.ptr as int, local, t_min, t_b);
                        if let Some(b) = rt.bbox {
                            let ca = hit_spec(w, rt.ptr as int, local, t_min, t_a);
                            let cb = hit_spec(w, rt.ptr as int, local, t_min, t_b);
                            if let (Some(x), Some(y)) = (ca, cb) {
                                if box_hit(b, r, t_min, x.t) {
                                    lemma_hit_widen(b, r, t_min, x.t, y.t);
                                }
                                if box_hit(b, r, t_min, y.t) {
                                    lemma_hit_widen(b, r, t_min, y.t, x.t);
                                }
                            }
                        }
                    }
                }
            },
            Hittable::Bvh(n) => {
                lemma_node_narrows(w, i, r, t_min, t_a, t_b, time0, time1);
            },
            Hittable::Empty => {},
        }
    }
}

proof fn lemma_node_narrows(
    w: Seq<Hittable>,
    i: int,
    r: Ray,
    t_min: (int, int),
    t_a: (int, int),
    t_b: (int, int),
    time0: int,
    time1: int,
)
    requires
        valid_for(w, r, time0, time1),
        t_min.1 > 0,
        t_a.1 > 0,
        t_b.1 > 0,
        q_le(t_a, t_b),
        0 <= i < w.len(),
        w[i] is Bvh,
    ensures
        narrows(hit_spec(w, i, r, t_min, t_a), hit_spec(w, i, r, t_min, t_b), t_a),
    decreases i, 0int,
{
    assert(object_wf(w[i], i));
    assert(node_sound(w, w[i], time0, time1));
    let n = w[i]->Bvh_0;
    let l = n.left as int;
    let rr = n.right as int;
    let bl = box_spec(w, l, time0, time1).unwrap();
    let br = box_spec(w, rr, time0, time1).unwrap();
    assert(box_spec(w, l, time0, time1) matches Some(x) ==> x.ordered());
    assert(box_spec(w, rr, time0, time1) matches Some(x) ==> x.ordered());
    lemma_surrounding_encloses_ordered(bl, br);
    let ba = box_hit(n.tree_box, r, t_min, t_a);
    let bb = box_hit(n.tree_box, r, t_min, t_b);
    if ba {
        lemma_hit_widen(n.tree_box, r, t_min, t_a, t_b);
    }
    let hl_a = hit_spec(w, l, r, t_min, t_a);
    let hl_b = hit_spec(w, l, r, t_min, t_b);
    lemma_hit_narrows(w, l, r, t_min, t_a, t_b, time0, time1);
    lemma_hit_range(w, l, r, t_min, t_a);
    lemma_hit_range(w, l, r, t_min, t_b);
    let ua = match hl_a {
        None => t_a,
        Some(h) => h.t,
    };
    let ub = match hl_b {
        None => t_b,
        Some(h) => h.t,
    };
    lemma_hit_range(w, rr, r, t_min, ua);
    lemma_hit_range(w, rr, r, t_min, ub);
    let hr_a = hit_spec(w, rr, r, t_min, ua);
    let hr_b = hit_spec(w, rr, r, t_min, ub);
    if bb && !ba {
        // No hit of a child can lie within [t_min, t_a]: its box, inside the
        // node's box, would then be met there.
        if let Some(y) = hl_b {
            if q_le(y.t, t_a) {
                assert(hl_a.is_some());
                lemma_box_holds_hits(w, l, r, t_min, t_a, time0, time1);
                lemma_hit_enclosing(n.tree_box, bl, r, t_min, t_a);
            }
        }
        if let Some(y) = hr_b {
            if q_le(y.t, t_a) {
                if q_le(t_a, ub) {
                    lemma_hit_narrows(w, rr, r, t_min, t_a, ub, time0, time1);
                    lemma_box_holds_hits(w, rr, r, t_min, t_a, time0, time1);
                    lemma_hit_enclosing(n.tree_box, br, r, t_min, t_a);
                } else {
                    lemma_box_holds_hits(w, rr, r, t_min, ub, time0, time1);
                    lemma_hit_widen(br, r, t_min, ub, t_a);
                    lemma_hit_enclosing(n.tree_box, br, r, t_min, t_a);
                }
            }
        }
    } else if ba {
        match hl_a {
            Some(x) => {
                lemma_hit_narrows(w, rr, r, t_min, ua, ub, time0, time1);
                lemma_hit_narrows(w, rr, r, t_min, ub, ua, time0, time1);
            },
            None => {
                if let Some(x) = hl_b {
                    assert(!q_le(x.t, t_a));
                    lemma_hit_narrows(w, rr, r, t_min, t_a, x.t, time0, time1);
                } else {
                    lemma_hit_narrows(w, rr, r, t_min, t_a, t_b, time0, time1);
                }
            },
        }
        if let Some(y) = hr_b {
            if let Some(x) = hr_a {
                lemma_q_le_trans(x.t, y.t, x.t);
            }
        }
    }
}

proof fn lemma_list_narrows(
    w: Seq<Hittable>,
    bound: int,
    ids: Seq<usize>,
    n: int,
    r: Ray,
    t_min: (int, int),
    t_a: (int, int),
    t_b: (int, int),
    time0: int,
    time1: int,
)
    requires
        valid_for(w, r, time0, time1),
        t_min.1 > 0,
        t_a.1 > 0,
        t_b.1 > 0,
        q_le(t_a, t_b),
    ensures
        narrows(
            list_scan(w, bound, ids, n, r, t_min, t_a),
            list_scan(w, bound, ids, n, r, t_min, t_b),
            t_a,
        ),
    decreases bound, n + 1,
{
    if 0 < n <= ids.len() {
        lemma_list_narrows(w, bound, ids, n - 1, r, t_min, t_a, t_b, time0, time1);
        lemma_list_range(w, bound, ids, n - 1, r, t_min, t_a);
        lemma_list_range(w, bound, ids, n - 1, r, t_min, t_b);
        let pa = list_scan(w, bound, ids, n - 1, r, t_min, t_a);
        let pb = list_scan(w, bound, ids, n - 1, r, t_min, t_b);
        let ua = match pa {
            None => t_a,
            Some(h) => h.t,
        };
        let ub = match pb {
            None => t_b,
            Some(h) => h.t,
        };
        // The upper end used for the next member is never later in the
        // narrower scan.
        assert(q_le(ua, ub));
        let id = ids[n - 1] as int;
        if id < bound {
            lemma_hit_narrows(w, id, r, t_min, ua, ub, time0, time1);
            lemma_hit_range(w, id, r, t_min, ua);
            lemma_hit_range(w, id, r, t_min, ub);
            let ca = hit_spec(w, id, r, t_min, ua);
            let cb = hit_spec(w, id, r, t_min, ub);
            if let Some(c) = cb {
                if let Some(p) = pa {
                    if ca.is_none() {
                        lemma_q_le_trans(c.t, ub, p.t);
                    }
                }
                if pa.is_none() && q_le(c.t, t_a) {
                    assert(ua == t_a);
                }
            }
            if let Some(p) = pb {
                if q_le(p.t, t_a) {
                    assert(pa.is_some());
                }
            }
        }
    }
}

/// `res` holds a least hit parameter among the first `n` listed members
/// (those below `bound`), or nothing when none of them is hit.
pub open spec fn is_closest(
    res: Option<HitView>,
    w: Seq<Hittable>,
    bound: int,
    s: Seq<usize>,
    n: int,
    r: Ray,
    t_min: (int, int),
    t_max: (int, int),
) -> bool {
    &&& (res.is_none() ==> forall|k: int|
        0 <= k < n && s[k] < bound ==> #[trigger] hit_spec(w, s[k] as int, r, t_min, t_max).is_none())
    &&& (res matches Some(h) ==> forall|k: int|
        0 <= k < n && s[k] < bound && #[trigger] hit_spec(w, s[k] as int, r, t_min, t_max).is_some()
            ==> q_le(h.t, hit_spec(w, s[k] as int, r, t_min, t_max).unwrap().t))
    &&& (res matches Some(h) ==> exists|k: int|
        0 <= k < n && s[k] < bound && #[trigger] hit_spec(w, s[k] as int, r, t_min, t_max).is_some()
            && q_le(hit_spec(w, s[k] as int, r, t_min, t_max).unwrap().t, h.t))
}

/// A closest-so-far scan finds a least hit parameter of its members.
pub proof fn lemma_scan_closest(
    w: Seq<Hittable>,
    bound: int,
    s: Seq<usize>,
    n: int,
    r: Ray,
    t_min: (int, int),
    t_max: (int, int),
    time0: int,
    time1: int,
)
    requires
        valid_for(w, r, time0, time1),
        t_min.1 > 0,
        t_max.1 > 0,
        0 <= n <= s.len(),
    ensures
        is_closest(list_scan(w, bound, s, n, r, t_min, t_max), w, bound, s, n, r, t_min, t_max),
    decreases n,
{
    if n > 0 {
        lemma_scan_closest(w, bound, s, n - 1, r, t_min, t_max, time0, time1);
        lemma_list_range(w, bound, s, n - 1, r, t_min, t_max);
        let p = list_scan(w, bound, s, n - 1, r, t_min, t_max);
        let u = match p {
            None => t_max,
            Some(h) => h.t,
        };
        let m = s[n - 1] as int;
        let res = list_scan(w, bound, s, n, r, t_min, t_max);
        if m < bound {
            lemma_hit_narrows(w, m, r, t_min, u, t_max, time0, time1);
            lemma_hit_range(w, m, r, t_min, u);
            lemma_hit_range(w, m, r, t_min, t_max);
            let cur = hit_spec(w, m, r, t_min, u);
            let g = hit_spec(w, m, r, t_min, t_max);
            if let Some(c) = cur {
                assert forall|k: int|
                    0 <= k < n && s[k] < bound && #[trigger] hit_spec(w, s[k] as int, r, t_min, t_max).is_some()
                        implies q_le(c.t, hit_spec(w, s[k] as int, r, t_min, t_max).unwrap().t) by {
                    if k < n - 1 {
                        let gk = hit_spec(w, s[k] as int, r, t_min, t_max).unwrap();
                        lemma_hit_range(w, s[k] as int, r, t_min, t_max);
                        assert(is_closest(p, w, bound, s, n - 1, r, t_min, t_max));
                        if p.is_none() {
                            assert(0 <= k < n - 1 && s[k] < bound);
                            assert(hit_spec(w, s[k] as int, r, t_min, t_max).is_none());
                        }
                        lemma_q_le_trans(c.t, u, gk.t);
                    }
                }
                assert(hit_spec(w, s[n - 1] as int, r, t_min, t_max).is_some());
            } else if let Some(ph) = p {
                assert forall|k: int|
                    0 <= k < n && s[k] < bound && #[trigger] hit_spec(w, s[k] as int, r, t_min, t_max).is_some()
                        implies q_le(ph.t, hit_spec(w, s[k] as int, r, t_min, t_max).unwrap().t) by {
                    if k == n - 1 {
                        assert(!q_le(g.unwrap().t, u));
                    }
                }
                let k0 = choose|k: int|
                    0 <= k < n - 1 && s[k] < bound && #[trigger] hit_spec(w, s[k] as int, r, t_min, t_max).is_some()
                        && q_le(hit_spec(w, s[k] as int, r, t_min, t_max).unwrap().t, ph.t);
                assert(0 <= k0 < n && s[k0] < bound && hit_spec(w, s[k0] as int, r, t_min, t_max).is_some()
                    && q_le(hit_spec(w, s[k0] as int, r, t_min, t_max).unwrap().t, ph.t));
            } else {
                assert(u == t_max);
                assert forall|k: int| 0 <= k < n && s[k] < bound implies #[trigger] hit_spec(
                    w,
                    s[k] as int,
                    r,
                    t_min,
                    t_max,
                ).is_none() by {}
            }
        } else {
            if let Some(ph) = p {
                let k0 = choose|k: int|
                    0 <= k < n - 1 && s[k] < bound && #[trigger] hit_spec(w, s[k] as int, r, t_min, t_max).is_some()
                        && q_le(hit_spec(w, s[k] as int, r, t_min, t_max).unwrap().t, ph.t);
                assert(0 <= k0 < n && s[k0] < bound && hit_spec(w, s[k0] as int, r, t_min, t_max).is_some()
                    && q_le(hit_spec(w, s[k0] as int, r, t_min, t_max).unwrap().t, ph.t));
            }
        }
    }
}

/// Testing every listed object one by one and keeping the closest finds the
/// same hit parameter as the hierarchy that `BVH::new` built over the list:
/// both find a hit or neither does, and the two hit parameters are equal.
/// This holds for rays whose time lies in the interval the hierarchy was
/// built for, in scenes whose boxes have ordered corners, whose hierarchy
/// nodes cache the boxes of their children.
pub proof fn lemma_hierarchy_finds_closest(
    w_old: Seq<Hittable>,
    w: Seq<Hittable>,
    root: int,
    ids: Seq<usize>,
    r: Ray,
    t_min: (int, int),
    t_max: (int, int),
    time0: int,
    time1: int,
)
    requires
        crate::bvh::built(w_old, w, root, time0, time1),
        w.len() <= usize::MAX,
        crate::bvh::members(w, root, w_old.len() as int) == ids.to_set(),
        crate::bvh::sound_tree(w, root, w_old.len() as int, time0, time1),
        forall|k: int| 0 <= k < ids.len() ==> #[trigger] ids[k] < w_old.len(),
        valid_for(w, r, time0, time1),
        t_min.1 > 0,
        t_max.1 > 0,
    ensures
        ({
            let base = w_old.len() as int;
            let tree = hit_spec(w, root, r, t_min, t_max);
            let linear = list_scan(w, base, ids, ids.len() as int, r, t_min, t_max);
            &&& tree.is_some() == linear.is_some()
            &&& (tree matches Some(a) ==> (linear matches Some(b) && q_le(a.t, b.t) && q_le(b.t, a.t)))
        }),
{
    let base = w_old.len() as int;
    let lv = crate::bvh::leaves(w, root, base);
    crate::culling::lemma_hierarchy_matches_linear_scan(
        w_old,
        w,
        root,
        ids,
        r,
        t_min,
        t_max,
        time0,
        time1,
    );
    let tree = list_scan(w, base, lv, lv.len() as int, r, t_min, t_max);
    let linear = list_scan(w, base, ids, ids.len() as int, r, t_min, t_max);
    lemma_scan_closest(w, base, lv, lv.len() as int, r, t_min, t_max, time0, time1);
    lemma_scan_closest(w, base, ids, ids.len() as int, r, t_min, t_max, time0, time1);
    // A member of one sequence that is hit is a member of the other.
    if let Some(b) = linear {
        let k = choose|k: int|
            0 <= k < ids.len() && ids[k] < base && #[trigger] hit_spec(w, ids[k] as int, r, t_min, t_max).is_some()
                && q_le(hit_spec(w, ids[k] as int, r, t_min, t_max).unwrap().t, b.t);
        assert(ids.contains(ids[k]));
        assert(ids.to_set().contains(ids[k]));
        assert(lv.to_set().contains(ids[k]));
        assert(lv.contains(ids[k]));
        let j = choose|j: int| 0 <= j < lv.len() && lv[j] == ids[k];
        assert(hit_spec(w, lv[j] as int, r, t_min, t_max).is_some());
        assert(0 <= j < lv.len() && lv[j] < base);
        if tree.is_none() {
            assert(hit_spec(w, lv[j] as int, r, t_min, t_max).is_none());
        }
        assert(tree.is_some());
        let a = tree.unwrap();
        let g = hit_spec(w, ids[k] as int, r, t_min, t_max).unwrap();
        assert(q_le(a.t, g.t));
        lemma_hit_range(w, ids[k] as int, r, t_min, t_max);
        lemma_list_range(w, base, lv, lv.len() as int, r, t_min, t_max);
        lemma_list_range(w, base, ids, ids.len() as int, r, t_min, t_max);
        lemma_q_le_trans(a.t, g.t, b.t);
    }
    if let Some(a) = tree {
        let j = choose|j: int|
            0 <= j < lv.len() && lv[j] < base && #[trigger] hit_spec(w, lv[j] as int, r, t_min, t_max).is_some()
                && q_le(hit_spec(w, lv[j] as int, r, t_min, t_max).unwrap().t, a.t);
        assert(lv.contains(lv[j]));
        assert(lv.to_set().contains(lv[j]));
        assert(ids.to_set().contains(lv[j]));
        assert(ids.contains(lv[j]));
        let k = choose|k: int| 0 <= k < ids.len() && ids[k] == lv[j];
        assert(hit_spec(w, ids[k] as int, r, t_min, t_max).is_some());
        assert(0 <= k < ids.len() && ids[k] < base);
        if linear.is_none() {
            assert(hit_spec(w, ids[k] as int, r, t_min, t_max).is_none());
        }
        assert(linear.is_some());
        let b = linear.unwrap();
        let g = hit_spec(w, lv[j] as int, r, t_min, t_max).unwrap();
        assert(q_le(b.t, g.t));
        lemma_hit_range(w, lv[j] as int, r, t_min, t_max);
        lemma_list_range(w, base, lv, lv.len() as int, r, t_min, t_max);
        lemma_list_range(w, base, ids, ids.len() as int, r, t_min, t_max);
        lemma_q_le_trans(b.t, g.t, a.t);
    }
}

/// After any hit that the scene reports, the normal does not point along
/// the ray, and a hit recorded as front-facing has a normal pointing
/// against it.
pub proof fn lemma_hit_faces_ray(w: Seq<Hittable>, i: int, r: Ray, t_min: (int, int), t_max: (int, int))
    ensures
        hit_spec(w, i, r, t_min, t_max) matches Some(h) ==> dot3(r.dir@, h.normal) <= 0 && (h.front_face
            ==> dot3(r.dir@, h.normal) < 0),
    decreases i, list_len(w, i) + 2,
{
    if 0 <= i < w.len() {
        match w[i] {
            Hittable::List(l) => {
                lemma_list_faces_ray(w, i, l.objects@, l.objects@.len() as int, r, t_min, t_max);
            },
            Hittable::Bvh(n) => {
                if n.left < i && n.right < i {
                    lemma_hit_faces_ray(w, n.left as int, r, t_min, t_max);
                    let hl = hit_spec(w, n.left as int, r, t_min, t_max);
                    let upper = match hl {
                        None => t_max,
                        Some(h) => h.t,
                    };
                    lemma_hit_faces_ray(w, n.right as int, r, t_min, upper);
                }
            },
            Hittable::Sphere(s) => {
                if let Some(t) = sphere_t(s.center, s.radius as int, r, t_min, t_max) {
                    lemma_oriented_opposes(r, sphere_outward(s.center, s.radius as int, r, t));
                }
            },
            Hittable::MovingSphere(m) => {
                let c = lattice_point(moving_center(m, r.tm as int));
                if let Some(t) = sphere_t(c, m.radius as int, r, t_min, t_max) {
                    lemma_oriented_opposes(r, sphere_outward(c, m.radius as int, r, t));
                }
            },
            Hittable::XyRect(p) => {
                lemma_oriented_opposes(r, axis_unit(p.plane().k_ax));
            },
            Hittable::XzRect(p) => {
                lemma_oriented_opposes(r, axis_unit(p.plane().k_ax));
            },
            Hittable::YzRect(p) => {
                lemma_oriented_opposes(r, axis_unit(p.plane().k_ax));
            },
            Hittable::Translate(tr) => {
                if tr.ptr < i && crate::hittable::moved_in_limit(r, tr.offset) {
                    lemma_hit_faces_ray(w, tr.ptr as int, moved_ray(r, tr.offset), t_min, t_max);
                }
            },
            Hittable::Empty => {},
            Hittable::RotateY(rt) => {
                if rt.ptr < i {
                    if let Some(local) = rotated_ray(rt, r) {
                        if let Some(h) = hit_spec(w, rt.ptr as int, local, t_min, t_max) {
                            lemma_oriented_opposes(
                                r,
                                fit_normal(
                                    to_world(
                                        rt.cos_num as int,
                                        rt.sin_num as int,
                                        rt.hyp as int,
                                        crate::hittable::outward_of(h),
                                    ),
                                ),
                            );
                        }
                    }
                }
            },
        }
    }
}

proof fn lemma_list_faces_ray(
    w: Seq<Hittable>,
    bound: int,
    ids: Seq<usize>,
    n: int,
    r: Ray,
    t_min: (int, int),
    t_max: (int, int),
)
    ensures
        list_scan(w, bound, ids, n, r, t_min, t_max) matches Some(h) ==> dot3(r.dir@, h.normal) <= 0
            && (h.front_face ==> dot3(r.dir@, h.normal) < 0),
    decreases bound, n + 1,
{
    if 0 < n <= ids.len() {
        lemma_list_faces_ray(w, bound, ids, n - 1, r, t_min, t_max);
        let prev = list_scan(w, bound, ids, n - 1, r, t_min, t_max);
        let upper = match prev {
            None => t_max,
            Some(h) => h.t,
        };
        let id = ids[n - 1] as int;
        if id < bound {
            lemma_hit_faces_ray(w, id, r, t_min, upper);
        }
    }
}

} // verus!
