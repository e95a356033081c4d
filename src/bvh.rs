//! Construction of a bounding-volume hierarchy over objects of a scene.
use vstd::prelude::*;
use crate::aabb::{lemma_surrounding_encloses, lemma_surrounding_encloses_ordered, surrounding_spec, AABB};
use crate::culling::boxes_ordered;
use crate::hittable::{
    hit_spec,
    box_spec, extends, lemma_box_extend, object_wf, Hittable, HittableList, Scene, BVH,
};
use crate::ray::Ray;
use crate::rtweekend::random_int;

verus! {

/// Every listed object is in the scene and has a box over `[time0, time1]`.
pub open spec fn all_boxed(w: Seq<Hittable>, ids: Seq<usize>, time0: int, time1: int) -> bool {
    forall|k: int|
        0 <= k < ids.len() ==> #[trigger] ids[k] < w.len() && box_spec(w, ids[k] as int, time0, time1).is_some()
}

/// Sort key of object `id`: the low corner of its box on `axis`.
pub open spec fn box_key(w: Seq<Hittable>, id: int, axis: int, time0: int, time1: int) -> int {
    box_spec(w, id, time0, time1).unwrap().minimum.comp(axis)
}

/// The result of building over `ids`: `root` is a hierarchy node added to
/// the scene, which only grew.
pub open spec fn built(w_old: Seq<Hittable>, w: Seq<Hittable>, root: int, time0: int, time1: int) -> bool {
    &&& crate::hittable::scene_wf(w)
    &&& extends(w, w_old)
    &&& w_old.len() <= root < w.len()
    &&& w[root] is Bvh
    &&& box_spec(w, root, time0, time1).is_some()
}

/// The objects held by the hierarchy rooted at `i`: descending through the
/// hierarchy nodes at index `base` or above, the objects below `base` that
/// are reached.
pub open spec fn members(w: Seq<Hittable>, i: int, base: int) -> Set<usize>
    decreases i,
{
    if 0 <= i < base {
        set![i as usize]
    } else if 0 <= base <= i < w.len() {
        match w[i] {
            Hittable::Bvh(n) => if n.left < i && n.right < i {
                members(w, n.left as int, base).union(members(w, n.right as int, base))
            } else {
                Set::empty()
            },
            _ => Set::empty(),
        }
    } else {
        Set::empty()
    }
}

/// Every hierarchy node of the scene caches the box surrounding the boxes
/// of its two children over `[time0, time1]`.
pub open spec fn nodes_sound(w: Seq<Hittable>, time0: int, time1: int) -> bool {
    forall|j: int| 0 <= j < w.len() ==> node_sound(w, #[trigger] w[j], time0, time1)
}

pub open spec fn node_sound(w: Seq<Hittable>, h: Hittable, time0: int, time1: int) -> bool {
    h matches Hittable::Bvh(n) ==> {
        &&& box_spec(w, n.left as int, time0, time1).is_some()
        &&& box_spec(w, n.right as int, time0, time1).is_some()
        &&& n.tree_box == surrounding_spec(
            box_spec(w, n.left as int, time0, time1).unwrap(),
            box_spec(w, n.right as int, time0, time1).unwrap(),
        )
    }
}

/// Appending an object whose own node (if it is one) is sound keeps every
/// node of a well-formed scene sound.
proof fn lemma_nodes_sound_push(w: Seq<Hittable>, x: Hittable, time0: int, time1: int)
    requires
        crate::hittable::scene_wf(w),
        nodes_sound(w, time0, time1),
        node_sound(w.push(x), x, time0, time1),
    ensures
        nodes_sound(w.push(x), time0, time1),
{
    let w2 = w.push(x);
    assert(extends(w2, w));
    assert forall|j: int| 0 <= j < w2.len() implies node_sound(w2, #[trigger] w2[j], time0, time1) by {
        if j < w.len() {
            assert(w2[j] == w[j]);
            assert(node_sound(w, w[j], time0, time1));
            assert(object_wf(w[j], j));
            if let Hittable::Bvh(n) = w[j] {
                lemma_box_extend(w, w2, n.left as int, time0, time1);
                lemma_box_extend(w, w2, n.right as int, time0, time1);
            }
        }
    }
}

/// On axis `a`, the low corner of `b` is the least low corner of the boxes
/// of the objects in `ids`, and its high corner the greatest high corner.
pub open spec fn corner_ok(b: AABB, w: Seq<Hittable>, ids: Set<usize>, a: int, time0: int, time1: int) -> bool {
    &&& forall|x: usize|
        #[trigger] ids.contains(x) ==> b.minimum.comp(a) <= box_spec(w, x as int, time0, time1).unwrap().minimum.comp(a)
            && box_spec(w, x as int, time0, time1).unwrap().maximum.comp(a) <= b.maximum.comp(a)
    &&& exists|x: usize|
        #[trigger] ids.contains(x) && b.minimum.comp(a) == box_spec(w, x as int, time0, time1).unwrap().minimum.comp(a)
    &&& exists|x: usize|
        #[trigger] ids.contains(x) && b.maximum.comp(a) == box_spec(w, x as int, time0, time1).unwrap().maximum.comp(a)
}

/// `b` is the box surrounding the boxes of the objects in `ids`, on all
/// three axes.
pub open spec fn surrounds_all(b: AABB, w: Seq<Hittable>, ids: Set<usize>, time0: int, time1: int) -> bool {
    forall|a: int| 0 <= a < 3 ==> #[trigger] corner_ok(b, w, ids, a, time0, time1)
}

proof fn lemma_surrounds_single(w: Seq<Hittable>, x: usize, time0: int, time1: int)
    requires
        box_spec(w, x as int, time0, time1).is_some(),
    ensures
        surrounds_all(box_spec(w, x as int, time0, time1).unwrap(), w, set![x], time0, time1),
{
    let b = box_spec(w, x as int, time0, time1).unwrap();
    assert forall|a: int| 0 <= a < 3 implies #[trigger] corner_ok(b, w, set![x], a, time0, time1) by {
        assert(set![x].contains(x));
    }
}

proof fn lemma_surrounds_union(
    bl: AABB,
    br: AABB,
    w: Seq<Hittable>,
    l: Set<usize>,
    r: Set<usize>,
    time0: int,
    time1: int,
)
    requires
        surrounds_all(bl, w, l, time0, time1),
        surrounds_all(br, w, r, time0, time1),
    ensures
        surrounds_all(surrounding_spec(bl, br), w, l.union(r), time0, time1),
{
    let s = surrounding_spec(bl, br);
    assert forall|a: int| 0 <= a < 3 implies #[trigger] corner_ok(s, w, l.union(r), a, time0, time1) by {
        assert(corner_ok(bl, w, l, a, time0, time1));
        assert(corner_ok(br, w, r, a, time0, time1));
        let xl = choose|x: usize| #[trigger] l.contains(x) && bl.minimum.comp(a) == box_spec(w, x as int, time0, time1).unwrap().minimum.comp(a);
        let xr = choose|x: usize| #[trigger] r.contains(x) && br.minimum.comp(a) == box_spec(w, x as int, time0, time1).unwrap().minimum.comp(a);
        let yl = choose|x: usize| #[trigger] l.contains(x) && bl.maximum.comp(a) == box_spec(w, x as int, time0, time1).unwrap().maximum.comp(a);
        let yr = choose|x: usize| #[trigger] r.contains(x) && br.maximum.comp(a) == box_spec(w, x as int, time0, time1).unwrap().maximum.comp(a);
        assert(l.union(r).contains(xl) && l.union(r).contains(xr));
        assert(l.union(r).contains(yl) && l.union(r).contains(yr));
        assert forall|x: usize| #[trigger] l.union(r).contains(x) implies s.minimum.comp(a)
            <= box_spec(w, x as int, time0, time1).unwrap().minimum.comp(a)
            && box_spec(w, x as int, time0, time1).unwrap().maximum.comp(a) <= s.maximum.comp(a) by {
            if l.contains(x) {
            } else {
                assert(r.contains(x));
            }
        }
    }
}

/// Boxes of objects already in a scene keep surrounding them when the scene
/// grows.
proof fn lemma_surrounds_extend(b: AABB, w: Seq<Hittable>, w2: Seq<Hittable>, ids: Set<usize>, time0: int, time1: int)
    requires
        extends(w2, w),
        forall|x: usize| #[trigger] ids.contains(x) ==> x < w.len(),
        surrounds_all(b, w2, ids, time0, time1),
    ensures
        surrounds_all(b, w, ids, time0, time1),
{
    assert forall|x: usize| #[trigger] ids.contains(x) implies box_spec(w2, x as int, time0, time1) == box_spec(
        w,
        x as int,
        time0,
        time1,
    ) by {
        lemma_box_extend(w, w2, x as int, time0, time1);
    }
    assert forall|a: int| 0 <= a < 3 implies #[trigger] corner_ok(b, w, ids, a, time0, time1) by {
        assert(corner_ok(b, w2, ids, a, time0, time1));
        let xm = choose|x: usize| #[trigger] ids.contains(x) && b.minimum.comp(a) == box_spec(w2, x as int, time0, time1).unwrap().minimum.comp(a);
        let xM = choose|x: usize| #[trigger] ids.contains(x) && b.maximum.comp(a) == box_spec(w2, x as int, time0, time1).unwrap().maximum.comp(a);
        assert(box_spec(w2, xm as int, time0, time1) == box_spec(w, xm as int, time0, time1));
        assert(box_spec(w2, xM as int, time0, time1) == box_spec(w, xM as int, time0, time1));
    }
}

/// Every object that `w` holds beyond those of `w_old` is a hierarchy node
/// or the empty placeholder.
pub open spec fn only_nodes_added(w_old: Seq<Hittable>, w: Seq<Hittable>) -> bool {
    forall|j: int| w_old.len() <= j < w.len() ==> (#[trigger] w[j] is Bvh || w[j] is Empty)
}

proof fn lemma_only_nodes_trans(a: Seq<Hittable>, b: Seq<Hittable>, c: Seq<Hittable>)
    requires
        extends(b, a),
        extends(c, b),
        only_nodes_added(a, b),
        only_nodes_added(b, c),
    ensures
        only_nodes_added(a, c),
{
    assert forall|j: int| a.len() <= j < c.len() implies (#[trigger] c[j] is Bvh || c[j] is Empty) by {
        if j < b.len() {
            assert(c[j] == b[j]);
        }
    }
}

/// Boxes stay ordered when only sound hierarchy nodes and placeholders are
/// added to a scene whose boxes are ordered.
proof fn lemma_ordered_after(w_old: Seq<Hittable>, w: Seq<Hittable>, time0: int, time1: int)
    requires
        crate::hittable::scene_wf(w),
        extends(w, w_old),
        only_nodes_added(w_old, w),
        nodes_sound(w, time0, time1),
        boxes_ordered(w_old, time0, time1),
    ensures
        boxes_ordered(w, time0, time1),
{
    assert forall|j: int| 0 <= j < w.len() implies (#[trigger] box_spec(w, j, time0, time1) matches Some(
        b,
    ) ==> b.ordered()) by {
        lemma_ordered_at(w_old, w, j, time0, time1);
    }
}

proof fn lemma_ordered_at(w_old: Seq<Hittable>, w: Seq<Hittable>, j: int, time0: int, time1: int)
    requires
        crate::hittable::scene_wf(w),
        extends(w, w_old),
        only_nodes_added(w_old, w),
        nodes_sound(w, time0, time1),
        boxes_ordered(w_old, time0, time1),
        0 <= j < w.len(),
    ensures
        box_spec(w, j, time0, time1) matches Some(b) ==> b.ordered(),
    decreases j,
{
    if j < w_old.len() {
        lemma_box_extend(w_old, w, j, time0, time1);
        assert(box_spec(w_old, j, time0, time1) matches Some(b) ==> b.ordered());
    } else {
        assert(w[j] is Bvh || w[j] is Empty);
        assert(object_wf(w[j], j));
        if let Hittable::Bvh(n) = w[j] {
            assert(node_sound(w, w[j], time0, time1));
            lemma_ordered_at(w_old, w, n.left as int, time0, time1);
            lemma_surrounding_encloses_ordered(
                box_spec(w, n.left as int, time0, time1).unwrap(),
                box_spec(w, n.right as int, time0, time1).unwrap(),
            );
        } else {
            let b = box_spec(w, j, time0, time1).unwrap();
            assert forall|a: int| 0 <= a < 3 implies #[trigger] b.minimum.comp(a) <= b.maximum.comp(a) by {}
        }
    }
}

/// `s` is ordered by the low corner of the boxes on `axis`.
pub open spec fn sorted_by_key(w: Seq<Hittable>, s: Seq<usize>, axis: int, time0: int, time1: int) -> bool {
    forall|a: int, b: int|
        0 <= a < b < s.len() ==> box_key(w, s[a] as int, axis, time0, time1) <= box_key(
            w,
            s[b] as int,
            axis,
            time0,
            time1,
        )
}

/// The node `n` splits `objects` along `axis`: one object is both children;
/// two are ordered by their key; three or more are ordered by key into a
/// sequence whose first half (rounded down) the left subtree holds and whose
/// other half the right subtree holds.
pub open spec fn split_ok(
    w_old: Seq<Hittable>,
    w: Seq<Hittable>,
    root: int,
    objects: Seq<usize>,
    axis: int,
    time0: int,
    time1: int,
) -> bool {
    w[root] matches Hittable::Bvh(n) && {
        let key = |id: int| box_key(w_old, id, axis, time0, time1);
        let half = (objects.len() / 2) as int;
        &&& objects.len() == 1 ==> n.left == objects[0] && n.right == objects[0]
        &&& objects.len() == 2 ==> if key(objects[0] as int) < key(objects[1] as int) {
            n.left == objects[0] && n.right == objects[1]
        } else {
            n.left == objects[1] && n.right == objects[0]
        }
        &&& objects.len() >= 3 ==> exists|s: Seq<usize>|
            #[trigger] sorted_by_key(w_old, s, axis, time0, time1) && s.len() == objects.len()
                && s.to_set() == objects.to_set() && members(w, n.left as int, w_old.len() as int)
                == s.subrange(0, half).to_set() && members(w, n.right as int, w_old.len() as int)
                == s.subrange(half, objects.len() as int).to_set()
    }
}

/// The objects held by the hierarchy rooted at `i`, from left to right.
pub open spec fn leaves(w: Seq<Hittable>, i: int, base: int) -> Seq<usize>
    decreases i,
{
    if 0 <= i < base {
        seq![i as usize]
    } else if 0 <= base <= i < w.len() {
        match w[i] {
            Hittable::Bvh(n) => if n.left < i && n.right < i {
                leaves(w, n.left as int, base) + leaves(w, n.right as int, base)
            } else {
                Seq::empty()
            },
            _ => Seq::empty(),
        }
    } else {
        Seq::empty()
    }
}

/// Every hierarchy node at or above `base` reached from `i` has children
/// with boxes and caches the box surrounding them; no other object at or
/// above `base` is reached.
pub open spec fn sound_tree(w: Seq<Hittable>, i: int, base: int, time0: int, time1: int) -> bool
    decreases i,
{
    if 0 <= i < base {
        true
    } else if 0 <= base <= i < w.len() {
        match w[i] {
            Hittable::Bvh(n) => {
                &&& n.left < i
                &&& n.right < i
                &&& box_spec(w, n.left as int, time0, time1).is_some()
                &&& box_spec(w, n.right as int, time0, time1).is_some()
                &&& n.tree_box == surrounding_spec(
                    box_spec(w, n.left as int, time0, time1).unwrap(),
                    box_spec(w, n.right as int, time0, time1).unwrap(),
                )
                &&& sound_tree(w, n.left as int, base, time0, time1)
                &&& sound_tree(w, n.right as int, base, time0, time1)
            },
            Hittable::Empty => true,
            _ => false,
        }
    } else {
        false
    }
}

/// The leaves of a hierarchy are its members.
pub proof fn lemma_leaves_members(w: Seq<Hittable>, i: int, base: int)
    ensures
        leaves(w, i, base).to_set() == members(w, i, base),
    decreases i,
{
    if 0 <= i < base {
        let one = seq![i as usize];
        assert(one[0] == i as usize);
        assert(one.contains(i as usize));
        assert(one.to_set() =~= set![i as usize]);
    } else if 0 <= base <= i < w.len() {
        if let Hittable::Bvh(n) = w[i] {
            if n.left < i && n.right < i {
                lemma_leaves_members(w, n.left as int, base);
                lemma_leaves_members(w, n.right as int, base);
                lemma_concat_set(leaves(w, n.left as int, base), leaves(w, n.right as int, base));
            } else {
                assert(Seq::<usize>::empty().to_set() =~= Set::<usize>::empty());
            }
        } else {
            assert(Seq::<usize>::empty().to_set() =~= Set::<usize>::empty());
        }
    } else {
        assert(Seq::<usize>::empty().to_set() =~= Set::<usize>::empty());
    }
}

/// The elements of a concatenation are those of its two parts.
pub proof fn lemma_concat_set(a: Seq<usize>, b: Seq<usize>)
    ensures
        (a + b).to_set() == a.to_set().union(b.to_set()),
{
    let c = a + b;
    assert forall|x: usize| c.to_set().contains(x) <==> a.to_set().union(b.to_set()).contains(x) by {
        if c.contains(x) {
            let k = choose|k: int| 0 <= k < c.len() && c[k] == x;
            if k < a.len() {
                assert(a[k] == x);
            } else {
                assert(b[k - a.len()] == x);
            }
        }
        if a.contains(x) {
            let k = choose|k: int| 0 <= k < a.len() && a[k] == x;
            assert(c[k] == x);
        }
        if b.contains(x) {
            let k = choose|k: int| 0 <= k < b.len() && b[k] == x;
            assert(c[k + a.len()] == x);
        }
    }
    assert(c.to_set() =~= a.to_set().union(b.to_set()));
}

/// Adding objects to a scene leaves a hierarchy's leaves and soundness
/// unchanged.
proof fn lemma_tree_extend(w: Seq<Hittable>, w2: Seq<Hittable>, i: int, base: int, time0: int, time1: int)
    requires
        extends(w2, w),
        0 <= i < w.len(),
    ensures
        leaves(w2, i, base) == leaves(w, i, base),
        sound_tree(w2, i, base, time0, time1) == sound_tree(w, i, base, time0, time1),
    decreases i,
{
    if 0 <= base <= i {
        assert(w2[i] == w[i]);
        if let Hittable::Bvh(n) = w[i] {
            if n.left < i && n.right < i {
                lemma_tree_extend(w, w2, n.left as int, base, time0, time1);
                lemma_tree_extend(w, w2, n.right as int, base, time0, time1);
                lemma_box_extend(w, w2, n.left as int, time0, time1);
                lemma_box_extend(w, w2, n.right as int, time0, time1);
            }
        }
    }
}

/// Lowering the base changes neither leaves nor soundness while every
/// member lies below the lower base.
proof fn lemma_tree_base(w: Seq<Hittable>, i: int, b1: int, b2: int, time0: int, time1: int)
    requires
        0 <= b1 <= b2,
        0 <= i,
        i < b1 || b2 <= i,
        forall|x: usize| #[trigger] members(w, i, b2).contains(x) ==> x < b1,
    ensures
        leaves(w, i, b1) == leaves(w, i, b2),
        sound_tree(w, i, b2, time0, time1) ==> sound_tree(w, i, b1, time0, time1),
    decreases i,
{
    if b2 <= i < w.len() {
        if let Hittable::Bvh(n) = w[i] {
            if n.left < i && n.right < i {
                let l = n.left as int;
                let r = n.right as int;
                assert forall|x: usize| #[trigger] members(w, l, b2).contains(x) implies x < b1 by {
                    assert(members(w, i, b2).contains(x));
                }
                assert forall|x: usize| #[trigger] members(w, r, b2).contains(x) implies x < b1 by {
                    assert(members(w, i, b2).contains(x));
                }
                if b1 <= l < b2 {
                    assert(members(w, l, b2).contains(l as usize));
                }
                if b1 <= r < b2 {
                    assert(members(w, r, b2).contains(r as usize));
                }
                lemma_tree_base(w, l, b1, b2, time0, time1);
                lemma_tree_base(w, r, b1, b2, time0, time1);
            }
        }
    }
}

/// Adding objects to a scene leaves the members of a hierarchy unchanged.
proof fn lemma_members_extend(w: Seq<Hittable>, w2: Seq<Hittable>, i: int, base: int)
    requires
        extends(w2, w),
        0 <= i < w.len(),
    ensures
        members(w2, i, base) == members(w, i, base),
    decreases i,
{
    if 0 <= base <= i {
        assert(w2[i] == w[i]);
        if let Hittable::Bvh(n) = w[i] {
            if n.left < i && n.right < i {
                lemma_members_extend(w, w2, n.left as int, base);
                lemma_members_extend(w, w2, n.right as int, base);
            }
        }
    }
}

/// Lowering the base changes nothing while every member lies below the
/// lower base.
proof fn lemma_members_base(w: Seq<Hittable>, i: int, b1: int, b2: int)
    requires
        0 <= b1 <= b2,
        0 <= i,
        i < b1 || b2 <= i,
        forall|x: usize| #[trigger] members(w, i, b2).contains(x) ==> x < b1,
    ensures
        members(w, i, b1) == members(w, i, b2),
    decreases i,
{
    if b2 <= i < w.len() {
        if let Hittable::Bvh(n) = w[i] {
            if n.left < i && n.right < i {
                let l = n.left as int;
                let r = n.right as int;
                assert forall|x: usize| #[trigger] members(w, l, b2).contains(x) implies x < b1 by {
                    assert(members(w, i, b2).contains(x));
                }
                assert forall|x: usize| #[trigger] members(w, r, b2).contains(x) implies x < b1 by {
                    assert(members(w, i, b2).contains(x));
                }
                if b1 <= l < b2 {
                    assert(members(w, l, b2).contains(l as usize));
                }
                if b1 <= r < b2 {
                    assert(members(w, r, b2).contains(r as usize));
                }
                lemma_members_base(w, l, b1, b2);
                lemma_members_base(w, r, b1, b2);
            }
        }
    }
}

/// The two halves of a sequence hold its elements.
proof fn lemma_split_set(s: Seq<usize>, mid: int)
    requires
        0 <= mid <= s.len(),
    ensures
        s.subrange(0, mid).to_set().union(s.subrange(mid, s.len() as int).to_set()) == s.to_set(),
{
    let a = s.subrange(0, mid);
    let b = s.subrange(mid, s.len() as int);
    assert forall|x: usize| a.to_set().union(b.to_set()).contains(x) <==> s.to_set().contains(x) by {
        if a.contains(x) {
            let k = choose|k: int| 0 <= k < a.len() && a[k] == x;
            assert(s[k] == x);
        }
        if b.contains(x) {
            let k = choose|k: int| 0 <= k < b.len() && b[k] == x;
            assert(s[k + mid] == x);
        }
        if s.contains(x) {
            let k = choose|k: int| 0 <= k < s.len() && s[k] == x;
            if k < mid {
                assert(a[k] == x);
            } else {
                assert(b[k - mid] == x);
            }
        }
    }
    assert(a.to_set().union(b.to_set()) =~= s.to_set());
}

proof fn lemma_all_boxed_extend(w: Seq<Hittable>, w2: Seq<Hittable>, ids: Seq<usize>, time0: int, time1: int)
    requires
        all_boxed(w, ids, time0, time1),
        extends(w2, w),
    ensures
        all_boxed(w2, ids, time0, time1),
{
    assert forall|k: int| 0 <= k < ids.len() implies #[trigger] ids[k] < w2.len() && box_spec(
        w2,
        ids[k] as int,
        time0,
        time1,
    ).is_some() by {
        assert(ids[k] < w.len());
        lemma_box_extend(w, w2, ids[k] as int, time0, time1);
    }
}

proof fn lemma_extends_trans(a: Seq<Hittable>, b: Seq<Hittable>, c: Seq<Hittable>)
    requires
        extends(b, a),
        extends(c, b),
    ensures
        extends(c, a),
{
    assert forall|j: int| 0 <= j < a.len() implies #[trigger] c[j] == a[j] by {
        assert(c[j] == b[j]);
    }
}

impl BVH {
    /// Builds a hierarchy over the objects of `list`, adds its nodes to the
    /// scene and returns the index of its root; the hierarchy holds exactly
    /// the listed objects. Every object must have a bounding box over
    /// `[time0, time1]`.
    pub fn new(scene: &mut Scene, list: &HittableList, time0: i64, time1: i64) -> (root: usize)
        requires
            old(scene).wf(),
            all_boxed(old(scene).objects@, list.objects@, time0 as int, time1 as int),
        ensures
            built(old(scene).objects@, final(scene).objects@, root as int, time0 as int, time1 as int),
            members(final(scene).objects@, root as int, old(scene).objects@.len() as int)
                == list.objects@.to_set(),
            sound_tree(
                final(scene).objects@,
                root as int,
                old(scene).objects@.len() as int,
                time0 as int,
                time1 as int,
            ),
            nodes_sound(old(scene).objects@, time0 as int, time1 as int) ==> nodes_sound(
                final(scene).objects@,
                time0 as int,
                time1 as int,
            ),
            list.objects@.len() == 0 ==> forall|r: Ray, t_min: (int, int), t_max: (int, int)|
                #[trigger] hit_spec(final(scene).objects@, root as int, r, t_min, t_max).is_none(),
            only_nodes_added(old(scene).objects@, final(scene).objects@),
            boxes_ordered(old(scene).objects@, time0 as int, time1 as int) && nodes_sound(
                old(scene).objects@,
                time0 as int,
                time1 as int,
            ) ==> boxes_ordered(
                final(scene).objects@,
                time0 as int,
                time1 as int,
            ),
            list.objects@.len() > 0 ==> (box_spec(final(scene).objects@, root as int, time0 as int, time1 as int)
                matches Some(b) && surrounds_all(
                b,
                old(scene).objects@,
                list.objects@.to_set(),
                time0 as int,
                time1 as int,
            )),
    {
        let ids = list.objects.clone();
        assert(ids@ == list.objects@);
        let ghost w0 = scene.objects@;
        let root = Self::new_p(scene, ids, time0, time1);
        proof {
            if boxes_ordered(w0, time0 as int, time1 as int) && nodes_sound(w0, time0 as int, time1 as int) {
                lemma_ordered_after(w0, scene.objects@, time0 as int, time1 as int);
            }
        }
        root
    }

    fn new_p(scene: &mut Scene, objects: Vec<usize>, time0: i64, time1: i64) -> (root: usize)
        requires
            old(scene).wf(),
            all_boxed(old(scene).objects@, objects@, time0 as int, time1 as int),
        ensures
            built(old(scene).objects@, final(scene).objects@, root as int, time0 as int, time1 as int),
            members(final(scene).objects@, root as int, old(scene).objects@.len() as int)
                == objects@.to_set(),
            sound_tree(
                final(scene).objects@,
                root as int,
                old(scene).objects@.len() as int,
                time0 as int,
                time1 as int,
            ),
            nodes_sound(old(scene).objects@, time0 as int, time1 as int) ==> nodes_sound(
                final(scene).objects@,
                time0 as int,
                time1 as int,
            ),
            objects@.len() == 0 ==> forall|r: Ray, t_min: (int, int), t_max: (int, int)|
                #[trigger] hit_spec(final(scene).objects@, root as int, r, t_min, t_max).is_none(),
            only_nodes_added(old(scene).objects@, final(scene).objects@),
            objects@.len() > 0 ==> (box_spec(final(scene).objects@, root as int, time0 as int, time1 as int)
                matches Some(b) && surrounds_all(
                b,
                old(scene).objects@,
                objects@.to_set(),
                time0 as int,
                time1 as int,
            )),
            exists|axis: int|
                0 <= axis < 3 && #[trigger] split_ok(
                    old(scene).objects@,
                    final(scene).objects@,
                    root as int,
                    objects@,
                    axis,
                    time0 as int,
                    time1 as int,
                ),
        decreases objects@.len(), 1nat,
    {
        let ghost w0 = scene.objects@;
        let ghost input = objects@;
        let axis = random_int(0, 2) as usize;
        let root = Self::split(scene, objects, axis, time0, time1);
        assert(split_ok(w0, scene.objects@, root as int, input, axis as int, time0 as int, time1 as int));
        root
    }

    /// Builds the node over `objects` split along `axis`: no objects give a
    /// node over the empty placeholder, one object is both children, two
    /// are ordered by the low corner of their boxes on the axis, and more
    /// are sorted that way and their lower and upper halves built
    /// recursively, so that every member of the left subtree comes no later
    /// on the axis than every member of the right one.
    pub fn split(scene: &mut Scene, objects: Vec<usize>, axis: usize, time0: i64, time1: i64) -> (root: usize)
        requires
            old(scene).wf(),
            axis < 3,
            all_boxed(old(scene).objects@, objects@, time0 as int, time1 as int),
        ensures
            built(old(scene).objects@, final(scene).objects@, root as int, time0 as int, time1 as int),
            members(final(scene).objects@, root as int, old(scene).objects@.len() as int)
                == objects@.to_set(),
            sound_tree(
                final(scene).objects@,
                root as int,
                old(scene).objects@.len() as int,
                time0 as int,
                time1 as int,
            ),
            nodes_sound(old(scene).objects@, time0 as int, time1 as int) ==> nodes_sound(
                final(scene).objects@,
                time0 as int,
                time1 as int,
            ),
            objects@.len() == 0 ==> forall|r: Ray, t_min: (int, int), t_max: (int, int)|
                #[trigger] hit_spec(final(scene).objects@, root as int, r, t_min, t_max).is_none(),
            only_nodes_added(old(scene).objects@, final(scene).objects@),
            objects@.len() > 0 ==> (box_spec(final(scene).objects@, root as int, time0 as int, time1 as int)
                matches Some(b) && surrounds_all(
                b,
                old(scene).objects@,
                objects@.to_set(),
                time0 as int,
                time1 as int,
            )),
            split_ok(
                old(scene).objects@,
                final(scene).objects@,
                root as int,
                objects@,
                axis as int,
                time0 as int,
                time1 as int,
            ),
        decreases objects@.len(), 0nat,
    {
        let ghost w0 = scene.objects@;
        let ghost base = w0.len() as int;
        let ghost input = objects@;
        let ghost mut sorted = objects@;
        let mut objects = objects;
        let span = objects.len();
        let left: usize;
        let right: usize;
        if span == 0 {
            proof {
                if nodes_sound(w0, time0 as int, time1 as int) {
                    lemma_nodes_sound_push(w0, Hittable::Empty, time0 as int, time1 as int);
                }
            }
            left = scene.add(Hittable::Empty);
            right = left;
            assert(box_spec(scene.objects@, left as int, time0 as int, time1 as int).is_some());
            assert(members(scene.objects@, left as int, base) =~= Set::<usize>::empty());
            assert(input.to_set() =~= Set::<usize>::empty());
        } else if span == 1 {
            assert(all_boxed(w0, objects@, time0 as int, time1 as int));
            assert(objects@[0] < w0.len());
            left = objects[0];
            right = objects[0];
            assert(input.to_set() =~= set![left]) by {
                assert(input.contains(left));
            }
        } else if span == 2 {
            assert(objects@[0] < w0.len() && objects@[1] < w0.len());
            let k0 = key_of(scene, objects[0], axis, time0, time1);
            let k1 = key_of(scene, objects[1], axis, time0, time1);
            if k0 < k1 {
                left = objects[0];
                right = objects[1];
            } else {
                left = objects[1];
                right = objects[0];
            }
            assert(input.to_set() =~= set![left].union(set![right])) by {
                assert(input.contains(objects@[0]));
                assert(input.contains(objects@[1]));
            }
        } else {
            sort_by_key(scene, &mut objects, axis, time0, time1);
            proof {
                sorted = objects@;
            }
            let mid = span / 2;
            let lower = sub_vec(&objects, 0, mid);
            let upper = sub_vec(&objects, mid, span);
            let ghost w1 = scene.objects@;
            let ghost lower_set = lower@.to_set();
            let ghost upper_set = upper@.to_set();
            proof {
                lemma_split_set(objects@, mid as int);
            }
            left = Self::new_p(scene, lower, time0, time1);
            let ghost w2 = scene.objects@;
            proof {
                lemma_all_boxed_extend(w1, w2, upper@, time0 as int, time1 as int);
            }
            right = Self::new_p(scene, upper, time0, time1);
            proof {
                let w3 = scene.objects@;
                lemma_box_extend(w2, w3, left as int, time0 as int, time1 as int);
                lemma_extends_trans(w1, w2, w3);
                lemma_only_nodes_trans(w1, w2, w3);
                lemma_members_extend(w2, w3, left as int, base);
                assert forall|x: usize| #[trigger] members(w3, right as int, w2.len() as int).contains(x)
                    implies x < base by {
                    assert(upper_set.contains(x));
                    let k = choose|k: int| 0 <= k < upper@.len() && upper@[k] == x;
                    assert(upper@[k] == objects@[mid + k]);
                    assert(all_boxed(w0, objects@, time0 as int, time1 as int));
                    assert(objects@[mid + k] < w0.len());
                }
                lemma_members_base(w3, right as int, base, w2.len() as int);
                lemma_tree_extend(w2, w3, left as int, base, time0 as int, time1 as int);
                lemma_tree_base(w3, right as int, base, w2.len() as int, time0 as int, time1 as int);
                assert(members(w3, left as int, base) == lower_set);
                assert(members(w3, right as int, base) == upper_set);
                assert forall|x: usize| #[trigger] upper_set.contains(x) implies x < w0.len() by {
                    let k = choose|k: int| 0 <= k < upper@.len() && upper@[k] == x;
                    assert(upper@[k] == objects@[mid + k]);
                    assert(all_boxed(w0, objects@, time0 as int, time1 as int));
                }
                lemma_surrounds_extend(
                    box_spec(w3, right as int, time0 as int, time1 as int).unwrap(),
                    w0,
                    w2,
                    upper_set,
                    time0 as int,
                    time1 as int,
                );
            }
        }
        let ghost w4 = scene.objects@;
        proof {
            assert(extends(w4, w0));
            if span == 1 || span == 2 {
                assert(box_spec(w4, left as int, time0 as int, time1 as int).is_some());
                assert(box_spec(w4, right as int, time0 as int, time1 as int).is_some());
            }
        }
        let box_left = scene.bounding_box(left, time0, time1).unwrap();
        let box_right = scene.bounding_box(right, time0, time1).unwrap();
        proof {
            lemma_surrounding_encloses(box_left, box_right);
        }
        let tree_box = AABB::surrounding_box(&box_left, &box_right);
        proof {
            if span == 1 {
                lemma_surrounds_single(w0, left, time0 as int, time1 as int);
                lemma_surrounds_union(box_left, box_right, w0, set![left], set![left], time0 as int, time1 as int);
                assert(set![left].union(set![left]) =~= set![left]);
            } else if span == 2 {
                lemma_surrounds_single(w0, left, time0 as int, time1 as int);
                lemma_surrounds_single(w0, right, time0 as int, time1 as int);
                lemma_surrounds_union(box_left, box_right, w0, set![left], set![right], time0 as int, time1 as int);
            } else if span >= 3 {
                lemma_surrounds_union(
                    box_left,
                    box_right,
                    w0,
                    objects@.subrange(0, (span / 2) as int).to_set(),
                    objects@.subrange((span / 2) as int, span as int).to_set(),
                    time0 as int,
                    time1 as int,
                );
            }
        }
        let node = BVH { left, right, tree_box };
        proof {
            let w4p = w4.push(Hittable::Bvh(node));
            lemma_box_extend(w4, w4p, left as int, time0 as int, time1 as int);
            lemma_box_extend(w4, w4p, right as int, time0 as int, time1 as int);
            if nodes_sound(w0, time0 as int, time1 as int) {
                lemma_nodes_sound_push(w4, Hittable::Bvh(node), time0 as int, time1 as int);
            }
        }
        let root = scene.add(Hittable::Bvh(node));
        proof {
            lemma_extends_trans(w0, w4, scene.objects@);
            let w5 = scene.objects@;
            assert(only_nodes_added(w4, w5));
            lemma_only_nodes_trans(w0, w4, w5);
            if left < w4.len() {
                lemma_members_extend(w4, w5, left as int, base);
                lemma_tree_extend(w4, w5, left as int, base, time0 as int, time1 as int);
                lemma_box_extend(w4, w5, left as int, time0 as int, time1 as int);
            }
            if right < w4.len() {
                lemma_members_extend(w4, w5, right as int, base);
                lemma_tree_extend(w4, w5, right as int, base, time0 as int, time1 as int);
                lemma_box_extend(w4, w5, right as int, time0 as int, time1 as int);
            }
            assert(members(w5, root as int, base) == members(w5, left as int, base).union(
                members(w5, right as int, base),
            ));
            if span >= 3 {
                assert(sorted_by_key(w0, sorted, axis as int, time0 as int, time1 as int));
                assert(members(w5, left as int, base) == sorted.subrange(0, (span / 2) as int).to_set());
                assert(members(w5, right as int, base) == sorted.subrange((span / 2) as int, span as int).to_set());
            }
            if span == 1 {
                assert(members(w5, left as int, base) =~= set![left]);
                assert(set![left].union(set![left]) =~= set![left]);
            }
            if span == 0 {
                assert(w5[left as int] == Hittable::Empty);
                assert forall|r: Ray, t_min: (int, int), t_max: (int, int)| #[trigger] hit_spec(
                    w5,
                    root as int,
                    r,
                    t_min,
                    t_max,
                ).is_none() by {
                    assert(hit_spec(w5, left as int, r, t_min, t_max).is_none());
                }
                assert(members(w5, left as int, base) =~= Set::<usize>::empty());
                assert(Set::<usize>::empty().union(Set::<usize>::empty()) =~= Set::<usize>::empty());
            }
        }
        root
    }
}

/// The sort key of object `id`.
fn key_of(scene: &Scene, id: usize, axis: usize, time0: i64, time1: i64) -> (k: i64)
    requires
        scene.wf(),
        axis < 3,
        box_spec(scene.objects@, id as int, time0 as int, time1 as int).is_some(),
    ensures
        k == box_key(scene.objects@, id as int, axis as int, time0 as int, time1 as int),
{
    let b = scene.bounding_box(id, time0, time1).unwrap();
    b.minimum.get(axis)
}

/// `v[lo..hi]` as a vector of its own.
fn sub_vec(v: &Vec<usize>, lo: usize, hi: usize) -> (r: Vec<usize>)
    requires
        lo <= hi <= v@.len(),
    ensures
        r@ == v@.subrange(lo as int, hi as int),
{
    let mut r: Vec<usize> = Vec::new();
    let mut k = lo;
    while k < hi
        invariant
            lo <= k <= hi <= v@.len(),
            r@ == v@.subrange(lo as int, k as int),
        decreases hi - k,
    {
        r.push(v[k]);
        k = k + 1;
    }
    r
}

/// Sorts object indices by the low corner of their boxes on `axis`
/// (insertion sort).
fn sort_by_key(scene: &Scene, objects: &mut Vec<usize>, axis: usize, time0: i64, time1: i64)
    requires
        scene.wf(),
        axis < 3,
        all_boxed(scene.objects@, old(objects)@, time0 as int, time1 as int),
    ensures
        final(objects)@.len() == old(objects)@.len(),
        final(objects)@.to_set() == old(objects)@.to_set(),
        all_boxed(scene.objects@, final(objects)@, time0 as int, time1 as int),
        forall|a: int, b: int|
            0 <= a < b < final(objects)@.len() ==> box_key(scene.objects@, final(objects)@[a] as int, axis as int, time0 as int, time1 as int)
                <= box_key(scene.objects@, final(objects)@[b] as int, axis as int, time0 as int, time1 as int),
{
    let ghost w = scene.objects@;
    let ghost orig = objects@;
    let n = objects.len();
    let mut i: usize = 1;
    if n == 0 {
        return;
    }
    while i < n
        invariant
            scene.wf(),
            axis < 3,
            scene.objects@ == w,
            objects@.len() == n,
            1 <= i <= n,
            objects@.to_set() == orig.to_set(),
            all_boxed(w, objects@, time0 as int, time1 as int),
            forall|a: int, b: int|
                0 <= a < b < i ==> box_key(w, objects@[a] as int, axis as int, time0 as int, time1 as int)
                    <= box_key(w, objects@[b] as int, axis as int, time0 as int, time1 as int),
        decreases n - i,
    {
        let mut j = i;
        while j > 0 && key_of(scene, objects[j - 1], axis, time0, time1) > key_of(scene, objects[j], axis, time0, time1)
            invariant
                scene.wf(),
                axis < 3,
                scene.objects@ == w,
                objects@.len() == n,
                1 <= i < n,
                0 <= j <= i,
                objects@.to_set() == orig.to_set(),
                all_boxed(w, objects@, time0 as int, time1 as int),
                forall|a: int, b: int|
                    0 <= a < b <= i && b != j ==> box_key(w, objects@[a] as int, axis as int, time0 as int, time1 as int)
                        <= box_key(w, objects@[b] as int, axis as int, time0 as int, time1 as int),
                forall|a: int, b: int|
                    0 <= a < j && j < b <= i ==> box_key(w, objects@[a] as int, axis as int, time0 as int, time1 as int)
                        <= box_key(w, objects@[b] as int, axis as int, time0 as int, time1 as int),
            decreases j,
        {
            let ghost before = objects@;
            let x = objects[j - 1];
            let y = objects[j];
            objects.set(j - 1, y);
            objects.set(j, x);
            proof {
                assert(objects@ == before.update(j - 1, y).update(j as int, x));
                lemma_swap_same_set(before, (j - 1) as int, j as int);
                assert forall|k: int| 0 <= k < objects@.len() implies #[trigger] objects@[k] < w.len()
                    && box_spec(w, objects@[k] as int, time0 as int, time1 as int).is_some() by {
                    if k == j - 1 {
                        assert(before[j as int] < w.len());
                    } else if k == j {
                        assert(before[j - 1] < w.len());
                    } else {
                        assert(before[k] < w.len());
                    }
                }
            }
            j = j - 1;
        }
        i = i + 1;
    }
}

/// Exchanging two elements keeps the set of elements.
proof fn lemma_swap_same_set(s: Seq<usize>, a: int, b: int)
    requires
        0 <= a < s.len(),
        0 <= b < s.len(),
    ensures
        s.update(a, s[b]).update(b, s[a]).to_set() == s.to_set(),
{
    let t = s.update(a, s[b]).update(b, s[a]);
    assert forall|x: usize| t.contains(x) <==> s.contains(x) by {
        if t.contains(x) {
            let k = choose|k: int| 0 <= k < t.len() && t[k] == x;
            let k2 = if k == a { b } else if k == b { a } else { k };
            assert(s[k2] == x);
        }
        if s.contains(x) {
            let k = choose|k: int| 0 <= k < s.len() && s[k] == x;
            let k2 = if k == a { b } else if k == b { a } else { k };
            assert(t[k2] == x);
        }
    }
    assert(t.to_set() =~= s.to_set());
}

} // verus!
