use raytracer::aarect::{XyRect, XzRect, YzRect};
use raytracer::constant_medium::ConstantMedium;
use raytracer::rotate::RotateY;
use raytracer::hittable::{Hittable, HittableList, Scene, Translate, BVH};
use raytracer::param::Param;
use raytracer::ray::Ray;
use raytracer::sphere::{MovingSphere, Sphere};
use raytracer::vec3::{Vec3, COORD_LIMIT};

fn v(x: i64, y: i64, z: i64) -> Vec3 {
    Vec3::new(x, y, z)
}

fn same_value(a: Param, b: Param) -> bool {
    a.le(&b) && b.le(&a)
}

#[test]
fn sphere_hit_from_outside_reports_near_side() {
    // A unit sphere at (0,0,-1) of radius 1/2, in lattice units of one half.
    let s = Sphere::new(v(0, 0, -2), 1, 7);
    let r = Ray::new(v(0, 0, 0), v(0, 0, -2), 0);
    let rec = s.hit(&r, Param::from_int(0), Param::infinity()).unwrap();
    assert!(same_value(rec.t, Param::new(1, 2)));
    assert!(rec.front_face);
    assert_eq!(rec.normal, v(0, 0, 1));
    assert_eq!(rec.mat, 7);
    assert!(rec.uv.is_none());
}

#[test]
fn sphere_miss_reports_nothing() {
    let s = Sphere::new(v(0, 0, -2), 1, 0);
    let r = Ray::new(v(0, 0, 0), v(0, 3, -2), 0);
    assert!(s.hit(&r, Param::from_int(0), Param::infinity()).is_none());
    let behind = Ray::new(v(0, 0, 0), v(0, 0, 2), 0);
    assert!(s.hit(&behind, Param::from_int(0), Param::infinity()).is_none());
}

#[test]
fn sphere_hit_from_inside_flips_normal() {
    let s = Sphere::new(v(0, 0, 0), 10, 0);
    let r = Ray::new(v(0, 0, 0), v(1, 0, 0), 0);
    let rec = s.hit(&r, Param::from_int(0), Param::infinity()).unwrap();
    assert!(same_value(rec.t, Param::from_int(10)));
    assert!(!rec.front_face);
    assert_eq!(rec.normal, v(-10, 0, 0));
}

#[test]
fn normal_always_opposes_ray() {
    let s = Sphere::new(v(3, -2, 5), 4, 0);
    let rays = [
        Ray::new(v(-20, 1, 2), v(5, 0, 1), 0),
        Ray::new(v(3, -2, 5), v(1, 1, 1), 0),
        Ray::new(v(3, 10, 5), v(0, -1, 0), 0),
    ];
    for r in rays.iter() {
        if let Some(rec) = s.hit(r, Param::from_int(0), Param::infinity()) {
            let d = r.direction();
            let dot = d.x * rec.normal.x + d.y * rec.normal.y + d.z * rec.normal.z;
            assert!(dot <= 0);
        }
    }
}

#[test]
fn negative_radius_points_normals_inward() {
    let s = Sphere::new(v(0, 0, -4), -2, 0);
    let r = Ray::new(v(0, 0, 0), v(0, 0, -1), 0);
    let rec = s.hit(&r, Param::from_int(0), Param::infinity()).unwrap();
    assert!(same_value(rec.t, Param::from_int(2)));
    assert!(!rec.front_face);
    assert_eq!(rec.normal, v(0, 0, 2));
}

#[test]
fn sphere_bounding_box() {
    let s = Sphere::new(v(1, 2, 3), -4, 0);
    let b = s.bounding_box();
    assert_eq!(b.min(), v(-3, -2, -1));
    assert_eq!(b.max(), v(5, 6, 7));
}

#[test]
fn moving_sphere_center_and_hit() {
    let m = MovingSphere::new(v(0, 0, 0), v(10, 0, 0), 0, 4, 1, 0);
    assert_eq!(m.center(0), Some(v(0, 0, 0)));
    assert_eq!(m.center(2), Some(v(5, 0, 0)));
    assert_eq!(m.center(1), Some(v(2, 0, 0)));
    assert_eq!(m.center(4), Some(v(10, 0, 0)));
    let r = Ray::new(v(5, 0, 10), v(0, 0, -1), 2);
    let rec = m.hit(&r, Param::from_int(0), Param::infinity()).unwrap();
    assert!(same_value(rec.t, Param::from_int(9)));
    let early = Ray::new(v(5, 0, 10), v(0, 0, -1), 0);
    assert!(m.hit(&early, Param::from_int(0), Param::infinity()).is_none());
    let b = m.bounding_box(0, 4).unwrap();
    assert_eq!(b.min(), v(-1, -1, -1));
    assert_eq!(b.max(), v(11, 1, 1));
}

#[test]
fn rectangle_hits_and_uv() {
    let r = XyRect::new(0, 4, 0, 2, -5, 3);
    let ray = Ray::new(v(1, 1, 0), v(0, 0, -1), 0);
    let rec = r.hit(&ray, Param::from_int(0), Param::infinity()).unwrap();
    assert!(same_value(rec.t, Param::from_int(5)));
    assert_eq!(rec.normal, v(0, 0, 1));
    assert!(rec.front_face);
    let uv = rec.uv.unwrap();
    assert!(same_value(uv.u, Param::new(1, 4)));
    assert!(same_value(uv.v, Param::new(1, 2)));
    let outside = Ray::new(v(5, 1, 0), v(0, 0, -1), 0);
    assert!(r.hit(&outside, Param::from_int(0), Param::infinity()).is_none());
    let parallel = Ray::new(v(1, 1, 0), v(1, 0, 0), 0);
    assert!(r.hit(&parallel, Param::from_int(0), Param::infinity()).is_none());
    let b = r.bounding_box();
    assert_eq!(b.min(), v(0, 0, -6));
    assert_eq!(b.max(), v(4, 2, -4));
}

#[test]
fn other_rectangle_orientations() {
    let xz = XzRect::new(0, 10, 0, 10, 3, 0);
    let down = Ray::new(v(5, 8, 5), v(0, -1, 0), 0);
    let rec = xz.hit(&down, Param::from_int(0), Param::infinity()).unwrap();
    assert!(same_value(rec.t, Param::from_int(5)));
    assert_eq!(rec.normal, v(0, 1, 0));
    let yz = YzRect::new(0, 10, 0, 10, 2, 0);
    let from_right = Ray::new(v(6, 5, 5), v(-2, 0, 0), 0);
    let rec = yz.hit(&from_right, Param::from_int(0), Param::infinity()).unwrap();
    assert!(same_value(rec.t, Param::from_int(2)));
    assert!(rec.front_face);
    let from_left = Ray::new(v(-6, 5, 5), v(2, 0, 0), 0);
    let rec = yz.hit(&from_left, Param::from_int(0), Param::infinity()).unwrap();
    assert!(!rec.front_face);
    assert_eq!(rec.normal, v(-1, 0, 0));
}

fn build_scene() -> (Scene, HittableList) {
    let mut scene = Scene::new();
    let mut list = HittableList::new();
    let centers = [(0, 0, -10), (3, 1, -20), (-4, 2, -15), (1, -3, -8), (6, 6, -30), (-2, -5, -12)];
    for (k, c) in centers.iter().enumerate() {
        let i = scene.add(Hittable::Sphere(Sphere::new(v(c.0, c.1, c.2), 2, k)));
        list.add(i);
    }
    let i = scene.add(Hittable::XzRect(XzRect::new(-50, 50, -50, 50, -6, 9)));
    list.add(i);
    (scene, list)
}

#[test]
fn hierarchy_agrees_with_linear_scan() {
    let (mut scene, list) = build_scene();
    let list_index = scene.add(Hittable::List(list.clone()));
    let root = BVH::new(&mut scene, &list, 0, 1);
    let origins = [v(0, 0, 0), v(1, 1, 5), v(-3, 4, 2)];
    let dirs = [v(0, 0, -1), v(3, 1, -20), v(-4, 2, -15), v(1, -3, -8), v(0, -1, 0), v(2, 2, -1), v(0, 1, 0)];
    for o in origins.iter() {
        for d in dirs.iter() {
            let r = Ray::new(*o, *d, 0);
            let a = scene.hit(root, &r, Param::from_int(0), Param::infinity());
            let b = scene.hit(list_index, &r, Param::from_int(0), Param::infinity());
            assert_eq!(a.is_some(), b.is_some());
            if let (Some(x), Some(y)) = (a, b) {
                assert!(same_value(x.t, y.t));
            }
        }
    }
}

#[test]
fn list_reports_closest_hit() {
    let mut scene = Scene::new();
    let far = scene.add(Hittable::Sphere(Sphere::new(v(0, 0, -20), 2, 1)));
    let near = scene.add(Hittable::Sphere(Sphere::new(v(0, 0, -10), 2, 2)));
    let mut list = HittableList::new();
    list.add(far);
    list.add(near);
    let l = scene.add(Hittable::List(list));
    let r = Ray::new(v(0, 0, 0), v(0, 0, -1), 0);
    let rec = scene.hit(l, &r, Param::from_int(0), Param::infinity()).unwrap();
    assert_eq!(rec.mat, 2);
    assert!(same_value(rec.t, Param::from_int(8)));
    let b = scene.bounding_box(l, 0, 1).unwrap();
    assert_eq!(b.min(), v(-2, -2, -22));
    assert_eq!(b.max(), v(2, 2, -8));
}

#[test]
fn empty_list_has_no_box_and_no_hit() {
    let mut scene = Scene::new();
    let l = scene.add(Hittable::List(HittableList::new()));
    assert!(scene.bounding_box(l, 0, 1).is_none());
    let r = Ray::new(v(0, 0, 0), v(0, 0, -1), 0);
    assert!(scene.hit(l, &r, Param::from_int(0), Param::infinity()).is_none());
}

#[test]
fn translate_moves_object_and_box() {
    let mut scene = Scene::new();
    let s = scene.add(Hittable::Sphere(Sphere::new(v(0, 0, 0), 1, 0)));
    let t = scene.add(Hittable::Translate(Translate::new(s, v(10, 0, 0))));
    let r = Ray::new(v(10, 0, 5), v(0, 0, -1), 0);
    let rec = scene.hit(t, &r, Param::from_int(0), Param::infinity()).unwrap();
    assert!(same_value(rec.t, Param::from_int(4)));
    let miss = Ray::new(v(0, 0, 5), v(0, 0, -1), 0);
    assert!(scene.hit(t, &miss, Param::from_int(0), Param::infinity()).is_none());
    let b = scene.bounding_box(t, 0, 1).unwrap();
    assert_eq!(b.min(), v(9, -1, -1));
    assert_eq!(b.max(), v(11, 1, 1));
}

#[test]
fn hierarchy_over_one_and_no_objects() {
    let mut scene = Scene::new();
    let s = scene.add(Hittable::Sphere(Sphere::new(v(0, 0, -5), 1, 4)));
    let mut one = HittableList::new();
    one.add(s);
    let root = BVH::new(&mut scene, &one, 0, 1);
    let r = Ray::new(v(0, 0, 0), v(0, 0, -1), 0);
    let rec = scene.hit(root, &r, Param::from_int(0), Param::infinity()).unwrap();
    assert_eq!(rec.mat, 4);
    let empty = BVH::new(&mut scene, &HittableList::new(), 0, 1);
    let sideways = Ray::new(v(0, 3, 0), v(1, 0, 0), 0);
    assert!(scene.hit(empty, &sideways, Param::from_int(0), Param::infinity()).is_none());
}

#[test]
fn rotation_quarter_turn_moves_object_and_box() {
    let mut scene = Scene::new();
    let s = scene.add(Hittable::Sphere(Sphere::new(v(10, 0, 0), 1, 0)));
    // cos = 0, sin = 1: a quarter turn, taking +x to -z.
    let rot = RotateY::new(&scene, s, 0, 1, 1, 0, 1);
    assert_eq!(rot.to_object(&v(0, 0, -1)), Some(v(1, 0, 0)));
    assert_eq!(rot.normal_to_world(&v(1, 0, 0)), v(0, 0, -1));
    let b = rot.bbox.unwrap();
    assert_eq!(b.min(), v(-1, -1, -11));
    assert_eq!(b.max(), v(1, 1, -9));
    let i = scene.add(Hittable::RotateY(rot));
    let r = Ray::new(v(0, 0, 0), v(0, 0, -1), 0);
    let rec = scene.hit(i, &r, Param::from_int(0), Param::infinity()).unwrap();
    assert!(same_value(rec.t, Param::from_int(9)));
    assert_eq!(rec.normal, v(0, 0, 1));
    assert!(rec.front_face);
    let miss = Ray::new(v(0, 0, 0), v(1, 0, 0), 0);
    assert!(scene.hit(i, &miss, Param::from_int(0), Param::infinity()).is_none());
}

#[test]
fn rotation_by_pythagorean_triple() {
    let scene = Scene::new();
    let rot = RotateY::new(&scene, 0, 4, 3, 5, 0, 1);
    assert_eq!(rot.to_object(&v(5, 7, 0)), Some(v(4, 7, 3)));
    assert_eq!(rot.to_object(&v(0, 0, 5)), Some(v(-3, 0, 4)));
    assert!(rot.bbox.is_none());
}

#[test]
fn medium_interval_inside_boundary() {
    let mut scene = Scene::new();
    let s = scene.add(Hittable::Sphere(Sphere::new(v(0, 0, -10), 2, 0)));
    let m = ConstantMedium::new(s);
    let r = Ray::new(v(0, 0, 0), v(0, 0, -1), 0);
    let (a, b) = m.interval(&scene, &r, Param::from_int(0), Param::infinity()).unwrap();
    assert!(same_value(a, Param::from_int(8)));
    assert!(same_value(b, Param::from_int(12)));
    let (a, b) = m.interval(&scene, &r, Param::from_int(0), Param::from_int(10)).unwrap();
    assert!(same_value(a, Param::from_int(8)));
    assert!(same_value(b, Param::from_int(10)));
    let inside = Ray::new(v(0, 0, -10), v(0, 0, -1), 0);
    let (a, b) = m.interval(&scene, &inside, Param::from_int(0), Param::infinity()).unwrap();
    assert!(same_value(a, Param::from_int(0)));
    assert!(same_value(b, Param::from_int(2)));
    let away = Ray::new(v(0, 0, 0), v(0, 0, 1), 0);
    assert!(m.interval(&scene, &away, Param::from_int(0), Param::infinity()).is_none());
    assert!(m.interval(&scene, &r, Param::from_int(0), Param::from_int(5)).is_none());
}

#[test]
fn hierarchy_reaches_every_listed_object() {
    let (mut scene, list) = build_scene();
    let root = BVH::new(&mut scene, &list, 0, 1);
    // Aim a ray straight at each sphere's center from a point above it.
    let centers = [(0, 0, -10), (3, 1, -20), (-4, 2, -15), (1, -3, -8), (6, 6, -30), (-2, -5, -12)];
    for (k, c) in centers.iter().enumerate() {
        let r = Ray::new(v(c.0, 40, c.2), v(0, -1, 0), 0);
        let rec = scene.hit(root, &r, Param::from_int(0), Param::infinity()).unwrap();
        assert_eq!(rec.mat, k);
        assert!(same_value(rec.t, Param::from_int(40 - c.1 - 2)));
    }
}

#[test]
fn hierarchy_over_equal_keys() {
    let mut scene = Scene::new();
    let mut list = HittableList::new();
    for k in 0..5 {
        list.add(scene.add(Hittable::Sphere(Sphere::new(v(0, 0, -10), 2, k))));
    }
    let root = BVH::new(&mut scene, &list, 0, 1);
    let r = Ray::new(v(0, 0, 0), v(0, 0, -1), 0);
    let rec = scene.hit(root, &r, Param::from_int(0), Param::infinity()).unwrap();
    assert!(same_value(rec.t, Param::from_int(8)));
    assert!(rec.mat < 5);
}

#[test]
fn coordinates_at_the_limit() {

    let s = Sphere::new(v(COORD_LIMIT - 10, 0, 0), 10, 0);
    let r = Ray::new(v(-COORD_LIMIT, 0, 0), v(COORD_LIMIT, 0, 0), 0);
    let rec = s.hit(&r, Param::from_int(0), Param::infinity()).unwrap();
    // The near side lies at x = COORD_LIMIT - 20, reached at (2 * COORD_LIMIT - 20) / COORD_LIMIT.
    assert!(same_value(rec.t, Param::new(2 * COORD_LIMIT - 20, COORD_LIMIT)));
    let mut scene = Scene::new();
    let i = scene.add(Hittable::Sphere(Sphere::new(v(0, 0, 0), 1, 0)));
    let t = scene.add(Hittable::Translate(Translate::new(i, v(-COORD_LIMIT, 0, 0))));
    // The moved origin would leave the coordinate range: no hit is reported.
    let far = Ray::new(v(COORD_LIMIT, 0, 0), v(-1, 0, 0), 0);
    assert!(scene.hit(t, &far, Param::from_int(0), Param::infinity()).is_none());
}

#[test]
fn rotation_keeps_the_child_orientation() {
    let mut scene = Scene::new();
    let s = scene.add(Hittable::Sphere(Sphere::new(v(0, 0, 0), 10, 0)));
    let i = scene.add(Hittable::RotateY(RotateY::new(&scene, s, 1, 0, 1, 0, 1)));
    let r = Ray::new(v(0, 0, 0), v(1, 0, 0), 0);
    let child = scene.hit(s, &r, Param::from_int(0), Param::infinity()).unwrap();
    let rec = scene.hit(i, &r, Param::from_int(0), Param::infinity()).unwrap();
    assert!(!child.front_face);
    assert!(!rec.front_face);
    assert_eq!(rec.normal, v(-10, 0, 0));
    assert!(same_value(rec.t, Param::from_int(10)));
}

#[test]
fn translation_keeps_the_child_record() {
    let mut scene = Scene::new();
    let s = scene.add(Hittable::Sphere(Sphere::new(v(0, 0, 0), 2, 0)));
    let t = scene.add(Hittable::Translate(Translate::new(s, v(5, 0, 0))));
    // A ray grazing the sphere: its normal is perpendicular to the ray.
    let r = Ray::new(v(7, -5, 0), v(0, 1, 0), 0);
    let moved = Ray::new(v(2, -5, 0), v(0, 1, 0), 0);
    let child = scene.hit(s, &moved, Param::from_int(0), Param::infinity()).unwrap();
    let rec = scene.hit(t, &r, Param::from_int(0), Param::infinity()).unwrap();
    assert_eq!(rec, child);
    assert_eq!(rec.normal.y, 0);
    assert!(!rec.front_face);
}

#[test]
fn empty_hierarchy_is_never_hit() {
    let mut scene = Scene::new();
    let root = BVH::new(&mut scene, &HittableList::new(), 0, 1);
    let through_origin = Ray::new(v(0, 0, 1), v(0, 0, -1), 0);
    assert!(scene.hit(root, &through_origin, Param::new(1, 1000), Param::infinity()).is_none());
    assert!(scene.hit(root, &through_origin, Param::neg_infinity(), Param::infinity()).is_none());
}

#[test]
fn split_orders_two_objects_on_the_axis() {
    let mut scene = Scene::new();
    let a = scene.add(Hittable::Sphere(Sphere::new(v(5, 0, 0), 1, 0)));
    let b = scene.add(Hittable::Sphere(Sphere::new(v(1, 0, 0), 1, 1)));
    let root = BVH::split(&mut scene, vec![a, b], 0, 0, 1);
    match &scene.objects[root] {
        Hittable::Bvh(n) => {
            assert_eq!((n.left, n.right), (b, a));
            let bx = n.tree_box;
            assert_eq!(bx.min(), v(0, -1, -1));
            assert_eq!(bx.max(), v(6, 1, 1));
        }
        _ => panic!("the root is a hierarchy node"),
    }
    // Along y the two keys are equal: the second object comes first.
    let root = BVH::split(&mut scene, vec![a, b], 1, 0, 1);
    match &scene.objects[root] {
        Hittable::Bvh(n) => assert_eq!((n.left, n.right), (b, a)),
        _ => panic!("the root is a hierarchy node"),
    }
}

#[test]
fn moving_sphere_with_keyframes_in_reverse_order() {
    let m = MovingSphere::new(v(10, 0, 0), v(0, 0, 0), 4, 0, 1, 0);
    assert_eq!(m.center(4), Some(v(10, 0, 0)));
    assert_eq!(m.center(0), Some(v(0, 0, 0)));
    assert_eq!(m.center(2), Some(v(5, 0, 0)));
    assert_eq!(m.center(1), Some(v(2, 0, 0)));
    let r = Ray::new(v(5, 0, 10), v(0, 0, -1), 2);
    let rec = m.hit(&r, Param::from_int(0), Param::infinity()).unwrap();
    assert!(same_value(rec.t, Param::from_int(9)));
    let b = m.bounding_box(0, 4).unwrap();
    assert_eq!(b.min(), v(-1, -1, -1));
    assert_eq!(b.max(), v(11, 1, 1));
}

#[test]
fn hierarchy_box_surrounds_every_object() {
    let (mut scene, list) = build_scene();
    let root = BVH::new(&mut scene, &list, 0, 1);
    let b = scene.bounding_box(root, 0, 1).unwrap();
    assert_eq!(b.min(), v(-50, -7, -50));
    assert_eq!(b.max(), v(50, 8, 50));
}
