use raytracer::aabb::AABB;
use raytracer::param::Param;
use raytracer::ray::Ray;
use raytracer::rtweekend::{clamp, isqrt, random_int};
use raytracer::vec3::Vec3;

fn v(x: i64, y: i64, z: i64) -> Vec3 {
    Vec3::new(x, y, z)
}

#[test]
fn surrounding_box_takes_min_and_max_on_every_axis() {
    let a = AABB::new(v(0, 5, -3), v(2, 9, 1));
    let b = AABB::new(v(1, -4, -7), v(6, 3, 4));
    let s = AABB::surrounding_box(&a, &b);
    assert_eq!(s.min(), v(0, -4, -7));
    assert_eq!(s.max(), v(6, 9, 4));
}

#[test]
fn surrounding_box_contains_both_boxes() {
    let a = AABB::new(v(-10, 2, 3), v(-5, 4, 8));
    let b = AABB::new(v(7, -1, 5), v(9, 0, 6));
    let s = AABB::surrounding_box(&a, &b);
    for bx in [a, b] {
        assert!(s.min().x <= bx.min().x && s.min().y <= bx.min().y && s.min().z <= bx.min().z);
        assert!(s.max().x >= bx.max().x && s.max().y >= bx.max().y && s.max().z >= bx.max().z);
    }
}

#[test]
fn box_hit_and_miss() {
    let b = AABB::new(v(-1, -1, -1), v(1, 1, 1));
    let toward = Ray::new(v(0, 0, 5), v(0, 0, -1), 0);
    assert!(b.hit(&toward, Param::from_int(0), Param::infinity()));
    let away = Ray::new(v(0, 0, 5), v(0, 0, 1), 0);
    assert!(!b.hit(&away, Param::from_int(0), Param::infinity()));
    // The box lies at parameters 4 to 6: an interval ending at 3 misses it.
    assert!(!b.hit(&toward, Param::from_int(0), Param::from_int(3)));
    assert!(b.hit(&toward, Param::from_int(0), Param::from_int(4)));
}

#[test]
fn box_hit_with_parallel_direction() {
    let b = AABB::new(v(-1, -1, -1), v(1, 1, 1));
    // Direction has zero x and y components: the origin must lie in those slabs.
    let inside = Ray::new(v(0, 1, 5), v(0, 0, -1), 0);
    assert!(b.hit(&inside, Param::from_int(0), Param::infinity()));
    let outside = Ray::new(v(2, 0, 5), v(0, 0, -1), 0);
    assert!(!b.hit(&outside, Param::from_int(0), Param::infinity()));
}

#[test]
fn box_hit_ignores_corner_order() {
    let b = AABB::new(v(-1, 2, -3), v(4, 6, 1));
    let swapped = AABB::new(v(4, 2, 1), v(-1, 6, -3));
    let rays = [
        Ray::new(v(0, 0, 0), v(1, 2, -1), 0),
        Ray::new(v(10, 10, 10), v(-3, -2, -5), 0),
        Ray::new(v(-5, 4, -1), v(1, 0, 0), 0),
        Ray::new(v(0, 0, 0), v(-1, -1, -1), 0),
    ];
    for r in rays.iter() {
        assert_eq!(
            b.hit(r, Param::from_int(0), Param::infinity()),
            swapped.hit(r, Param::from_int(0), Param::infinity())
        );
    }
}

#[test]
fn param_comparisons() {
    let half = Param::new(1, 2);
    let two_quarters = Param::new(2, 4);
    assert!(half.le(&two_quarters) && two_quarters.le(&half));
    assert!(!half.lt(&two_quarters));
    assert!(Param::new(1, 3).lt(&half));
    assert_eq!(half.max(&Param::new(2, 3)), Param::new(2, 3));
    assert_eq!(half.min(&Param::new(2, 3)), half);
}

#[test]
fn integer_square_roots() {
    assert_eq!(isqrt(0), 0);
    assert_eq!(isqrt(1), 1);
    assert_eq!(isqrt(15), 3);
    assert_eq!(isqrt(16), 4);
    assert_eq!(isqrt(1_000_000_000_000), 1_000_000);
}

#[test]
fn clamp_limits() {
    assert_eq!(clamp(-5, 0, 10), 0);
    assert_eq!(clamp(15, 0, 10), 10);
    assert_eq!(clamp(7, 0, 10), 7);
}

#[test]
fn random_int_stays_in_range_and_varies() {
    let mut seen = [false; 3];
    for _ in 0..300 {
        let r = random_int(-1, 1);
        assert!((-1..=1).contains(&r));
        seen[(r + 1) as usize] = true;
    }
    assert!(seen.iter().all(|s| *s));
}
