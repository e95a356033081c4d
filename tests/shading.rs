use raytracer::hit_record::HitRecord;
use raytracer::integrator::{next_step, Step};
use raytracer::material::Dielectric;
use raytracer::onb::Onb;
use raytracer::param::Param;
use raytracer::pdf::CosinePdf;
use raytracer::perlin::{Perlin, POINT_COUNT};
use raytracer::ray::Ray;
use raytracer::sphere::Sphere;
use raytracer::vec3::Vec3;

fn v(x: i64, y: i64, z: i64) -> Vec3 {
    Vec3::new(x, y, z)
}

fn dot(a: Vec3, b: Vec3) -> i128 {
    a.x as i128 * b.x as i128 + a.y as i128 * b.y as i128 + a.z as i128 * b.z as i128
}

#[test]
fn basis_axes_are_orthogonal() {
    for n in [v(0, 0, 1), v(3, -4, 12), v(100, 1, 1), v(-7, 2, 0)] {
        let b = Onb::build_from_w(n);
        assert_eq!(b.w(), n);
        assert_eq!(dot(b.u(), b.v()), 0);
        assert_eq!(dot(b.v(), b.w()), 0);
        assert_eq!(dot(b.u(), b.w()), 0);
        assert_ne!(b.v(), v(0, 0, 0));
    }
}

#[test]
fn basis_picks_helper_axis() {
    // Nearly along x: the helper axis is y, so v = w x y.
    let b = Onb::build_from_w(v(10, 1, 0));
    assert_eq!(b.v(), v(0, 0, 10));
    assert_eq!(b.u(), v(10, -100, 0));
    // Otherwise the helper axis is x, so v = w x x.
    let b = Onb::build_from_w(v(0, 0, 1));
    assert_eq!(b.v(), v(0, 1, 0));
    assert_eq!(b.u(), v(-1, 0, 0));
}

#[test]
fn local_coordinates_combine_axes() {
    let b = Onb::build_from_w(v(0, 0, 1));
    let w = b.local_vec(&v(2, 3, 4));
    assert_eq!((w.x, w.y, w.z), (-2, 3, 4));
}

#[test]
fn cosine_sampler_hemisphere() {
    let p = CosinePdf::new(&v(0, 1, 0));
    assert_eq!(p.uvw.w(), v(0, 1, 0));
    assert!(p.in_hemisphere(&v(1, 1, 0)));
    assert!(!p.in_hemisphere(&v(1, 0, 0)));
    assert!(!p.in_hemisphere(&v(0, -1, 0)));
}

fn is_permutation(p: &[usize]) -> bool {
    let mut seen = vec![false; POINT_COUNT];
    if p.len() != POINT_COUNT {
        return false;
    }
    for &x in p {
        if x >= POINT_COUNT || seen[x] {
            return false;
        }
        seen[x] = true;
    }
    true
}

#[test]
fn perlin_tables_are_permutations() {
    let p = Perlin::new();
    assert!(is_permutation(&p.perm_x));
    assert!(is_permutation(&p.perm_y));
    assert!(is_permutation(&p.perm_z));
    assert_eq!(p.ranvec.len(), POINT_COUNT);
    let identity: Vec<usize> = (0..POINT_COUNT).collect();
    assert!(p.perm_x != identity || p.perm_y != identity || p.perm_z != identity);
    for (i, j, k) in [(0, 0, 0), (-1, 5, 300), (1000, -1000, 7)] {
        let h = p.hash_index(i, j, k);
        assert!(h < POINT_COUNT);
        assert_eq!(h, p.perm_x[(i & 255) as usize] ^ p.perm_y[(j & 255) as usize] ^ p.perm_z[(k & 255) as usize]);
    }
}

#[test]
fn permute_keeps_a_permutation() {
    let mut p: Vec<usize> = (0..POINT_COUNT).collect();
    Perlin::permute(&mut p, POINT_COUNT);
    assert!(is_permutation(&p));
    let q = Perlin::perlin_generate_perm();
    assert!(is_permutation(&q));
}

fn inside_hit(dir: Vec3) -> (Ray, HitRecord) {
    // A glass sphere of radius 10 around the origin, hit from its center.
    let s = Sphere::new(v(0, 0, 0), 10, 0);
    let r = Ray::new(v(0, 0, 0), dir, 0);
    let rec = s.hit(&r, Param::from_int(0), Param::infinity()).unwrap();
    (r, rec)
}

#[test]
fn glass_refracts_head_on_from_inside() {
    let glass = Dielectric::new(3, 2);
    let (r, rec) = inside_hit(v(1, 0, 0));
    assert!(!rec.front_face);
    assert!(!glass.cannot_refract(&r, &rec));
    assert!(!glass.reflects(&r, &rec, false));
    assert!(glass.reflects(&r, &rec, true));
}

#[test]
fn glass_reflects_totally_at_grazing_angle_from_inside() {
    let glass = Dielectric::new(3, 2);
    // The ray leaves the center, so it meets the surface head-on; move the
    // origin off-center so that it meets the surface obliquely.
    let s = Sphere::new(v(0, 0, 0), 10, 0);
    let r = Ray::new(v(0, 9, 0), v(1, 0, 0), 0);
    let rec = s.hit(&r, Param::from_int(0), Param::infinity()).unwrap();
    assert!(!rec.front_face);
    assert!(glass.cannot_refract(&r, &rec));
    assert!(glass.reflects(&r, &rec, false));
    assert!(glass.reflects(&r, &rec, true));
}

#[test]
fn glass_refracts_entering_from_outside() {
    let glass = Dielectric::new(3, 2);
    let s = Sphere::new(v(0, 0, 0), 10, 0);
    let r = Ray::new(v(-20, 9, 0), v(1, 0, 0), 0);
    let rec = s.hit(&r, Param::from_int(0), Param::infinity()).unwrap();
    assert!(rec.front_face);
    assert!(!glass.cannot_refract(&r, &rec));
}

#[test]
fn integrator_steps() {

    assert_eq!(next_step(0, true, Some(true)), Step::Black);
    assert_eq!(next_step(5, false, None), Step::Background);
    assert_eq!(next_step(5, true, None), Step::Emit);
    assert_eq!(next_step(5, true, Some(true)), Step::Specular);
    assert_eq!(next_step(1, true, Some(false)), Step::Diffuse);
}

#[test]
fn shuffle_with_given_targets() {
    let mut p: Vec<usize> = (0..4).collect();
    Perlin::permute_with(&mut p, &vec![0, 0, 1, 0], 4);
    // Exchange 3 with 0, then 2 with 1, then 1 with 0.
    assert_eq!(p, vec![2, 3, 1, 0]);
    let mut q: Vec<usize> = (0..4).collect();
    Perlin::permute_with(&mut q, &vec![0, 1, 2, 3], 4);
    assert_eq!(q, vec![0, 1, 2, 3]);
}
