use raytracer::aabb::{extent, AABB};
use raytracer::constant_medium::medium_span;
use raytracer::interval::Interval;
use raytracer::sphere::nearest_root;
use raytracer::texture::checker_is_even;
use raytracer::vec3::Vec3;

#[test]
fn sphere_prefers_smaller_root_in_range() {
    let ray_t = Interval::new(1, 100);
    assert_eq!(nearest_root(Some((10, 20)), &ray_t), Some(10));
    assert_eq!(nearest_root(Some((10, 10)), &ray_t), Some(10));
}

#[test]
fn sphere_falls_back_to_larger_root() {
    let ray_t = Interval::new(1, 100);
    assert_eq!(nearest_root(Some((-5, 20)), &ray_t), Some(20));
    assert_eq!(nearest_root(Some((1, 20)), &ray_t), Some(20));
    assert_eq!(nearest_root(Some((150, 20)), &ray_t), Some(20));
}

#[test]
fn sphere_misses_when_no_root_in_range() {
    let ray_t = Interval::new(1, 100);
    assert_eq!(nearest_root(Some((-5, 0)), &ray_t), None);
    assert_eq!(nearest_root(Some((-5, 100)), &ray_t), None);
    assert_eq!(nearest_root(Some((100, 200)), &ray_t), None);
    assert_eq!(nearest_root(None, &ray_t), None);
    assert_eq!(nearest_root(Some((10, 20)), &Interval::empty()), None);
}

#[test]
fn medium_span_is_cut_to_the_range() {
    let ray_t = Interval::new(5, 100);
    assert_eq!(medium_span(10, 20, &ray_t), Some((10, 20)));
    assert_eq!(medium_span(-10, 20, &ray_t), Some((5, 20)));
    assert_eq!(medium_span(10, 200, &ray_t), Some((10, 100)));
    assert_eq!(medium_span(100, 200, &ray_t), None);
    assert_eq!(medium_span(20, 10, &ray_t), None);
    assert_eq!(medium_span(-50, -20, &Interval::new(-100, 100)), None);
    assert_eq!(medium_span(-50, 0, &Interval::new(-100, 100)), Some((0, 0)));
    assert_eq!(medium_span(-50, 1, &Interval::new(-100, 100)), Some((0, 1)));
    assert_eq!(medium_span(-50, 20, &Interval::new(-100, 100)), Some((0, 20)));
}

#[test]
fn checker_alternates_between_neighbours() {
    assert!(checker_is_even(0, 0, 0));
    assert!(!checker_is_even(1, 0, 0));
    assert!(!checker_is_even(0, -1, 0));
    assert!(checker_is_even(1, -1, 0));
    assert!(!checker_is_even(-3, 0, 0));
    assert!(!checker_is_even(i32::MAX, i32::MAX, i32::MAX));
    assert!(checker_is_even(i32::MIN, i32::MIN, i32::MIN));
}

#[test]
fn extent_is_the_smallest_box() {
    let points = vec![Vec3::new(1, 5, -2), Vec3::new(-4, 6, 0), Vec3::new(3, -1, -9)];
    assert_eq!(extent(&points), AABB::from_corners(Vec3::new(-4, -1, -9), Vec3::new(3, 6, 0)));
    assert_eq!(extent(&points).x, Interval::new(-4, 3));
    assert_eq!(extent(&Vec::new()), AABB::empty());
    let flat = vec![Vec3::new(1, 5, 3), Vec3::new(1, 2, 0), Vec3::new(1, 4, 1)];
    assert_eq!(extent(&flat).x, Interval::new(0, 2));
    assert_eq!(extent(&flat).y, Interval::new(2, 5));
    assert_eq!(extent(&flat).z, Interval::new(0, 3));
}

#[test]
fn corners_are_numbered_by_axis() {
    let b = AABB::from_corners(Vec3::new(0, 10, 20), Vec3::new(5, 15, 25));
    let c = b.corners();
    assert_eq!(c.len(), 8);
    assert_eq!(c[0], Vec3::new(0, 10, 20));
    assert_eq!(c[1], Vec3::new(0, 10, 25));
    assert_eq!(c[2], Vec3::new(0, 15, 20));
    assert_eq!(c[4], Vec3::new(5, 10, 20));
    assert_eq!(c[7], Vec3::new(5, 15, 25));
    assert_eq!(extent(&c), b);
}

fn order_key(t: f64) -> i64 {
    let t = if t == 0.0 { 0.0 } else { t };
    let bits = t.to_bits() as i64;
    bits ^ ((((bits >> 63) as u64) >> 1) as i64)
}

fn sphere_roots(origin: [f64; 3], dir: [f64; 3], center: [f64; 3], radius: f64) -> Option<(f64, f64)> {
    let oc = [center[0] - origin[0], center[1] - origin[1], center[2] - origin[2]];
    let a = dir[0] * dir[0] + dir[1] * dir[1] + dir[2] * dir[2];
    let h = dir[0] * oc[0] + dir[1] * oc[1] + dir[2] * oc[2];
    let c = oc[0] * oc[0] + oc[1] * oc[1] + oc[2] * oc[2] - radius * radius;
    let discriminant = h * h - a * c;
    if discriminant < 0.0 {
        None
    } else {
        let root = discriminant.sqrt();
        Some(((h - root) / a, (h + root) / a))
    }
}

#[test]
fn center_ray_strikes_small_sphere_head_on() {
    let ray_t = Interval::new(order_key(0.001), order_key(f64::INFINITY));
    let origin = [0.0, 0.0, 0.0];
    let dir = [0.0, 0.0, -1.0];
    let spheres = [([0.0, -100.5, -1.0], 100.0), ([0.0, 0.0, -1.0], 0.5)];
    let mut nearest: Option<(usize, i64, f64)> = None;
    for (i, (center, radius)) in spheres.iter().enumerate() {
        let roots = sphere_roots(origin, dir, *center, *radius);
        let keys = roots.map(|(near, far)| (order_key(near), order_key(far)));
        let upper = nearest.map(|n| n.1).unwrap_or(ray_t.max);
        let hit = nearest_root(keys, &Interval::new(ray_t.min, upper));
        if let Some(k) = hit {
            let (near, far) = roots.unwrap();
            let t = if k == order_key(near) { near } else { far };
            nearest = Some((i, k, t));
        }
    }
    let (object, _, t) = nearest.unwrap();
    assert_eq!(object, 1);
    assert!((t - 0.5).abs() < 1e-12);
    let centre = spheres[object].0;
    let radius = spheres[object].1;
    let normal = [
        (origin[0] + t * dir[0] - centre[0]) / radius,
        (origin[1] + t * dir[1] - centre[1]) / radius,
        (origin[2] + t * dir[2] - centre[2]) / radius,
    ];
    let shade = [0.5 * (normal[0] + 1.0), 0.5 * (normal[1] + 1.0), 0.5 * (normal[2] + 1.0)];
    assert!((shade[0] - 0.5).abs() < 1e-12);
    assert!((shade[1] - 0.5).abs() < 1e-12);
    assert!((shade[2] - 1.0).abs() < 1e-12);
}
