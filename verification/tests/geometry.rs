use raytracer::aabb::{AABB, MIN_EXTENT};
use raytracer::interval::Interval;
use raytracer::vec3::Vec3;

fn boxed(a: (i64, i64, i64), b: (i64, i64, i64)) -> AABB {
    AABB {
        x: Interval::new(a.0.min(b.0), a.0.max(b.0)),
        y: Interval::new(a.1.min(b.1), a.1.max(b.1)),
        z: Interval::new(a.2.min(b.2), a.2.max(b.2)),
    }
}

#[test]
fn interval_empty_is_union_identity() {
    let a = Interval::new(-3, 9);
    assert_eq!(Interval::from_intervals(&Interval::empty(), &a), a);
    assert_eq!(Interval::from_intervals(&a, &Interval::empty()), a);
}

#[test]
fn interval_union_takes_outer_bounds() {
    let a = Interval::new(-3, 9);
    let b = Interval::new(2, 20);
    assert_eq!(Interval::from_intervals(&a, &b), Interval::new(-3, 20));
}

#[test]
fn interval_size_of_empty_is_negative() {
    assert_eq!(Interval::new(4, 10).size(), 6);
    assert!(Interval::empty().size() < 0);
    assert_eq!(Interval::all().size(), (i64::MAX as i128) - (i64::MIN as i128));
}

#[test]
fn interval_contains_is_closed_and_surrounds_is_open() {
    let a = Interval::new(1, 5);
    assert!(a.contains(1));
    assert!(a.contains(5));
    assert!(!a.contains(6));
    assert!(!a.surrounds(1));
    assert!(!a.surrounds(5));
    assert!(a.surrounds(3));
    assert!(!Interval::empty().contains(0));
}

#[test]
fn interval_clamp_picks_nearest_value() {
    let a = Interval::new(1, 5);
    assert_eq!(a.clamp(-7), 1);
    assert_eq!(a.clamp(3), 3);
    assert_eq!(a.clamp(70), 5);
}

#[test]
fn interval_expand_pads_half_on_each_side() {
    assert_eq!(Interval::new(10, 10).expand(4), Interval::new(8, 12));
    assert_eq!(Interval::new(10, 10).expand(5), Interval::new(8, 12));
    assert_eq!(Interval::new(10, 10).expand(-5), Interval::new(12, 8));
    assert_eq!(Interval::new(i64::MIN, i64::MAX).expand(2), Interval::new(i64::MIN, i64::MAX));
}

#[test]
fn interval_add_shifts_both_bounds() {
    assert_eq!(Interval::new(1, 5).add(-4), Interval::new(-3, 1));
}

#[test]
fn interval_clip_keeps_the_overlap() {
    let a = Interval::new(0, 100);
    assert_eq!(a.clip(10, 20), Interval::new(10, 20));
    assert_eq!(a.clip(20, 10), Interval::new(10, 20));
    assert_eq!(a.clip(-5, 200), Interval::new(0, 100));
    assert_eq!(a.clip(150, 160), Interval::new(150, 100));
}

#[test]
fn vec3_components_by_axis() {
    let mut v = Vec3::new(1, 2, 3);
    assert_eq!((v.get(0), v.get(1), v.get(2)), (1, 2, 3));
    assert_eq!((v.get_x(), v.get_y(), v.get_z()), (1, 2, 3));
    v.set_x(7);
    v.set_y(8);
    v.set_z(9);
    assert_eq!(v, Vec3::new(7, 8, 9));
    assert_eq!(Vec3::zero(), Vec3::new(0, 0, 0));
    assert_eq!(Vec3::up(), Vec3::new(0, 1, 0));
}

#[test]
fn aabb_from_corners_orders_each_axis() {
    let b = AABB::from_corners(Vec3::new(5, -1, 30), Vec3::new(2, 4, 3));
    assert_eq!(b.x, Interval::new(2, 5));
    assert_eq!(b.y, Interval::new(-1, 4));
    assert_eq!(b.z, Interval::new(3, 30));
    let swapped = AABB::from_corners(Vec3::new(2, 4, 3), Vec3::new(5, -1, 30));
    assert_eq!(swapped, b);
}

#[test]
fn aabb_from_corners_pads_flat_axes() {
    let b = AABB::from_corners(Vec3::new(1, 5, 3), Vec3::new(1, 2, 0));
    assert_eq!(b.y, Interval::new(2, 5));
    assert_eq!(b.z, Interval::new(0, 3));
    assert_eq!(b.x, Interval::new(0, 2));
    assert!(b.x.contains(1));
    assert!(b.x.size() >= MIN_EXTENT as i128);
    let narrow = AABB::from_corners(Vec3::new(0, 0, 0), Vec3::new(1, 2, 3));
    assert_eq!(narrow.x, Interval::new(-1, 2));
    assert_eq!(narrow.y, Interval::new(0, 2));
    let point = AABB::from_corners(Vec3::new(7, 7, 7), Vec3::new(7, 7, 7));
    assert_eq!(point, boxed((6, 6, 6), (8, 8, 8)));
    let edge = AABB::from_corners(Vec3::new(i64::MAX, 0, 0), Vec3::new(i64::MAX, 5, 5));
    assert_eq!(edge.x, Interval::new(i64::MAX - 1, i64::MAX));
}

#[test]
fn aabb_new_pads_flat_axes() {
    let b = AABB::new(Interval::new(0, 10), Interval::new(4, 4), Interval::new(7, 8));
    assert_eq!(b.x, Interval::new(0, 10));
    assert_eq!(b.y, Interval::new(3, 5));
    assert_eq!(b.z, Interval::new(6, 9));
    assert!(b.y.size() >= MIN_EXTENT as i128);
    assert!(b.z.size() >= MIN_EXTENT as i128);
}

#[test]
fn aabb_union_is_commutative_associative_idempotent() {
    let a = boxed((0, 0, 0), (1, 2, 3));
    let b = boxed((-4, 1, 1), (0, 9, 2));
    let c = boxed((3, 3, 3), (8, 8, 8));
    assert_eq!(AABB::from_aabbs(&a, &b), AABB::from_aabbs(&b, &a));
    assert_eq!(
        AABB::from_aabbs(&AABB::from_aabbs(&a, &b), &c),
        AABB::from_aabbs(&a, &AABB::from_aabbs(&b, &c))
    );
    assert_eq!(AABB::from_aabbs(&a, &a), a);
    assert_eq!(AABB::from_aabbs(&AABB::empty(), &a), a);
    assert_eq!(AABB::from_aabbs(&a, &b), boxed((-4, 0, 0), (1, 9, 3)));
}

#[test]
fn aabb_longest_axis_prefers_higher_axis_on_ties() {
    assert_eq!(boxed((0, 0, 0), (9, 2, 3)).longest_axis(), 0);
    assert_eq!(boxed((0, 0, 0), (1, 9, 3)).longest_axis(), 1);
    assert_eq!(boxed((0, 0, 0), (1, 2, 9)).longest_axis(), 2);
    assert_eq!(boxed((0, 0, 0), (5, 5, 1)).longest_axis(), 1);
    assert_eq!(boxed((0, 0, 0), (5, 1, 5)).longest_axis(), 2);
    assert_eq!(boxed((0, 0, 0), (5, 5, 5)).longest_axis(), 2);
}

#[test]
fn aabb_axis_interval_falls_back_to_z() {
    let b = boxed((0, 10, 20), (1, 11, 21));
    assert_eq!(*b.axis_interval(0), Interval::new(0, 1));
    assert_eq!(*b.axis_interval(1), Interval::new(10, 11));
    assert_eq!(*b.axis_interval(2), Interval::new(20, 21));
    assert_eq!(*b.axis_interval(7), Interval::new(20, 21));
}

#[test]
fn aabb_hit_needs_a_shared_stretch() {
    let ray_t = Interval::new(0, 1000);
    assert!(AABB::hit((10, 20), (5, 30), (12, 18), ray_t));
    assert!(AABB::hit((20, 10), (30, 5), (18, 12), ray_t));
    assert!(!AABB::hit((10, 20), (20, 30), (0, 100), ray_t));
    assert!(!AABB::hit((10, 20), (21, 30), (0, 100), ray_t));
    assert!(!AABB::hit((10, 20), (5, 30), (12, 18), Interval::new(0, 12)));
    assert!(!AABB::hit((-20, -10), (-30, -5), (-18, -12), ray_t));
}

#[test]
fn aabb_add_moves_each_axis_by_its_own_offset() {
    let b = boxed((0, 0, 0), (1, 2, 3)).add(Vec3::new(10, 20, 30));
    assert_eq!(b, boxed((10, 20, 30), (11, 22, 33)));
}
