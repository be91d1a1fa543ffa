use rand::rngs::StdRng;
use rand::{Rng, SeedableRng};
use raytracer::aabb::AABB;
use raytracer::bvh::{build_tree, sort_range, BVHNode, BVHTree};
use raytracer::grid::{GridBox, GridRay};
use raytracer::hittable::{HitRecord, Hittable, HittableList};
use raytracer::interval::Interval;
use raytracer::vec3::Vec3;

fn block(a: (i64, i64, i64), b: (i64, i64, i64)) -> GridBox {
    GridBox::new(AABB {
        x: Interval::new(a.0.min(b.0), a.0.max(b.0)),
        y: Interval::new(a.1.min(b.1), a.1.max(b.1)),
        z: Interval::new(a.2.min(b.2), a.2.max(b.2)),
    })
}

fn scene() -> Vec<GridBox> {
    vec![
        block((40, -2, -2), (44, 2, 2)),
        block((10, -1, -1), (12, 1, 1)),
        block((20, 5, 5), (22, 9, 9)),
        block((-30, -3, -3), (-20, 3, 3)),
        block((60, -9, -9), (70, 9, 9)),
        block((0, 20, 0), (5, 25, 5)),
        block((15, 0, 0), (18, 0, 0)),
    ]
}

fn list_of(objects: Vec<GridBox>) -> HittableList<GridBox> {
    let mut list = HittableList::new();
    for o in objects {
        list.add(o);
    }
    list
}

#[test]
fn grid_box_reports_entry_then_exit() {
    let b = block((10, -1, -1), (12, 1, 1));
    let ray = GridRay::new(Vec3::new(0, 0, 0), 0);
    assert_eq!(b.hit(&ray, Interval::new(0, 100)), Some(10));
    assert_eq!(b.hit(&ray, Interval::new(10, 100)), Some(12));
    assert_eq!(b.hit(&ray, Interval::new(12, 100)), None);
    assert_eq!(b.hit(&ray, Interval::new(0, 10)), None);
    let off = GridRay::new(Vec3::new(0, 2, 0), 0);
    assert_eq!(b.hit(&off, Interval::new(0, 100)), None);
    let up = GridRay::new(Vec3::new(11, -5, 0), 1);
    assert_eq!(b.hit(&up, Interval::new(0, 100)), Some(4));
}

#[test]
fn grid_box_test_is_conservative() {
    let b = block((10, -1, -1), (12, 1, 1));
    let ray = GridRay::new(Vec3::new(0, 0, 0), 0);
    assert!(GridBox::box_hit(&ray, &b.bounding_box(), Interval::new(0, 100)));
    assert!(!GridBox::box_hit(&ray, &b.bounding_box(), Interval::new(0, 10)));
    assert!(!GridBox::box_hit(&ray, &b.bounding_box(), Interval::new(12, 100)));
    assert!(!GridBox::box_hit(&GridRay::new(Vec3::new(0, 5, 0), 0), &b.bounding_box(), Interval::all()));
}

#[test]
fn list_scan_keeps_nearest() {
    let list = list_of(scene());
    let ray = GridRay::new(Vec3::new(0, 0, 0), 0);
    assert_eq!(list.hit(&ray, Interval::new(0, i64::MAX)), Some(HitRecord { object: 1, t: 10 }));
    assert_eq!(list.hit(&ray, Interval::new(12, i64::MAX)), Some(HitRecord { object: 6, t: 15 }));
    assert_eq!(list.hit(&ray, Interval::new(70, i64::MAX)), None);
    assert_eq!(list.hit(&ray, Interval::all()), Some(HitRecord { object: 3, t: -30 }));
}

#[test]
fn list_box_holds_its_objects() {
    let mut list: HittableList<GridBox> = HittableList::new();
    assert_eq!(*list.bounding_box(), AABB::empty());
    list.add(block((0, 0, 0), (1, 1, 1)));
    list.add(block((5, -5, 0), (6, 0, 9)));
    assert_eq!(
        *list.bounding_box(),
        AABB::from_corners(Vec3::new(0, -5, 0), Vec3::new(6, 1, 9))
    );
    list.clear();
    assert_eq!(list.objects.len(), 0);
    assert_eq!(*list.bounding_box(), AABB::empty());
    let single = HittableList::from_object(block((0, 0, 0), (1, 1, 1)));
    assert_eq!(single.objects.len(), 1);
    assert_eq!(*single.bounding_box(), block((0, 0, 0), (1, 1, 1)).bounding_box());
    let mut grown: HittableList<GridBox> = HittableList::new();
    grown.add(block((0, 0, 0), (1, 1, 1)));
    assert_eq!(*grown.bounding_box(), *single.bounding_box());
}

#[test]
fn bvh_agrees_with_linear_scan() {
    let list = list_of(scene());
    let bvh = BVHNode::from_hittable_list(list_of(scene()));
    for axis in 0..3usize {
        for a in -12..12i64 {
            for b in -12..12i64 {
                let origin = match axis {
                    0 => Vec3::new(-50, a, b),
                    1 => Vec3::new(a * 4, -50, b),
                    _ => Vec3::new(a * 4, b, -50),
                };
                let ray = GridRay::new(origin, axis);
                for ray_t in [Interval::new(0, i64::MAX), Interval::new(55, 95), Interval::new(0, 61)] {
                    let expected = list.hit(&ray, ray_t);
                    let found = bvh.hit(&ray, ray_t);
                    assert_eq!(found.map(|r| r.t), expected.map(|r| r.t));
                    assert_eq!(found, expected);
                }
            }
        }
    }
}

#[test]
fn bvh_root_box_is_union_of_all() {
    let bvh = BVHNode::from_hittable_list(list_of(scene()));
    assert_eq!(
        bvh.bounding_box(),
        AABB::from_corners(Vec3::new(-30, -9, -9), Vec3::new(70, 25, 9))
    );
}

#[test]
fn bvh_single_object_is_both_children() {
    let bvh = BVHNode::new(scene(), 2, 3);
    match &bvh.tree {
        BVHTree::Node { left, right, bounding_box } => {
            assert!(matches!(**left, BVHTree::Leaf { object: 2 }));
            assert!(matches!(**right, BVHTree::Leaf { object: 2 }));
            assert_eq!(*bounding_box, scene()[2].bounding_box());
        }
        BVHTree::Leaf { .. } => panic!("root must be a node"),
    }
}

#[test]
fn bvh_pair_keeps_given_order() {
    let bvh = BVHNode::new(scene(), 0, 2);
    match &bvh.tree {
        BVHTree::Node { left, right, .. } => {
            assert!(matches!(**left, BVHTree::Leaf { object: 0 }));
            assert!(matches!(**right, BVHTree::Leaf { object: 1 }));
        }
        BVHTree::Leaf { .. } => panic!("root must be a node"),
    }
}

#[test]
fn bvh_splits_sorted_range_in_the_middle() {
    let bvh = BVHNode::new(scene(), 0, 7);
    assert_eq!(bvh.order, vec![3, 5, 1, 6, 2, 0, 4]);
    match &bvh.tree {
        BVHTree::Node { left, right, .. } => {
            match &**left {
                BVHTree::Node { left: ll, right: lr, .. } => {
                    assert!(matches!(**ll, BVHTree::Node { .. }));
                    assert!(matches!(**lr, BVHTree::Node { .. }));
                }
                BVHTree::Leaf { .. } => panic!("three objects make a node"),
            }
            assert!(matches!(**right, BVHTree::Node { .. }));
        }
        BVHTree::Leaf { .. } => panic!("root must be a node"),
    }
}

#[test]
fn sort_range_orders_by_lower_bound_and_is_stable() {
    let boxes: Vec<AABB> = scene().iter().map(|b| b.bounding_box()).collect();
    let mut order: Vec<usize> = vec![0, 1, 2, 3, 4, 5, 6];
    sort_range(&mut order, 1, 6, &boxes, 0);
    assert_eq!(order, vec![0, 3, 5, 1, 2, 4, 6]);
    let mut by_z: Vec<usize> = vec![6, 5, 4, 3, 2, 1, 0];
    sort_range(&mut by_z, 0, 7, &boxes, 2);
    assert_eq!(by_z, vec![4, 3, 0, 1, 6, 5, 2]);
}

#[test]
fn build_tree_leaves_outside_untouched() {
    let boxes: Vec<AABB> = scene().iter().map(|b| b.bounding_box()).collect();
    let mut order: Vec<usize> = vec![6, 5, 4, 3, 2, 1, 0];
    let tree = build_tree(&boxes, &mut order, 2, 6);
    assert_eq!(order[0], 6);
    assert_eq!(order[1], 5);
    assert_eq!(order[6], 0);
    let mut inner: Vec<usize> = order[2..6].to_vec();
    inner.sort();
    assert_eq!(inner, vec![1, 2, 3, 4]);
    assert!(matches!(tree, BVHTree::Node { .. }));
}

#[test]
fn with_bvh_holds_the_same_objects() {
    let bvh = list_of(scene()).with_bvh();
    assert_eq!(bvh.objects, scene());
    let ray = GridRay::new(Vec3::new(0, 0, 0), 0);
    assert_eq!(bvh.hit(&ray, Interval::new(0, i64::MAX)), Some(HitRecord { object: 1, t: 10 }));
}

#[test]
fn tied_objects_are_met_at_the_same_distance() {
    let objects = vec![
        block((10, 0, 0), (20, 5, 5)),
        block((5, 0, 0), (20, 5, 5)),
        block((30, 0, 0), (40, 5, 5)),
    ];
    let list = list_of(objects.clone());
    let bvh = BVHNode::new(objects, 0, 3);
    let ray = GridRay::new(Vec3::new(15, -10, 2), 1);
    let scanned = list.hit(&ray, Interval::new(0, 1000)).unwrap();
    let found = bvh.hit(&ray, Interval::new(0, 1000)).unwrap();
    assert_eq!(scanned, HitRecord { object: 0, t: 10 });
    assert_eq!(found, HitRecord { object: 1, t: 10 });
}

fn height(tree: &BVHTree) -> u32 {
    match tree {
        BVHTree::Leaf { .. } => 0,
        BVHTree::Node { left, right, .. } => 1 + height(left).max(height(right)),
    }
}

#[test]
fn bvh_height_is_logarithmic() {
    for n in 1..40usize {
        let objects: Vec<GridBox> = (0..n as i64)
            .map(|i| block(((i * 37) % 101, i, -i), ((i * 37) % 101 + 3, i + 2, 1 - i)))
            .collect();
        let bvh = BVHNode::new(objects, 0, n);
        let h = height(&bvh.tree);
        if n == 1 {
            assert_eq!(h, 1);
        } else {
            assert!((1usize << (h - 1)) < n);
        }
    }
}

#[test]
fn random_scene_matches_brute_force() {
    let mut rng = StdRng::seed_from_u64(7);
    let mut objects: Vec<GridBox> = Vec::new();
    for _ in 0..150 {
        let a = (rng.gen_range(-60..60i64), rng.gen_range(-60..60i64), rng.gen_range(-60..60i64));
        let b = (
            a.0 + rng.gen_range(0..25i64),
            a.1 + rng.gen_range(0..25i64),
            a.2 + rng.gen_range(0..25i64),
        );
        objects.push(block(a, b));
    }
    let list = list_of(objects.clone());
    let bvh = BVHNode::from_hittable_list(list_of(objects.clone()));
    let mut met = 0;
    for _ in 0..2000 {
        let origin = Vec3::new(
            rng.gen_range(-100..100i64),
            rng.gen_range(-100..100i64),
            rng.gen_range(-100..100i64),
        );
        let ray = GridRay::new(origin, rng.gen_range(0..3usize));
        let ray_t = Interval::new(rng.gen_range(-50..10i64), rng.gen_range(10..400i64));
        let expected = list.hit(&ray, ray_t);
        let found = bvh.hit(&ray, ray_t);
        assert_eq!(found.map(|r| r.t), expected.map(|r| r.t));
        if let Some(rec) = expected {
            met += 1;
            assert_eq!(objects[found.unwrap().object].hit(&ray, ray_t), Some(rec.t));
            let ties = objects.iter().filter(|o| o.hit(&ray, ray_t) == Some(rec.t)).count();
            if ties == 1 {
                assert_eq!(found, expected);
            }
        }
    }
    assert!(met > 100);
}

#[test]
fn equal_keys_keep_their_order() {
    let objects: Vec<GridBox> = (0..6i64).map(|i| block((0, i, 0), (100 + i, i + 1, 1))).collect();
    let bvh = BVHNode::new(objects, 0, 6);
    assert_eq!(bvh.order, vec![0, 1, 2, 3, 4, 5]);
    let mixed = vec![
        block((7, 0, 0), (90, 1, 1)),
        block((3, 0, 0), (90, 1, 1)),
        block((7, 5, 0), (90, 6, 1)),
        block((3, 5, 0), (90, 6, 1)),
        block((7, 9, 0), (90, 10, 1)),
    ];
    let bvh = BVHNode::new(mixed, 0, 5);
    assert_eq!(bvh.order, vec![1, 3, 0, 2, 4]);
}

#[test]
fn list_of_one_object_can_stand_in_a_hierarchy() {
    let inner = HittableList::from_object(block((10, -1, -1), (12, 1, 1)));
    let ray = GridRay::new(Vec3::new(0, 0, 0), 0);
    let ray_t = Interval::new(0, 100);
    assert!(GridBox::box_hit(&ray, inner.bounding_box(), ray_t));
    let proxy = GridBox::new(*inner.bounding_box());
    let bvh = BVHNode::from_hittable_list(HittableList::from_object(proxy));
    assert_eq!(bvh.bounding_box(), block((10, -1, -1), (12, 1, 1)).bounding_box());
    let list = list_of(scene());
    let boxed = *list.bounding_box();
    assert_eq!(list.with_bvh().bounding_box(), boxed);
    assert_eq!(bvh.hit(&ray, ray_t), Some(HitRecord { object: 0, t: 10 }));
    assert_eq!(inner.hit(&ray, ray_t), Some(HitRecord { object: 0, t: 10 }));
}
