use vstd::prelude::*;
use crate::aabb::AABB;
use crate::bvh::{
    boxes_of, built_order, in_order, lemma_range_union_agree, range_union, BVHNode,
};
use crate::interval::Interval;

verus! {

/// Where a ray met a scene: which object, and how far along the ray.
#[derive(Debug, Clone, Copy, PartialEq, Eq, Structural)]
pub struct HitRecord {
    pub object: usize,
    pub t: i64,
}

/// An object that a ray can meet.
///
/// An implementation says, for a ray and a range of distances, at which
/// distance the ray first meets the object, and names a box that holds the
/// object. The three proof functions are the rules that every implementation
/// answers for; the collections of this crate rely on them and on nothing
/// else.
pub trait Hittable {
    /// The rays that this kind of object is probed with.
    type Ray;

    /// The distance at which `ray` first meets the object within `ray_t`.
    spec fn first_hit(&self, ray: &Self::Ray, ray_t: Interval) -> Option<i64>;

    /// The box that holds the object.
    spec fn bounds(&self) -> AABB;

    /// Whether `ray` passes through `bounds` within `ray_t`.
    spec fn crosses(ray: &Self::Ray, bounds: AABB, ray_t: Interval) -> bool;

    /// Probes the object with `ray` within `ray_t`.
    fn hit(&self, ray: &Self::Ray, ray_t: Interval) -> (r: Option<i64>)
        ensures
            r == self.first_hit(ray, ray_t),
    ;

    /// The box that holds the object.
    fn bounding_box(&self) -> (r: AABB)
        ensures
            r == self.bounds(),
    ;

    /// Tests whether `ray` passes through `bounds` within `ray_t`.
    fn box_hit(ray: &Self::Ray, bounds: &AABB, ray_t: Interval) -> (r: bool)
        ensures
            r == Self::crosses(ray, *bounds, ray_t),
    ;

    /// A reported distance lies within the range that was asked for.
    proof fn lemma_inside(&self, ray: &Self::Ray, ray_t: Interval)
        ensures
            self.first_hit(ray, ray_t).is_some() ==> ray_t.spec_contains(
                self.first_hit(ray, ray_t).unwrap() as int,
            ),
    ;

    /// Lowering the upper end of the range changes the answer only by cutting
    /// it off: what is found in the shorter range is what the longer range
    /// gives, and what the longer range gives is found in the shorter one if it
    /// lies below the new end.
    proof fn lemma_narrow(&self, ray: &Self::Ray, ray_t: Interval, upper: i64)
        requires
            upper <= ray_t.max,
        ensures
            self.first_hit(ray, shortened(ray_t, upper)).is_some() ==> self.first_hit(
                ray,
                shortened(ray_t, upper),
            ) == self.first_hit(ray, ray_t),
            self.first_hit(ray, ray_t).is_some() && self.first_hit(ray, ray_t).unwrap() < upper
                ==> self.first_hit(ray, shortened(ray_t, upper)) == self.first_hit(ray, ray_t),
    ;

    /// A ray that meets the object passes through every box that holds the
    /// object's own.
    proof fn lemma_enclosed(&self, ray: &Self::Ray, ray_t: Interval, outer: AABB)
        requires
            self.first_hit(ray, ray_t).is_some(),
            self.bounds().within(outer),
        ensures
            Self::crosses(ray, outer, ray_t),
    ;
}

/// `ray_t` with its upper end at `upper`.
pub open spec fn shortened(ray_t: Interval, upper: i64) -> Interval {
    Interval { min: ray_t.min, max: upper }
}

/// `r` is a nearest meeting of `ray` with the objects numbered in `members`:
/// nothing, if the ray meets none of them within `ray_t`; else one of them and
/// its distance, which none of the others undercuts.
pub open spec fn nearest_among<H: Hittable>(
    objects: Seq<H>,
    members: Set<int>,
    ray: &H::Ray,
    ray_t: Interval,
    r: Option<HitRecord>,
) -> bool {
    match r {
        None => forall|i: int|
            0 <= i < objects.len() && members.contains(i) ==> (#[trigger] objects[i].first_hit(
                ray,
                ray_t,
            )).is_none(),
        Some(rec) => {
            &&& rec.object < objects.len()
            &&& members.contains(rec.object as int)
            &&& objects[rec.object as int].first_hit(ray, ray_t) == Some(rec.t)
            &&& forall|i: int|
                0 <= i < objects.len() && members.contains(i) && (#[trigger] objects[i].first_hit(
                    ray,
                    ray_t,
                )).is_some() ==> rec.t <= objects[i].first_hit(ray, ray_t).unwrap()
        },
    }
}

/// The numbers below `n`.
pub open spec fn below(n: int) -> Set<int> {
    Set::new(|i: int| 0 <= i < n)
}

/// What a scan of the first `n` objects reports: each object in turn is asked
/// for a meeting nearer than the nearest so far, and the last one that answers
/// is kept.
pub open spec fn scan<H: Hittable>(objects: Seq<H>, ray: &H::Ray, ray_t: Interval, n: int) -> Option<
    HitRecord,
>
    decreases n,
{
    if n <= 0 {
        None
    } else {
        let before = scan(objects, ray, ray_t, n - 1);
        let closest = match before {
            Some(rec) => rec.t,
            None => ray_t.max,
        };
        match objects[n - 1].first_hit(ray, shortened(ray_t, closest)) {
            Some(t) => Some(HitRecord { object: (n - 1) as usize, t }),
            None => before,
        }
    }
}

/// A plain collection of objects, probed one after the other.
pub struct HittableList<H: Hittable> {
    pub objects: Vec<H>,
    pub bounding_box: AABB,
}

impl<H: Hittable> HittableList<H> {
    /// The box of the list holds the box of each of its objects.
    pub open spec fn bounded(&self) -> bool {
        forall|i: int|
            0 <= i < self.objects@.len() ==> (#[trigger] self.objects@[i]).bounds().within(
                self.bounding_box,
            )
    }

    /// The box of the list is the join of the boxes of its objects.
    pub open spec fn joined(&self) -> bool {
        self.bounding_box == range_union(
            boxes_of(self.objects@),
            in_order(self.objects@.len()),
            0,
            self.objects@.len() as int,
        )
    }

    /// The list without objects; its box is the empty one.
    pub fn new() -> (r: Self)
        ensures
            r.objects@.len() == 0,
            r.bounding_box == AABB::spec_empty(),
            r.joined(),
            r.bounded(),
    {
        HittableList { objects: Vec::new(), bounding_box: AABB::empty() }
    }

    /// A list of one object, with that object's box: what `new` followed by
    /// `add` gives.
    pub fn from_object(object: H) -> (r: Self)
        ensures
            r.objects@ == seq![object],
            r.bounding_box == AABB::spec_empty().union(object.bounds()),
            r.bounding_box == object.bounds(),
            r.joined(),
            r.bounded(),
    {
        let bounding_box = AABB::from_aabbs(&AABB::empty(), &object.bounding_box());
        let mut objects = Vec::new();
        objects.push(object);
        proof {
            let boxes = boxes_of(objects@);
            let order = in_order(1);
            assert(range_union(boxes, order, 0, 0) == AABB::spec_empty());
            assert(range_union(boxes, order, 0, 1) == range_union(boxes, order, 0, 0).union(
                boxes[order[0] as int],
            ));
        }
        HittableList { objects, bounding_box }
    }

    /// Removes the objects; the box becomes the empty one.
    pub fn clear(&mut self)
        ensures
            final(self).objects@.len() == 0,
            final(self).bounding_box == AABB::spec_empty(),
            final(self).joined(),
            final(self).bounded(),
    {
        self.objects.clear();
        self.bounding_box = AABB::empty();
    }

    /// Appends `object` and widens the box to hold it.
    pub fn add(&mut self, object: H)
        ensures
            final(self).objects@ == old(self).objects@.push(object),
            final(self).bounding_box == old(self).bounding_box.union(object.bounds()),
            old(self).joined() ==> final(self).joined(),
            old(self).bounded() ==> final(self).bounded(),
    {
        let b = object.bounding_box();
        let ghost before = self.objects@;
        self.bounding_box = AABB::from_aabbs(&self.bounding_box, &b);
        self.objects.push(object);
        let count: usize = self.objects.len();
        proof {
            let n = before.len() as int;
            lemma_range_union_agree(
                boxes_of(before),
                in_order(before.len()),
                boxes_of(self.objects@),
                in_order(self.objects@.len()),
                0,
                n,
            );
            assert(count == n + 1);
            assert(in_order(self.objects@.len())[n] == n);
            assert(self.objects@[n] == object);
            assert(boxes_of(self.objects@)[n] == object.bounds());
        }
    }

    /// The nearest meeting of `ray` with any object of the list within
    /// `ray_t`; among equally near objects, the one that the scan keeps.
    pub fn hit(&self, ray: &H::Ray, ray_t: Interval) -> (r: Option<HitRecord>)
        ensures
            r == scan(self.objects@, ray, ray_t, self.objects@.len() as int),
            nearest_among(self.objects@, below(self.objects@.len() as int), ray, ray_t, r),
    {
        let mut hit_record: Option<HitRecord> = None;
        let mut closest_so_far: i64 = ray_t.max;
        let mut i: usize = 0;
        while i < self.objects.len()
            invariant
                i <= self.objects@.len(),
                hit_record == scan(self.objects@, ray, ray_t, i as int),
                closest_so_far == match hit_record {
                    Some(rec) => rec.t,
                    None => ray_t.max,
                },
            decreases self.objects@.len() - i,
        {
            let found = self.objects[i].hit(ray, Interval::new(ray_t.min, closest_so_far));
            if let Some(t) = found {
                closest_so_far = t;
                hit_record = Some(HitRecord { object: i, t });
            }
            i = i + 1;
        }
        proof {
            lemma_scan_nearest(self.objects@, ray, ray_t, self.objects@.len() as int);
        }
        hit_record
    }

    /// The hierarchy over the objects of the list.
    pub fn with_bvh(self) -> (r: BVHNode<H>)
        requires
            self.objects@.len() > 0,
        ensures
            r.objects@ == self.objects@,
            r.wf(),
            r.tree.members() == below(self.objects@.len() as int),
            self.joined() ==> r.tree.bounds(boxes_of(r.objects@)) == self.bounding_box,
            r.tree.shaped(boxes_of(r.objects@), r.order@, 0, r.objects@.len() as int),
            r.order@ == built_order(
                boxes_of(r.objects@),
                in_order(r.objects@.len()),
                0,
                r.objects@.len() as int,
            ),
    {
        BVHNode::from_hittable_list(self)
    }

    /// The join of the boxes of the objects that `add` has taken in.
    pub fn bounding_box(&self) -> (r: &AABB)
        ensures
            *r == self.bounding_box,
    {
        &self.bounding_box
    }
}

/// A scan of the first `n` objects reports a nearest meeting with them.
pub proof fn lemma_scan_nearest<H: Hittable>(objects: Seq<H>, ray: &H::Ray, ray_t: Interval, n: int)
    requires
        0 <= n <= objects.len() <= usize::MAX,
    ensures
        nearest_among(objects, below(n), ray, ray_t, scan(objects, ray, ray_t, n)),
    decreases n,
{
    if n > 0 {
        lemma_scan_nearest(objects, ray, ray_t, n - 1);
        let before = scan(objects, ray, ray_t, n - 1);
        let closest = match before {
            Some(rec) => rec.t,
            None => ray_t.max,
        };
        if before.is_some() {
            objects[before.unwrap().object as int].lemma_inside(ray, ray_t);
        }
        let cut = shortened(ray_t, closest);
        objects[n - 1].lemma_narrow(ray, ray_t, closest);
        objects[n - 1].lemma_inside(ray, cut);
        if before.is_none() {
            assert(cut == ray_t);
        }
    }
}

/// Two nearest meetings over the same objects lie at the same distance, and
/// name the same object unless two objects are equally near.
pub proof fn lemma_nearest_agree<H: Hittable>(
    objects: Seq<H>,
    members: Set<int>,
    ray: &H::Ray,
    ray_t: Interval,
    a: Option<HitRecord>,
    b: Option<HitRecord>,
)
    requires
        nearest_among(objects, members, ray, ray_t, a),
        nearest_among(objects, members, ray, ray_t, b),
    ensures
        a.is_some() == b.is_some(),
        a.is_some() ==> a.unwrap().t == b.unwrap().t,
        (forall|i: int, j: int|
            0 <= i < j < objects.len() && members.contains(i) && members.contains(j)
                && objects[i].first_hit(ray, ray_t).is_some() ==> objects[i].first_hit(ray, ray_t)
                != objects[j].first_hit(ray, ray_t)) ==> a == b,
{
    if a.is_some() && b.is_some() {
        let ra = a.unwrap();
        let rb = b.unwrap();
        assert(objects[ra.object as int].first_hit(ray, ray_t).is_some());
        assert(objects[rb.object as int].first_hit(ray, ray_t).is_some());
        assert(ra.t == rb.t);
    } else if a.is_some() {
        assert(objects[a.unwrap().object as int].first_hit(ray, ray_t).is_some());
    } else if b.is_some() {
        assert(objects[b.unwrap().object as int].first_hit(ray, ray_t).is_some());
    }
}

} // verus!
