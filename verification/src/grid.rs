use vstd::prelude::*;
use crate::aabb::AABB;
use crate::hittable::Hittable;
use crate::interval::Interval;
use crate::vec3::Vec3;

verus! {

/// A ray that starts at a grid point and runs along one axis, towards higher
/// coordinates, one grid step for each unit of distance.
#[derive(Debug, Clone, Copy, PartialEq, Eq, Structural)]
pub struct GridRay {
    pub origin: Vec3,
    pub axis: usize,
}

/// A solid block that fills its box.
///
/// Its meetings with a `GridRay` are exact, and it keeps the three rules of
/// `Hittable` by proof: so the rules can be kept, and what is proved of lists
/// and hierarchies holds of them over blocks without a condition. It is the
/// object to build a scene from wherever exact answers are wanted.
#[derive(Debug, Clone, Copy, PartialEq, Eq, Structural)]
pub struct GridBox {
    pub bounds: AABB,
}

/// The two axes other than `axis`, taken modulo three.
pub open spec fn side_axes(axis: int) -> (int, int) {
    if axis % 3 == 0 {
        (1, 2)
    } else if axis % 3 == 1 {
        (0, 2)
    } else {
        (0, 1)
    }
}

/// The ray's line passes through `bounds`: on the two axes across the ray
/// its origin lies within the box, and along the ray the box holds a point.
pub open spec fn in_line(ray: GridRay, bounds: AABB) -> bool {
    let sides = side_axes(ray.axis as int);
    let along = bounds.spec_axis_interval(ray.axis as int % 3);
    &&& bounds.spec_axis_interval(sides.0).spec_contains(ray.origin.spec_get(sides.0) as int)
    &&& bounds.spec_axis_interval(sides.1).spec_contains(ray.origin.spec_get(sides.1) as int)
    &&& along.min <= along.max
}

/// The distances at which the ray enters and leaves the box along its axis.
pub open spec fn crossings(ray: GridRay, bounds: AABB) -> (int, int) {
    let along = bounds.spec_axis_interval(ray.axis as int % 3);
    let from = ray.origin.spec_get(ray.axis as int % 3);
    (along.min - from, along.max - from)
}

/// The nearer of the two crossings that lies strictly inside `ray_t`.
pub open spec fn block_hit(ray: GridRay, bounds: AABB, ray_t: Interval) -> Option<i64> {
    let c = crossings(ray, bounds);
    if !in_line(ray, bounds) {
        None
    } else if ray_t.spec_surrounds(c.0) {
        Some(c.0 as i64)
    } else if ray_t.spec_surrounds(c.1) {
        Some(c.1 as i64)
    } else {
        None
    }
}

/// The ray is inside the box somewhere strictly inside `ray_t`.
pub open spec fn block_crossed(ray: GridRay, bounds: AABB, ray_t: Interval) -> bool {
    let c = crossings(ray, bounds);
    in_line(ray, bounds) && c.0 < ray_t.max && ray_t.min < c.1
}

impl GridRay {
    pub fn new(origin: Vec3, axis: usize) -> (r: Self)
        ensures
            r == (GridRay { origin, axis }),
    {
        GridRay { origin, axis }
    }

    /// Whether the ray's line passes through `bounds`, and the distances of
    /// its two crossings.
    pub fn meet(&self, bounds: &AABB) -> (r: (bool, i128, i128))
        ensures
            r.0 == in_line(*self, *bounds),
            r.1 == crossings(*self, *bounds).0,
            r.2 == crossings(*self, *bounds).1,
    {
        let axis: usize = self.axis % 3;
        let first: usize = if axis == 0 {
            1
        } else {
            0
        };
        let second: usize = if axis == 2 {
            1
        } else {
            2
        };
        let along = bounds.axis_interval(axis);
        let from: i128 = self.origin.get(axis) as i128;
        let inside = bounds.axis_interval(first).contains(self.origin.get(first))
            && bounds.axis_interval(second).contains(self.origin.get(second)) && along.min
            <= along.max;
        (inside, along.min as i128 - from, along.max as i128 - from)
    }
}

impl GridBox {
    pub fn new(bounds: AABB) -> (r: Self)
        ensures
            r.bounds == bounds,
    {
        GridBox { bounds }
    }
}

impl Hittable for GridBox {
    type Ray = GridRay;

    open spec fn first_hit(&self, ray: &GridRay, ray_t: Interval) -> Option<i64> {
        block_hit(*ray, self.bounds, ray_t)
    }

    open spec fn bounds(&self) -> AABB {
        self.bounds
    }

    open spec fn crosses(ray: &GridRay, bounds: AABB, ray_t: Interval) -> bool {
        block_crossed(*ray, bounds, ray_t)
    }

    fn hit(&self, ray: &GridRay, ray_t: Interval) -> (r: Option<i64>) {
        let (inside, near, far) = ray.meet(&self.bounds);
        if !inside {
            return None;
        }
        let lower: i128 = ray_t.min as i128;
        let upper: i128 = ray_t.max as i128;
        if lower < near && near < upper {
            Some(near as i64)
        } else if lower < far && far < upper {
            Some(far as i64)
        } else {
            None
        }
    }

    fn bounding_box(&self) -> (r: AABB) {
        self.bounds
    }

    fn box_hit(ray: &GridRay, bounds: &AABB, ray_t: Interval) -> (r: bool) {
        let (inside, near, far) = ray.meet(bounds);
        inside && near < ray_t.max as i128 && (ray_t.min as i128) < far
    }

    proof fn lemma_inside(&self, ray: &GridRay, ray_t: Interval) {
    }

    proof fn lemma_narrow(&self, ray: &GridRay, ray_t: Interval, upper: i64) {
    }

    proof fn lemma_enclosed(&self, ray: &GridRay, ray_t: Interval, outer: AABB) {
    }
}

} // verus!
