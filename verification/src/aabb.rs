use vstd::prelude::*;
use crate::interval::Interval;
use crate::vec3::Vec3;

verus! {

/// The least width that `AABB::new` leaves an axis with.
pub const MIN_EXTENT: i64 = 2;

/// An axis-aligned box: one interval for each axis.
#[derive(Debug, Clone, Copy, PartialEq, Eq, Structural)]
pub struct AABB {
    pub x: Interval,
    pub y: Interval,
    pub z: Interval,
}

/// The interval between two coordinates, whichever is the smaller.
pub open spec fn span_of(a: i64, b: i64) -> Interval {
    if a <= b {
        Interval { min: a, max: b }
    } else {
        Interval { min: b, max: a }
    }
}

/// An interval narrower than `MIN_EXTENT` grows by half of it on each side.
pub open spec fn padded(i: Interval) -> Interval {
    if i.spec_size() < 2 {
        Interval {
            min: crate::interval::saturate(i.min - 1) as i64,
            max: crate::interval::saturate(i.max + 1) as i64,
        }
    } else {
        i
    }
}

impl AABB {
    /// The box that covers both `self` and `other`.
    pub open spec fn union(self, other: AABB) -> AABB {
        AABB { x: self.x.union(other.x), y: self.y.union(other.y), z: self.z.union(other.z) }
    }

    /// `self` lies inside `other` on every axis.
    pub open spec fn within(self, other: AABB) -> bool {
        self.x.within(other.x) && self.y.within(other.y) && self.z.within(other.z)
    }

    /// The box that holds nothing.
    pub open spec fn spec_empty() -> AABB {
        let e = Interval { min: i64::MAX, max: i64::MIN };
        AABB { x: e, y: e, z: e }
    }

    /// The interval of axis `n`: 0 for x, 1 for y, anything else for z.
    pub open spec fn spec_axis_interval(self, n: int) -> Interval {
        if n == 0 {
            self.x
        } else if n == 1 {
            self.y
        } else {
            self.z
        }
    }

    /// The widest axis; among equally wide axes the one with the highest
    /// number.
    pub open spec fn spec_longest_axis(self) -> int {
        let sx = self.x.spec_size();
        let sy = self.y.spec_size();
        let sz = self.z.spec_size();
        if sz >= sx && sz >= sy {
            2
        } else if sy >= sx {
            1
        } else {
            0
        }
    }

    /// The box that holds nothing; joining it with a box gives that box.
    pub fn empty() -> (r: Self)
        ensures
            r == Self::spec_empty(),
    {
        AABB { x: Interval::empty(), y: Interval::empty(), z: Interval::empty() }
    }

    /// The box of the three intervals, each widened to `MIN_EXTENT` if it is
    /// narrower.
    pub fn new(x: Interval, y: Interval, z: Interval) -> (r: Self)
        ensures
            r == (AABB { x: padded(x), y: padded(y), z: padded(z) }),
    {
        let mut aabb = AABB { x, y, z };
        Self::pad_to_minimums(&mut aabb);
        aabb
    }

    /// The box with `a` and `b` as opposite corners, in either order; an axis
    /// on which the corners lie closer than `MIN_EXTENT` is widened to it.
    pub fn from_corners(a: Vec3, b: Vec3) -> (r: Self)
        ensures
            r == (AABB {
                x: padded(span_of(a.x, b.x)),
                y: padded(span_of(a.y, b.y)),
                z: padded(span_of(a.z, b.z)),
            }),
            point_box(a).within(r),
            point_box(b).within(r),
    {
        let x = if a.x <= b.x {
            Interval::new(a.x, b.x)
        } else {
            Interval::new(b.x, a.x)
        };
        let y = if a.y <= b.y {
            Interval::new(a.y, b.y)
        } else {
            Interval::new(b.y, a.y)
        };
        let z = if a.z <= b.z {
            Interval::new(a.z, b.z)
        } else {
            Interval::new(b.z, a.z)
        };
        let mut aabb = AABB { x, y, z };
        Self::pad_to_minimums(&mut aabb);
        aabb
    }

    /// The box that covers both `a` and `b`.
    pub fn from_aabbs(a: &Self, b: &Self) -> (r: Self)
        ensures
            r == a.union(*b),
    {
        AABB {
            x: Interval::from_intervals(&a.x, &b.x),
            y: Interval::from_intervals(&a.y, &b.y),
            z: Interval::from_intervals(&a.z, &b.z),
        }
    }

    /// The interval of axis `n`: 0 for x, 1 for y, anything else for z.
    pub fn axis_interval(&self, n: usize) -> (r: &Interval)
        ensures
            *r == self.spec_axis_interval(n as int),
    {
        if n == 0 {
            &self.x
        } else if n == 1 {
            &self.y
        } else {
            &self.z
        }
    }

    /// The widest axis; among equally wide axes the one with the highest
    /// number.
    pub fn longest_axis(&self) -> (r: usize)
        ensures
            r == self.spec_longest_axis(),
            r <= 2,
            forall|n: int|
                0 <= n <= 2 ==> (#[trigger] self.spec_axis_interval(n)).spec_size()
                    <= self.spec_axis_interval(r as int).spec_size(),
            forall|n: int|
                r < n <= 2 ==> (#[trigger] self.spec_axis_interval(n)).spec_size()
                    < self.spec_axis_interval(r as int).spec_size(),
    {
        if self.x.size() > self.y.size() {
            if self.x.size() > self.z.size() {
                0
            } else {
                2
            }
        } else {
            if self.y.size() > self.z.size() {
                1
            } else {
                2
            }
        }
    }

    /// Whether a ray passes through the box within `ray_t`, given the two
    /// distances at which it crosses the bounding planes of each axis: the
    /// three ranges between the crossings and `ray_t` must share more than a
    /// point.
    pub fn hit(x: (i64, i64), y: (i64, i64), z: (i64, i64), ray_t: Interval) -> (r: bool)
        ensures
            r == Self::spec_hit(x, y, z, ray_t),
    {
        let mut ray_t = ray_t;
        ray_t = ray_t.clip(x.0, x.1);
        if ray_t.max <= ray_t.min {
            return false;
        }
        ray_t = ray_t.clip(y.0, y.1);
        if ray_t.max <= ray_t.min {
            return false;
        }
        ray_t = ray_t.clip(z.0, z.1);
        if ray_t.max <= ray_t.min {
            return false;
        }
        true
    }

    /// `ray_t`, cut down to the stretch between the crossings of each axis in
    /// turn, still holds more than a point.
    pub open spec fn spec_hit(x: (i64, i64), y: (i64, i64), z: (i64, i64), ray_t: Interval) -> bool {
        let c = ray_t.spec_clip(x.0 as int, x.1 as int).spec_clip(y.0 as int, y.1 as int).spec_clip(
            z.0 as int,
            z.1 as int,
        );
        c.min < c.max
    }

    /// Widens each axis that is narrower than `MIN_EXTENT`.
    fn pad_to_minimums(aabb: &mut Self)
        ensures
            *final(aabb) == (AABB {
                x: padded(old(aabb).x),
                y: padded(old(aabb).y),
                z: padded(old(aabb).z),
            }),
    {
        let delta: i64 = MIN_EXTENT;
        if aabb.x.size() < delta as i128 {
            aabb.x = aabb.x.expand(delta);
        }
        if aabb.y.size() < delta as i128 {
            aabb.y = aabb.y.expand(delta);
        }
        if aabb.z.size() < delta as i128 {
            aabb.z = aabb.z.expand(delta);
        }
    }

    /// The eight corners of the box: the corner numbered `4 i + 2 j + k` has
    /// the upper bound on x, y or z where `i`, `j` or `k` is 1, and the
    /// lower bound where it is 0.
    pub fn corners(&self) -> (r: Vec<Vec3>)
        ensures
            r@.len() == 8,
            forall|i: int, j: int, k: int|
                0 <= i <= 1 && 0 <= j <= 1 && 0 <= k <= 1 ==> #[trigger] r@[4 * i + 2 * j + k] == (
                Vec3 {
                    x: if i == 1 {
                        self.x.max
                    } else {
                        self.x.min
                    },
                    y: if j == 1 {
                        self.y.max
                    } else {
                        self.y.min
                    },
                    z: if k == 1 {
                        self.z.max
                    } else {
                        self.z.min
                    },
                }),
    {
        let mut r: Vec<Vec3> = Vec::new();
        r.push(Vec3 { x: self.x.min, y: self.y.min, z: self.z.min });
        r.push(Vec3 { x: self.x.min, y: self.y.min, z: self.z.max });
        r.push(Vec3 { x: self.x.min, y: self.y.max, z: self.z.min });
        r.push(Vec3 { x: self.x.min, y: self.y.max, z: self.z.max });
        r.push(Vec3 { x: self.x.max, y: self.y.min, z: self.z.min });
        r.push(Vec3 { x: self.x.max, y: self.y.min, z: self.z.max });
        r.push(Vec3 { x: self.x.max, y: self.y.max, z: self.z.min });
        r.push(Vec3 { x: self.x.max, y: self.y.max, z: self.z.max });
        r
    }

    /// The box moved by `offset`, axis by axis.
    pub fn add(self, offset: Vec3) -> (r: Self)
        requires
            self.can_move(offset),
        ensures
            r.x.min == self.x.min + offset.x && r.x.max == self.x.max + offset.x,
            r.y.min == self.y.min + offset.y && r.y.max == self.y.max + offset.y,
            r.z.min == self.z.min + offset.z && r.z.max == self.z.max + offset.z,
    {
        AABB { x: self.x.add(offset.x), y: self.y.add(offset.y), z: self.z.add(offset.z) }
    }

    /// Moving the box by `offset` keeps every bound on the scale.
    pub open spec fn can_move(self, offset: Vec3) -> bool {
        &&& i64::MIN <= self.x.min + offset.x <= i64::MAX
        &&& i64::MIN <= self.x.max + offset.x <= i64::MAX
        &&& i64::MIN <= self.y.min + offset.y <= i64::MAX
        &&& i64::MIN <= self.y.max + offset.y <= i64::MAX
        &&& i64::MIN <= self.z.min + offset.z <= i64::MAX
        &&& i64::MIN <= self.z.max + offset.z <= i64::MAX
    }
}

/// The point `p` as a box of no width.
pub open spec fn point_box(p: Vec3) -> AABB {
    AABB {
        x: Interval { min: p.x, max: p.x },
        y: Interval { min: p.y, max: p.y },
        z: Interval { min: p.z, max: p.z },
    }
}

/// The join of the first `n` points, starting from the empty box.
pub open spec fn spec_extent(points: Seq<Vec3>, n: int) -> AABB
    decreases n,
{
    if n <= 0 {
        AABB::spec_empty()
    } else {
        spec_extent(points, n - 1).union(point_box(points[n - 1]))
    }
}

/// The box around `points`: the empty box for no points, else the least box
/// that holds them all, with each axis narrower than `MIN_EXTENT` widened to
/// it.
pub fn extent(points: &Vec<Vec3>) -> (r: AABB)
    ensures
        points@.len() == 0 ==> r == AABB::spec_empty(),
        points@.len() > 0 ==> r == (AABB {
            x: padded(spec_extent(points@, points@.len() as int).x),
            y: padded(spec_extent(points@, points@.len() as int).y),
            z: padded(spec_extent(points@, points@.len() as int).z),
        }),
        forall|k: int| 0 <= k < points@.len() ==> point_box(#[trigger] points@[k]).within(r),
{
    let mut x = Interval::empty();
    let mut y = Interval::empty();
    let mut z = Interval::empty();
    let mut i: usize = 0;
    while i < points.len()
        invariant
            i <= points@.len(),
            (AABB { x, y, z }) == spec_extent(points@, i as int),
            forall|k: int|
                0 <= k < i ==> point_box(#[trigger] points@[k]).within((AABB { x, y, z })),
        decreases points@.len() - i,
    {
        let p: Vec3 = points[i];
        x = Interval::from_intervals(&x, &Interval::new(p.x, p.x));
        y = Interval::from_intervals(&y, &Interval::new(p.y, p.y));
        z = Interval::from_intervals(&z, &Interval::new(p.z, p.z));
        i = i + 1;
    }
    if points.len() == 0 {
        AABB::empty()
    } else {
        AABB::new(x, y, z)
    }
}

/// Joining boxes is commutative and associative, joining a box with itself
/// gives the same box, the empty box changes nothing, and each of two boxes
/// lies within their join.
pub proof fn lemma_union_laws(a: AABB, b: AABB, c: AABB)
    ensures
        a.union(b) == b.union(a),
        a.union(b).union(c) == a.union(b.union(c)),
        a.union(a) == a,
        AABB::spec_empty().union(a) == a,
        a.union(AABB::spec_empty()) == a,
        a.within(a.union(b)),
        b.within(a.union(b)),
{
}

/// A join is at least as wide on every axis as each of the boxes joined: what
/// was widened at construction stays wide in every box built from it.
pub proof fn lemma_union_keeps_width(a: AABB, b: AABB, n: int)
    ensures
        a.union(b).spec_axis_interval(n).spec_size() >= a.spec_axis_interval(n).spec_size(),
        a.union(b).spec_axis_interval(n).spec_size() >= b.spec_axis_interval(n).spec_size(),
{
}

/// Widening never loses anything of an interval, and an interval that holds
/// at least one value, away from the ends of the scale, comes out at least
/// `MIN_EXTENT` wide: so is every axis of a box that `AABB::new` or
/// `AABB::from_corners` makes from such bounds.
pub proof fn lemma_padded_width(i: Interval)
    ensures
        i.within(padded(i)),
        i.min <= i.max && i64::MIN < i.min && i.max < i64::MAX ==> padded(i).spec_size()
            >= MIN_EXTENT,
{
}

} // verus!
