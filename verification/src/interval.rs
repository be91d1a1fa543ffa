use vstd::prelude::*;

verus! {

/// A closed range `[min, max]` on an integer scale.
///
/// An interval with `min > max` holds no value; `Interval::empty()` is the
/// canonical one and is the identity of `from_intervals`.
#[derive(Debug, Clone, Copy, PartialEq, Eq, Structural)]
pub struct Interval {
    pub min: i64,
    pub max: i64,
}

impl Interval {
    /// The interval that covers both `self` and `other`.
    pub open spec fn union(self, other: Interval) -> Interval {
        Interval {
            min: if self.min <= other.min { self.min } else { other.min },
            max: if self.max >= other.max { self.max } else { other.max },
        }
    }

    /// `self` lies inside `other`, bound by bound.
    pub open spec fn within(self, other: Interval) -> bool {
        other.min <= self.min && self.max <= other.max
    }

    /// The width: negative for an interval that holds nothing.
    pub open spec fn spec_size(self) -> int {
        self.max - self.min
    }

    /// `val` lies in the interval, the bounds included.
    pub open spec fn spec_contains(self, val: int) -> bool {
        self.min <= val && val <= self.max
    }

    /// `val` lies strictly between the bounds.
    pub open spec fn spec_surrounds(self, val: int) -> bool {
        self.min < val && val < self.max
    }

    /// The value of the interval nearest to `val`.
    pub open spec fn spec_clamp(self, val: int) -> int {
        if val < self.min {
            self.min as int
        } else if val > self.max {
            self.max as int
        } else {
            val
        }
    }

    /// Half of `delta`, rounded towards zero.
    pub open spec fn half(delta: int) -> int {
        if delta >= 0 {
            delta / 2
        } else {
            -((-delta) / 2)
        }
    }

    /// The bounds moved outwards by half of `delta` each, before they are
    /// held to the scale.
    pub open spec fn spec_expand(self, delta: int) -> (int, int) {
        (self.min - Self::half(delta), self.max + Self::half(delta))
    }

    /// The part of the interval between `t0` and `t1`, in either order.
    pub open spec fn spec_clip(self, t0: int, t1: int) -> Interval {
        let lo = if t0 < t1 { t0 } else { t1 };
        let hi = if t0 < t1 { t1 } else { t0 };
        Interval {
            min: if lo > self.min { lo as i64 } else { self.min },
            max: if hi < self.max { hi as i64 } else { self.max },
        }
    }

    /// The interval that holds nothing: its bounds are the two ends of the
    /// scale, crossed.
    pub fn empty() -> (r: Self)
        ensures
            r.min == i64::MAX,
            r.max == i64::MIN,
    {
        Interval { min: i64::MAX, max: i64::MIN }
    }

    /// The interval that holds the whole scale.
    pub fn all() -> (r: Self)
        ensures
            r.min == i64::MIN,
            r.max == i64::MAX,
    {
        Interval { min: i64::MIN, max: i64::MAX }
    }

    /// The interval from `min` to `max`; it holds nothing if `min` is the
    /// greater.
    pub fn new(min: i64, max: i64) -> (r: Self)
        ensures
            r.min == min,
            r.max == max,
    {
        Interval { min, max }
    }

    /// The interval that covers both `a` and `b`.
    pub fn from_intervals(a: &Self, b: &Self) -> (r: Self)
        ensures
            r == a.union(*b),
    {
        let min: i64 = if a.min <= b.min { a.min } else { b.min };
        let max: i64 = if a.max >= b.max { a.max } else { b.max };
        Interval { min, max }
    }

    /// `max - min`, negative for an interval that holds nothing. The result is
    /// wide enough for any two bounds.
    pub fn size(&self) -> (r: i128)
        ensures
            r == self.spec_size(),
    {
        let hi: i128 = self.max as i128;
        let lo: i128 = self.min as i128;
        hi - lo
    }

    /// Whether `val` lies in the interval, the bounds included.
    pub fn contains(&self, val: i64) -> (r: bool)
        ensures
            r == self.spec_contains(val as int),
    {
        self.min <= val && val <= self.max
    }

    /// Whether `val` lies strictly between the bounds.
    pub fn surrounds(&self, val: i64) -> (r: bool)
        ensures
            r == self.spec_surrounds(val as int),
    {
        self.min < val && val < self.max
    }

    /// The value of the interval nearest to `val`.
    pub fn clamp(&self, val: i64) -> (r: i64)
        requires
            self.min <= self.max,
        ensures
            r == self.spec_clamp(val as int),
            self.spec_contains(r as int),
    {
        if val < self.min {
            self.min
        } else if val > self.max {
            self.max
        } else {
            val
        }
    }

    /// Moves each bound outwards by half of `delta`, rounded towards zero. A
    /// bound that would leave the scale stops at its end.
    pub fn expand(&self, delta: i64) -> (r: Self)
        ensures
            r.min == saturate(self.spec_expand(delta as int).0),
            r.max == saturate(self.spec_expand(delta as int).1),
    {
        let padding: i64 = delta / 2;
        let lo: i128 = self.min as i128 - padding as i128;
        let hi: i128 = self.max as i128 + padding as i128;
        Interval { min: to_scale(lo), max: to_scale(hi) }
    }

    /// The part of `self` between `t0` and `t1`, whichever of the two is the
    /// smaller: the lower bound rises to it, the upper bound falls to the
    /// larger.
    pub fn clip(&self, t0: i64, t1: i64) -> (r: Self)
        ensures
            r == self.spec_clip(t0 as int, t1 as int),
    {
        let mut min: i64 = self.min;
        let mut max: i64 = self.max;
        if t0 < t1 {
            if t0 > min {
                min = t0;
            }
            if t1 < max {
                max = t1;
            }
        } else {
            if t1 > min {
                min = t1;
            }
            if t0 < max {
                max = t0;
            }
        }
        Interval { min, max }
    }

    /// Moves both bounds by `offset`.
    pub fn add(self, offset: i64) -> (r: Self)
        requires
            i64::MIN <= self.min + offset <= i64::MAX,
            i64::MIN <= self.max + offset <= i64::MAX,
        ensures
            r.min == self.min + offset,
            r.max == self.max + offset,
    {
        Interval { min: self.min + offset, max: self.max + offset }
    }
}

/// The value of the scale nearest to `v`.
pub open spec fn saturate(v: int) -> int {
    if v < i64::MIN {
        i64::MIN as int
    } else if v > i64::MAX {
        i64::MAX as int
    } else {
        v
    }
}

/// Brings a wide value onto the scale, stopping at its ends.
pub fn to_scale(v: i128) -> (r: i64)
    ensures
        r == saturate(v as int),
{
    if v < i64::MIN as i128 {
        i64::MIN
    } else if v > i64::MAX as i128 {
        i64::MAX
    } else {
        v as i64
    }
}

/// Joining intervals does not depend on the order or the grouping, joining an
/// interval with itself gives it back, and the empty interval changes nothing.
pub proof fn lemma_union_laws(a: Interval, b: Interval, c: Interval)
    ensures
        a.union(b) == b.union(a),
        a.union(b).union(c) == a.union(b.union(c)),
        a.union(a) == a,
        (Interval { min: i64::MAX, max: i64::MIN }).union(a) == a,
        a.within(a.union(b)),
        b.within(a.union(b)),
{
}

} // verus!
