use vstd::prelude::*;
use crate::interval::Interval;

verus! {

/// The stretch of a ray inside a medium, cut to `ray_t`: the entry is raised
/// to the lower end of `ray_t`, the exit lowered to its upper end. There is
/// no stretch unless the entry then lies before the exit. An entry behind
/// the ray's origin is moved to the origin, and a stretch that ends behind
/// the origin is none.
pub open spec fn spec_medium_span(entry: i64, exit: i64, ray_t: Interval) -> Option<(i64, i64)> {
    let first = if entry > ray_t.min {
        entry
    } else {
        ray_t.min
    };
    let second = if exit < ray_t.max {
        exit
    } else {
        ray_t.max
    };
    if first >= second || second < 0 {
        None
    } else if first < 0 {
        Some((0i64, second))
    } else {
        Some((first, second))
    }
}

/// The stretch of a ray inside a medium whose boundary it crosses at `entry`
/// and `exit`, cut to `ray_t`. A stretch that comes back starts no earlier
/// than the origin and than `ray_t`, and ends no later than `ray_t`.
pub fn medium_span(entry: i64, exit: i64, ray_t: &Interval) -> (r: Option<(i64, i64)>)
    ensures
        r == spec_medium_span(entry, exit, *ray_t),
        r.is_some() ==> 0 <= r.unwrap().0 <= r.unwrap().1 && ray_t.min <= r.unwrap().0
            && r.unwrap().1 <= ray_t.max,
{
    let mut first: i64 = if entry > ray_t.min {
        entry
    } else {
        ray_t.min
    };
    let second: i64 = if exit < ray_t.max {
        exit
    } else {
        ray_t.max
    };
    if first >= second || second < 0 {
        return None;
    }
    if first < 0 {
        first = 0;
    }
    Some((first, second))
}

} // verus!
