use vstd::prelude::*;
use crate::interval::Interval;

verus! {

/// Which of the two roots of a ray's quadratic counts as the hit: the nearer
/// one if it lies strictly inside `ray_t`, else the farther one if that does,
/// else none. Without roots there is no hit.
pub open spec fn spec_nearest_root(roots: Option<(i64, i64)>, ray_t: Interval) -> Option<i64> {
    match roots {
        None => None,
        Some((near, far)) => {
            if ray_t.spec_surrounds(near as int) {
                Some(near)
            } else if ray_t.spec_surrounds(far as int) {
                Some(far)
            } else {
                None
            }
        },
    }
}

/// Picks the hit among the roots of a ray's quadratic, given as the nearer
/// and the farther one, or as `None` where the discriminant is negative.
pub fn nearest_root(roots: Option<(i64, i64)>, ray_t: &Interval) -> (r: Option<i64>)
    ensures
        r == spec_nearest_root(roots, *ray_t),
{
    match roots {
        None => None,
        Some((near, far)) => {
            let mut root: i64 = near;
            if !ray_t.surrounds(root) {
                root = far;
                if !ray_t.surrounds(root) {
                    return None;
                }
            }
            Some(root)
        },
    }
}

/// A reported hit is the smallest root that lies strictly inside the range;
/// the larger root is reported where the smaller one lies outside and the
/// larger one inside; and nothing is reported where neither lies inside.
pub proof fn lemma_nearest_root(near: i64, far: i64, ray_t: Interval)
    requires
        near <= far,
    ensures
        ray_t.spec_surrounds(near as int) ==> spec_nearest_root(Some((near, far)), ray_t) == Some(
            near,
        ),
        !ray_t.spec_surrounds(near as int) && ray_t.spec_surrounds(far as int)
            ==> spec_nearest_root(Some((near, far)), ray_t) == Some(far),
        !ray_t.spec_surrounds(near as int) && !ray_t.spec_surrounds(far as int)
            ==> spec_nearest_root(Some((near, far)), ray_t).is_none(),
        forall|t: i64, root: i64|
            spec_nearest_root(Some((near, far)), ray_t) == Some(t) && (root == near || root == far)
                && ray_t.spec_surrounds(root as int) ==> t <= root && ray_t.spec_surrounds(
                t as int,
            ),
{
}

} // verus!
