use vstd::prelude::*;

verus! {

/// Whether the cell `(x, y, z)` of a checker pattern is an even one: cells
/// alternate along every axis.
pub open spec fn spec_checker_is_even(x: int, y: int, z: int) -> bool {
    (x + y + z) % 2 == 0
}

/// Whether the cell `(x, y, z)` of a checker pattern shows the even texture.
pub fn checker_is_even(x: i32, y: i32, z: i32) -> (r: bool)
    ensures
        r == spec_checker_is_even(x as int, y as int, z as int),
{
    let sum: i64 = x as i64 + y as i64 + z as i64;
    sum % 2 == 0
}

/// Stepping to a neighbouring cell along any axis changes the texture.
pub proof fn lemma_checker_alternates(x: int, y: int, z: int)
    ensures
        spec_checker_is_even(x + 1, y, z) != spec_checker_is_even(x, y, z),
        spec_checker_is_even(x, y + 1, z) != spec_checker_is_even(x, y, z),
        spec_checker_is_even(x, y, z + 1) != spec_checker_is_even(x, y, z),
{
}

} // verus!
