use vstd::prelude::*;

verus! {

/// A point or offset on the integer grid.
#[derive(Debug, Clone, Copy, PartialEq, Eq, Structural)]
pub struct Vec3 {
    pub x: i64,
    pub y: i64,
    pub z: i64,
}

impl Vec3 {
    /// The component on axis `n`: 0 for x, 1 for y, 2 for z.
    pub open spec fn spec_get(self, n: int) -> i64 {
        if n == 0 {
            self.x
        } else if n == 1 {
            self.y
        } else {
            self.z
        }
    }

    pub fn new(x: i64, y: i64, z: i64) -> (r: Self)
        ensures
            r == (Vec3 { x, y, z }),
    {
        Vec3 { x, y, z }
    }

    pub fn zero() -> (r: Self)
        ensures
            r == (Vec3 { x: 0, y: 0, z: 0 }),
    {
        Vec3 { x: 0, y: 0, z: 0 }
    }

    /// One step along the y axis.
    pub fn up() -> (r: Self)
        ensures
            r == (Vec3 { x: 0, y: 1, z: 0 }),
    {
        Vec3 { x: 0, y: 1, z: 0 }
    }

    pub fn get_x(&self) -> (r: i64)
        ensures
            r == self.x,
    {
        self.x
    }

    pub fn get_y(&self) -> (r: i64)
        ensures
            r == self.y,
    {
        self.y
    }

    pub fn get_z(&self) -> (r: i64)
        ensures
            r == self.z,
    {
        self.z
    }

    pub fn set_x(&mut self, value: i64)
        ensures
            *final(self) == (Vec3 { x: value, y: old(self).y, z: old(self).z }),
    {
        self.x = value;
    }

    pub fn set_y(&mut self, value: i64)
        ensures
            *final(self) == (Vec3 { x: old(self).x, y: value, z: old(self).z }),
    {
        self.y = value;
    }

    pub fn set_z(&mut self, value: i64)
        ensures
            *final(self) == (Vec3 { x: old(self).x, y: old(self).y, z: value }),
    {
        self.z = value;
    }

    pub fn get(&self, n: usize) -> (r: i64)
        requires
            n <= 2,
        ensures
            r == self.spec_get(n as int),
    {
        if n == 0 {
            self.x
        } else if n == 1 {
            self.y
        } else {
            self.z
        }
    }
}

} // verus!
