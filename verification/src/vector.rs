use vstd::prelude::*;

verus! {

/// Largest magnitude of a lattice coordinate.
pub const COORD_MAX: i32 = 0x2000_0000;

/// Whether `c` is a coordinate of the lattice.
pub open spec fn coord_ok(c: int) -> bool {
    -(COORD_MAX as int) <= c <= COORD_MAX as int
}

/// A point or a direction on the integer lattice.
#[derive(Clone, Copy, Debug, PartialEq, Eq, Structural)]
pub struct Vector {
    pub x: i32,
    pub y: i32,
    pub z: i32,
}

impl Vector {
    /// The component along axis `n`; axes beyond `z` read as `z`.
    pub open spec fn at(&self, n: int) -> i32 {
        if n == 0 {
            self.x
        } else if n == 1 {
            self.y
        } else {
            self.z
        }
    }

    /// All three components are lattice coordinates.
    pub open spec fn wf(&self) -> bool {
        &&& coord_ok(self.x as int)
        &&& coord_ok(self.y as int)
        &&& coord_ok(self.z as int)
    }

    pub fn new(x: i32, y: i32, z: i32) -> (v: Vector)
        ensures
            v == (Vector { x, y, z }),
    {
        Vector { x, y, z }
    }

    /// The component along axis `n`.
    pub fn get_n(&self, n: usize) -> (c: i32)
        requires
            n < 3,
        ensures
            c == self.at(n as int),
    {
        if n == 0 {
            self.x
        } else if n == 1 {
            self.y
        } else {
            self.z
        }
    }

    /// Whether the vector lies on the lattice.
    pub fn in_range(&self) -> (r: bool)
        ensures
            r == self.wf(),
    {
        -COORD_MAX <= self.x && self.x <= COORD_MAX && -COORD_MAX <= self.y && self.y
            <= COORD_MAX && -COORD_MAX <= self.z && self.z <= COORD_MAX
    }
}

} // verus!
