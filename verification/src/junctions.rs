//! Junction points in space, and their squared distances.

use vstd::prelude::*;

verus! {

/// A junction's position.
#[derive(Clone, Copy, PartialEq, Eq, Structural, Hash)]
pub struct Point3D {
    pub x: i32,
    pub y: i32,
    pub z: i32,
}

/// Coordinates small enough that differences and squares fit the machine.
pub open spec fn p3_ok(p: Point3D) -> bool {
    &&& -0x2000_0000 <= p.x <= 0x2000_0000
    &&& -0x2000_0000 <= p.y <= 0x2000_0000
    &&& -0x2000_0000 <= p.z <= 0x2000_0000
}

/// The squared Euclidean distance between two junctions.
pub open spec fn spec_distance_squared(a: Point3D, b: Point3D) -> int {
    (a.x - b.x) * (a.x - b.x) + (a.y - b.y) * (a.y - b.y) + (a.z - b.z) * (a.z - b.z)
}

impl Point3D {
    /// A junction from its three coordinates.
    pub fn new(x: i32, y: i32, z: i32) -> (r: Point3D)
        ensures
            r.x == x && r.y == y && r.z == z,
    {
        Point3D { x, y, z }
    }

    /// The squared distance to another junction.
    pub fn distance_squared(&self, other: &Point3D) -> (r: u64)
        requires
            p3_ok(*self),
            p3_ok(*other),
        ensures
            r == spec_distance_squared(*self, *other),
    {
        let dx = self.x as i64 - other.x as i64;
        let dy = self.y as i64 - other.y as i64;
        let dz = self.z as i64 - other.z as i64;
        proof {
            assert(0 <= dx * dx <= 0x1000_0000_0000_0000) by (nonlinear_arith)
                requires -0x4000_0000 <= dx <= 0x4000_0000;
            assert(0 <= dy * dy <= 0x1000_0000_0000_0000) by (nonlinear_arith)
                requires -0x4000_0000 <= dy <= 0x4000_0000;
            assert(0 <= dz * dz <= 0x1000_0000_0000_0000) by (nonlinear_arith)
                requires -0x4000_0000 <= dz <= 0x4000_0000;
        }
        (dx * dx + dy * dy + dz * dz) as u64
    }
}

} // verus!
