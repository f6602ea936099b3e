//! Positions and displacements: the executable `Vec3` on the grid and its
//! mathematical model `Vector` over unbounded integers.

use crate::grid::clamp_to_world;
use crate::grid::floor_sqrt;
use crate::grid::in_range;
use crate::grid::isqrt;
use crate::grid::MAX_REST_LENGTH;
use crate::grid::WORLD_LIMIT;
use vstd::prelude::*;

verus! {

/// A position or displacement in the model: three unbounded integers that
/// count grid cells.
pub struct Vector {
    pub x: int,
    pub y: int,
    pub z: int,
}

impl Vector {
    /// The origin, and the displacement that moves nothing.
    pub open spec fn zero() -> Vector {
        Vector { x: 0, y: 0, z: 0 }
    }

    /// Component-wise sum.
    pub open spec fn plus(self, other: Vector) -> Vector {
        Vector { x: self.x + other.x, y: self.y + other.y, z: self.z + other.z }
    }

    /// Component-wise difference.
    pub open spec fn minus(self, other: Vector) -> Vector {
        Vector { x: self.x - other.x, y: self.y - other.y, z: self.z - other.z }
    }

    /// The square of the Euclidean length.
    pub open spec fn norm_squared(self) -> int {
        self.x * self.x + self.y * self.y + self.z * self.z
    }

    /// The Euclidean length rounded down to a whole number of cells.
    pub open spec fn length(self) -> int {
        floor_sqrt(self.norm_squared())
    }

    /// Whether every coordinate lies inside the world.
    pub open spec fn in_world(self) -> bool {
        in_range(self.x) && in_range(self.y) && in_range(self.z)
    }

    /// The nearest position inside the world.
    pub open spec fn clamped(self) -> Vector {
        Vector {
            x: clamp_to_world(self.x),
            y: clamp_to_world(self.y),
            z: clamp_to_world(self.z),
        }
    }
}

/// A position or displacement on the grid.
#[derive(Clone, Copy, Debug, PartialEq, Eq, Structural)]
pub struct Vec3 {
    pub x: i64,
    pub y: i64,
    pub z: i64,
}

impl View for Vec3 {
    type V = Vector;

    open spec fn view(&self) -> Vector {
        Vector { x: self.x as int, y: self.y as int, z: self.z as int }
    }
}

/// The square of a difference of two coordinates of the world.
pub(crate) fn square(v: i128) -> (r: u128)
    requires
        -2 * WORLD_LIMIT <= v <= 2 * WORLD_LIMIT,
    ensures
        r == v * v,
        r <= 0x4_0000_0000_0000_0000_0000,
{
    assert(0 <= v * v <= 0x4_0000_0000_0000_0000_0000) by (nonlinear_arith)
        requires
            -0x200_0000_0000 <= v <= 0x200_0000_0000,
    ;
    (v * v) as u128
}

impl Vec3 {
    /// The vector with the given coordinates.
    pub fn new(x: i64, y: i64, z: i64) -> (v: Vec3)
        ensures
            v == (Vec3 { x, y, z }),
    {
        Vec3 { x, y, z }
    }

    /// Whether every coordinate lies inside the world.
    pub fn in_world(&self) -> (inside: bool)
        ensures
            inside == self@.in_world(),
    {
        -WORLD_LIMIT <= self.x && self.x <= WORLD_LIMIT && -WORLD_LIMIT <= self.y && self.y
            <= WORLD_LIMIT && -WORLD_LIMIT <= self.z && self.z <= WORLD_LIMIT
    }

    /// The distance to `other`, rounded down to a whole number of cells.
    pub fn distance(&self, other: &Vec3) -> (d: i64)
        requires
            self@.in_world(),
            other@.in_world(),
        ensures
            d == self@.minus(other@).length(),
            0 <= d <= MAX_REST_LENGTH,
    {
        let dx: u128 = square(self.x as i128 - other.x as i128);
        let dy: u128 = square(self.y as i128 - other.y as i128);
        let dz: u128 = square(self.z as i128 - other.z as i128);
        let root: u64 = isqrt(dx + dy + dz);
        proof {
            let n: int = (dx + dy + dz) as int;
            crate::grid::lemma_floor_sqrt(n);
            assert(root <= 0x400_0000_0000) by (nonlinear_arith)
                requires
                    0 <= root,
                    root * root <= n,
                    n <= 0xc_0000_0000_0000_0000_0000,
            ;
        }
        root as i64
    }
}

} // verus!
