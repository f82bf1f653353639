//! Fixed-point 3D points.
//!
//! A coordinate is an `i64` counting millionths of one file-native distance
//! unit, kept within a symmetric band so that squared distances stay inside
//! `i128` arithmetic.

use vstd::prelude::*;

verus! {

/// Fixed-point steps per file-native distance unit.
pub const UNIT: i64 = 1_000_000;

/// Largest coordinate magnitude the model admits, in fixed-point steps
/// (one million file-native units).
pub const COORD_LIMIT: i64 = 1_000_000_000_000;

/// A point or direction in 3D space, coordinates in fixed-point steps.
#[derive(Clone, Copy, PartialEq, Eq, Structural, Debug)]
pub struct Point3 {
    pub x: i64,
    pub y: i64,
    pub z: i64,
}

pub open spec fn coord_in_range(c: int) -> bool {
    -(COORD_LIMIT as int) <= c <= COORD_LIMIT as int
}

pub open spec fn point_in_range(p: Point3) -> bool {
    coord_in_range(p.x as int) && coord_in_range(p.y as int) && coord_in_range(p.z as int)
}

/// Clamp a mathematical coordinate into the representable band.
pub open spec fn clamp_coord(v: int) -> int {
    if v > COORD_LIMIT as int {
        COORD_LIMIT as int
    } else if v < -(COORD_LIMIT as int) {
        -(COORD_LIMIT as int)
    } else {
        v
    }
}

} // verus!
