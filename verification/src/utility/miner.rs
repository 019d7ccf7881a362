use crate::utility::vector::Vec3;
use vstd::prelude::*;

verus! {

/// The flat index of `(x, y, z)` in a box that is `height` high and `depth` deep,
/// laid out with `y` fastest, then `z`, then `x`.
pub open spec fn spec_idx_3_to_1(x: int, y: int, z: int, height: int, depth: int) -> int {
    x * depth * height + z * height + y
}

/// Flattens a position inside a box into an index (`x * depth * height + z * height + y`).
pub fn idx_3_to_1(vec: Vec3<u8>, height: u8, depth: u8) -> (r: usize)
    ensures
        r == spec_idx_3_to_1(vec.x as int, vec.y as int, vec.z as int, height as int, depth as int),
{
    let x = vec.x as usize;
    let y = vec.y as usize;
    let z = vec.z as usize;
    let height = height as usize;
    let depth = depth as usize;
    assert(x * depth <= 255 * 255) by (nonlinear_arith)
        requires
            x <= 255,
            depth <= 255,
    ;
    assert(x * depth * height <= 255 * 255 * 255) by (nonlinear_arith)
        requires
            x * depth <= 255 * 255,
            height <= 255,
    ;
    assert(z * height <= 255 * 255) by (nonlinear_arith)
        requires
            z <= 255,
            height <= 255,
    ;
    x * depth * height + z * height + y
}

/// Checks EXCLUSIVELY if something is in range: `min < val < max`.
pub fn in_range(min: i32, max: i32, val: i32) -> (r: bool)
    ensures
        r == (min < val && val < max),
{
    min < val && val < max
}

pub open spec fn spec_min(a: i32, b: i32) -> i32 {
    if a <= b {
        a
    } else {
        b
    }
}

pub open spec fn spec_max(a: i32, b: i32) -> i32 {
    if a <= b {
        b
    } else {
        a
    }
}

fn min_i32(a: i32, b: i32) -> (r: i32)
    ensures
        r == spec_min(a, b),
{
    if a <= b {
        a
    } else {
        b
    }
}

fn max_i32(a: i32, b: i32) -> (r: i32)
    ensures
        r == spec_max(a, b),
{
    if a <= b {
        b
    } else {
        a
    }
}

/// Orders two corners of a box so that the first result is the smallest corner and the
/// second the largest one, component by component.
pub fn bounds_left_optimized(lhs: Vec3<i32>, rhs: Vec3<i32>) -> (r: (Vec3<i32>, Vec3<i32>))
    ensures
        r.0.x == spec_min(lhs.x, rhs.x),
        r.0.y == spec_min(lhs.y, rhs.y),
        r.0.z == spec_min(lhs.z, rhs.z),
        r.1.x == spec_max(lhs.x, rhs.x),
        r.1.y == spec_max(lhs.y, rhs.y),
        r.1.z == spec_max(lhs.z, rhs.z),
{
    let smallest = Vec3::new(min_i32(lhs.x, rhs.x), min_i32(lhs.y, rhs.y), min_i32(lhs.z, rhs.z));
    let largest = Vec3::new(max_i32(lhs.x, rhs.x), max_i32(lhs.y, rhs.y), max_i32(lhs.z, rhs.z));
    (smallest, largest)
}

} // verus!
