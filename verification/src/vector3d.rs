//! Three-component integer vectors for exact arithmetic in colour space.

use vstd::prelude::*;
use crate::colour::Colour;

verus! {

/// The distance of `v` from zero.
pub open spec fn magnitude(v: int) -> int {
    if v >= 0 {
        v
    } else {
        -v
    }
}

/// The quotient of `a` by `d` rounded toward zero: the whole part of the
/// quotient of the magnitudes, negative where the signs differ.
pub open spec fn trunc_div(a: int, d: int) -> int {
    if (a >= 0) == (d > 0) {
        magnitude(a) / magnitude(d)
    } else {
        -(magnitude(a) / magnitude(d))
    }
}

/// A quotient rounded toward zero is no further from zero than the dividend,
/// and at most half as far where the divisor is neither 1 nor -1.
pub proof fn lemma_trunc_div_bounds(a: int, d: int)
    requires
        d != 0,
    ensures
        magnitude(trunc_div(a, d)) <= magnitude(a),
        magnitude(d) >= 2 ==> 2 * magnitude(trunc_div(a, d)) <= magnitude(a),
{
    let b = magnitude(a);
    let e = magnitude(d);
    assert(0 <= b / e <= b) by (nonlinear_arith)
        requires
            b >= 0,
            e > 0,
    ;
    if e >= 2 {
        assert(2 * (b / e) <= b) by (nonlinear_arith)
            requires
                b >= 0,
                e >= 2,
        ;
    }
}

/// Divides one component, rounding toward zero.
fn div_toward_zero(a: i64, d: i64) -> (q: i64)
    requires
        d != 0,
        !(a == i64::MIN && d == -1),
    ensures
        q == trunc_div(a as int, d as int),
{
    proof {
        lemma_trunc_div_bounds(a as int, d as int);
    }
    if d > 0 {
        a / d
    } else if d == i64::MIN {
        if a == i64::MIN {
            1
        } else {
            0
        }
    } else {
        let e: i64 = -d;
        proof {
            lemma_trunc_div_bounds(a as int, e as int);
        }
        let p: i64 = a / e;
        -p
    }
}

/// A vector with three integer components.
#[derive(Debug, Clone, Copy, PartialEq, Eq, Structural)]
pub struct Vector3d {
    pub x: i64,
    pub y: i64,
    pub z: i64,
}

/// Whether `v` is a value that an `i64` can hold.
pub open spec fn fits_i64(v: int) -> bool {
    i64::MIN <= v <= i64::MAX
}

impl Vector3d {
    pub fn new(x: i64, y: i64, z: i64) -> (v: Vector3d)
        ensures
            v == (Vector3d { x, y, z }),
    {
        Vector3d { x, y, z }
    }

    /// The vector whose components are the channels of `col`.
    pub fn from_colour(col: &Colour) -> (v: Vector3d)
        ensures
            v == col.vector(),
    {
        Vector3d { x: col.r as i64, y: col.g as i64, z: col.b as i64 }
    }

    /// The component-wise sum of two vectors.
    pub fn add(self, other: Vector3d) -> (sum: Vector3d)
        requires
            fits_i64(self.x + other.x),
            fits_i64(self.y + other.y),
            fits_i64(self.z + other.z),
        ensures
            sum.x == self.x + other.x,
            sum.y == self.y + other.y,
            sum.z == self.z + other.z,
    {
        Vector3d { x: self.x + other.x, y: self.y + other.y, z: self.z + other.z }
    }

    /// The component-wise difference of two vectors.
    pub fn sub(self, other: Vector3d) -> (difference: Vector3d)
        requires
            fits_i64(self.x - other.x),
            fits_i64(self.y - other.y),
            fits_i64(self.z - other.z),
        ensures
            difference.x == self.x - other.x,
            difference.y == self.y - other.y,
            difference.z == self.z - other.z,
    {
        Vector3d { x: self.x - other.x, y: self.y - other.y, z: self.z - other.z }
    }

    /// The vector with every component divided by `divisor` and rounded
    /// toward zero.
    pub fn div(self, divisor: i64) -> (quotient: Vector3d)
        requires
            divisor != 0,
            divisor == -1 ==> self.x != i64::MIN && self.y != i64::MIN && self.z != i64::MIN,
        ensures
            quotient.x == trunc_div(self.x as int, divisor as int),
            quotient.y == trunc_div(self.y as int, divisor as int),
            quotient.z == trunc_div(self.z as int, divisor as int),
    {
        Vector3d {
            x: div_toward_zero(self.x, divisor),
            y: div_toward_zero(self.y, divisor),
            z: div_toward_zero(self.z, divisor),
        }
    }

    /// The vector with every component multiplied by `multiplier`.
    pub fn mul(self, multiplier: i64) -> (product: Vector3d)
        requires
            fits_i64(self.x * multiplier),
            fits_i64(self.y * multiplier),
            fits_i64(self.z * multiplier),
        ensures
            product.x == self.x * multiplier,
            product.y == self.y * multiplier,
            product.z == self.z * multiplier,
    {
        Vector3d { x: self.x * multiplier, y: self.y * multiplier, z: self.z * multiplier }
    }
}

} // verus!
