//! Integer 3-vectors, with the component-wise Euclidean division that maps a
//! voxel position to its chunk and to its place inside that chunk.

use vstd::prelude::*;

verus! {

/// A vector of three `i32` components.
#[derive(Clone, Copy, Debug, PartialEq, Eq, Hash, Structural)]
pub struct IVec3 {
    pub x: i32,
    pub y: i32,
    pub z: i32,
}

/// Euclidean quotient `a.div_euclid(b)` is defined: no division by zero and
/// no overflow (`i32::MIN / -1`).
pub open spec fn div_euclid_defined(a: i32, b: i32) -> bool {
    b != 0 && !(a == i32::MIN && b == -1)
}

/// The sum `a + b` fits in an `i32`.
pub open spec fn add_fits(a: i32, b: i32) -> bool {
    i32::MIN <= a + b <= i32::MAX
}

/// The Euclidean quotient of two `i32` values fits in an `i32` whenever it is
/// defined.
pub proof fn lemma_div_euclid_fits(a: i32, b: i32)
    requires
        div_euclid_defined(a, b),
    ensures
        i32::MIN <= a as int / b as int <= i32::MAX,
{
    let ai = a as int;
    let bi = b as int;
    let q = ai / bi;
    let r = ai % bi;
    assert(ai == bi * q + r) by (nonlinear_arith)
        requires
            bi != 0,
            q == ai / bi,
            r == ai % bi,
    ;
    assert(0 <= r && (r < bi || r < -bi)) by (nonlinear_arith)
        requires
            bi != 0,
            r == ai % bi,
    ;
    if bi == -1 {
        assert(q == -ai + r);
        assert(r == 0);
    } else if bi > 0 {
        assert(i32::MIN <= q <= i32::MAX) by (nonlinear_arith)
            requires
                bi >= 1,
                ai == bi * q + r,
                0 <= r < bi,
                i32::MIN <= ai <= i32::MAX,
        ;
    } else {
        assert(i32::MIN <= q <= i32::MAX) by (nonlinear_arith)
            requires
                bi <= -2,
                ai == bi * q + r,
                0 <= r < -bi,
                i32::MIN <= ai <= i32::MAX,
        ;
    }
}

impl IVec3 {
    pub fn new(x: i32, y: i32, z: i32) -> (r: IVec3)
        ensures
            r == (IVec3 { x, y, z }),
    {
        IVec3 { x, y, z }
    }

    /// All three components equal to `v`.
    pub fn splat(v: i32) -> (r: IVec3)
        ensures
            r == (IVec3 { x: v, y: v, z: v }),
    {
        IVec3 { x: v, y: v, z: v }
    }

    pub fn zero() -> (r: IVec3)
        ensures
            r == (IVec3 { x: 0, y: 0, z: 0 }),
    {
        IVec3 { x: 0, y: 0, z: 0 }
    }

    pub open spec fn can_add(self, rhs: IVec3) -> bool {
        add_fits(self.x, rhs.x) && add_fits(self.y, rhs.y) && add_fits(self.z, rhs.z)
    }

    /// Component-wise sum.
    pub fn add(self, rhs: IVec3) -> (r: IVec3)
        requires
            self.can_add(rhs),
        ensures
            r.x == self.x + rhs.x,
            r.y == self.y + rhs.y,
            r.z == self.z + rhs.z,
    {
        IVec3 { x: self.x + rhs.x, y: self.y + rhs.y, z: self.z + rhs.z }
    }

    pub open spec fn can_div_euclid(self, rhs: IVec3) -> bool {
        &&& div_euclid_defined(self.x, rhs.x)
        &&& div_euclid_defined(self.y, rhs.y)
        &&& div_euclid_defined(self.z, rhs.z)
    }

    /// Component-wise Euclidean quotient (`i32::div_euclid` on each axis).
    pub fn div_euclid(self, rhs: IVec3) -> (r: IVec3)
        requires
            self.can_div_euclid(rhs),
        ensures
            r.x == self.x as int / rhs.x as int,
            r.y == self.y as int / rhs.y as int,
            r.z == self.z as int / rhs.z as int,
    {
        proof {
            lemma_div_euclid_fits(self.x, rhs.x);
            lemma_div_euclid_fits(self.y, rhs.y);
            lemma_div_euclid_fits(self.z, rhs.z);
        }
        IVec3 {
            x: self.x.checked_div_euclid(rhs.x).unwrap(),
            y: self.y.checked_div_euclid(rhs.y).unwrap(),
            z: self.z.checked_div_euclid(rhs.z).unwrap(),
        }
    }

    /// Component-wise Euclidean remainder (`i32::rem_euclid` on each axis):
    /// always in `0..|rhs|`.
    pub fn rem_euclid(self, rhs: IVec3) -> (r: IVec3)
        requires
            self.can_div_euclid(rhs),
        ensures
            r.x == self.x as int % rhs.x as int,
            r.y == self.y as int % rhs.y as int,
            r.z == self.z as int % rhs.z as int,
    {
        IVec3 {
            x: self.x.checked_rem_euclid(rhs.x).unwrap(),
            y: self.y.checked_rem_euclid(rhs.y).unwrap(),
            z: self.z.checked_rem_euclid(rhs.z).unwrap(),
        }
    }
}

} // verus!
