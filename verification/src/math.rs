//! Fixed-point 3-vector algebra and rays.
//!
//! A component of value `c` stands for the real number `c / SCALE`.
//! Addition, subtraction, negation and the dot and cross products are
//! exact; scalar multiplication, scalar division and normalization round
//! toward zero, and their contracts say so through [`div_trunc`].

use vstd::prelude::*;
use crate::fixed::div_trunc;
use crate::fixed::div_trunc_i128;
use crate::fixed::fits_i64;
use crate::fixed::iabs;
use crate::fixed::is_isqrt;
use crate::fixed::isqrt_u128;
use crate::fixed::lemma_div_trunc_bounded;
use crate::fixed::lemma_mul_bound;
use crate::fixed::sqrt_floor;
use crate::fixed::SCALE;

verus! {

/// Largest component magnitude that the dot- and cross-product
/// intermediates tolerate without overflowing an `i128`.
pub const COMP_LIMIT: i64 = 0x4000000000000000;

/// A 3-component fixed-point vector, used interchangeably as a point,
/// a direction and an RGB color.
#[derive(Clone, Copy, PartialEq, Eq, Structural, Debug)]
pub struct Vec3 {
    pub x: i64,
    pub y: i64,
    pub z: i64,
}

/// All three components of `v` have magnitude at most `bound`.
pub open spec fn comps_within(v: Vec3, bound: int) -> bool {
    iabs(v.x as int) <= bound && iabs(v.y as int) <= bound && iabs(v.z as int) <= bound
}

/// Sum of componentwise products.
pub open spec fn spec_dot(a: Vec3, b: Vec3) -> int {
    a.x * b.x + a.y * b.y + a.z * b.z
}

/// Sum of squared components.
pub open spec fn spec_length_squared(v: Vec3) -> int {
    v.x * v.x + v.y * v.y + v.z * v.z
}

/// First component of the right-handed cross product.
pub open spec fn spec_cross_x(a: Vec3, b: Vec3) -> int {
    a.y * b.z - a.z * b.y
}

/// Second component of the right-handed cross product.
pub open spec fn spec_cross_y(a: Vec3, b: Vec3) -> int {
    -(a.x * b.z - a.z * b.x)
}

/// Third component of the right-handed cross product.
pub open spec fn spec_cross_z(a: Vec3, b: Vec3) -> int {
    a.x * b.y - a.y * b.x
}

/// Truncating quotient of an `i128` dividend, narrowed to `i64`.
pub(crate) fn quot_to_i64(a: i128, b: i128) -> (r: i64)
    requires
        b != 0,
        a != i128::MIN,
        b != i128::MIN,
        fits_i64(div_trunc(a as int, b as int)),
    ensures
        r as int == div_trunc(a as int, b as int),
{
    let q = div_trunc_i128(a, b);
    q as i64
}

impl Vec3 {
    /// Constructs a vector from its three fixed-point components.
    pub fn new(x: i64, y: i64, z: i64) -> (r: Vec3)
        ensures
            r.x == x,
            r.y == y,
            r.z == z,
    {
        Vec3 { x, y, z }
    }

    /// First component.
    pub fn x(&self) -> (r: i64)
        ensures
            r == self.x,
    {
        self.x
    }

    /// Second component.
    pub fn y(&self) -> (r: i64)
        ensures
            r == self.y,
    {
        self.y
    }

    /// Third component.
    pub fn z(&self) -> (r: i64)
        ensures
            r == self.z,
    {
        self.z
    }

    /// Componentwise sum.
    pub fn add(&self, rhs: &Vec3) -> (r: Vec3)
        requires
            fits_i64(self.x + rhs.x),
            fits_i64(self.y + rhs.y),
            fits_i64(self.z + rhs.z),
        ensures
            r.x == self.x + rhs.x,
            r.y == self.y + rhs.y,
            r.z == self.z + rhs.z,
    {
        Vec3 { x: self.x + rhs.x, y: self.y + rhs.y, z: self.z + rhs.z }
    }

    /// Componentwise sum, stored into `self`.
    pub fn add_assign(&mut self, rhs: &Vec3)
        requires
            fits_i64(old(self).x + rhs.x),
            fits_i64(old(self).y + rhs.y),
            fits_i64(old(self).z + rhs.z),
        ensures
            final(self).x == old(self).x + rhs.x,
            final(self).y == old(self).y + rhs.y,
            final(self).z == old(self).z + rhs.z,
    {
        self.x = self.x + rhs.x;
        self.y = self.y + rhs.y;
        self.z = self.z + rhs.z;
    }

    /// Componentwise difference.
    pub fn sub(&self, rhs: &Vec3) -> (r: Vec3)
        requires
            fits_i64(self.x - rhs.x),
            fits_i64(self.y - rhs.y),
            fits_i64(self.z - rhs.z),
        ensures
            r.x == self.x - rhs.x,
            r.y == self.y - rhs.y,
            r.z == self.z - rhs.z,
    {
        Vec3 { x: self.x - rhs.x, y: self.y - rhs.y, z: self.z - rhs.z }
    }

    /// Componentwise difference, stored into `self`.
    pub fn sub_assign(&mut self, rhs: &Vec3)
        requires
            fits_i64(old(self).x - rhs.x),
            fits_i64(old(self).y - rhs.y),
            fits_i64(old(self).z - rhs.z),
        ensures
            final(self).x == old(self).x - rhs.x,
            final(self).y == old(self).y - rhs.y,
            final(self).z == old(self).z - rhs.z,
    {
        self.x = self.x - rhs.x;
        self.y = self.y - rhs.y;
        self.z = self.z - rhs.z;
    }

    /// Componentwise negation.
    pub fn neg(&self) -> (r: Vec3)
        requires
            self.x > i64::MIN,
            self.y > i64::MIN,
            self.z > i64::MIN,
        ensures
            r.x == -self.x,
            r.y == -self.y,
            r.z == -self.z,
    {
        Vec3 { x: -self.x, y: -self.y, z: -self.z }
    }

    /// Multiplication by a fixed-point scalar, rounding toward zero.
    pub fn mul(&self, s: i64) -> (r: Vec3)
        requires
            fits_i64(div_trunc(self.x * s, SCALE as int)),
            fits_i64(div_trunc(self.y * s, SCALE as int)),
            fits_i64(div_trunc(self.z * s, SCALE as int)),
        ensures
            r.x as int == div_trunc(self.x * s, SCALE as int),
            r.y as int == div_trunc(self.y * s, SCALE as int),
            r.z as int == div_trunc(self.z * s, SCALE as int),
    {
        proof {
            lemma_mul_bound(self.x as int, s as int, 0x8000000000000000, 0x8000000000000000);
            lemma_mul_bound(self.y as int, s as int, 0x8000000000000000, 0x8000000000000000);
            lemma_mul_bound(self.z as int, s as int, 0x8000000000000000, 0x8000000000000000);
        }
        Vec3 {
            x: quot_to_i64((self.x as i128) * (s as i128), SCALE as i128),
            y: quot_to_i64((self.y as i128) * (s as i128), SCALE as i128),
            z: quot_to_i64((self.z as i128) * (s as i128), SCALE as i128),
        }
    }

    /// Multiplication by a fixed-point scalar, stored into `self`.
    pub fn mul_assign(&mut self, s: i64)
        requires
            fits_i64(div_trunc(old(self).x * s, SCALE as int)),
            fits_i64(div_trunc(old(self).y * s, SCALE as int)),
            fits_i64(div_trunc(old(self).z * s, SCALE as int)),
        ensures
            final(self).x as int == div_trunc(old(self).x * s, SCALE as int),
            final(self).y as int == div_trunc(old(self).y * s, SCALE as int),
            final(self).z as int == div_trunc(old(self).z * s, SCALE as int),
    {
        let r = self.mul(s);
        self.x = r.x;
        self.y = r.y;
        self.z = r.z;
    }

    /// Division by a nonzero fixed-point scalar, rounding toward zero.
    pub fn div(&self, s: i64) -> (r: Vec3)
        requires
            s != 0,
            fits_i64(div_trunc(self.x * SCALE, s as int)),
            fits_i64(div_trunc(self.y * SCALE, s as int)),
            fits_i64(div_trunc(self.z * SCALE, s as int)),
        ensures
            r.x as int == div_trunc(self.x * SCALE, s as int),
            r.y as int == div_trunc(self.y * SCALE, s as int),
            r.z as int == div_trunc(self.z * SCALE, s as int),
    {
        proof {
            lemma_mul_bound(self.x as int, SCALE as int, 0x8000000000000000, SCALE as int);
            lemma_mul_bound(self.y as int, SCALE as int, 0x8000000000000000, SCALE as int);
            lemma_mul_bound(self.z as int, SCALE as int, 0x8000000000000000, SCALE as int);
        }
        Vec3 {
            x: quot_to_i64((self.x as i128) * (SCALE as i128), s as i128),
            y: quot_to_i64((self.y as i128) * (SCALE as i128), s as i128),
            z: quot_to_i64((self.z as i128) * (SCALE as i128), s as i128),
        }
    }

    /// Division by a nonzero fixed-point scalar, stored into `self`.
    pub fn div_assign(&mut self, s: i64)
        requires
            s != 0,
            fits_i64(div_trunc(old(self).x * SCALE, s as int)),
            fits_i64(div_trunc(old(self).y * SCALE, s as int)),
            fits_i64(div_trunc(old(self).z * SCALE, s as int)),
        ensures
            final(self).x as int == div_trunc(old(self).x * SCALE, s as int),
            final(self).y as int == div_trunc(old(self).y * SCALE, s as int),
            final(self).z as int == div_trunc(old(self).z * SCALE, s as int),
    {
        let r = self.div(s);
        self.x = r.x;
        self.y = r.y;
        self.z = r.z;
    }

    /// Sum of componentwise products; exact, in squared fixed-point scale.
    pub fn dot(&self, rhs: &Vec3) -> (r: i64)
        requires
            comps_within(*self, COMP_LIMIT as int),
            comps_within(*rhs, COMP_LIMIT as int),
            fits_i64(spec_dot(*self, *rhs)),
        ensures
            r as int == spec_dot(*self, *rhs),
    {
        proof {
            lemma_mul_bound(self.x as int, rhs.x as int, COMP_LIMIT as int, COMP_LIMIT as int);
            lemma_mul_bound(self.y as int, rhs.y as int, COMP_LIMIT as int, COMP_LIMIT as int);
            lemma_mul_bound(self.z as int, rhs.z as int, COMP_LIMIT as int, COMP_LIMIT as int);
        }
        let px = (self.x as i128) * (rhs.x as i128);
        let py = (self.y as i128) * (rhs.y as i128);
        let pz = (self.z as i128) * (rhs.z as i128);
        (px + py + pz) as i64
    }

    /// Sum of squared components; exact, in squared fixed-point scale.
    pub fn length_squared(&self) -> (r: i64)
        requires
            comps_within(*self, COMP_LIMIT as int),
            fits_i64(spec_length_squared(*self)),
        ensures
            r as int == spec_length_squared(*self),
    {
        self.dot(self)
    }

    /// Rounded-down length, in fixed-point scale.
    pub fn length(&self) -> (r: i64)
        requires
            comps_within(*self, COMP_LIMIT as int),
            fits_i64(spec_length_squared(*self)),
        ensures
            r as int == sqrt_floor(spec_length_squared(*self)),
            is_isqrt(spec_length_squared(*self), r as int),
    {
        let ls = self.length_squared();
        proof {
            lemma_length_squared_nonneg(*self);
        }
        let root = isqrt_u128(ls as u128);
        proof {
            assert((root as int) < 0x100000000) by (nonlinear_arith)
                requires
                    (root as int) * (root as int) <= (ls as int),
                    (ls as int) < 0x8000000000000000,
                    0 <= (root as int);
        }
        root as i64
    }

    /// Standard right-handed cross product; exact, in squared scale.
    pub fn cross(&self, rhs: &Vec3) -> (r: Vec3)
        requires
            comps_within(*self, COMP_LIMIT as int),
            comps_within(*rhs, COMP_LIMIT as int),
            fits_i64(spec_cross_x(*self, *rhs)),
            fits_i64(spec_cross_y(*self, *rhs)),
            fits_i64(spec_cross_z(*self, *rhs)),
        ensures
            r.x as int == spec_cross_x(*self, *rhs),
            r.y as int == spec_cross_y(*self, *rhs),
            r.z as int == spec_cross_z(*self, *rhs),
    {
        proof {
            lemma_mul_bound(self.y as int, rhs.z as int, COMP_LIMIT as int, COMP_LIMIT as int);
            lemma_mul_bound(self.z as int, rhs.y as int, COMP_LIMIT as int, COMP_LIMIT as int);
            lemma_mul_bound(self.x as int, rhs.z as int, COMP_LIMIT as int, COMP_LIMIT as int);
            lemma_mul_bound(self.z as int, rhs.x as int, COMP_LIMIT as int, COMP_LIMIT as int);
            lemma_mul_bound(self.x as int, rhs.y as int, COMP_LIMIT as int, COMP_LIMIT as int);
            lemma_mul_bound(self.y as int, rhs.x as int, COMP_LIMIT as int, COMP_LIMIT as int);
        }
        let cx = (self.y as i128) * (rhs.z as i128) - (self.z as i128) * (rhs.y as i128);
        let cy = -((self.x as i128) * (rhs.z as i128) - (self.z as i128) * (rhs.x as i128));
        let cz = (self.x as i128) * (rhs.y as i128) - (self.y as i128) * (rhs.x as i128);
        Vec3 { x: cx as i64, y: cy as i64, z: cz as i64 }
    }

    /// The vector scaled to unit length, rounding each component toward
    /// zero: component `c` becomes `c * SCALE * SCALE / len2`, where
    /// `len2` is the rounded-down square root of
    /// `length_squared * SCALE * SCALE`.  Carrying the length at doubled
    /// precision keeps normalization accurate to a few fixed-point steps
    /// for every nonzero vector, short ones included (see
    /// [`lemma_unit_vector_near_unit`]).
    pub fn unit_vector(&self) -> (r: Vec3)
        requires
            comps_within(*self, COMP_LIMIT as int),
            fits_i64(spec_length_squared(*self)),
            !(self.x == 0 && self.y == 0 && self.z == 0),
        ensures
            r.x as int == div_trunc(
                self.x * SCALE * SCALE,
                sqrt_floor(spec_length_squared(*self) * SCALE * SCALE),
            ),
            r.y as int == div_trunc(
                self.y * SCALE * SCALE,
                sqrt_floor(spec_length_squared(*self) * SCALE * SCALE),
            ),
            r.z as int == div_trunc(
                self.z * SCALE * SCALE,
                sqrt_floor(spec_length_squared(*self) * SCALE * SCALE),
            ),
            comps_within(r, SCALE as int),
    {
        let ls = self.length_squared();
        proof {
            lemma_length_squared_pos(*self);
        }
        let ls2: u128 = ((ls as u128) * (SCALE as u128)) * (SCALE as u128);
        let len2 = isqrt_u128(ls2);
        proof {
            let gls = spec_length_squared(*self);
            let el = len2 as int;
            assert(gls * SCALE * SCALE >= SCALE * SCALE);
            assert(el >= SCALE) by (nonlinear_arith)
                requires
                    gls * SCALE * SCALE < (el + 1) * (el + 1),
                    gls * SCALE * SCALE >= SCALE * SCALE,
                    el >= 0;
            assert(self.x * self.x <= gls && self.y * self.y <= gls && self.z * self.z <= gls)
                by (nonlinear_arith)
                requires
                    gls == self.x * self.x + self.y * self.y + self.z * self.z;
            lemma_unit_comp_fits(self.x as int, gls, el);
            lemma_unit_comp_fits(self.y as int, gls, el);
            lemma_unit_comp_fits(self.z as int, gls, el);
            lemma_div_trunc_bounded(self.x * SCALE * SCALE, el, SCALE as int);
            lemma_div_trunc_bounded(self.y * SCALE * SCALE, el, SCALE as int);
            lemma_div_trunc_bounded(self.z * SCALE * SCALE, el, SCALE as int);
            lemma_mul_bound(self.x as int, SCALE as int, 0x8000000000000000, SCALE as int);
            lemma_mul_bound(self.y as int, SCALE as int, 0x8000000000000000, SCALE as int);
            lemma_mul_bound(self.z as int, SCALE as int, 0x8000000000000000, SCALE as int);
            lemma_mul_bound(
                self.x * SCALE,
                SCALE as int,
                0x80000000000000000000,
                SCALE as int,
            );
            lemma_mul_bound(
                self.y * SCALE,
                SCALE as int,
                0x80000000000000000000,
                SCALE as int,
            );
            lemma_mul_bound(
                self.z * SCALE,
                SCALE as int,
                0x80000000000000000000,
                SCALE as int,
            );
        }
        Vec3 {
            x: quot_to_i64(((self.x as i128) * (SCALE as i128)) * (SCALE as i128), len2 as i128),
            y: quot_to_i64(((self.y as i128) * (SCALE as i128)) * (SCALE as i128), len2 as i128),
            z: quot_to_i64(((self.z as i128) * (SCALE as i128)) * (SCALE as i128), len2 as i128),
        }
    }
}

/// A sum of squares is never negative.
pub proof fn lemma_length_squared_nonneg(v: Vec3)
    ensures
        spec_length_squared(v) >= 0,
{
    assert(v.x * v.x >= 0 && v.y * v.y >= 0 && v.z * v.z >= 0) by (nonlinear_arith);
}

/// A nonzero vector has a positive sum of squares.
pub proof fn lemma_length_squared_pos(v: Vec3)
    requires
        !(v.x == 0 && v.y == 0 && v.z == 0),
    ensures
        spec_length_squared(v) >= 1,
{
    lemma_length_squared_nonneg(v);
    assert((v.x != 0 ==> v.x * v.x >= 1) && (v.y != 0 ==> v.y * v.y >= 1) && (v.z != 0
        ==> v.z * v.z >= 1)) by (nonlinear_arith);
    assert(v.x * v.x >= 0 && v.y * v.y >= 0 && v.z * v.z >= 0) by (nonlinear_arith);
}

/// One component fits under the doubled-precision length: from
/// `x * x <= ls` and `len2` the rounded-down root of
/// `ls * SCALE * SCALE`, the component scaled once stays within `len2`,
/// and scaled twice within `SCALE * len2`.
proof fn lemma_unit_comp_fits(x: int, ls: int, el: int)
    requires
        x * x <= ls,
        ls * SCALE * SCALE < (el + 1) * (el + 1),
        el >= 1,
    ensures
        iabs(x) * SCALE <= el,
        iabs(x * SCALE * SCALE) <= SCALE * iabs(el),
{
    let ax = iabs(x);
    assert(ax * ax == x * x) by (nonlinear_arith)
        requires
            ax == if x < 0 {
                -x
            } else {
                x
            };
    assert((ax * SCALE) * (ax * SCALE) == (ax * ax) * (SCALE * SCALE)) by (nonlinear_arith);
    assert((ax * ax) * (SCALE * SCALE) <= ls * SCALE * SCALE) by (nonlinear_arith)
        requires
            ax * ax <= ls;
    assert(ax * SCALE <= el) by (nonlinear_arith)
        requires
            (ax * SCALE) * (ax * SCALE) <= ls * SCALE * SCALE,
            ls * SCALE * SCALE < (el + 1) * (el + 1),
            ax >= 0,
            el >= 0;
    crate::fixed::lemma_iabs_mul(x, SCALE as int);
    crate::fixed::lemma_iabs_mul(x * SCALE, SCALE as int);
}

/// Squared-magnitude bounds for one component `u = x * m / len` of a
/// truncating scaled division: the square of `len * u` reaches
/// `(m * x)^2` from below, short by at most `2 * m * |x| * len`.
proof fn lemma_unit_comp_sq_bounds(x: int, len: int, m: int)
    requires
        len >= 1,
        m >= 1,
    ensures
        len * len * (div_trunc(x * m, len) * div_trunc(x * m, len)) <= (m * m) * (x * x),
        len * len * (div_trunc(x * m, len) * div_trunc(x * m, len)) >= (m * m) * (x * x) - 2 * m
            * iabs(x) * len,
{
    crate::fixed::lemma_div_trunc_fundamental(x * m, len);
    let u = div_trunc(x * m, len);
    let r = x * m - len * u;
    crate::fixed::lemma_iabs_mul(len, u);
    crate::fixed::lemma_iabs_mul(x, m);
    let ax = iabs(x);
    assert((len * u) * (len * u) == len * len * (u * u)) by (nonlinear_arith);
    assert(iabs(len * u) * iabs(len * u) == (len * u) * (len * u)) by (nonlinear_arith)
        requires
            iabs(len * u) == if len * u < 0 {
                -(len * u)
            } else {
                len * u
            };
    assert(ax * ax == x * x) by (nonlinear_arith)
        requires
            ax == if x < 0 {
                -x
            } else {
                x
            };
    assert((ax * m) * (ax * m) == (m * m) * (ax * ax)) by (nonlinear_arith);
    assert(len * iabs(u) <= ax * m) by (nonlinear_arith)
        requires
            iabs(len * u) == len * iabs(u),
            iabs(len * u) <= iabs(x * m),
            iabs(x * m) == ax * m,
            len >= 1;
    assert(len * len * (u * u) <= (m * m) * (x * x)) by (nonlinear_arith)
        requires
            iabs(len * u) == len * iabs(u),
            len * iabs(u) <= ax * m,
            len >= 1,
            0 <= iabs(u),
            0 <= ax,
            m >= 1,
            (len * u) * (len * u) == len * len * (u * u),
            iabs(len * u) * iabs(len * u) == (len * u) * (len * u),
            (ax * m) * (ax * m) == (m * m) * (ax * ax),
            ax * ax == x * x;
    assert(len * len * (u * u) >= (m * m) * (x * x) - 2 * m * ax * len) by (nonlinear_arith)
        requires
            x * m == len * u + r,
            -len < r < len,
            -ax <= x <= ax,
            0 <= ax,
            len >= 1,
            m >= 1,
            (len * u) * (len * u) == len * len * (u * u);
}

/// Normalizing any nonzero vector yields a vector whose squared length
/// lies within a few fixed-point steps of `SCALE * SCALE`, and whose
/// rounded length is between `SCALE - 4` and `SCALE`: normalization is
/// accurate to a handful of units in the last place for every vector
/// with positive length.
pub proof fn lemma_unit_vector_near_unit(v: Vec3)
    requires
        comps_within(v, COMP_LIMIT as int),
        fits_i64(spec_length_squared(v)),
        !(v.x == 0 && v.y == 0 && v.z == 0),
    ensures
        ({
            let len = sqrt_floor(spec_length_squared(v) * SCALE * SCALE);
            let ux = div_trunc(v.x * SCALE * SCALE, len);
            let uy = div_trunc(v.y * SCALE * SCALE, len);
            let uz = div_trunc(v.z * SCALE * SCALE, len);
            let uls = ux * ux + uy * uy + uz * uz;
            &&& (SCALE - 4) * (SCALE - 4) <= uls < (SCALE + 1) * (SCALE + 1)
            &&& SCALE - 4 <= sqrt_floor(uls) <= SCALE
        }),
{
    let ls = spec_length_squared(v);
    lemma_length_squared_pos(v);
    assert(ls * SCALE * SCALE >= SCALE * SCALE);
    crate::fixed::lemma_sqrt_floor_props(ls * SCALE * SCALE);
    let len = sqrt_floor(ls * SCALE * SCALE);
    assert(len >= SCALE) by (nonlinear_arith)
        requires
            ls * SCALE * SCALE < (len + 1) * (len + 1),
            ls * SCALE * SCALE >= SCALE * SCALE,
            len >= 0;
    assert(v.x * v.x <= ls && v.y * v.y <= ls && v.z * v.z <= ls) by (nonlinear_arith)
        requires
            ls == v.x * v.x + v.y * v.y + v.z * v.z;
    lemma_unit_comp_fits(v.x as int, ls, len);
    lemma_unit_comp_fits(v.y as int, ls, len);
    lemma_unit_comp_fits(v.z as int, ls, len);
    lemma_unit_comp_sq_bounds(v.x as int, len, SCALE * SCALE);
    lemma_unit_comp_sq_bounds(v.y as int, len, SCALE * SCALE);
    lemma_unit_comp_sq_bounds(v.z as int, len, SCALE * SCALE);
    assert(v.x * SCALE * SCALE == v.x * (SCALE * SCALE) && v.y * SCALE * SCALE == v.y * (SCALE
        * SCALE) && v.z * SCALE * SCALE == v.z * (SCALE * SCALE)) by (nonlinear_arith);
    let ux = div_trunc(v.x * SCALE * SCALE, len);
    let uy = div_trunc(v.y * SCALE * SCALE, len);
    let uz = div_trunc(v.z * SCALE * SCALE, len);
    let uls = ux * ux + uy * uy + uz * uz;
    assert(len * len * uls == len * len * (ux * ux) + len * len * (uy * uy) + len * len * (uz
        * uz)) by (nonlinear_arith)
        requires
            uls == ux * ux + uy * uy + uz * uz;
    assert((SCALE * SCALE) * (SCALE * SCALE) * ls == (SCALE * SCALE) * (SCALE * SCALE) * (v.x
        * v.x) + (SCALE * SCALE) * (SCALE * SCALE) * (v.y * v.y) + (SCALE * SCALE) * (SCALE
        * SCALE) * (v.z * v.z)) by (nonlinear_arith)
        requires
            ls == v.x * v.x + v.y * v.y + v.z * v.z;
    // Upper bound: uls < (SCALE + 1) * (SCALE + 1).
    assert((SCALE * SCALE) * (SCALE * SCALE) * ls < (SCALE * SCALE) * ((len + 1) * (len + 1)))
        by (nonlinear_arith)
        requires
            ls * SCALE * SCALE < (len + 1) * (len + 1);
    assert(SCALE * (len + 1) <= (SCALE + 1) * len) by (nonlinear_arith)
        requires
            len >= SCALE;
    assert((SCALE * SCALE) * ((len + 1) * (len + 1)) <= ((SCALE + 1) * (SCALE + 1)) * (len * len))
        by (nonlinear_arith)
        requires
            SCALE * (len + 1) <= (SCALE + 1) * len,
            SCALE >= 1,
            len >= 1;
    assert(uls < (SCALE + 1) * (SCALE + 1)) by (nonlinear_arith)
        requires
            len * len * uls < ((SCALE + 1) * (SCALE + 1)) * (len * len),
            len >= 1;
    // Lower bound: uls >= (SCALE - 4) * (SCALE - 4).
    assert(2 * (SCALE * SCALE) * iabs(v.x as int) * len <= 2 * SCALE * (len * len))
        by (nonlinear_arith)
        requires
            0 <= iabs(v.x as int) * SCALE <= len,
            len >= 1,
            SCALE >= 1;
    assert(2 * (SCALE * SCALE) * iabs(v.y as int) * len <= 2 * SCALE * (len * len))
        by (nonlinear_arith)
        requires
            0 <= iabs(v.y as int) * SCALE <= len,
            len >= 1,
            SCALE >= 1;
    assert(2 * (SCALE * SCALE) * iabs(v.z as int) * len <= 2 * SCALE * (len * len))
        by (nonlinear_arith)
        requires
            0 <= iabs(v.z as int) * SCALE <= len,
            len >= 1,
            SCALE >= 1;
    assert((SCALE * SCALE) * (SCALE * SCALE) * ls >= (SCALE * SCALE) * (len * len))
        by (nonlinear_arith)
        requires
            ls * SCALE * SCALE >= len * len;
    assert(len * len * uls >= (SCALE * SCALE) * (SCALE * SCALE) * ls - 2 * (SCALE * SCALE) * iabs(
        v.x as int,
    ) * len - 2 * (SCALE * SCALE) * iabs(v.y as int) * len - 2 * (SCALE * SCALE) * iabs(
        v.z as int,
    ) * len);
    assert(len * len * uls >= (SCALE * SCALE) * (len * len) - 6 * SCALE * (len * len))
        by (nonlinear_arith)
        requires
            len * len * uls >= (SCALE * SCALE) * (SCALE * SCALE) * ls - 2 * (SCALE * SCALE) * iabs(
                v.x as int,
            ) * len - 2 * (SCALE * SCALE) * iabs(v.y as int) * len - 2 * (SCALE * SCALE) * iabs(
                v.z as int,
            ) * len,
            (SCALE * SCALE) * (SCALE * SCALE) * ls >= (SCALE * SCALE) * (len * len),
            2 * (SCALE * SCALE) * iabs(v.x as int) * len <= 2 * SCALE * (len * len),
            2 * (SCALE * SCALE) * iabs(v.y as int) * len <= 2 * SCALE * (len * len),
            2 * (SCALE * SCALE) * iabs(v.z as int) * len <= 2 * SCALE * (len * len);
    assert(len * len * uls >= (SCALE * SCALE - 6 * SCALE) * (len * len)) by (nonlinear_arith)
        requires
            len * len * uls >= (SCALE * SCALE) * (len * len) - 6 * SCALE * (len * len);
    assert(uls >= SCALE * SCALE - 6 * SCALE) by (nonlinear_arith)
        requires
            len * len * uls >= (SCALE * SCALE - 6 * SCALE) * (len * len),
            len >= 1;
    // The rounded length of the normalized vector.
    crate::fixed::lemma_sqrt_floor_props(uls);
    let rl = sqrt_floor(uls);
    assert(rl <= SCALE) by (nonlinear_arith)
        requires
            rl * rl <= uls,
            uls < (SCALE + 1) * (SCALE + 1),
            rl >= 0;
    assert(rl >= SCALE - 4) by (nonlinear_arith)
        requires
            uls < (rl + 1) * (rl + 1),
            uls >= (SCALE - 4) * (SCALE - 4),
            rl >= 0;
}

/// The dot product is symmetric in its arguments.
pub proof fn lemma_dot_commutative(a: Vec3, b: Vec3)
    ensures
        spec_dot(a, b) == spec_dot(b, a),
{
    assert(a.x * b.x == b.x * a.x && a.y * b.y == b.y * a.y && a.z * b.z == b.z * a.z)
        by (nonlinear_arith);
}

/// Swapping the arguments of the cross product negates every component.
pub proof fn lemma_cross_anticommutative(a: Vec3, b: Vec3)
    ensures
        spec_cross_x(a, b) == -spec_cross_x(b, a),
        spec_cross_y(a, b) == -spec_cross_y(b, a),
        spec_cross_z(a, b) == -spec_cross_z(b, a),
{
    assert(a.y * b.z == b.z * a.y && a.z * b.y == b.y * a.z && a.x * b.z == b.z * a.x && a.z * b.x
        == b.x * a.z && a.x * b.y == b.y * a.x && a.y * b.x == b.x * a.y) by (nonlinear_arith);
}

/// The squared length of a vector is its dot product with itself.
pub proof fn lemma_length_squared_is_dot_self(a: Vec3)
    ensures
        spec_length_squared(a) == spec_dot(a, a),
{
}

/// Adding a vector and subtracting it again is exact: the fixed-point
/// representation loses nothing on addition or subtraction.
pub proof fn lemma_add_sub_round_trip(a: Vec3, b: Vec3)
    ensures
        (a.x + b.x) - b.x == a.x,
        (a.y + b.y) - b.y == a.y,
        (a.z + b.z) - b.z == a.z,
{
}

/// Scaling by a nonzero scalar and dividing by it again returns each
/// component to within an error `e` with `e * |s| < SCALE + |s|`; for
/// `|s| >= SCALE` (a scalar of magnitude at least one) the error is at
/// most a single fixed-point step.
pub proof fn lemma_mul_div_round_trip(a: Vec3, s: i64)
    requires
        s != 0,
    ensures
        iabs(a.x - div_trunc(div_trunc(a.x * s, SCALE as int) * (SCALE as int), s as int)) * iabs(
            s as int,
        ) < SCALE + iabs(s as int),
        iabs(a.y - div_trunc(div_trunc(a.y * s, SCALE as int) * (SCALE as int), s as int)) * iabs(
            s as int,
        ) < SCALE + iabs(s as int),
        iabs(a.z - div_trunc(div_trunc(a.z * s, SCALE as int) * (SCALE as int), s as int)) * iabs(
            s as int,
        ) < SCALE + iabs(s as int),
        iabs(s as int) >= SCALE ==> iabs(
            a.x - div_trunc(div_trunc(a.x * s, SCALE as int) * (SCALE as int), s as int),
        ) <= 1 && iabs(
            a.y - div_trunc(div_trunc(a.y * s, SCALE as int) * (SCALE as int), s as int),
        ) <= 1 && iabs(
            a.z - div_trunc(div_trunc(a.z * s, SCALE as int) * (SCALE as int), s as int),
        ) <= 1,
{
    crate::fixed::lemma_scale_round_trip(a.x as int, s as int);
    crate::fixed::lemma_scale_round_trip(a.y as int, s as int);
    crate::fixed::lemma_scale_round_trip(a.z as int, s as int);
    if iabs(s as int) >= SCALE {
        crate::fixed::lemma_scale_round_trip_unit(a.x as int, s as int);
        crate::fixed::lemma_scale_round_trip_unit(a.y as int, s as int);
        crate::fixed::lemma_scale_round_trip_unit(a.z as int, s as int);
    }
}

/// An origin point together with a direction vector.
#[derive(Clone, Copy, PartialEq, Eq, Structural, Debug)]
pub struct Ray {
    pub origin: Vec3,
    pub direction: Vec3,
}

/// First component of the point the ray reaches at parameter `t`.
pub open spec fn spec_at_x(ray: Ray, t: int) -> int {
    ray.origin.x + div_trunc(t * ray.direction.x, SCALE as int)
}

/// Second component of the point the ray reaches at parameter `t`.
pub open spec fn spec_at_y(ray: Ray, t: int) -> int {
    ray.origin.y + div_trunc(t * ray.direction.y, SCALE as int)
}

/// Third component of the point the ray reaches at parameter `t`.
pub open spec fn spec_at_z(ray: Ray, t: int) -> int {
    ray.origin.z + div_trunc(t * ray.direction.z, SCALE as int)
}

impl Ray {
    /// Stores copies of the given origin and direction.
    pub fn new(origin: &Vec3, direction: &Vec3) -> (r: Ray)
        ensures
            r.origin == *origin,
            r.direction == *direction,
    {
        Ray { origin: *origin, direction: *direction }
    }

    /// The ray's origin.
    pub fn origin(&self) -> (r: Vec3)
        ensures
            r == self.origin,
    {
        self.origin
    }

    /// The ray's direction (not required to be unit length).
    pub fn direction(&self) -> (r: Vec3)
        ensures
            r == self.direction,
    {
        self.direction
    }

    /// The point `origin + t * direction`, valid for any fixed-point `t`,
    /// negative included.
    pub fn at(&self, t: i64) -> (r: Vec3)
        requires
            fits_i64(spec_at_x(*self, t as int)),
            fits_i64(spec_at_y(*self, t as int)),
            fits_i64(spec_at_z(*self, t as int)),
        ensures
            r.x as int == spec_at_x(*self, t as int),
            r.y as int == spec_at_y(*self, t as int),
            r.z as int == spec_at_z(*self, t as int),
    {
        proof {
            lemma_mul_bound(t as int, self.direction.x as int, 0x8000000000000000, 0x8000000000000000);
            lemma_mul_bound(t as int, self.direction.y as int, 0x8000000000000000, 0x8000000000000000);
            lemma_mul_bound(t as int, self.direction.z as int, 0x8000000000000000, 0x8000000000000000);
            crate::fixed::lemma_div_trunc_le(t * self.direction.x, SCALE as int);
            crate::fixed::lemma_div_trunc_le(t * self.direction.y, SCALE as int);
            crate::fixed::lemma_div_trunc_le(t * self.direction.z, SCALE as int);
        }
        let qx = div_trunc_i128((t as i128) * (self.direction.x as i128), SCALE as i128);
        let qy = div_trunc_i128((t as i128) * (self.direction.y as i128), SCALE as i128);
        let qz = div_trunc_i128((t as i128) * (self.direction.z as i128), SCALE as i128);
        Vec3 {
            x: ((self.origin.x as i128) + qx) as i64,
            y: ((self.origin.y as i128) + qy) as i64,
            z: ((self.origin.z as i128) + qz) as i64,
        }
    }
}

} // verus!
