//! Three-component vectors over [`Scalar`]: points, directions and colours.

use crate::random::random_bits;
use crate::scalar::floor_root;
use crate::scalar::integer_sqrt;
use crate::scalar::is_floor_root;
use crate::scalar::lemma_floor_root_exists;
use crate::scalar::lemma_product_fits;
use crate::scalar::quotient;
use crate::scalar::saturate;
use crate::scalar::Scalar;
use crate::scalar::UNIT;
use core::ops::Neg;
use vstd::prelude::*;

verus! {

/// A point, a direction or an RGB colour, by context.
#[derive(Clone, Copy, Debug, PartialEq, Eq, Structural)]
pub struct Vec3 {
    pub x: Scalar,
    pub y: Scalar,
    pub z: Scalar,
}

impl Vec3 {
    /// The vector (0, 0, 0).
    pub open spec fn spec_zero() -> Vec3 {
        Vec3 { x: Scalar { raw: 0 }, y: Scalar { raw: 0 }, z: Scalar { raw: 0 } }
    }

    /// The vector (1, 1, 1).
    pub open spec fn spec_one() -> Vec3 {
        Vec3 { x: Scalar { raw: UNIT }, y: Scalar { raw: UNIT }, z: Scalar { raw: UNIT } }
    }

    /// The componentwise sum.
    pub open spec fn spec_add(self, rhs: Vec3) -> Vec3 {
        Vec3 { x: self.x.spec_add(rhs.x), y: self.y.spec_add(rhs.y), z: self.z.spec_add(rhs.z) }
    }

    /// The componentwise difference.
    pub open spec fn spec_sub(self, rhs: Vec3) -> Vec3 {
        Vec3 { x: self.x.spec_sub(rhs.x), y: self.y.spec_sub(rhs.y), z: self.z.spec_sub(rhs.z) }
    }

    /// The componentwise product.
    pub open spec fn spec_mul(self, rhs: Vec3) -> Vec3 {
        Vec3 { x: self.x.spec_mul(rhs.x), y: self.y.spec_mul(rhs.y), z: self.z.spec_mul(rhs.z) }
    }

    /// The componentwise quotient.
    pub open spec fn spec_div(self, rhs: Vec3) -> Vec3 {
        Vec3 { x: self.x.spec_div(rhs.x), y: self.y.spec_div(rhs.y), z: self.z.spec_div(rhs.z) }
    }

    /// Each component multiplied by `rhs`.
    pub open spec fn spec_scale(self, rhs: Scalar) -> Vec3 {
        Vec3 { x: self.x.spec_mul(rhs), y: self.y.spec_mul(rhs), z: self.z.spec_mul(rhs) }
    }

    /// Each component divided by `rhs`.
    pub open spec fn spec_shrink(self, rhs: Scalar) -> Vec3 {
        Vec3 { x: self.x.spec_div(rhs), y: self.y.spec_div(rhs), z: self.z.spec_div(rhs) }
    }

    /// Each component negated.
    pub open spec fn spec_neg(self) -> Vec3 {
        Vec3 { x: self.x.spec_neg(), y: self.y.spec_neg(), z: self.z.spec_neg() }
    }

    /// The dot product: the three products are rounded, then summed.
    pub open spec fn spec_dot(self, other: Vec3) -> Scalar {
        self.x.spec_mul(other.x).spec_add(self.y.spec_mul(other.y)).spec_add(
            self.z.spec_mul(other.z),
        )
    }

    /// The cross product.
    pub open spec fn spec_cross(self, other: Vec3) -> Vec3 {
        Vec3 {
            x: self.y.spec_mul(other.z).spec_sub(self.z.spec_mul(other.y)),
            y: self.x.spec_mul(other.z).spec_sub(self.z.spec_mul(other.x)).spec_neg(),
            z: self.x.spec_mul(other.y).spec_sub(self.y.spec_mul(other.x)),
        }
    }

    /// The sum of the squares of the raw components, exactly.
    pub open spec fn spec_square_sum(self) -> int {
        self.x.raw * self.x.raw + self.y.raw * self.y.raw + self.z.raw * self.z.raw
    }

    /// The magnitude of the raw component that is largest in magnitude.
    pub open spec fn spec_reach(self) -> int {
        let x = if self.x.raw >= 0 { self.x.raw as int } else { -self.x.raw };
        let y = if self.y.raw >= 0 { self.y.raw as int } else { -self.y.raw };
        let z = if self.z.raw >= 0 { self.z.raw as int } else { -self.z.raw };
        if x >= y && x >= z {
            x
        } else if y >= z {
            y
        } else {
            z
        }
    }

    /// The factor by which a vector is enlarged before it is normalized:
    /// 2^32 for a short vector, none of whose raw components reaches 2^31,
    /// and 1 for any other.
    pub open spec fn spec_zoom(self) -> int {
        if self.spec_reach() < 0x8000_0000 {
            0x1_0000_0000
        } else {
            1
        }
    }

    /// The Euclidean length: the square root of the exact sum of the squares,
    /// rounded down and clamped.
    #[verifier::opaque]
    pub open spec fn spec_length(self) -> Scalar {
        Scalar { raw: saturate(floor_root(self.spec_square_sum())) as i64 }
    }

    /// The vector divided by its own length; the zero vector stays as it is.
    ///
    /// The length is the square root of the exact sum of the squares. For a
    /// short vector it is taken of the enlarged vector, with 32 more binary
    /// places, so that a short vector comes out as near to unit length as a
    /// long one. Each quotient is rounded toward zero.
    #[verifier::opaque]
    pub open spec fn spec_normalized(self) -> Vec3 {
        if self.spec_reach() == 0 {
            self
        } else {
            let k = self.spec_zoom();
            let l = floor_root(self.spec_square_sum() * k * k);
            Vec3 {
                x: Scalar { raw: quotient(self.x.raw * UNIT * k, l) as i64 },
                y: Scalar { raw: quotient(self.y.raw * UNIT * k, l) as i64 },
                z: Scalar { raw: quotient(self.z.raw * UNIT * k, l) as i64 },
            }
        }
    }

    /// The coordinate in [-1, 1) that 32 random bits stand for.
    pub open spec fn spec_signed_unit(bits: u32) -> Scalar {
        Scalar::spec_from_bits(bits).spec_mul(Scalar { raw: 2_000_000_000 }).spec_sub(
            Scalar { raw: UNIT },
        )
    }

    /// The direction that three draws of 32 random bits stand for: each gives
    /// one coordinate in [-1, 1), and the vector is then normalized.
    pub open spec fn spec_unit_vector_from(a: u32, b: u32, c: u32) -> Vec3 {
        Vec3 {
            x: Vec3::spec_signed_unit(a),
            y: Vec3::spec_signed_unit(b),
            z: Vec3::spec_signed_unit(c),
        }.spec_normalized()
    }

    /// The vector (0, 0, 0).
    pub fn zero() -> (v: Vec3)
        ensures
            v == Vec3::spec_zero(),
    {
        Vec3 { x: Scalar::zero(), y: Scalar::zero(), z: Scalar::zero() }
    }

    /// The vector (1, 1, 1).
    pub fn one() -> (v: Vec3)
        ensures
            v == Vec3::spec_one(),
    {
        Vec3 { x: Scalar::one(), y: Scalar::one(), z: Scalar::one() }
    }

    /// The vector with the given components.
    pub fn from(x: Scalar, y: Scalar, z: Scalar) -> (v: Vec3)
        ensures
            v == (Vec3 { x, y, z }),
    {
        Vec3 { x, y, z }
    }

    /// The first component.
    pub fn x(&self) -> (s: Scalar)
        ensures
            s == self.x,
    {
        self.x
    }

    /// The second component.
    pub fn y(&self) -> (s: Scalar)
        ensures
            s == self.y,
    {
        self.y
    }

    /// The third component.
    pub fn z(&self) -> (s: Scalar)
        ensures
            s == self.z,
    {
        self.z
    }

    /// The dot product.
    pub fn dot(&self, other: &Vec3) -> (d: Scalar)
        ensures
            d == self.spec_dot(*other),
    {
        self.x * other.x + self.y * other.y + self.z * other.z
    }

    /// The cross product.
    pub fn cross(&self, other: &Vec3) -> (c: Vec3)
        ensures
            c == self.spec_cross(*other),
    {
        Vec3 {
            x: self.y * other.z - self.z * other.y,
            y: (self.x * other.z - self.z * other.x).neg(),
            z: self.x * other.y - self.y * other.x,
        }
    }

    /// The sum of the squares of the raw components.
    fn square_sum(&self) -> (sum: u128)
        ensures
            sum == self.spec_square_sum(),
            self.spec_reach() < 0x8000_0000 ==> sum < 0xc000_0000_0000_0000,
    {
        proof {
            lemma_product_fits(self.x.raw, self.x.raw);
            lemma_product_fits(self.y.raw, self.y.raw);
            lemma_product_fits(self.z.raw, self.z.raw);
            lemma_square_bound(self.x.raw as int, self.spec_reach());
            lemma_square_bound(self.y.raw as int, self.spec_reach());
            lemma_square_bound(self.z.raw as int, self.spec_reach());
            if self.spec_reach() < 0x8000_0000 {
                assert(self.spec_reach() * self.spec_reach() < 0x4000_0000_0000_0000)
                    by (nonlinear_arith)
                    requires
                        0 <= self.spec_reach() < 0x8000_0000,
                ;
            }
        }
        let x: i128 = self.x.raw as i128 * self.x.raw as i128;
        let y: i128 = self.y.raw as i128 * self.y.raw as i128;
        let z: i128 = self.z.raw as i128 * self.z.raw as i128;
        x as u128 + y as u128 + z as u128
    }

    /// The magnitude of the raw component that is largest in magnitude.
    fn reach(&self) -> (r: u64)
        ensures
            r == self.spec_reach(),
    {
        let x: u64 = if self.x.raw >= 0 { self.x.raw as u64 } else { (-(self.x.raw as i128)) as u64 };
        let y: u64 = if self.y.raw >= 0 { self.y.raw as u64 } else { (-(self.y.raw as i128)) as u64 };
        let z: u64 = if self.z.raw >= 0 { self.z.raw as u64 } else { (-(self.z.raw as i128)) as u64 };
        if x >= y && x >= z {
            x
        } else if y >= z {
            y
        } else {
            z
        }
    }

    /// The Euclidean length, never negative.
    pub fn length(&self) -> (l: Scalar)
        ensures
            l == self.spec_length(),
            l.raw >= 0,
    {
        reveal(Vec3::spec_length);
        let root: u64 = integer_sqrt(self.square_sum());
        if root > i64::MAX as u64 {
            Scalar { raw: i64::MAX }
        } else {
            Scalar { raw: root as i64 }
        }
    }

    /// Whether the vector has unit length, up to rounding: its squared
    /// length, computed as a dot product, is within 20 billionths of 1.
    pub open spec fn spec_is_unit(self) -> bool {
        -20 <= self.spec_dot(self).raw - UNIT <= 20
    }

    /// Divides the vector by its length in place, so that it has unit length;
    /// the zero vector stays as it is.
    pub fn normalize(&mut self)
        ensures
            *final(self) == old(self).spec_normalized(),
            *old(self) != Vec3::spec_zero() ==> final(self).spec_is_unit(),
            *old(self) == Vec3::spec_zero() ==> *final(self) == Vec3::spec_zero(),
    {
        proof {
            lemma_normalized_or_zero(*old(self));
        }
        reveal(Vec3::spec_normalized);
        let reach = self.reach();
        if reach == 0 {
            return;
        }
        let sum = self.square_sum();
        let short = reach < 0x8000_0000;
        let zoom: i128 = if short { 0x1_0000_0000 } else { 1 };
        let wide: u128 = if short { sum * 0x1_0000_0000_0000_0000 } else { sum };
        proof {
            assert(wide == self.spec_square_sum() * zoom * zoom) by (nonlinear_arith)
                requires
                    wide == if short {
                        self.spec_square_sum() * 0x1_0000_0000_0000_0000
                    } else {
                        self.spec_square_sum()
                    },
                    zoom == if short { 0x1_0000_0000int } else { 1int },
            ;
            lemma_normalized_fits(*self);
        }
        let root: u64 = integer_sqrt(wide);
        let x = Vec3::quotient_by(self.x.raw, zoom, root);
        let y = Vec3::quotient_by(self.y.raw, zoom, root);
        let z = Vec3::quotient_by(self.z.raw, zoom, root);
        *self = Vec3 { x, y, z };
    }

    /// The raw value `raw`, enlarged by `zoom`, divided by the raw length
    /// `root` of the enlarged vector.
    fn quotient_by(raw: i64, zoom: i128, root: u64) -> (q: Scalar)
        requires
            zoom == 1 || zoom == 0x1_0000_0000,
            zoom == 0x1_0000_0000 ==> -0x8000_0000 < raw < 0x8000_0000,
            root > 0,
            -root <= raw * zoom <= root,
        ensures
            q.raw == quotient(raw * UNIT * zoom, root as int),
            -UNIT <= q.raw <= UNIT,
    {
        proof {
            lemma_product_fits(raw, UNIT);
            lemma_unit_quotient(raw * zoom, root as int);
            assert(raw * UNIT * zoom == (raw * zoom) * UNIT) by (nonlinear_arith);
            if zoom == 0x1_0000_0000 {
                assert(-0x2000_0000_0000_0000 < raw * UNIT < 0x2000_0000_0000_0000)
                    by (nonlinear_arith)
                    requires
                        -0x8000_0000 < raw < 0x8000_0000,
                        UNIT == 1_000_000_000,
                ;
            }
        }
        let top: i128 = raw as i128 * UNIT as i128 * zoom;
        Scalar { raw: (top / root as i128) as i64 }
    }

    /// The vector divided by its length, of unit length; the zero vector
    /// gives the zero vector.
    pub fn normalized(&self) -> (n: Vec3)
        ensures
            n == self.spec_normalized(),
            *self != Vec3::spec_zero() ==> n.spec_is_unit(),
            *self == Vec3::spec_zero() ==> n == Vec3::spec_zero(),
    {
        let mut normalized = *self;
        normalized.normalize();
        normalized
    }

    /// The direction that three draws of random bits stand for. It has unit
    /// length, but for the draws that stand for the zero vector, which give
    /// the zero vector.
    pub fn unit_vector_from(a: u32, b: u32, c: u32) -> (v: Vec3)
        ensures
            v == Vec3::spec_unit_vector_from(a, b, c),
            v.spec_is_unit() || v == Vec3::spec_zero(),
    {
        let two = Scalar::from_raw(2_000_000_000);
        let x = Scalar::from_bits(a) * two - Scalar::one();
        let y = Scalar::from_bits(b) * two - Scalar::one();
        let z = Scalar::from_bits(c) * two - Scalar::one();
        Vec3 { x, y, z }.normalized()
    }

    /// A random direction: each coordinate is drawn uniformly from [-1, 1)
    /// and the vector is then normalized. The directions are therefore not
    /// spread evenly over the sphere.
    pub fn random_unit_vector() -> (v: Vec3)
        ensures
            exists|a: u32, b: u32, c: u32| v == Vec3::spec_unit_vector_from(a, b, c),
            v.spec_is_unit() || v == Vec3::spec_zero(),
    {
        let a = random_bits();
        let b = random_bits();
        let c = random_bits();
        Vec3::unit_vector_from(a, b, c)
    }
}

impl core::ops::Add for Vec3 {
    type Output = Vec3;

    fn add(self, rhs: Vec3) -> (r: Vec3) {
        Vec3 { x: self.x + rhs.x, y: self.y + rhs.y, z: self.z + rhs.z }
    }
}

impl vstd::std_specs::ops::AddSpecImpl for Vec3 {
    open spec fn obeys_add_spec() -> bool {
        true
    }

    open spec fn add_req(self, rhs: Vec3) -> bool {
        true
    }

    open spec fn add_spec(self, rhs: Vec3) -> Vec3 {
        self.spec_add(rhs)
    }
}

impl core::ops::AddAssign for Vec3 {
    fn add_assign(&mut self, rhs: Vec3)
        ensures
            *final(self) == old(self).spec_add(rhs),
    {
        *self = Vec3 { x: self.x + rhs.x, y: self.y + rhs.y, z: self.z + rhs.z };
    }
}

impl core::ops::Sub for Vec3 {
    type Output = Vec3;

    fn sub(self, rhs: Vec3) -> (r: Vec3) {
        Vec3 { x: self.x - rhs.x, y: self.y - rhs.y, z: self.z - rhs.z }
    }
}

impl vstd::std_specs::ops::SubSpecImpl for Vec3 {
    open spec fn obeys_sub_spec() -> bool {
        true
    }

    open spec fn sub_req(self, rhs: Vec3) -> bool {
        true
    }

    open spec fn sub_spec(self, rhs: Vec3) -> Vec3 {
        self.spec_sub(rhs)
    }
}

impl core::ops::SubAssign for Vec3 {
    fn sub_assign(&mut self, rhs: Vec3)
        ensures
            *final(self) == old(self).spec_sub(rhs),
    {
        *self = Vec3 { x: self.x - rhs.x, y: self.y - rhs.y, z: self.z - rhs.z };
    }
}

impl core::ops::Mul for Vec3 {
    type Output = Vec3;

    fn mul(self, rhs: Vec3) -> (r: Vec3) {
        Vec3 { x: self.x * rhs.x, y: self.y * rhs.y, z: self.z * rhs.z }
    }
}

impl vstd::std_specs::ops::MulSpecImpl for Vec3 {
    open spec fn obeys_mul_spec() -> bool {
        true
    }

    open spec fn mul_req(self, rhs: Vec3) -> bool {
        true
    }

    open spec fn mul_spec(self, rhs: Vec3) -> Vec3 {
        self.spec_mul(rhs)
    }
}

impl core::ops::MulAssign for Vec3 {
    fn mul_assign(&mut self, rhs: Vec3)
        ensures
            *final(self) == old(self).spec_mul(rhs),
    {
        *self = Vec3 { x: self.x * rhs.x, y: self.y * rhs.y, z: self.z * rhs.z };
    }
}

impl core::ops::Div for Vec3 {
    type Output = Vec3;

    fn div(self, rhs: Vec3) -> (r: Vec3) {
        Vec3 { x: self.x / rhs.x, y: self.y / rhs.y, z: self.z / rhs.z }
    }
}

impl vstd::std_specs::ops::DivSpecImpl for Vec3 {
    open spec fn obeys_div_spec() -> bool {
        true
    }

    open spec fn div_req(self, rhs: Vec3) -> bool {
        true
    }

    open spec fn div_spec(self, rhs: Vec3) -> Vec3 {
        self.spec_div(rhs)
    }
}

impl core::ops::DivAssign for Vec3 {
    fn div_assign(&mut self, rhs: Vec3)
        ensures
            *final(self) == old(self).spec_div(rhs),
    {
        *self = Vec3 { x: self.x / rhs.x, y: self.y / rhs.y, z: self.z / rhs.z };
    }
}

impl core::ops::Mul<Scalar> for Vec3 {
    type Output = Vec3;

    fn mul(self, rhs: Scalar) -> (r: Vec3) {
        Vec3 { x: self.x * rhs, y: self.y * rhs, z: self.z * rhs }
    }
}

impl vstd::std_specs::ops::MulSpecImpl<Scalar> for Vec3 {
    open spec fn obeys_mul_spec() -> bool {
        true
    }

    open spec fn mul_req(self, rhs: Scalar) -> bool {
        true
    }

    open spec fn mul_spec(self, rhs: Scalar) -> Vec3 {
        self.spec_scale(rhs)
    }
}

impl core::ops::MulAssign<Scalar> for Vec3 {
    fn mul_assign(&mut self, rhs: Scalar)
        ensures
            *final(self) == old(self).spec_scale(rhs),
    {
        *self = Vec3 { x: self.x * rhs, y: self.y * rhs, z: self.z * rhs };
    }
}

impl core::ops::Div<Scalar> for Vec3 {
    type Output = Vec3;

    fn div(self, rhs: Scalar) -> (r: Vec3) {
        Vec3 { x: self.x / rhs, y: self.y / rhs, z: self.z / rhs }
    }
}

impl vstd::std_specs::ops::DivSpecImpl<Scalar> for Vec3 {
    open spec fn obeys_div_spec() -> bool {
        true
    }

    open spec fn div_req(self, rhs: Scalar) -> bool {
        true
    }

    open spec fn div_spec(self, rhs: Scalar) -> Vec3 {
        self.spec_shrink(rhs)
    }
}

impl core::ops::DivAssign<Scalar> for Vec3 {
    fn div_assign(&mut self, rhs: Scalar)
        ensures
            *final(self) == old(self).spec_shrink(rhs),
    {
        *self = Vec3 { x: self.x / rhs, y: self.y / rhs, z: self.z / rhs };
    }
}

impl core::ops::Neg for Vec3 {
    type Output = Vec3;

    fn neg(self) -> (r: Vec3) {
        Vec3 { x: self.x.neg(), y: self.y.neg(), z: self.z.neg() }
    }
}

impl vstd::std_specs::ops::NegSpecImpl for Vec3 {
    open spec fn obeys_neg_spec() -> bool {
        true
    }

    open spec fn neg_req(self) -> bool {
        true
    }

    open spec fn neg_spec(self) -> Vec3 {
        self.spec_neg()
    }
}

/// A square is at most the square of anything at least as large in magnitude.
pub proof fn lemma_square_bound(x: int, reach: int)
    requires
        -reach <= x <= reach,
    ensures
        0 <= x * x <= reach * reach,
{
    assert(0 <= x * x <= reach * reach) by (nonlinear_arith)
        requires
            -reach <= x <= reach,
    ;
}

/// A number of magnitude at most `l`, times the unit and divided by `l`,
/// has magnitude at most the unit.
pub proof fn lemma_unit_quotient(x: int, l: int)
    requires
        l > 0,
        -l <= x <= l,
    ensures
        -UNIT <= quotient(x * UNIT, l) <= UNIT,
{
    let n = x * UNIT;
    assert(-(l * UNIT) <= n <= l * UNIT) by (nonlinear_arith)
        requires
            -l <= x <= l,
            n == x * UNIT,
            UNIT == 1_000_000_000,
    ;
    if n >= 0 {
        assert(0 <= n / l <= UNIT) by (nonlinear_arith)
            requires
                0 <= n <= l * UNIT,
                l > 0,
        ;
    } else {
        assert(0 <= (-n) / l <= UNIT) by (nonlinear_arith)
            requires
                0 <= -n <= l * UNIT,
                l > 0,
        ;
    }
}

/// What normalizing divides by: for a vector that is not zero, the raw
/// length `l` of the enlarged vector is at least 2^31, and no enlarged
/// component exceeds it in magnitude.
pub proof fn lemma_normalized_fits(v: Vec3)
    requires
        v.spec_reach() > 0,
    ensures
        ({
            let k = v.spec_zoom();
            let l = floor_root(v.spec_square_sum() * k * k);
            &&& is_floor_root(v.spec_square_sum() * k * k, l)
            &&& l >= 0x8000_0000
            &&& l <= 0xffff_ffff_ffff_ffff
            &&& -l <= v.x.raw * k <= l
            &&& -l <= v.y.raw * k <= l
            &&& -l <= v.z.raw * k <= l
            &&& v.spec_square_sum() * k * k == (v.x.raw * k) * (v.x.raw * k) + (v.y.raw * k) * (
            v.y.raw * k) + (v.z.raw * k) * (v.z.raw * k)
        }),
{
    let k = v.spec_zoom();
    let reach = v.spec_reach();
    let sum = v.spec_square_sum();
    let wide = sum * k * k;
    let x = v.x.raw * k;
    let y = v.y.raw * k;
    let z = v.z.raw * k;
    let kk = k * k;
    assert(x * x == (v.x.raw * v.x.raw) * kk) by (nonlinear_arith)
        requires
            x == v.x.raw * k,
            kk == k * k,
    ;
    assert(y * y == (v.y.raw * v.y.raw) * kk) by (nonlinear_arith)
        requires
            y == v.y.raw * k,
            kk == k * k,
    ;
    assert(z * z == (v.z.raw * v.z.raw) * kk) by (nonlinear_arith)
        requires
            z == v.z.raw * k,
            kk == k * k,
    ;
    assert(sum * k * k == sum * kk) by (nonlinear_arith)
        requires
            kk == k * k,
    ;
    assert(sum * kk == (v.x.raw * v.x.raw) * kk + (v.y.raw * v.y.raw) * kk + (v.z.raw * v.z.raw)
        * kk) by (nonlinear_arith)
        requires
            sum == v.x.raw * v.x.raw + v.y.raw * v.y.raw + v.z.raw * v.z.raw,
    ;
    assert(x * x >= 0 && y * y >= 0 && z * z >= 0) by (nonlinear_arith);
    lemma_floor_root_exists(wide);
    let l = floor_root(wide);
    let top = reach * k;
    assert(top >= 0x8000_0000);
    assert(-top <= x <= top && -top <= y <= top && -top <= z <= top) by (nonlinear_arith)
        requires
            -reach <= v.x.raw <= reach,
            -reach <= v.y.raw <= reach,
            -reach <= v.z.raw <= reach,
            x == v.x.raw * k,
            y == v.y.raw * k,
            z == v.z.raw * k,
            top == reach * k,
            k >= 1,
    ;
    assert(top * top <= wide) by (nonlinear_arith)
        requires
            wide == x * x + y * y + z * z,
            x * x >= 0 && y * y >= 0 && z * z >= 0,
            x == top || x == -top || y == top || y == -top || z == top || z == -top,
    ;
    assert(l >= top) by (nonlinear_arith)
        requires
            top >= 0,
            l >= 0,
            top * top <= wide,
            wide < (l + 1) * (l + 1),
    ;
    assert(-l <= x <= l) by (nonlinear_arith)
        requires
            x * x <= wide,
            wide < (l + 1) * (l + 1),
            l >= 0,
    ;
    assert(-l <= y <= l) by (nonlinear_arith)
        requires
            y * y <= wide,
            wide < (l + 1) * (l + 1),
            l >= 0,
    ;
    assert(-l <= z <= l) by (nonlinear_arith)
        requires
            z * z <= wide,
            wide < (l + 1) * (l + 1),
            l >= 0,
    ;
    assert(top <= 0x8000_0000_0000_0000);
    assert(wide <= 3 * (top * top)) by (nonlinear_arith)
        requires
            wide == x * x + y * y + z * z,
            -top <= x <= top && -top <= y <= top && -top <= z <= top,
    ;
    assert(l <= 0xffff_ffff_ffff_ffff) by (nonlinear_arith)
        requires
            l >= 0,
            l * l <= wide,
            wide <= 3 * (top * top),
            0 <= top <= 0x8000_0000_0000_0000,
    ;
}

/// Normalizing gives a vector of unit length, and the zero vector for the
/// zero vector.
pub proof fn lemma_normalized_or_zero(v: Vec3)
    ensures
        v != Vec3::spec_zero() ==> v.spec_normalized().spec_is_unit(),
        v == Vec3::spec_zero() ==> v.spec_normalized() == Vec3::spec_zero(),
{
    if v == Vec3::spec_zero() {
        reveal(Vec3::spec_normalized);
    } else {
        crate::accuracy::lemma_length_of_zero(v);
        crate::accuracy::lemma_normalized_is_unit(v);
    }
}

} // verus!
