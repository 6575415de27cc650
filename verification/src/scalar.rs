//! Saturating decimal fixed-point numbers.
//!
//! A [`Scalar`] counts billionths: its value is `raw / UNIT`. Every operation
//! is total. A result that does not fit is clamped to the nearest
//! representable value, and a quotient or product is rounded toward zero.
//!
//! The specifications of the arithmetic are opaque, so that proofs about
//! vectors and shapes treat them as symbols: `reveal` them to compute with
//! them.

use vstd::prelude::*;

verus! {

/// The number of raw units that make up 1.
pub const UNIT: i64 = 1_000_000_000;

/// The integer nearest to `v` that an `i64` can hold.
pub open spec fn saturate(v: int) -> int {
    if v > i64::MAX {
        i64::MAX as int
    } else if v < i64::MIN {
        i64::MIN as int
    } else {
        v
    }
}

/// `n / d` rounded toward zero, for `d != 0`.
pub open spec fn quotient(n: int, d: int) -> int {
    if n >= 0 {
        n / d
    } else {
        -((-n) / d)
    }
}

/// `r` is the integer square root of `n`: the largest `r` with `r * r <= n`.
pub open spec fn is_floor_root(n: int, r: int) -> bool {
    0 <= r && r * r <= n < (r + 1) * (r + 1)
}

/// The integer square root of `n`, for `n >= 0`.
pub open spec fn floor_root(n: int) -> int {
    choose|r: int| is_floor_root(n, r)
}

/// At most one integer is the square root of `n`.
pub proof fn lemma_floor_root_unique(n: int, r: int, s: int)
    requires
        is_floor_root(n, r),
        is_floor_root(n, s),
    ensures
        r == s,
{
    if r < s {
        assert((r + 1) * (r + 1) <= s * s) by (nonlinear_arith)
            requires
                0 <= r,
                r + 1 <= s,
        ;
    } else if s < r {
        assert((s + 1) * (s + 1) <= r * r) by (nonlinear_arith)
            requires
                0 <= s,
                s + 1 <= r,
        ;
    }
}

/// Every `n >= 0` has an integer square root.
pub proof fn lemma_floor_root_exists(n: int)
    requires
        n >= 0,
    ensures
        is_floor_root(n, floor_root(n)),
    decreases n,
{
    if n == 0 {
        assert(is_floor_root(0, 0));
    } else {
        lemma_floor_root_exists(n - 1);
        let r = floor_root(n - 1);
        if (r + 1) * (r + 1) <= n {
            assert((r + 1) * (r + 1) == n);
            assert(n < (r + 2) * (r + 2)) by (nonlinear_arith)
                requires
                    (r + 1) * (r + 1) == n,
                    0 <= r,
            ;
            assert(is_floor_root(n, r + 1));
        } else {
            assert(is_floor_root(n, r));
        }
    }
}

/// A quotient is no larger in magnitude than its dividend.
pub proof fn lemma_quotient_bound(n: int, d: int)
    requires
        d != 0,
    ensures
        n >= 0 ==> -n <= n / d <= n,
        n >= 0 ==> -n <= quotient(n, d) <= n,
        n < 0 ==> n <= quotient(n, d) <= -n,
{
    if n >= 0 {
        assert(-n <= n / d <= n) by (nonlinear_arith)
            requires
                n >= 0,
                d != 0,
        ;
    } else {
        assert(n <= (-n) / d <= -n) by (nonlinear_arith)
            requires
                n < 0,
                d != 0,
        ;
    }
}

/// The product of two raw values is within the range of an `i128`.
pub proof fn lemma_product_fits(a: i64, b: i64)
    ensures
        -0x4000_0000_0000_0000_0000_0000_0000_0000 <= a * b
            <= 0x4000_0000_0000_0000_0000_0000_0000_0000,
{
    assert(-0x4000_0000_0000_0000_0000_0000_0000_0000 <= a * b
        <= 0x4000_0000_0000_0000_0000_0000_0000_0000) by (nonlinear_arith)
        requires
            -0x8000_0000_0000_0000 <= a <= 0x7fff_ffff_ffff_ffff,
            -0x8000_0000_0000_0000 <= b <= 0x7fff_ffff_ffff_ffff,
    ;
}

/// Clamps a wide integer into an `i64`.
pub fn clamp(v: i128) -> (r: i64)
    ensures
        r == saturate(v as int),
{
    if v > i64::MAX as i128 {
        i64::MAX
    } else if v < i64::MIN as i128 {
        i64::MIN
    } else {
        v as i64
    }
}

/// Computes the integer square root by bisection.
pub fn integer_sqrt(n: u128) -> (r: u64)
    ensures
        r == floor_root(n as int),
        is_floor_root(n as int, r as int),
{
    let mut lo: u128 = 0;
    let mut hi: u128 = 0x1_0000_0000_0000_0000;
    assert(0x1_0000_0000_0000_0000int * 0x1_0000_0000_0000_0000int > u128::MAX) by (nonlinear_arith);
    while hi - lo > 1
        invariant
            lo < hi <= 0x1_0000_0000_0000_0000,
            lo * lo <= n < hi * hi,
        decreases hi - lo,
    {
        let mid: u128 = lo + (hi - lo) / 2;
        assert(mid * mid <= 0xffff_ffff_ffff_ffffint * 0xffff_ffff_ffff_ffffint) by (nonlinear_arith)
            requires
                0 <= mid <= 0xffff_ffff_ffff_ffff,
        ;
        assert(0xffff_ffff_ffff_ffffint * 0xffff_ffff_ffff_ffffint <= u128::MAX) by (nonlinear_arith);
        if mid * mid <= n {
            lo = mid;
        } else {
            hi = mid;
        }
    }
    proof {
        assert(hi == lo + 1);
        lemma_floor_root_exists(n as int);
        lemma_floor_root_unique(n as int, lo as int, floor_root(n as int));
    }
    lo as u64
}

/// A fixed-point number with nine decimal places.
#[derive(Clone, Copy, Debug, PartialEq, Eq, Structural)]
pub struct Scalar {
    /// The value in billionths.
    pub raw: i64,
}

impl Scalar {
    /// The scalar 0.
    pub fn zero() -> (s: Scalar)
        ensures
            s.raw == 0,
    {
        Scalar { raw: 0 }
    }

    /// The scalar 1.
    pub fn one() -> (s: Scalar)
        ensures
            s.raw == UNIT,
    {
        Scalar { raw: UNIT }
    }

    /// The largest scalar.
    pub fn max() -> (s: Scalar)
        ensures
            s.raw == i64::MAX,
    {
        Scalar { raw: i64::MAX }
    }

    /// The scalar that holds `raw` billionths.
    pub fn from_raw(raw: i64) -> (s: Scalar)
        ensures
            s.raw == raw,
    {
        Scalar { raw }
    }

    /// The whole number `n`, clamped to the representable range.
    pub open spec fn spec_from_int(n: i64) -> Scalar {
        Scalar { raw: saturate(n * UNIT) as i64 }
    }

    /// The whole number `n`, clamped to the representable range.
    pub fn from_int(n: i64) -> (s: Scalar)
        ensures
            s == Scalar::spec_from_int(n),
    {
        proof {
            lemma_product_fits(n, UNIT);
        }
        Scalar { raw: clamp(n as i128 * UNIT as i128) }
    }

    /// The value `num / den`, rounded toward zero and clamped; a zero
    /// denominator gives the largest or smallest scalar by the sign of `num`,
    /// and 0 for `0 / 0`.
    pub fn from_ratio(num: i64, den: i64) -> (s: Scalar)
        ensures
            s == Scalar::spec_from_ratio(num, den),
    {
        if den == 0 {
            Scalar { raw: if num > 0 { i64::MAX } else if num < 0 { i64::MIN } else { 0 } }
        } else {
            proof {
                lemma_product_fits(num, UNIT);
                lemma_quotient_bound(num * UNIT, den as int);
            }
            let wide: i128 = num as i128 * UNIT as i128;
            Scalar { raw: clamp(wide / den as i128) }
        }
    }

    /// What [`Scalar::from_ratio`] returns.
    pub open spec fn spec_from_ratio(num: i64, den: i64) -> Scalar {
        if den == 0 {
            Scalar { raw: if num > 0 { i64::MAX } else if num < 0 { i64::MIN } else { 0 } }
        } else {
            Scalar { raw: saturate(quotient(num * UNIT, den as int)) as i64 }
        }
    }

    /// The count `n` as a scalar, clamped to the representable range.
    pub open spec fn spec_from_count(n: nat) -> Scalar {
        Scalar { raw: saturate(n * UNIT) as i64 }
    }

    /// The count `n` as a scalar, clamped to the representable range.
    pub fn from_count(n: usize) -> (s: Scalar)
        ensures
            s == Scalar::spec_from_count(n as nat),
    {
        if n as u64 > 9_223_372_036 {
            Scalar { raw: i64::MAX }
        } else {
            Scalar::from_int(n as i64)
        }
    }

    /// The scalar in [0, 1) that 32 random bits stand for: the bits read as
    /// a fraction of 2^32, rounded down to a billionth.
    pub open spec fn spec_from_bits(bits: u32) -> Scalar {
        Scalar { raw: ((bits * UNIT) / 0x1_0000_0000) as i64 }
    }

    /// Maps 32 random bits to a scalar in [0, 1).
    pub fn from_bits(bits: u32) -> (s: Scalar)
        ensures
            s == Scalar::spec_from_bits(bits),
            0 <= s.raw < UNIT,
    {
        assert(bits * UNIT < 0x1_0000_0000 * UNIT) by (nonlinear_arith)
            requires
                bits < 0x1_0000_0000,
                UNIT > 0,
        ;
        let wide: u64 = bits as u64 * UNIT as u64;
        Scalar { raw: (wide / 0x1_0000_0000) as i64 }
    }

    /// The square root, rounded down; 0 for a negative scalar.
    #[verifier::opaque]
    pub open spec fn spec_sqrt(self) -> Scalar {
        if self.raw <= 0 {
            Scalar { raw: 0 }
        } else {
            Scalar { raw: floor_root(self.raw * UNIT) as i64 }
        }
    }

    /// The square root, rounded down to a billionth; 0 for a negative scalar.
    pub fn sqrt(self) -> (s: Scalar)
        ensures
            s == self.spec_sqrt(),
            s.raw >= 0,
    {
        reveal(Scalar::spec_sqrt);
        if self.raw <= 0 {
            Scalar { raw: 0 }
        } else {
            let wide: u128 = self.raw as u128 * UNIT as u128;
            let root: u64 = integer_sqrt(wide);
            proof {
                let r = root as int;
                if r > i64::MAX {
                    assert(r * r >= 0x8000_0000_0000_0000int * 0x8000_0000_0000_0000int)
                        by (nonlinear_arith)
                        requires
                            r >= 0x8000_0000_0000_0000int,
                    ;
                    assert(0x8000_0000_0000_0000int * 0x8000_0000_0000_0000int > i64::MAX * UNIT)
                        by (nonlinear_arith);
                }
            }
            Scalar { raw: root as i64 }
        }
    }

    /// The absolute value, clamped.
    pub open spec fn spec_abs(self) -> Scalar {
        if self.raw >= 0 {
            self
        } else {
            Scalar { raw: saturate(-self.raw) as i64 }
        }
    }

    /// The absolute value; the smallest scalar gives the largest.
    pub fn abs(self) -> (s: Scalar)
        ensures
            s == self.spec_abs(),
    {
        if self.raw >= 0 {
            self
        } else {
            Scalar { raw: clamp(-(self.raw as i128)) }
        }
    }

    /// The sum, clamped.
    #[verifier::opaque]
    pub open spec fn spec_add(self, rhs: Scalar) -> Scalar {
        Scalar { raw: saturate(self.raw + rhs.raw) as i64 }
    }

    /// The difference, clamped.
    #[verifier::opaque]
    pub open spec fn spec_sub(self, rhs: Scalar) -> Scalar {
        Scalar { raw: saturate(self.raw - rhs.raw) as i64 }
    }

    /// The negation, clamped.
    #[verifier::opaque]
    pub open spec fn spec_neg(self) -> Scalar {
        Scalar { raw: saturate(-self.raw) as i64 }
    }

    /// The product, rounded toward zero and clamped.
    #[verifier::opaque]
    pub open spec fn spec_mul(self, rhs: Scalar) -> Scalar {
        Scalar { raw: saturate(quotient(self.raw * rhs.raw, UNIT as int)) as i64 }
    }

    /// The quotient, rounded toward zero and clamped. Division by zero gives
    /// the largest or the smallest scalar by the sign of `self`, and 0 for
    /// `0 / 0`.
    #[verifier::opaque]
    pub open spec fn spec_div(self, rhs: Scalar) -> Scalar {
        if rhs.raw == 0 {
            Scalar { raw: if self.raw > 0 { i64::MAX } else if self.raw < 0 { i64::MIN } else { 0 } }
        } else {
            Scalar { raw: saturate(quotient(self.raw * UNIT, rhs.raw as int)) as i64 }
        }
    }
}

/// `self + rhs` is [`Scalar::spec_add`].
impl core::ops::Add for Scalar {
    type Output = Scalar;

    fn add(self, rhs: Scalar) -> (r: Scalar) {
        reveal(Scalar::spec_add);
        Scalar { raw: clamp(self.raw as i128 + rhs.raw as i128) }
    }
}

impl vstd::std_specs::ops::AddSpecImpl for Scalar {
    open spec fn obeys_add_spec() -> bool {
        true
    }

    open spec fn add_req(self, rhs: Scalar) -> bool {
        true
    }

    open spec fn add_spec(self, rhs: Scalar) -> Scalar {
        self.spec_add(rhs)
    }
}

/// `self - rhs` is [`Scalar::spec_sub`].
impl core::ops::Sub for Scalar {
    type Output = Scalar;

    fn sub(self, rhs: Scalar) -> (r: Scalar) {
        reveal(Scalar::spec_sub);
        Scalar { raw: clamp(self.raw as i128 - rhs.raw as i128) }
    }
}

impl vstd::std_specs::ops::SubSpecImpl for Scalar {
    open spec fn obeys_sub_spec() -> bool {
        true
    }

    open spec fn sub_req(self, rhs: Scalar) -> bool {
        true
    }

    open spec fn sub_spec(self, rhs: Scalar) -> Scalar {
        self.spec_sub(rhs)
    }
}

/// `-self` is [`Scalar::spec_neg`].
impl core::ops::Neg for Scalar {
    type Output = Scalar;

    fn neg(self) -> (r: Scalar) {
        reveal(Scalar::spec_neg);
        Scalar { raw: clamp(-(self.raw as i128)) }
    }
}

impl vstd::std_specs::ops::NegSpecImpl for Scalar {
    open spec fn obeys_neg_spec() -> bool {
        true
    }

    open spec fn neg_req(self) -> bool {
        true
    }

    open spec fn neg_spec(self) -> Scalar {
        self.spec_neg()
    }
}

/// `self * rhs` is [`Scalar::spec_mul`].
impl core::ops::Mul for Scalar {
    type Output = Scalar;

    fn mul(self, rhs: Scalar) -> (r: Scalar) {
        proof {
            reveal(Scalar::spec_mul);
            lemma_product_fits(self.raw, rhs.raw);
        }
        let wide: i128 = self.raw as i128 * rhs.raw as i128;
        Scalar { raw: clamp(wide / UNIT as i128) }
    }
}

impl vstd::std_specs::ops::MulSpecImpl for Scalar {
    open spec fn obeys_mul_spec() -> bool {
        true
    }

    open spec fn mul_req(self, rhs: Scalar) -> bool {
        true
    }

    open spec fn mul_spec(self, rhs: Scalar) -> Scalar {
        self.spec_mul(rhs)
    }
}

/// `self / rhs` is [`Scalar::spec_div`].
impl core::ops::Div for Scalar {
    type Output = Scalar;

    fn div(self, rhs: Scalar) -> (r: Scalar) {
        reveal(Scalar::spec_div);
        if rhs.raw == 0 {
            Scalar { raw: if self.raw > 0 { i64::MAX } else if self.raw < 0 { i64::MIN } else { 0 } }
        } else {
            proof {
                lemma_product_fits(self.raw, UNIT);
                lemma_quotient_bound(self.raw * UNIT, rhs.raw as int);
            }
            let wide: i128 = self.raw as i128 * UNIT as i128;
            Scalar { raw: clamp(wide / rhs.raw as i128) }
        }
    }
}

impl vstd::std_specs::ops::DivSpecImpl for Scalar {
    open spec fn obeys_div_spec() -> bool {
        true
    }

    open spec fn div_req(self, rhs: Scalar) -> bool {
        true
    }

    open spec fn div_spec(self, rhs: Scalar) -> Scalar {
        self.spec_div(rhs)
    }
}

/// A product with 0 is 0.
pub proof fn lemma_mul_zero(a: Scalar)
    ensures
        a.spec_mul(Scalar { raw: 0 }) == (Scalar { raw: 0 }),
        (Scalar { raw: 0 }).spec_mul(a) == (Scalar { raw: 0 }),
{
    reveal(Scalar::spec_mul);
    assert(a.raw * 0 == 0);
    assert(0 * a.raw == 0);
}

/// A product of two scalars that are not negative is not negative.
pub proof fn lemma_mul_not_negative(a: Scalar, b: Scalar)
    requires
        a.raw >= 0,
        b.raw >= 0,
    ensures
        a.spec_mul(b).raw >= 0,
{
    reveal(Scalar::spec_mul);
    assert(a.raw * b.raw >= 0) by (nonlinear_arith)
        requires
            a.raw >= 0,
            b.raw >= 0,
    ;
    assert((a.raw * b.raw) / (UNIT as int) >= 0);
}

} // verus!
