//! How far rounding can carry the geometry off: the hit point and the normal
//! of a sphere, and the length of a normalized vector.

use crate::math::Vec3;
use crate::mesh::Sphere;
use crate::ray::Ray;
use crate::scalar::floor_root;
use crate::scalar::is_floor_root;
use crate::scalar::lemma_floor_root_exists;
use crate::scalar::quotient;
use crate::scalar::saturate;
use crate::scalar::Scalar;
use crate::scalar::UNIT;
use vstd::prelude::*;

verus! {

/// A quotient by a positive divisor misses the exact value by less than the
/// divisor, on the side of zero.
pub proof fn lemma_quotient_error(n: int, d: int)
    requires
        d > 0,
    ensures
        n >= 0 ==> 0 <= n - quotient(n, d) * d < d,
        n <= 0 ==> -d < n - quotient(n, d) * d <= 0,
        n >= 0 ==> quotient(n, d) >= 0,
        n <= 0 ==> quotient(n, d) <= 0,
{
    if n >= 0 {
        vstd::arithmetic::div_mod::lemma_fundamental_div_mod(n, d);
        vstd::arithmetic::div_mod::lemma_mod_bound(n, d);
        assert(d * (n / d) == (n / d) * d) by (nonlinear_arith);
        vstd::arithmetic::div_mod::lemma_div_pos_is_pos(n, d);
    } else {
        let m = -n;
        vstd::arithmetic::div_mod::lemma_fundamental_div_mod(m, d);
        vstd::arithmetic::div_mod::lemma_mod_bound(m, d);
        assert(d * (m / d) == (m / d) * d) by (nonlinear_arith);
        vstd::arithmetic::div_mod::lemma_div_pos_is_pos(m, d);
        assert((-(m / d)) * d == -((m / d) * d)) by (nonlinear_arith);
    }
}

/// The raw value of a product that is not clamped.
pub proof fn lemma_mul_raw(a: Scalar, b: Scalar, bound: int)
    requires
        -bound <= a.raw * b.raw <= bound,
        0 <= bound <= 9_000_000_000_000_000_000_000_000_000,
    ensures
        a.spec_mul(b).raw == quotient(a.raw * b.raw, UNIT as int),
        -UNIT < a.raw * b.raw - a.spec_mul(b).raw * UNIT < UNIT,
        a.raw * b.raw >= 0 ==> 0 <= a.raw * b.raw - a.spec_mul(b).raw * UNIT,
        a.raw * b.raw >= 0 ==> a.spec_mul(b).raw >= 0,
        -bound <= a.spec_mul(b).raw * UNIT <= bound,
{
    reveal(Scalar::spec_mul);
    let n = a.raw * b.raw;
    lemma_quotient_error(n, UNIT as int);
}

/// The magnitude of a product is at most the product of bounds on its
/// factors.
pub proof fn lemma_product_bound(x: int, y: int, bx: int, by: int)
    requires
        -bx <= x <= bx,
        -by <= y <= by,
    ensures
        -(bx * by) <= x * y <= bx * by,
{
    assert(-(bx * by) <= x * y <= bx * by) by (nonlinear_arith)
        requires
            -bx <= x <= bx,
            -by <= y <= by,
    ;
}

/// The quadratic whose root the sphere test computes, taken at the computed
/// root, is small: with `a t^2 + 2 s b t + s^2 c` written `r`, the product
/// `a r` is `2 s q e + e^2 - s^2 (g + k)` for the rounding errors `e` of the
/// division, `g` of the square root and `k` of the discriminant.
proof fn lemma_root_residual_identity(
    s: int,
    a: int,
    b: int,
    c: int,
    disc: int,
    q: int,
    t: int,
)
    ensures
        a * (a * t * t + 2 * s * b * t + s * s * c) == 2 * s * q * ((-b - q) * s - a * t) + ((-b
            - q) * s - a * t) * ((-b - q) * s - a * t) - s * s * ((s * disc - q * q) + (b * b - a
            * c - s * disc)),
{
    let e = (-b - q) * s - a * t;
    let m = s * b + a * t;
    assert(e == -m - s * q) by (nonlinear_arith)
        requires
            e == (-b - q) * s - a * t,
            m == s * b + a * t,
    ;
    assert(2 * s * q * e + e * e == m * m - (s * q) * (s * q)) by (nonlinear_arith)
        requires
            e == -m - s * q,
    ;
    assert(m * m == (s * b) * (s * b) + 2 * (s * b) * (a * t) + (a * t) * (a * t))
        by (nonlinear_arith)
        requires
            m == s * b + a * t,
    ;
    assert((s * q) * (s * q) == s * s * (q * q)) by (nonlinear_arith);
    assert((s * b) * (s * b) == s * s * (b * b)) by (nonlinear_arith);
    assert(2 * (s * b) * (a * t) == a * (2 * s * b * t)) by (nonlinear_arith);
    assert((a * t) * (a * t) == a * (a * t * t)) by (nonlinear_arith);
    assert(s * s * ((s * disc - q * q) + (b * b - a * c - s * disc)) == s * s * (b * b) - s * s
        * (a * c) - s * s * (q * q)) by (nonlinear_arith);
    assert(s * s * (a * c) == a * (s * s * c)) by (nonlinear_arith);
    assert(a * (a * t * t + 2 * s * b * t + s * s * c) == a * (a * t * t) + a * (2 * s * b * t)
        + a * (s * s * c)) by (nonlinear_arith);
}

/// Bounds the residual of [`lemma_root_residual_identity`] by the bounds on
/// the three rounding errors.
proof fn lemma_root_residual_bound(s: int, a: int, b: int, c: int, disc: int, q: int, t: int)
    requires
        s > 0,
        a > 0,
        q >= 0,
        0 <= (-b - q) * s - a * t < a,
        0 <= s * disc - q * q <= 2 * q,
        -s < b * b - a * c - s * disc < 2 * s,
    ensures
        -(s * s * (2 * q + 2 * s)) <= a * (a * t * t + 2 * s * b * t + s * s * c) <= 2 * s * q * a
            + a * a + s * s * s,
{
    let e = (-b - q) * s - a * t;
    let g = s * disc - q * q;
    let k = b * b - a * c - s * disc;
    lemma_root_residual_identity(s, a, b, c, disc, q, t);
    assert(0 <= 2 * s * q * e <= 2 * s * q * a) by (nonlinear_arith)
        requires
            s > 0,
            q >= 0,
            0 <= e < a,
    ;
    assert(0 <= e * e <= a * a) by (nonlinear_arith)
        requires
            0 <= e < a,
    ;
    assert(-(s * s * s) <= s * s * (g + k) <= s * s * (2 * q + 2 * s)) by (nonlinear_arith)
        requires
            s > 0,
            -s <= g + k <= 2 * q + 2 * s,
    ;
}

/// One coordinate of the hit point, relative to the center: with the
/// rounding error `d t - s g` of the product written `e`, the square of
/// `s (u + g)` is the square of `s u + d t` less `2 e s (u + g) + e^2`.
proof fn lemma_component_identity(s: int, u: int, d: int, t: int, g: int)
    ensures
        s * s * ((u + g) * (u + g)) == s * s * (u * u) + 2 * s * t * (u * d) + t * t * (d * d) - (2
            * (d * t - s * g) * s * (u + g) + (d * t - s * g) * (d * t - s * g)),
{
    let w = u + g;
    let e = d * t - s * g;
    let full = s * u + d * t;
    assert(s * w == full - e) by (nonlinear_arith)
        requires
            w == u + g,
            e == d * t - s * g,
            full == s * u + d * t,
    ;
    assert((s * w) * (s * w) == full * full - 2 * e * (s * w) - e * e) by (nonlinear_arith)
        requires
            s * w == full - e,
    ;
    assert((s * w) * (s * w) == s * s * (w * w)) by (nonlinear_arith);
    assert(2 * e * (s * w) == 2 * e * s * w) by (nonlinear_arith);
    assert(full * full == (s * u) * (s * u) + 2 * (s * u) * (d * t) + (d * t) * (d * t))
        by (nonlinear_arith)
        requires
            full == s * u + d * t,
    ;
    assert((s * u) * (s * u) == s * s * (u * u)) by (nonlinear_arith);
    assert(2 * (s * u) * (d * t) == 2 * s * t * (u * d)) by (nonlinear_arith);
    assert((d * t) * (d * t) == t * t * (d * d)) by (nonlinear_arith);
}

/// Bounds what rounding takes from one coordinate in
/// [`lemma_component_identity`].
proof fn lemma_component_bound(s: int, w: int, e: int, bw: int)
    requires
        s > 0,
        -s < e < s,
        -bw <= w <= bw,
    ensures
        -(2 * s * s * bw) <= 2 * e * s * w + e * e <= 2 * s * s * bw + s * s,
{
    assert(-(s * bw) <= e * w <= s * bw) by (nonlinear_arith)
        requires
            -s < e < s,
            -bw <= w <= bw,
    ;
    assert(2 * e * s * w == 2 * s * (e * w)) by (nonlinear_arith);
    assert(-(2 * s * s * bw) <= 2 * s * (e * w) <= 2 * s * s * bw) by (nonlinear_arith)
        requires
            s > 0,
            -(s * bw) <= e * w <= s * bw,
    ;
    assert(0 <= e * e <= s * s) by (nonlinear_arith)
        requires
            -s < e < s,
    ;
}

/// Where `a r` lies within `x` of 0 and `x <= a y`, `r` lies within `y`
/// of 0.
proof fn lemma_quotient_within(a: int, r: int, x: int, y: int)
    requires
        a > 0,
        y >= 0,
        -x <= a * r <= x,
        x <= a * y,
    ensures
        -y <= r <= y,
{
    assert(-y <= r <= y) by (nonlinear_arith)
        requires
            a > 0,
            y >= 0,
            -x <= a * r <= x,
            x <= a * y,
    ;
}

/// What the sphere test computes, in whole numbers, with every rounding
/// error within its bound: `s` is the unit, `u` the ray origin relative to
/// the center, `d` the direction, `r` the radius, `a`, `b`, `c`, `disc`, `q`
/// and `t` the rounded coefficients, discriminant, square root and root, and
/// `g` the rounded products `d t`.
pub open spec fn spec_rounded(
    s: int,
    u: (int, int, int),
    d: (int, int, int),
    r: int,
    a: int,
    b: int,
    c: int,
    disc: int,
    q: int,
    t: int,
    g: (int, int, int),
) -> bool {
    &&& s == 1_000_000_000
    &&& 0 <= d.0 * d.0 + d.1 * d.1 + d.2 * d.2 - a * s < 3 * s
    &&& -3 * s < u.0 * d.0 + u.1 * d.1 + u.2 * d.2 - b * s < 3 * s
    &&& -s < u.0 * u.0 + u.1 * u.1 + u.2 * u.2 - r * r - c * s < 3 * s
    &&& -s < b * b - a * c - s * disc < 2 * s
    &&& 0 <= q <= 13_300 * s
    &&& 0 <= s * disc - q * q <= 2 * q
    &&& 0 <= (-b - q) * s - a * t < a
    &&& -s < d.0 * t - s * g.0 < s
    &&& -s < d.1 * t - s * g.1 < s
    &&& -s < d.2 * t - s * g.2 < s
    &&& s - 1000 <= a <= s + 1000
    &&& 0 < t <= 10_000 * s
    &&& -22_000 * s <= u.0 + g.0 <= 22_000 * s
    &&& -22_000 * s <= u.1 + g.1 <= 22_000 * s
    &&& -22_000 * s <= u.2 + g.2 <= 22_000 * s
}

/// The algebra of the sphere test in whole numbers: `s` is the unit, `u` the
/// ray origin relative to the center, `d` the direction, `r` the radius,
/// `a`, `b`, `c`, `disc`, `q` and `t` the rounded coefficients, discriminant,
/// square root and root, and `g` the rounded products `d t`. With every
/// rounding error within its bound, the squared distance of the hit point
/// from the center, times `s`, misses the squared radius times `s` by at
/// most `3 t^2 + 245 500 s^2`.
proof fn lemma_surface_error(
    s: int,
    u: (int, int, int),
    d: (int, int, int),
    r: int,
    a: int,
    b: int,
    c: int,
    disc: int,
    q: int,
    t: int,
    g: (int, int, int),
)
    requires
        spec_rounded(s, u, d, r, a, b, c, disc, q, t, g),
    ensures
        -(3 * (t * t) + 245_500 * (s * s)) <= s * ((u.0 + g.0) * (u.0 + g.0) + (u.1 + g.1) * (u.1
            + g.1) + (u.2 + g.2) * (u.2 + g.2) - r * r) <= 3 * (t * t) + 245_500 * (s * s),
{
    assert(spec_rounded(s, u, d, r, a, b, c, disc, q, t, g));
    assert(s == 1_000_000_000);
    let s2 = s * s;
    let s3 = s * s * s;
    assert(s2 == 1_000_000_000_000_000_000);
    assert(s3 == 1_000_000_000_000_000_000_000_000_000);
    // The residual of the quadratic at the computed root.
    let res = a * t * t + 2 * s * b * t + s * s * c;
    lemma_root_residual_bound(s, a, b, c, disc, q, t);
    lemma_product_bound(q, a, 13_300 * s, s + 1000);
    assert(2 * s * q * a == 2 * s * (q * a)) by (nonlinear_arith);
    lemma_product_bound(a, a, s + 1000, s + 1000);
    assert(s * s * (2 * q + 2 * s) == s2 * (2 * q + 2 * s)) by (nonlinear_arith)
        requires
            s2 == s * s,
    ;
    assert(-(53_300 * s3) <= a * res <= 53_300 * s3);
    assert(53_300 * s3 <= a * (53_400 * s2)) by (nonlinear_arith)
        requires
            a >= s - 1000,
            s == 1_000_000_000,
            s2 == s * s,
            s3 == s * s * s,
    ;
    lemma_quotient_within(a, res, 53_300 * s3, 53_400 * s2);
    // What the rounding of the coefficients adds.
    let alpha = d.0 * d.0 + d.1 * d.1 + d.2 * d.2 - a * s;
    let beta = u.0 * d.0 + u.1 * d.1 + u.2 * d.2 - b * s;
    let gamma = u.0 * u.0 + u.1 * u.1 + u.2 * u.2 - r * r - c * s;
    let tt = t * t;
    assert(0 <= tt) by (nonlinear_arith)
        requires
            tt == t * t,
    ;
    assert(0 <= alpha * tt <= 3 * s * tt) by (nonlinear_arith)
        requires
            0 <= alpha < 3 * s,
            0 <= tt,
    ;
    lemma_product_bound(beta, t, 3 * s, 10_000 * s);
    let over = alpha * tt + 2 * s * (beta * t) + s2 * gamma;
    assert(-(60_003 * s3) <= over <= 3 * s * tt + 60_003 * s3) by {
        assert((3 * s) * (10_000 * s) == 30_000 * s2) by (nonlinear_arith)
            requires
                s2 == s * s,
        ;
        assert(-(60_000 * s3) <= 2 * s * (beta * t) <= 60_000 * s3) by (nonlinear_arith)
            requires
                -(30_000 * s2) <= beta * t <= 30_000 * s2,
                s2 == s * s,
                s3 == s * s * s,
                s > 0,
        ;
        assert(s2 * gamma <= 3 * s3 && s2 * gamma >= -(3 * s3)) by (nonlinear_arith)
            requires
                -s < gamma < 3 * s,
                s2 == s * s,
                s3 == s * s * s,
                s > 0,
        ;
    }
    // The exact quadratic at the computed root.
    let sum_dd = d.0 * d.0 + d.1 * d.1 + d.2 * d.2;
    let sum_ud = u.0 * d.0 + u.1 * d.1 + u.2 * d.2;
    let sum_uu = u.0 * u.0 + u.1 * u.1 + u.2 * u.2;
    let exact = tt * sum_dd + 2 * s * t * sum_ud + s2 * (sum_uu - r * r);
    assert(tt * sum_dd == s * (a * tt) + alpha * tt) by (nonlinear_arith)
        requires
            sum_dd == a * s + alpha,
    ;
    assert(2 * s * t * sum_ud == s * (2 * s * (b * t)) + 2 * s * (beta * t)) by (nonlinear_arith)
        requires
            sum_ud == b * s + beta,
    ;
    assert(s2 * (sum_uu - r * r) == s * (s2 * c) + s2 * gamma) by (nonlinear_arith)
        requires
            sum_uu - r * r == c * s + gamma,
    ;
    assert(a * t * t == a * tt) by (nonlinear_arith)
        requires
            tt == t * t,
    ;
    assert(2 * s * b * t == 2 * s * (b * t)) by (nonlinear_arith);
    assert(s * s * c == s2 * c) by (nonlinear_arith)
        requires
            s2 == s * s,
    ;
    assert(s * res == s * (a * tt) + s * (2 * s * (b * t)) + s * (s2 * c)) by (nonlinear_arith)
        requires
            res == a * tt + 2 * s * (b * t) + s2 * c,
    ;
    assert(exact == s * res + over);
    assert(-(53_400 * s3) <= s * res <= 53_400 * s3) by (nonlinear_arith)
        requires
            -(53_400 * s2) <= res <= 53_400 * s2,
            s > 0,
            s2 == s * s,
            s3 == s * s * s,
    ;
    // What the rounding of the hit point takes.
    let w = (u.0 + g.0, u.1 + g.1, u.2 + g.2);
    let e = (d.0 * t - s * g.0, d.1 * t - s * g.1, d.2 * t - s * g.2);
    lemma_component_identity(s, u.0, d.0, t, g.0);
    lemma_component_identity(s, u.1, d.1, t, g.1);
    lemma_component_identity(s, u.2, d.2, t, g.2);
    lemma_component_bound(s, w.0, e.0, 22_000 * s);
    lemma_component_bound(s, w.1, e.1, 22_000 * s);
    lemma_component_bound(s, w.2, e.2, 22_000 * s);
    let lost = (2 * e.0 * s * w.0 + e.0 * e.0) + (2 * e.1 * s * w.1 + e.1 * e.1) + (2 * e.2 * s
        * w.2 + e.2 * e.2);
    assert(2 * s * s * (22_000 * s) == 44_000 * s3) by (nonlinear_arith)
        requires
            s3 == s * s * s,
    ;
    assert(-(132_000 * s3) <= lost <= 132_000 * s3 + 3 * s2);
    let ww = w.0 * w.0 + w.1 * w.1 + w.2 * w.2;
    assert(s2 * ww == s * s * (w.0 * w.0) + s * s * (w.1 * w.1) + s * s * (w.2 * w.2))
        by (nonlinear_arith)
        requires
            ww == w.0 * w.0 + w.1 * w.1 + w.2 * w.2,
            s2 == s * s,
    ;
    assert(tt * sum_dd == t * t * (d.0 * d.0) + t * t * (d.1 * d.1) + t * t * (d.2 * d.2))
        by (nonlinear_arith)
        requires
            tt == t * t,
            sum_dd == d.0 * d.0 + d.1 * d.1 + d.2 * d.2,
    ;
    assert(2 * s * t * sum_ud == 2 * s * t * (u.0 * d.0) + 2 * s * t * (u.1 * d.1) + 2 * s * t
        * (u.2 * d.2)) by (nonlinear_arith)
        requires
            sum_ud == u.0 * d.0 + u.1 * d.1 + u.2 * d.2,
    ;
    assert(s2 * (sum_uu - r * r) == s * s * (u.0 * u.0) + s * s * (u.1 * u.1) + s * s * (u.2
        * u.2) - s2 * (r * r)) by (nonlinear_arith)
        requires
            sum_uu == u.0 * u.0 + u.1 * u.1 + u.2 * u.2,
            s2 == s * s,
    ;
    assert(s2 * ww - s2 * (r * r) == exact - lost);
    assert(s2 * (ww - r * r) == s2 * ww - s2 * (r * r)) by (nonlinear_arith);
    assert(-(245_500 * s3) <= s2 * (ww - r * r) <= 3 * s * tt + 245_500 * s3);
    let gap = s * (ww - r * r);
    assert(s2 * (ww - r * r) == s * gap) by (nonlinear_arith)
        requires
            gap == s * (ww - r * r),
            s2 == s * s,
    ;
    assert(-(3 * tt + 245_500 * s2) <= gap <= 3 * tt + 245_500 * s2) by (nonlinear_arith)
        requires
            -(245_500 * s3) <= s * gap <= 3 * s * tt + 245_500 * s3,
            s2 == s * s,
            s3 == s * s * s,
            s > 0,
            tt >= 0,
    ;
}

/// The raw value of a sum, a difference and a negation that are not
/// clamped.
pub proof fn lemma_sum_raw(a: Scalar, b: Scalar)
    requires
        -4_000_000_000_000_000_000 <= a.raw <= 4_000_000_000_000_000_000,
        -4_000_000_000_000_000_000 <= b.raw <= 4_000_000_000_000_000_000,
    ensures
        a.spec_add(b).raw == a.raw + b.raw,
        a.spec_sub(b).raw == a.raw - b.raw,
        a.spec_neg().raw == -a.raw,
{
    reveal(Scalar::spec_add);
    reveal(Scalar::spec_sub);
    reveal(Scalar::spec_neg);
}

/// The raw value of a dot product none of whose terms is clamped: it misses
/// the exact value by less than three units, and from below where the two
/// vectors are the same.
pub proof fn lemma_dot_raw(x: Vec3, y: Vec3, bound: int)
    requires
        0 <= bound <= 1_000_000_000_000_000_000_000_000_000,
        -bound <= x.x.raw * y.x.raw <= bound,
        -bound <= x.y.raw * y.y.raw <= bound,
        -bound <= x.z.raw * y.z.raw <= bound,
    ensures
        -3 * UNIT < x.x.raw * y.x.raw + x.y.raw * y.y.raw + x.z.raw * y.z.raw - x.spec_dot(y).raw
            * UNIT < 3 * UNIT,
        x == y ==> 0 <= x.x.raw * y.x.raw + x.y.raw * y.y.raw + x.z.raw * y.z.raw - x.spec_dot(
            y,
        ).raw * UNIT,
        -3 * bound <= x.spec_dot(y).raw * UNIT <= 3 * bound,
{
    lemma_mul_raw(x.x, y.x, bound);
    lemma_mul_raw(x.y, y.y, bound);
    lemma_mul_raw(x.z, y.z, bound);
    let p = x.x.spec_mul(y.x);
    let q = x.y.spec_mul(y.y);
    let r = x.z.spec_mul(y.z);
    lemma_sum_raw(p, q);
    lemma_sum_raw(p.spec_add(q), r);
    if x == y {
        assert(x.x.raw * y.x.raw >= 0) by (nonlinear_arith)
            requires
                x.x.raw == y.x.raw,
        ;
        assert(x.y.raw * y.y.raw >= 0) by (nonlinear_arith)
            requires
                x.y.raw == y.y.raw,
        ;
        assert(x.z.raw * y.z.raw >= 0) by (nonlinear_arith)
            requires
                x.z.raw == y.z.raw,
        ;
    }
}

/// Whether each component lies within `bound` of 0.
pub open spec fn spec_within(v: Vec3, bound: int) -> bool {
    &&& -bound <= v.x.raw <= bound
    &&& -bound <= v.y.raw <= bound
    &&& -bound <= v.z.raw <= bound
}

/// Whether a sphere test stays clear of clamping: the ray starts within
/// 1000 of the origin in each coordinate, the center of the sphere lies
/// within 1000 of it, the radius is positive and at most 2000, and the
/// direction is normalized up to a millionth.
pub open spec fn spec_moderate(sphere: Sphere, ray: Ray) -> bool {
    &&& spec_within(ray.origin, 1_000 * UNIT)
    &&& spec_within(sphere.center, 1_000 * UNIT)
    &&& spec_within(ray.direction, 2 * UNIT)
    &&& UNIT - 1000 <= ray.direction.spec_dot(ray.direction).raw <= UNIT + 1000
    &&& 0 < sphere.radius.raw <= 2_000 * UNIT
}

/// The squared length of a vector, exactly: in units of a billionth of a
/// billionth.
pub open spec fn spec_exact_square(v: Vec3) -> int {
    v.x.raw * v.x.raw + v.y.raw * v.y.raw + v.z.raw * v.z.raw
}

/// The vector from the center of the sphere to the origin of the ray.
pub open spec fn spec_offset(sphere: Sphere, ray: Ray) -> Vec3 {
    ray.origin.spec_sub(sphere.center)
}

/// The third coefficient of the quadratic of the sphere test: the squared
/// distance of the ray origin from the center, less the squared radius.
pub open spec fn spec_level(sphere: Sphere, ray: Ray) -> Scalar {
    spec_offset(sphere, ray).spec_dot(spec_offset(sphere, ray)).spec_sub(
        sphere.radius.spec_mul(sphere.radius),
    )
}

/// The values of the sphere test are rounded within their bounds: in a
/// moderate scene, for a hit at a parameter of at most 10 000, what the test
/// computes satisfies [`spec_rounded`], and the hit point lies, relative to
/// the center, where the origin lies plus the direction times the parameter.
pub proof fn lemma_sphere_test_is_rounded(
    sphere: Sphere,
    ray: Ray,
    t_min: Scalar,
    t_max: Scalar,
    object_id: usize,
)
    requires
        spec_moderate(sphere, ray),
        t_min.raw >= 0,
        sphere.spec_intersection(ray, t_min, t_max, object_id) is Some,
        sphere.spec_near_root(ray).raw <= 10_000 * UNIT,
    ensures
        ({
            let h = sphere.spec_intersection(ray, t_min, t_max, object_id)->0;
            let oc = spec_offset(sphere, ray);
            let d = ray.direction;
            let g = d.spec_scale(h.t);
            let out = h.point.spec_sub(sphere.center);
            &&& h.t == sphere.spec_near_root(ray)
            &&& spec_rounded(
                UNIT as int,
                (oc.x.raw as int, oc.y.raw as int, oc.z.raw as int),
                (d.x.raw as int, d.y.raw as int, d.z.raw as int),
                sphere.radius.raw as int,
                d.spec_dot(d).raw as int,
                oc.spec_dot(d).raw as int,
                spec_level(sphere, ray).raw as int,
                sphere.spec_discriminant(ray).raw as int,
                sphere.spec_discriminant(ray).spec_sqrt().raw as int,
                h.t.raw as int,
                (g.x.raw as int, g.y.raw as int, g.z.raw as int),
            )
            &&& out.x.raw == oc.x.raw + g.x.raw
            &&& out.y.raw == oc.y.raw + g.y.raw
            &&& out.z.raw == oc.z.raw + g.z.raw
        }),
{
    {
        let h = sphere.spec_intersection(ray, t_min, t_max, object_id)->0;
        let s = UNIT as int;
        let s2 = s * s;
        assert(s2 == 1_000_000_000_000_000_000);
        let o = ray.origin;
        let d = ray.direction;
        let center = sphere.center;
        let radius = sphere.radius;
        // The coefficients of the quadratic.
        let oc = o.spec_sub(center);
        lemma_sum_raw(o.x, center.x);
        lemma_sum_raw(o.y, center.y);
        lemma_sum_raw(o.z, center.z);
        let a = d.spec_dot(d);
        lemma_product_bound(d.x.raw as int, d.x.raw as int, 2_000_000_000, 2_000_000_000);
        lemma_product_bound(d.y.raw as int, d.y.raw as int, 2_000_000_000, 2_000_000_000);
        lemma_product_bound(d.z.raw as int, d.z.raw as int, 2_000_000_000, 2_000_000_000);
        lemma_dot_raw(d, d, 4_000_000_000_000_000_000);
        let b = oc.spec_dot(d);
        lemma_product_bound(oc.x.raw as int, d.x.raw as int, 2_000_000_000_000, 2_000_000_000);
        lemma_product_bound(oc.y.raw as int, d.y.raw as int, 2_000_000_000_000, 2_000_000_000);
        lemma_product_bound(oc.z.raw as int, d.z.raw as int, 2_000_000_000_000, 2_000_000_000);
        lemma_dot_raw(oc, d, 4_000_000_000_000_000_000_000);
        let c0 = oc.spec_dot(oc);
        lemma_product_bound(oc.x.raw as int, oc.x.raw as int, 2_000_000_000_000, 2_000_000_000_000);
        lemma_product_bound(oc.y.raw as int, oc.y.raw as int, 2_000_000_000_000, 2_000_000_000_000);
        lemma_product_bound(oc.z.raw as int, oc.z.raw as int, 2_000_000_000_000, 2_000_000_000_000);
        lemma_dot_raw(oc, oc, 4_000_000_000_000_000_000_000_000);
        let rr = radius.spec_mul(radius);
        lemma_product_bound(radius.raw as int, radius.raw as int, 2_000_000_000_000, 2_000_000_000_000);
        lemma_mul_raw(radius, radius, 4_000_000_000_000_000_000_000_000);
        assert(radius.raw * radius.raw >= 0) by (nonlinear_arith);
        let c = c0.spec_sub(rr);
        lemma_sum_raw(c0, rr);
        // The discriminant and its root.
        let bb = b.spec_mul(b);
        lemma_product_bound(b.raw as int, b.raw as int, 12_000_000_000_000, 12_000_000_000_000);
        lemma_mul_raw(b, b, 144_000_000_000_000_000_000_000_000);
        assert(b.raw * b.raw >= 0) by (nonlinear_arith);
        let ac = a.spec_mul(c);
        lemma_product_bound(a.raw as int, c.raw as int, 2_000_000_000, 16_000_000_000_000_000);
        lemma_mul_raw(a, c, 32_000_000_000_000_000_000_000_000);
        let disc = bb.spec_sub(ac);
        lemma_sum_raw(bb, ac);
        assert(disc == sphere.spec_discriminant(ray));
        assert(disc.raw > 0);
        let root = disc.spec_sqrt();
        let q = floor_root(disc.raw * s);
        lemma_floor_root_exists(disc.raw * s);
        assert(is_floor_root(disc.raw * s, q));
        assert(q < 13_300_000_000_000) by (nonlinear_arith)
            requires
                q >= 0,
                q * q <= disc.raw * s,
                disc.raw * s <= 176_000_000_000_000_000_000_000_000,
        ;
        assert((q + 1) * (q + 1) == q * q + 2 * q + 1) by (nonlinear_arith);
        assert(root.raw == q) by {
            reveal(Scalar::spec_sqrt);
        }
        // The smaller root of the quadratic.
        let n = b.spec_neg().spec_sub(root);
        lemma_sum_raw(b, b);
        lemma_sum_raw(b.spec_neg(), root);
        let t = n.spec_div(a);
        assert(t == sphere.spec_near_root(ray));
        assert(h.t == t);
        let exact = quotient(n.raw * s, a.raw as int);
        assert(t.raw == saturate(exact)) by {
            reveal(Scalar::spec_div);
        }
        assert(t.raw == exact);
        lemma_quotient_error(n.raw * s, a.raw as int);
        assert(exact * a.raw == a.raw * t.raw) by (nonlinear_arith)
            requires
                exact == t.raw,
        ;
        assert(n.raw * s == (-b.raw - q) * s);
        // The hit point, relative to the center.
        let g = d.spec_scale(t);
        lemma_product_bound(d.x.raw as int, t.raw as int, 2_000_000_000, 10_000_000_000_000);
        lemma_product_bound(d.y.raw as int, t.raw as int, 2_000_000_000, 10_000_000_000_000);
        lemma_product_bound(d.z.raw as int, t.raw as int, 2_000_000_000, 10_000_000_000_000);
        lemma_mul_raw(d.x, t, 20_000_000_000_000_000_000_000);
        lemma_mul_raw(d.y, t, 20_000_000_000_000_000_000_000);
        lemma_mul_raw(d.z, t, 20_000_000_000_000_000_000_000);
        let point = o.spec_add(g);
        assert(h.point == point);
        lemma_sum_raw(o.x, g.x);
        lemma_sum_raw(o.y, g.y);
        lemma_sum_raw(o.z, g.z);
        let out = point.spec_sub(center);
        lemma_sum_raw(point.x, center.x);
        lemma_sum_raw(point.y, center.y);
        lemma_sum_raw(point.z, center.z);
    }
}

/// A hit on a sphere lies on the sphere, up to rounding: in a moderate
/// scene, where hits are looked for at parameters that are not negative, a
/// hit at a parameter `t` of at most 10 000 lies within 22 000 of the center
/// in each coordinate, and the exact squared distance of the hit point from
/// the center differs from the exact squared radius by at most 0.0002455
/// and three billionths of `t^2`.
pub proof fn lemma_sphere_hit_is_near_the_surface(
    sphere: Sphere,
    ray: Ray,
    t_min: Scalar,
    t_max: Scalar,
    object_id: usize,
)
    requires
        spec_moderate(sphere, ray),
        t_min.raw >= 0,
    ensures
        sphere.spec_intersection(ray, t_min, t_max, object_id) matches Some(h) ==> h.t.raw
            <= 10_000 * UNIT ==> {
            &&& spec_within(h.point.spec_sub(sphere.center), 22_000 * UNIT)
            &&& -(3 * (h.t.raw * h.t.raw) + 245_500 * (UNIT * UNIT)) <= UNIT * (spec_exact_square(
                h.point.spec_sub(sphere.center),
            ) - sphere.radius.raw * sphere.radius.raw) <= 3 * (h.t.raw * h.t.raw) + 245_500 * (UNIT
                * UNIT)
        },
{
    if sphere.spec_intersection(ray, t_min, t_max, object_id) is Some && sphere.spec_intersection(
        ray,
        t_min,
        t_max,
        object_id,
    )->0.t.raw <= 10_000 * UNIT {
        let h = sphere.spec_intersection(ray, t_min, t_max, object_id)->0;
        let s = UNIT as int;
        lemma_sphere_test_is_rounded(sphere, ray, t_min, t_max, object_id);
        let oc = spec_offset(sphere, ray);
        let d = ray.direction;
        let t = h.t;
        let g = d.spec_scale(t);
        let out = h.point.spec_sub(sphere.center);
        let radius = sphere.radius;
        let q = sphere.spec_discriminant(ray).spec_sqrt().raw as int;
        let u = (oc.x.raw as int, oc.y.raw as int, oc.z.raw as int);
        let dd = (d.x.raw as int, d.y.raw as int, d.z.raw as int);
        let gg = (g.x.raw as int, g.y.raw as int, g.z.raw as int);
        lemma_surface_error(
            s,
            u,
            dd,
            radius.raw as int,
            d.spec_dot(d).raw as int,
            oc.spec_dot(d).raw as int,
            spec_level(sphere, ray).raw as int,
            sphere.spec_discriminant(ray).raw as int,
            q,
            t.raw as int,
            gg,
        );
        assert(out.x.raw * out.x.raw == (u.0 + gg.0) * (u.0 + gg.0)) by (nonlinear_arith)
            requires
                out.x.raw == u.0 + gg.0,
        ;
        assert(out.y.raw * out.y.raw == (u.1 + gg.1) * (u.1 + gg.1)) by (nonlinear_arith)
            requires
                out.y.raw == u.1 + gg.1,
        ;
        assert(out.z.raw * out.z.raw == (u.2 + gg.2) * (u.2 + gg.2)) by (nonlinear_arith)
            requires
                out.z.raw == u.2 + gg.2,
        ;
    }
}

/// The raw value of a quotient by a positive scalar that is not clamped: it
/// misses the exact value by less than one unit of the result, on the side
/// of zero, and has the sign of the dividend.
pub proof fn lemma_div_raw(a: Scalar, b: Scalar, bound: int)
    requires
        b.raw > 0,
        0 <= bound <= 9_000_000_000_000_000_000,
        -(bound * b.raw) <= a.raw * UNIT <= bound * b.raw,
    ensures
        a.spec_div(b).raw == quotient(a.raw * UNIT, b.raw as int),
        -b.raw < a.raw * UNIT - a.spec_div(b).raw * b.raw < b.raw,
        a.raw >= 0 ==> a.spec_div(b).raw >= 0 && a.raw * UNIT - a.spec_div(b).raw * b.raw >= 0,
        a.raw <= 0 ==> a.spec_div(b).raw <= 0 && a.raw * UNIT - a.spec_div(b).raw * b.raw <= 0,
        -bound <= a.spec_div(b).raw <= bound,
{
    reveal(Scalar::spec_div);
    let n = a.raw * UNIT;
    let q = quotient(n, b.raw as int);
    lemma_quotient_error(n, b.raw as int);
    assert(-bound <= q <= bound) by (nonlinear_arith)
        requires
            b.raw > 0,
            bound >= 0,
            -(bound * b.raw) <= n <= bound * b.raw,
            -b.raw < n - q * b.raw < b.raw,
            n >= 0 ==> q >= 0,
            n <= 0 ==> q <= 0,
    ;
}

/// A quotient by a negative divisor is the negated quotient by the negated
/// divisor.
pub proof fn lemma_quotient_negated(n: int, d: int)
    requires
        d < 0,
    ensures
        quotient(n, d) == -quotient(n, -d),
{
    let m = if n >= 0 { n } else { -n };
    let p = -d;
    let q = m / d;
    let r = m % d;
    assert(m == d * q + r && 0 <= r < p) by (nonlinear_arith)
        requires
            q == m / d,
            r == m % d,
            d < 0,
            p == -d,
    ;
    assert(d * q == (-q) * p) by (nonlinear_arith)
        requires
            p == -d,
    ;
    vstd::arithmetic::div_mod::lemma_fundamental_div_mod_converse(m, p, -q, r);
}

/// The raw value of a quotient by a scalar that is not 0 and does not clamp
/// it: it misses the exact value by less than one unit of the result.
pub proof fn lemma_div_raw_any(a: Scalar, b: Scalar, bound: int)
    requires
        b.raw != 0,
        0 <= bound <= 9_000_000_000_000_000_000,
        b.raw > 0 ==> -(bound * b.raw) <= a.raw * UNIT <= bound * b.raw,
        b.raw < 0 ==> -(bound * -b.raw) <= a.raw * UNIT <= bound * -b.raw,
    ensures
        b.raw > 0 ==> -b.raw < a.raw * UNIT - a.spec_div(b).raw * b.raw < b.raw,
        b.raw < 0 ==> b.raw < a.raw * UNIT - a.spec_div(b).raw * b.raw < -b.raw,
        -bound <= a.spec_div(b).raw <= bound,
{
    if b.raw > 0 {
        lemma_div_raw(a, b, bound);
    } else {
        reveal(Scalar::spec_div);
        let n = a.raw * UNIT;
        let p = -b.raw;
        let q = quotient(n, p);
        lemma_quotient_negated(n, b.raw as int);
        lemma_quotient_error(n, p);
        assert(-bound <= q <= bound) by (nonlinear_arith)
            requires
                p > 0,
                bound >= 0,
                -(bound * p) <= n <= bound * p,
                -p < n - q * p < p,
                n >= 0 ==> q >= 0,
                n <= 0 ==> q <= 0,
        ;
        assert((-q) * b.raw == q * p) by (nonlinear_arith)
            requires
                p == -b.raw,
        ;
    }
}

/// One coordinate of the normal: with the rounding error `w s - n r` of the
/// division written `e`, the square of `n r` is the square of `w s` less
/// `2 s e w - e^2`.
proof fn lemma_normal_component(s: int, r: int, w: int, n: int)
    requires
        s > 0,
        r > 0,
        -r < w * s - n * r < r,
        -22_000 * s <= w <= 22_000 * s,
    ensures
        -(44_000 * (s * s) * r) <= r * r * (n * n) - s * s * (w * w) <= 44_000 * (s * s) * r + r
            * r,
{
    let e = w * s - n * r;
    assert(n * r == w * s - e);
    assert((n * r) * (n * r) == (w * s) * (w * s) - 2 * e * (w * s) + e * e) by (nonlinear_arith)
        requires
            n * r == w * s - e,
    ;
    assert((n * r) * (n * r) == r * r * (n * n)) by (nonlinear_arith);
    assert((w * s) * (w * s) == s * s * (w * w)) by (nonlinear_arith);
    assert(-(22_000 * s * r) <= e * w <= 22_000 * s * r) by (nonlinear_arith)
        requires
            -r < e < r,
            -22_000 * s <= w <= 22_000 * s,
            s > 0,
            r > 0,
    ;
    assert(2 * e * (w * s) == 2 * s * (e * w)) by (nonlinear_arith);
    assert(-(44_000 * (s * s) * r) <= 2 * s * (e * w) <= 44_000 * (s * s) * r)
        by (nonlinear_arith)
        requires
            -(22_000 * s * r) <= e * w <= 22_000 * s * r,
            s > 0,
    ;
    assert(0 <= e * e <= r * r) by (nonlinear_arith)
        requires
            -r < e < r,
    ;
}

/// The algebra of the normal in whole numbers: where the squared length of
/// `w` misses `r^2` by at most `275 500 s`, and `n` is `w s / r` rounded,
/// the squared length of `n` misses `s^2` by less than `1 370 000 s`.
proof fn lemma_normal_error(s: int, r: int, w: (int, int, int), n: (int, int, int))
    requires
        s == 1_000_000_000,
        500_000_000 <= r <= 2_000 * s,
        -r < w.0 * s - n.0 * r < r,
        -r < w.1 * s - n.1 * r < r,
        -r < w.2 * s - n.2 * r < r,
        -22_000 * s <= w.0 <= 22_000 * s,
        -22_000 * s <= w.1 <= 22_000 * s,
        -22_000 * s <= w.2 <= 22_000 * s,
        -275_500 * s <= w.0 * w.0 + w.1 * w.1 + w.2 * w.2 - r * r <= 275_500 * s,
    ensures
        -1_370_000 * s <= n.0 * n.0 + n.1 * n.1 + n.2 * n.2 - s * s <= 1_370_000 * s,
{
    let s2 = s * s;
    let r2 = r * r;
    assert(s2 == 1_000_000_000_000_000_000);
    lemma_normal_component(s, r, w.0, n.0);
    lemma_normal_component(s, r, w.1, n.1);
    lemma_normal_component(s, r, w.2, n.2);
    let ww = w.0 * w.0 + w.1 * w.1 + w.2 * w.2;
    let nn = n.0 * n.0 + n.1 * n.1 + n.2 * n.2;
    assert(r2 * nn == r * r * (n.0 * n.0) + r * r * (n.1 * n.1) + r * r * (n.2 * n.2))
        by (nonlinear_arith)
        requires
            nn == n.0 * n.0 + n.1 * n.1 + n.2 * n.2,
            r2 == r * r,
    ;
    assert(s2 * ww == s * s * (w.0 * w.0) + s * s * (w.1 * w.1) + s * s * (w.2 * w.2))
        by (nonlinear_arith)
        requires
            ww == w.0 * w.0 + w.1 * w.1 + w.2 * w.2,
            s2 == s * s,
    ;
    let sr = s2 * r;
    assert(44_000 * (s * s) * r == 44_000 * sr) by (nonlinear_arith)
        requires
            sr == s * s * r,
    ;
    assert(-(132_000 * sr) <= r2 * nn - s2 * ww <= 132_000 * sr + 3 * r2);
    assert(-(275_500 * s * s2) <= s2 * (ww - r2) <= 275_500 * s * s2) by (nonlinear_arith)
        requires
            -275_500 * s <= ww - r2 <= 275_500 * s,
            s2 > 0,
    ;
    assert(s2 * (ww - r2) == s2 * ww - s2 * r2) by (nonlinear_arith);
    assert(r2 * (nn - s2) == r2 * nn - s2 * r2) by (nonlinear_arith);
    // Measured in r^2: s <= 2 r.
    assert(s2 <= 4 * r2) by (nonlinear_arith)
        requires
            s2 == s * s,
            r2 == r * r,
            0 < s <= 2 * r,
    ;
    assert(sr <= 2 * s * r2) by (nonlinear_arith)
        requires
            sr == s * s * r,
            r2 == r * r,
            0 < s <= 2 * r,
    ;
    assert(275_500 * s * s2 <= 1_102_000 * s * r2) by (nonlinear_arith)
        requires
            s2 <= 4 * r2,
            s > 0,
    ;
    assert(r2 <= s * r2) by (nonlinear_arith)
        requires
            s >= 1,
            r2 >= 0,
    ;
    assert(r2 * (1_370_000 * s) == 1_370_000 * s * r2) by (nonlinear_arith);
    assert(r2 > 0) by (nonlinear_arith)
        requires
            r2 == r * r,
            r > 0,
    ;
    lemma_quotient_within(r2, nn - s2, 1_370_000 * s * r2, 1_370_000 * s);
}

/// The normal of a sphere hit points away from the center: its dot product
/// with the vector from the center to the hit point is not negative.
pub proof fn lemma_sphere_normal_is_outward(sphere: Sphere, point: Vec3)
    requires
        sphere.radius.raw > 0,
    ensures
        sphere.spec_normal_at(point).spec_dot(point.spec_sub(sphere.center)).raw >= 0,
{
    let out = point.spec_sub(sphere.center);
    let normal = out.spec_shrink(sphere.radius);
    lemma_same_sign_product(out.x, sphere.radius);
    lemma_same_sign_product(out.y, sphere.radius);
    lemma_same_sign_product(out.z, sphere.radius);
    reveal(Scalar::spec_add);
}

/// A scalar divided by a positive scalar, times itself, is not negative.
proof fn lemma_same_sign_product(w: Scalar, r: Scalar)
    requires
        r.raw > 0,
    ensures
        w.spec_div(r).spec_mul(w).raw >= 0,
{
    reveal(Scalar::spec_div);
    reveal(Scalar::spec_mul);
    let n = w.spec_div(r);
    lemma_quotient_error(w.raw * UNIT, r.raw as int);
    assert(w.raw >= 0 ==> w.raw * UNIT >= 0);
    assert(w.raw <= 0 ==> w.raw * UNIT <= 0);
    assert(n.raw * w.raw >= 0) by (nonlinear_arith)
        requires
            (w.raw >= 0 && n.raw >= 0) || (w.raw <= 0 && n.raw <= 0),
    ;
    lemma_quotient_error(n.raw * w.raw, UNIT as int);
}

/// A hit on a sphere lies on the sphere, as far as the library can tell:
/// in a moderate scene, for a hit at a parameter `t` of at most 10 000, the
/// squared distance of the hit point from the center, computed as a dot
/// product, differs from the square of the radius, computed as a product,
/// by at most 0.0002456 and three billionths of `t^2`.
pub proof fn lemma_sphere_hit_is_on_the_surface(
    sphere: Sphere,
    ray: Ray,
    t_min: Scalar,
    t_max: Scalar,
    object_id: usize,
)
    requires
        spec_moderate(sphere, ray),
        t_min.raw >= 0,
    ensures
        sphere.spec_intersection(ray, t_min, t_max, object_id) matches Some(h) ==> h.t.raw
            <= 10_000 * UNIT ==> -(3 * (h.t.raw * h.t.raw) + 245_600 * (UNIT * UNIT)) <= (
        h.point.spec_sub(sphere.center).spec_dot(h.point.spec_sub(sphere.center)).raw
            - sphere.radius.spec_mul(sphere.radius).raw) * (UNIT * UNIT) <= 3 * (h.t.raw * h.t.raw)
            + 245_600 * (UNIT * UNIT),
{
    if let Some(h) = sphere.spec_intersection(ray, t_min, t_max, object_id) {
        if h.t.raw <= 10_000 * UNIT {
            lemma_sphere_hit_is_near_the_surface(sphere, ray, t_min, t_max, object_id);
            let out = h.point.spec_sub(sphere.center);
            let radius = sphere.radius;
            lemma_product_bound(
                out.x.raw as int,
                out.x.raw as int,
                22_000_000_000_000,
                22_000_000_000_000,
            );
            lemma_product_bound(
                out.y.raw as int,
                out.y.raw as int,
                22_000_000_000_000,
                22_000_000_000_000,
            );
            lemma_product_bound(
                out.z.raw as int,
                out.z.raw as int,
                22_000_000_000_000,
                22_000_000_000_000,
            );
            lemma_dot_raw(out, out, 484_000_000_000_000_000_000_000_000);
            lemma_product_bound(
                radius.raw as int,
                radius.raw as int,
                2_000_000_000_000,
                2_000_000_000_000,
            );
            lemma_mul_raw(radius, radius, 4_000_000_000_000_000_000_000_000);
            assert(radius.raw * radius.raw >= 0) by (nonlinear_arith);
            let gap = out.spec_dot(out).raw - radius.spec_mul(radius).raw;
            assert(gap * (UNIT * UNIT) == UNIT * (gap * UNIT)) by (nonlinear_arith);
            assert(h.t.raw * h.t.raw >= 0) by (nonlinear_arith);
        }
    }
}

/// The normal of a sphere hit has unit length, up to rounding, and points
/// away from the center: in a moderate scene with a radius of at least 0.5,
/// for a hit at a parameter of at most 100, the squared length of the normal
/// differs from 1 by at most 0.0014, and the dot product of the normal with
/// the vector from the center to the hit point is positive.
pub proof fn lemma_sphere_normal_is_unit(
    sphere: Sphere,
    ray: Ray,
    t_min: Scalar,
    t_max: Scalar,
    object_id: usize,
)
    requires
        spec_moderate(sphere, ray),
        t_min.raw >= 0,
        sphere.radius.raw >= 500_000_000,
    ensures
        sphere.spec_intersection(ray, t_min, t_max, object_id) matches Some(h) ==> h.t.raw <= 100
            * UNIT ==> {
            &&& -1_400_000 <= h.normal.spec_dot(h.normal).raw - UNIT <= 1_400_000
            &&& h.normal.spec_dot(h.point.spec_sub(sphere.center)).raw > 0
        },
{
    if let Some(h) = sphere.spec_intersection(ray, t_min, t_max, object_id) {
        if h.t.raw <= 100 * UNIT {
            lemma_sphere_hit_is_near_the_surface(sphere, ray, t_min, t_max, object_id);
            lemma_sphere_normal_is_outward(sphere, h.point);
            let s = UNIT as int;
            let out = h.point.spec_sub(sphere.center);
            let radius = sphere.radius;
            let normal = out.spec_shrink(radius);
            assert(h.normal == normal);
            assert(44_000_000_000_000 * radius.raw >= 22_000_000_000_000 * s);
            lemma_div_raw(out.x, radius, 44_000_000_000_000);
            lemma_div_raw(out.y, radius, 44_000_000_000_000);
            lemma_div_raw(out.z, radius, 44_000_000_000_000);
            let w = (out.x.raw as int, out.y.raw as int, out.z.raw as int);
            let n = (normal.x.raw as int, normal.y.raw as int, normal.z.raw as int);
            lemma_product_bound(h.t.raw as int, h.t.raw as int, 100 * s, 100 * s);
            assert(h.t.raw * h.t.raw >= 0) by (nonlinear_arith);
            lemma_normal_error(s, radius.raw as int, w, n);
            assert(n.0 * n.0 >= 0 && n.1 * n.1 >= 0 && n.2 * n.2 >= 0) by (nonlinear_arith);
            assert(-1_100_000_000 <= n.0 <= 1_100_000_000) by (nonlinear_arith)
                requires
                    n.0 * n.0 <= 1_010_000_000_000_000_000,
            ;
            assert(-1_100_000_000 <= n.1 <= 1_100_000_000) by (nonlinear_arith)
                requires
                    n.1 * n.1 <= 1_010_000_000_000_000_000,
            ;
            assert(-1_100_000_000 <= n.2 <= 1_100_000_000) by (nonlinear_arith)
                requires
                    n.2 * n.2 <= 1_010_000_000_000_000_000,
            ;
            lemma_product_bound(n.0, n.0, 1_100_000_000, 1_100_000_000);
            lemma_product_bound(n.1, n.1, 1_100_000_000, 1_100_000_000);
            lemma_product_bound(n.2, n.2, 1_100_000_000, 1_100_000_000);
            lemma_dot_raw(normal, normal, 1_210_000_000_000_000_000);
            // One of the three terms of the dot product with `out` is positive.
            lemma_same_sign_product(out.x, radius);
            lemma_same_sign_product(out.y, radius);
            lemma_same_sign_product(out.z, radius);
            lemma_product_bound(n.0, w.0, 1_100_000_000, 22_000_000_000_000);
            lemma_product_bound(n.1, w.1, 1_100_000_000, 22_000_000_000_000);
            lemma_product_bound(n.2, w.2, 1_100_000_000, 22_000_000_000_000);
            lemma_mul_raw(normal.x, out.x, 24_200_000_000_000_000_000_000);
            lemma_mul_raw(normal.y, out.y, 24_200_000_000_000_000_000_000);
            lemma_mul_raw(normal.z, out.z, 24_200_000_000_000_000_000_000);
            lemma_sum_raw(normal.x.spec_mul(out.x), normal.y.spec_mul(out.y));
            lemma_sum_raw(
                normal.x.spec_mul(out.x).spec_add(normal.y.spec_mul(out.y)),
                normal.z.spec_mul(out.z),
            );
            if n.0 * n.0 >= 300_000_000_000_000_000 {
                lemma_outward_term(s, radius.raw as int, w.0, n.0);
            } else if n.1 * n.1 >= 300_000_000_000_000_000 {
                lemma_outward_term(s, radius.raw as int, w.1, n.1);
            } else {
                lemma_outward_term(s, radius.raw as int, w.2, n.2);
            }
        }
    }
}

/// A coordinate of the normal that is not short, times the coordinate of
/// the hit point it comes from, is at least the unit.
proof fn lemma_outward_term(s: int, r: int, w: int, n: int)
    requires
        s == 1_000_000_000,
        r >= 500_000_000,
        -r < w * s - n * r < r,
        w >= 0 ==> n >= 0 && w * s - n * r >= 0,
        w <= 0 ==> n <= 0 && w * s - n * r <= 0,
        n * n >= 300_000_000_000_000_000,
    ensures
        n * w >= s,
{
    let e = w * s - n * r;
    assert(s * (n * w) == (n * n) * r + n * e) by (nonlinear_arith)
        requires
            e == w * s - n * r,
    ;
    assert(n * e >= 0) by (nonlinear_arith)
        requires
            (n >= 0 && e >= 0) || (n <= 0 && e <= 0),
    ;
    assert((n * n) * r >= 150_000_000_000_000_000_000_000_000) by (nonlinear_arith)
        requires
            n * n >= 300_000_000_000_000_000,
            r >= 500_000_000,
    ;
    assert(n * w >= s) by (nonlinear_arith)
        requires
            s * (n * w) >= 150_000_000_000_000_000_000_000_000,
            s == 1_000_000_000,
    ;
}

/// One term of the dot product of the hit point with the direction: with
/// the rounding error `d t - s g` of the product written `e`,
/// `s (u + g) d` is `s u d + t d^2 - e d`.
proof fn lemma_facing_component(s: int, u: int, d: int, t: int, g: int)
    ensures
        s * ((u + g) * d) == s * (u * d) + t * (d * d) - (d * t - s * g) * d,
{
    assert(s * ((u + g) * d) == s * (u * d) + (s * g) * d) by (nonlinear_arith);
    assert((d * t - s * g) * d == t * (d * d) - (s * g) * d) by (nonlinear_arith);
}

/// The algebra of the normal against the direction in whole numbers: where
/// the root `q` of the discriminant is at least 50 000, the dot product of
/// the normal `n` with the direction `d` is at most `-3 s`.
proof fn lemma_facing(
    s: int,
    u: (int, int, int),
    d: (int, int, int),
    r: int,
    a: int,
    b: int,
    c: int,
    disc: int,
    q: int,
    t: int,
    g: (int, int, int),
    n: (int, int, int),
)
    requires
        spec_rounded(s, u, d, r, a, b, c, disc, q, t, g),
        -2 * s <= d.0 <= 2 * s && -2 * s <= d.1 <= 2 * s && -2 * s <= d.2 <= 2 * s,
        500_000_000 <= r <= 2_000 * s,
        q >= 50_000,
        -r < (u.0 + g.0) * s - n.0 * r < r,
        -r < (u.1 + g.1) * s - n.1 * r < r,
        -r < (u.2 + g.2) * s - n.2 * r < r,
    ensures
        n.0 * d.0 + n.1 * d.1 + n.2 * d.2 <= -3 * s,
{
    assert(s == 1_000_000_000);
    let s2 = s * s;
    assert(s2 == 1_000_000_000_000_000_000);
    let w = (u.0 + g.0, u.1 + g.1, u.2 + g.2);
    let e = (d.0 * t - s * g.0, d.1 * t - s * g.1, d.2 * t - s * g.2);
    let wd = w.0 * d.0 + w.1 * d.1 + w.2 * d.2;
    let ud = u.0 * d.0 + u.1 * d.1 + u.2 * d.2;
    let dd = d.0 * d.0 + d.1 * d.1 + d.2 * d.2;
    lemma_facing_component(s, u.0, d.0, t, g.0);
    lemma_facing_component(s, u.1, d.1, t, g.1);
    lemma_facing_component(s, u.2, d.2, t, g.2);
    lemma_product_bound(e.0, d.0, s, 2 * s);
    lemma_product_bound(e.1, d.1, s, 2 * s);
    lemma_product_bound(e.2, d.2, s, 2 * s);
    assert(s * (2 * s) == 2 * s2) by (nonlinear_arith)
        requires
            s2 == s * s,
    ;
    assert(s * wd == s * (w.0 * d.0) + s * (w.1 * d.1) + s * (w.2 * d.2)) by (nonlinear_arith)
        requires
            wd == w.0 * d.0 + w.1 * d.1 + w.2 * d.2,
    ;
    assert(s * ud == s * (u.0 * d.0) + s * (u.1 * d.1) + s * (u.2 * d.2)) by (nonlinear_arith)
        requires
            ud == u.0 * d.0 + u.1 * d.1 + u.2 * d.2,
    ;
    assert(t * dd == t * (d.0 * d.0) + t * (d.1 * d.1) + t * (d.2 * d.2)) by (nonlinear_arith)
        requires
            dd == d.0 * d.0 + d.1 * d.1 + d.2 * d.2,
    ;
    assert(s * wd <= s * ud + t * dd + 6 * s2);
    // The exact dot products against the rounded coefficients.
    let alpha = dd - a * s;
    let beta = ud - b * s;
    let theta = (-b - q) * s - a * t;
    assert(s * ud == s2 * b + s * beta) by (nonlinear_arith)
        requires
            beta == ud - b * s,
            s2 == s * s,
    ;
    assert(t * dd == s * (a * t) + alpha * t) by (nonlinear_arith)
        requires
            alpha == dd - a * s,
    ;
    assert(s * (a * t) == -(s2 * b) - s2 * q - s * theta) by (nonlinear_arith)
        requires
            theta == (-b - q) * s - a * t,
            s2 == s * s,
    ;
    assert(s * beta <= 3 * s2) by (nonlinear_arith)
        requires
            beta < 3 * s,
            s > 0,
            s2 == s * s,
    ;
    assert(alpha * t <= 3 * s * t) by (nonlinear_arith)
        requires
            0 <= alpha < 3 * s,
            t > 0,
    ;
    assert(3 * s * t <= 30_000 * s2) by (nonlinear_arith)
        requires
            0 < t <= 10_000 * s,
            s > 0,
            s2 == s * s,
    ;
    assert(s * theta >= 0) by (nonlinear_arith)
        requires
            theta >= 0,
            s > 0,
    ;
    assert(s * wd <= 30_009 * s2 - s2 * q);
    assert(s2 * q >= 50_000 * s2) by (nonlinear_arith)
        requires
            q >= 50_000,
            s2 > 0,
    ;
    // The normal.
    let l = (w.0 * s - n.0 * r, w.1 * s - n.1 * r, w.2 * s - n.2 * r);
    lemma_product_bound(l.0, d.0, r, 2 * s);
    lemma_product_bound(l.1, d.1, r, 2 * s);
    lemma_product_bound(l.2, d.2, r, 2 * s);
    assert(l.0 * d.0 == s * (w.0 * d.0) - r * (n.0 * d.0)) by (nonlinear_arith)
        requires
            l.0 == w.0 * s - n.0 * r,
    ;
    assert(l.1 * d.1 == s * (w.1 * d.1) - r * (n.1 * d.1)) by (nonlinear_arith)
        requires
            l.1 == w.1 * s - n.1 * r,
    ;
    assert(l.2 * d.2 == s * (w.2 * d.2) - r * (n.2 * d.2)) by (nonlinear_arith)
        requires
            l.2 == w.2 * s - n.2 * r,
    ;
    let nd = n.0 * d.0 + n.1 * d.1 + n.2 * d.2;
    assert(r * nd == r * (n.0 * d.0) + r * (n.1 * d.1) + r * (n.2 * d.2)) by (nonlinear_arith)
        requires
            nd == n.0 * d.0 + n.1 * d.1 + n.2 * d.2,
    ;
    let rs = r * s;
    assert(r * (2 * s) == 2 * rs) by (nonlinear_arith)
        requires
            rs == r * s,
    ;
    assert(r * nd <= s * wd + 6 * rs);
    assert(9 * rs <= 18_000 * s2) by (nonlinear_arith)
        requires
            rs == r * s,
            0 < r <= 2_000 * s,
            s > 0,
            s2 == s * s,
    ;
    assert(r * nd <= -(3 * rs));
    assert(nd <= -3 * s) by (nonlinear_arith)
        requires
            r * nd <= -(3 * rs),
            rs == r * s,
            r > 0,
    ;
}

/// The normal of a sphere hit faces the ray that hits, unless the ray
/// grazes the sphere: in a moderate scene with a radius of at least 0.5, for
/// a hit at a parameter of at most 10 000, where the square root of the
/// discriminant, which is half the length of the chord that the ray cuts
/// from the sphere, is at least 0.00005, the dot product of the normal with
/// the direction of the ray is negative.
pub proof fn lemma_sphere_normal_faces_the_ray(
    sphere: Sphere,
    ray: Ray,
    t_min: Scalar,
    t_max: Scalar,
    object_id: usize,
)
    requires
        spec_moderate(sphere, ray),
        t_min.raw >= 0,
        sphere.radius.raw >= 500_000_000,
        sphere.spec_discriminant(ray).spec_sqrt().raw >= 50_000,
    ensures
        sphere.spec_intersection(ray, t_min, t_max, object_id) matches Some(h) ==> h.t.raw
            <= 10_000 * UNIT ==> h.normal.spec_dot(ray.direction).raw < 0,
{
    if let Some(h) = sphere.spec_intersection(ray, t_min, t_max, object_id) {
        if h.t.raw <= 10_000 * UNIT {
            lemma_sphere_test_is_rounded(sphere, ray, t_min, t_max, object_id);
            let s = UNIT as int;
            let oc = spec_offset(sphere, ray);
            let d = ray.direction;
            let g = d.spec_scale(h.t);
            let out = h.point.spec_sub(sphere.center);
            let radius = sphere.radius;
            let normal = out.spec_shrink(radius);
            assert(h.normal == normal);
            assert(44_000_000_000_000 * radius.raw >= 22_000_000_000_000 * s);
            lemma_div_raw(out.x, radius, 44_000_000_000_000);
            lemma_div_raw(out.y, radius, 44_000_000_000_000);
            lemma_div_raw(out.z, radius, 44_000_000_000_000);
            let n = (normal.x.raw as int, normal.y.raw as int, normal.z.raw as int);
            lemma_facing(
                s,
                (oc.x.raw as int, oc.y.raw as int, oc.z.raw as int),
                (d.x.raw as int, d.y.raw as int, d.z.raw as int),
                radius.raw as int,
                d.spec_dot(d).raw as int,
                oc.spec_dot(d).raw as int,
                spec_level(sphere, ray).raw as int,
                sphere.spec_discriminant(ray).raw as int,
                sphere.spec_discriminant(ray).spec_sqrt().raw as int,
                h.t.raw as int,
                (g.x.raw as int, g.y.raw as int, g.z.raw as int),
                n,
            );
            lemma_product_bound(n.0, d.x.raw as int, 44_000_000_000_000, 2_000_000_000);
            lemma_product_bound(n.1, d.y.raw as int, 44_000_000_000_000, 2_000_000_000);
            lemma_product_bound(n.2, d.z.raw as int, 44_000_000_000_000, 2_000_000_000);
            lemma_dot_raw(normal, d, 88_000_000_000_000_000_000_000);
        }
    }
}

/// A sphere is seen from outside only: in a moderate scene, a ray that
/// starts inside the sphere, its squared distance from the center being
/// smaller than the square of the radius as the test computes them, misses
/// the sphere whenever hits are looked for from a parameter of 0.0001 on.
pub proof fn lemma_sphere_is_missed_from_inside(
    sphere: Sphere,
    ray: Ray,
    t_min: Scalar,
    t_max: Scalar,
    object_id: usize,
)
    requires
        spec_moderate(sphere, ray),
        t_min.raw >= 100_000,
        ray.origin.spec_sub(sphere.center).spec_dot(ray.origin.spec_sub(sphere.center)).raw
            < sphere.radius.spec_mul(sphere.radius).raw,
    ensures
        sphere.spec_intersection(ray, t_min, t_max, object_id) is None,
{
    if let Some(h) = sphere.spec_intersection(ray, t_min, t_max, object_id) {
        let s = UNIT as int;
        let o = ray.origin;
        let d = ray.direction;
        let center = sphere.center;
        let radius = sphere.radius;
        let oc = o.spec_sub(center);
        lemma_sum_raw(o.x, center.x);
        lemma_sum_raw(o.y, center.y);
        lemma_sum_raw(o.z, center.z);
        let a = d.spec_dot(d);
        let b = oc.spec_dot(d);
        lemma_product_bound(oc.x.raw as int, d.x.raw as int, 2_000_000_000_000, 2_000_000_000);
        lemma_product_bound(oc.y.raw as int, d.y.raw as int, 2_000_000_000_000, 2_000_000_000);
        lemma_product_bound(oc.z.raw as int, d.z.raw as int, 2_000_000_000_000, 2_000_000_000);
        lemma_dot_raw(oc, d, 4_000_000_000_000_000_000_000);
        let c0 = oc.spec_dot(oc);
        lemma_product_bound(oc.x.raw as int, oc.x.raw as int, 2_000_000_000_000, 2_000_000_000_000);
        lemma_product_bound(oc.y.raw as int, oc.y.raw as int, 2_000_000_000_000, 2_000_000_000_000);
        lemma_product_bound(oc.z.raw as int, oc.z.raw as int, 2_000_000_000_000, 2_000_000_000_000);
        lemma_dot_raw(oc, oc, 4_000_000_000_000_000_000_000_000);
        let rr = radius.spec_mul(radius);
        lemma_product_bound(radius.raw as int, radius.raw as int, 2_000_000_000_000, 2_000_000_000_000);
        lemma_mul_raw(radius, radius, 4_000_000_000_000_000_000_000_000);
        assert(radius.raw * radius.raw >= 0) by (nonlinear_arith);
        let c = c0.spec_sub(rr);
        lemma_sum_raw(c0, rr);
        assert(c.raw < 0);
        let bb = b.spec_mul(b);
        lemma_product_bound(b.raw as int, b.raw as int, 12_000_000_000_000, 12_000_000_000_000);
        lemma_mul_raw(b, b, 144_000_000_000_000_000_000_000_000);
        assert(b.raw * b.raw >= 0) by (nonlinear_arith);
        let ac = a.spec_mul(c);
        lemma_product_bound(a.raw as int, c.raw as int, 2_000_000_000, 16_000_000_000_000_000);
        lemma_mul_raw(a, c, 32_000_000_000_000_000_000_000_000);
        assert(a.raw * c.raw <= 0) by (nonlinear_arith)
            requires
                a.raw > 0,
                c.raw < 0,
        ;
        lemma_quotient_error(a.raw * c.raw, s);
        assert(ac.raw <= 0);
        let disc = bb.spec_sub(ac);
        lemma_sum_raw(bb, ac);
        assert(disc == sphere.spec_discriminant(ray));
        let root = disc.spec_sqrt();
        let q = floor_root(disc.raw * s);
        lemma_floor_root_exists(disc.raw * s);
        assert(q < 13_300_000_000_000) by (nonlinear_arith)
            requires
                q >= 0,
                q * q <= disc.raw * s,
                disc.raw * s <= 176_000_000_000_000_000_000_000_000,
        ;
        assert(root.raw == q) by {
            reveal(Scalar::spec_sqrt);
        }
        let n = b.spec_neg().spec_sub(root);
        lemma_sum_raw(b, b);
        lemma_sum_raw(b.spec_neg(), root);
        // The numerator of the root is next to nothing.
        assert(b.raw * b.raw < (q + 1) * (q + 1) + s);
        assert(n.raw <= 31_700) by (nonlinear_arith)
            requires
                n.raw == -b.raw - q,
                q >= 0,
                b.raw * b.raw < (q + 1) * (q + 1) + s,
                s == 1_000_000_000,
        ;
        let t = n.spec_div(a);
        assert(h.t == t);
        let exact = quotient(n.raw * s, a.raw as int);
        assert(t.raw == saturate(exact)) by {
            reveal(Scalar::spec_div);
        }
        lemma_quotient_error(n.raw * s, a.raw as int);
        if n.raw > 0 {
            assert(exact < 100_000) by (nonlinear_arith)
                requires
                    0 <= n.raw * s - exact * a.raw,
                    n.raw <= 31_700,
                    s == 1_000_000_000,
                    a.raw >= 999_999_000,
            ;
        }
        assert(false);
    }
}

/// A normalized vector has unit length, up to rounding: for every vector
/// whose length is not 0, the squared length of the normalized vector
/// differs from 1 by at most 20 billionths, no component of it exceeds 1 in
/// magnitude, and each has the sign of the component it comes from.
pub proof fn lemma_normalized_is_unit(v: Vec3)
    requires
        v.spec_length().raw != 0,
    ensures
        -20 <= v.spec_normalized().spec_dot(v.spec_normalized()).raw - UNIT <= 20,
        spec_within(v.spec_normalized(), UNIT as int),
        v.x.raw >= 0 ==> v.spec_normalized().x.raw >= 0,
        v.x.raw <= 0 ==> v.spec_normalized().x.raw <= 0,
        v.y.raw >= 0 ==> v.spec_normalized().y.raw >= 0,
        v.y.raw <= 0 ==> v.spec_normalized().y.raw <= 0,
        v.z.raw >= 0 ==> v.spec_normalized().z.raw >= 0,
        v.z.raw <= 0 ==> v.spec_normalized().z.raw <= 0,
{
    lemma_length_of_zero(v);
    lemma_normalized_raw(v);
    let s = UNIT as int;
    let k = v.spec_zoom();
    let l = floor_root(v.spec_square_sum() * k * k);
    let unit = v.spec_normalized();
    let w = (v.x.raw * k, v.y.raw * k, v.z.raw * k);
    let n = (unit.x.raw as int, unit.y.raw as int, unit.z.raw as int);
    assert((l + 1) * (l + 1) == l * l + 2 * l + 1) by (nonlinear_arith);
    lemma_unit_error(s, l, w, n);
    lemma_product_bound(n.0, n.0, 1_000_000_000, 1_000_000_000);
    lemma_product_bound(n.1, n.1, 1_000_000_000, 1_000_000_000);
    lemma_product_bound(n.2, n.2, 1_000_000_000, 1_000_000_000);
    lemma_dot_raw(unit, unit, 1_000_000_000_000_000_000);
}

/// A vector of length 0 is the zero vector.
pub proof fn lemma_length_of_zero(v: Vec3)
    ensures
        v.spec_length().raw != 0 <==> v.spec_reach() > 0,
        v.spec_length().raw >= 0,
{
    reveal(Vec3::spec_length);
    let sum = v.spec_square_sum();
    assert(v.x.raw * v.x.raw >= 0 && v.y.raw * v.y.raw >= 0 && v.z.raw * v.z.raw >= 0)
        by (nonlinear_arith);
    lemma_floor_root_exists(sum);
    if v.spec_reach() > 0 {
        assert(sum >= 1) by (nonlinear_arith)
            requires
                sum == v.x.raw * v.x.raw + v.y.raw * v.y.raw + v.z.raw * v.z.raw,
                v.x.raw != 0 || v.y.raw != 0 || v.z.raw != 0,
        ;
        assert(floor_root(sum) >= 1) by (nonlinear_arith)
            requires
                sum >= 1,
                floor_root(sum) >= 0,
                sum < (floor_root(sum) + 1) * (floor_root(sum) + 1),
        ;
    } else {
        assert(sum == 0);
        assert(floor_root(sum) == 0) by (nonlinear_arith)
            requires
                floor_root(sum) >= 0,
                floor_root(sum) * floor_root(sum) <= 0,
        ;
    }
}

/// The raw components of a normalized vector: with `k` the factor by which
/// the vector is enlarged and `l` the raw length of the enlarged vector,
/// each is the enlarged component times the unit, divided by `l` and
/// rounded toward zero.
pub proof fn lemma_normalized_raw(v: Vec3)
    requires
        v.spec_reach() > 0,
    ensures
        ({
            let k = v.spec_zoom();
            let l = floor_root(v.spec_square_sum() * k * k);
            let n = v.spec_normalized();
            &&& is_floor_root(v.spec_square_sum() * k * k, l)
            &&& l >= 0x8000_0000
            &&& v.spec_square_sum() * k * k == (v.x.raw * k) * (v.x.raw * k) + (v.y.raw * k) * (
            v.y.raw * k) + (v.z.raw * k) * (v.z.raw * k)
            &&& spec_component_of(v.x.raw * k, l, n.x.raw as int)
            &&& spec_component_of(v.y.raw * k, l, n.y.raw as int)
            &&& spec_component_of(v.z.raw * k, l, n.z.raw as int)
        }),
{
    reveal(Vec3::spec_normalized);
    crate::math::lemma_normalized_fits(v);
    let k = v.spec_zoom();
    let l = floor_root(v.spec_square_sum() * k * k);
    lemma_component_of(v.x.raw as int, k, l);
    lemma_component_of(v.y.raw as int, k, l);
    lemma_component_of(v.z.raw as int, k, l);
}

/// Whether `n` is `w` times the unit divided by `l`, rounded toward zero:
/// `n l` misses `w` times the unit by less than `l`, on the side of zero,
/// and neither `w` nor `n` exceeds its bound.
pub open spec fn spec_component_of(w: int, l: int, n: int) -> bool {
    &&& -l <= w <= l
    &&& -UNIT <= n <= UNIT
    &&& -l < w * UNIT - n * l < l
    &&& w >= 0 ==> n >= 0 && w * UNIT - n * l >= 0
    &&& w <= 0 ==> n <= 0 && w * UNIT - n * l <= 0
}

/// One component of a normalized vector.
proof fn lemma_component_of(x: int, k: int, l: int)
    requires
        l > 0,
        -l <= x * k <= l,
    ensures
        spec_component_of(x * k, l, quotient(x * UNIT * k, l)),
{
    assert(x * UNIT * k == (x * k) * UNIT) by (nonlinear_arith);
    crate::math::lemma_unit_quotient(x * k, l);
    lemma_quotient_error((x * k) * UNIT, l);
}

/// One coordinate of a normalized vector: with the rounding error
/// `w s - n l` of the division written `e`, which lies on the side of `w`,
/// the square of `n l` is the square of `w s` less `2 s e w - e^2`.
proof fn lemma_unit_component(s: int, l: int, w: int, n: int)
    requires
        s > 0,
        l > 0,
        -l < w * s - n * l < l,
        w >= 0 ==> w * s - n * l >= 0,
        w <= 0 ==> w * s - n * l <= 0,
        -(l + 60_000) <= w <= l + 60_000,
    ensures
        -(2 * s * l * (l + 60_000)) <= l * l * (n * n) - s * s * (w * w) <= l * l,
{
    let e = w * s - n * l;
    assert(n * l == w * s - e);
    assert((n * l) * (n * l) == (w * s) * (w * s) - 2 * e * (w * s) + e * e) by (nonlinear_arith)
        requires
            n * l == w * s - e,
    ;
    assert((n * l) * (n * l) == l * l * (n * n)) by (nonlinear_arith);
    assert((w * s) * (w * s) == s * s * (w * w)) by (nonlinear_arith);
    assert(0 <= e * w <= l * (l + 60_000)) by (nonlinear_arith)
        requires
            -l < e < l,
            w >= 0 ==> e >= 0,
            w <= 0 ==> e <= 0,
            -(l + 60_000) <= w <= l + 60_000,
            l > 0,
    ;
    assert(2 * e * (w * s) == 2 * s * (e * w)) by (nonlinear_arith);
    assert(0 <= 2 * s * (e * w) <= 2 * s * l * (l + 60_000)) by (nonlinear_arith)
        requires
            0 <= e * w <= l * (l + 60_000),
            s > 0,
    ;
    assert(0 <= e * e <= l * l) by (nonlinear_arith)
        requires
            -l < e < l,
    ;
}

/// The algebra of normalizing in whole numbers: `l` is the rounded length of
/// `w` and `n` is `w s / l` rounded; the squared length of `n` misses `s^2`
/// by less than `17 s`.
proof fn lemma_unit_error(s: int, l: int, w: (int, int, int), n: (int, int, int))
    requires
        s == 1_000_000_000,
        l >= 500_000_000,
        0 <= w.0 * w.0 + w.1 * w.1 + w.2 * w.2 - l * l <= 3 * s + 2 * l,
        -l < w.0 * s - n.0 * l < l,
        -l < w.1 * s - n.1 * l < l,
        -l < w.2 * s - n.2 * l < l,
        w.0 >= 0 ==> w.0 * s - n.0 * l >= 0,
        w.0 <= 0 ==> w.0 * s - n.0 * l <= 0,
        w.1 >= 0 ==> w.1 * s - n.1 * l >= 0,
        w.1 <= 0 ==> w.1 * s - n.1 * l <= 0,
        w.2 >= 0 ==> w.2 * s - n.2 * l >= 0,
        w.2 <= 0 ==> w.2 * s - n.2 * l <= 0,
        -(l + 60_000) <= w.0 <= l + 60_000,
        -(l + 60_000) <= w.1 <= l + 60_000,
        -(l + 60_000) <= w.2 <= l + 60_000,
    ensures
        -17 * s <= n.0 * n.0 + n.1 * n.1 + n.2 * n.2 - s * s <= 17 * s,
{
    let s2 = s * s;
    let l2 = l * l;
    assert(s2 == 1_000_000_000_000_000_000);
    lemma_unit_component(s, l, w.0, n.0);
    lemma_unit_component(s, l, w.1, n.1);
    lemma_unit_component(s, l, w.2, n.2);
    let ww = w.0 * w.0 + w.1 * w.1 + w.2 * w.2;
    let nn = n.0 * n.0 + n.1 * n.1 + n.2 * n.2;
    assert(l2 * nn == l * l * (n.0 * n.0) + l * l * (n.1 * n.1) + l * l * (n.2 * n.2))
        by (nonlinear_arith)
        requires
            nn == n.0 * n.0 + n.1 * n.1 + n.2 * n.2,
            l2 == l * l,
    ;
    assert(s2 * ww == s * s * (w.0 * w.0) + s * s * (w.1 * w.1) + s * s * (w.2 * w.2))
        by (nonlinear_arith)
        requires
            ww == w.0 * w.0 + w.1 * w.1 + w.2 * w.2,
            s2 == s * s,
    ;
    let slack = 2 * s * l * (l + 60_000);
    assert(-(3 * slack) <= l2 * nn - s2 * ww <= 3 * l2);
    assert(0 <= s2 * (ww - l2) <= s2 * (3 * s + 2 * l)) by (nonlinear_arith)
        requires
            0 <= ww - l2 <= 3 * s + 2 * l,
            s2 > 0,
    ;
    assert(s2 * (ww - l2) == s2 * ww - s2 * l2) by (nonlinear_arith);
    assert(l2 * (nn - s2) == l2 * nn - s2 * l2) by (nonlinear_arith);
    // Measured in l^2: s <= 2 l.
    assert(slack <= 2 * s * l2 + 240_000 * l2) by (nonlinear_arith)
        requires
            slack == 2 * s * l * (l + 60_000),
            l2 == l * l,
            s == 1_000_000_000,
            2 * l >= s,
    ;
    assert(s2 * (3 * s + 2 * l) <= 16 * s * l2) by (nonlinear_arith)
        requires
            s2 == s * s,
            l2 == l * l,
            s > 0,
            2 * l >= s,
    ;
    assert(3 * l2 <= s * l2 && 720_000 * l2 <= s * l2) by (nonlinear_arith)
        requires
            s == 1_000_000_000,
            l2 >= 0,
    ;
    assert(l2 > 0) by (nonlinear_arith)
        requires
            l2 == l * l,
            l > 0,
    ;
    assert(l2 * (17 * s) == 17 * s * l2) by (nonlinear_arith);
    lemma_quotient_within(l2, nn - s2, 17 * s * l2, 17 * s);
}

} // verus!
