//! A ray aimed at the centroid of a triangle hits it: the exact vector
//! algebra behind the triangle test, and the bound on what rounding does to
//! it.

use crate::accuracy::lemma_div_raw;
use crate::accuracy::lemma_div_raw_any;
use crate::accuracy::lemma_length_of_zero;
use crate::accuracy::lemma_normalized_raw;
use crate::math::lemma_square_bound;
use crate::accuracy::lemma_dot_raw;
use crate::accuracy::lemma_mul_raw;
use crate::accuracy::lemma_product_bound;
use crate::accuracy::lemma_sum_raw;
use crate::accuracy::spec_within;
use crate::math::Vec3;
use crate::mesh::Triangle;
use crate::mesh::EPSILON;
use crate::ray::Ray;
use crate::scalar::floor_root;
use crate::scalar::lemma_floor_root_exists;
use crate::scalar::Scalar;
use crate::scalar::UNIT;
use vstd::prelude::*;

verus! {

/// The dot product of two vectors of whole numbers.
pub open spec fn spec_int_dot(x: (int, int, int), y: (int, int, int)) -> int {
    x.0 * y.0 + x.1 * y.1 + x.2 * y.2
}

/// The cross product of two vectors of whole numbers.
pub open spec fn spec_int_cross(x: (int, int, int), y: (int, int, int)) -> (int, int, int) {
    (x.1 * y.2 - x.2 * y.1, x.2 * y.0 - x.0 * y.2, x.0 * y.1 - x.1 * y.0)
}

/// The triple product `x . (y x z)`.
pub open spec fn spec_int_triple(x: (int, int, int), y: (int, int, int), z: (int, int, int)) -> int {
    spec_int_dot(x, spec_int_cross(y, z))
}

/// The triple product written out.
proof fn lemma_triple_expanded(x: (int, int, int), y: (int, int, int), z: (int, int, int))
    ensures
        spec_int_triple(x, y, z) == x.0 * (y.1 * z.2) - x.0 * (y.2 * z.1) + x.1 * (y.2 * z.0) - x.1
            * (y.0 * z.2) + x.2 * (y.0 * z.1) - x.2 * (y.1 * z.0),
{
    assert(x.0 * (y.1 * z.2 - y.2 * z.1) == x.0 * (y.1 * z.2) - x.0 * (y.2 * z.1))
        by (nonlinear_arith);
    assert(x.1 * (y.2 * z.0 - y.0 * z.2) == x.1 * (y.2 * z.0) - x.1 * (y.0 * z.2))
        by (nonlinear_arith);
    assert(x.2 * (y.0 * z.1 - y.1 * z.0) == x.2 * (y.0 * z.1) - x.2 * (y.1 * z.0))
        by (nonlinear_arith);
}

/// A product of three factors does not depend on their order.
proof fn lemma_three_factors(a: int, b: int, c: int)
    ensures
        a * (b * c) == b * (c * a),
        a * (b * c) == c * (a * b),
        a * (b * c) == a * (c * b),
        a * (b * c) == b * (a * c),
        a * (b * c) == c * (b * a),
{
    assert(a * (b * c) == b * (c * a)) by (nonlinear_arith);
    assert(a * (b * c) == c * (a * b)) by (nonlinear_arith);
    assert(a * (b * c) == a * (c * b)) by (nonlinear_arith);
    assert(a * (b * c) == b * (a * c)) by (nonlinear_arith);
    assert(a * (b * c) == c * (b * a)) by (nonlinear_arith);
}

/// The triple product keeps its value when its vectors change places in
/// turn, and changes its sign when two of them change places.
pub proof fn lemma_triple_symmetry(x: (int, int, int), y: (int, int, int), z: (int, int, int))
    ensures
        spec_int_triple(x, y, z) == spec_int_triple(y, z, x),
        spec_int_triple(x, y, z) == spec_int_triple(z, x, y),
        spec_int_triple(x, y, z) == -spec_int_triple(x, z, y),
        spec_int_triple(x, y, z) == -spec_int_triple(y, x, z),
        spec_int_triple(x, y, z) == -spec_int_triple(z, y, x),
{
    lemma_triple_expanded(x, y, z);
    lemma_triple_expanded(y, z, x);
    lemma_triple_expanded(z, x, y);
    lemma_triple_expanded(x, z, y);
    lemma_triple_expanded(y, x, z);
    lemma_triple_expanded(z, y, x);
    lemma_three_factors(x.0, y.1, z.2);
    lemma_three_factors(x.0, y.2, z.1);
    lemma_three_factors(x.1, y.2, z.0);
    lemma_three_factors(x.1, y.0, z.2);
    lemma_three_factors(x.2, y.0, z.1);
    lemma_three_factors(x.2, y.1, z.0);
}

/// A triple product with a vector twice in it is 0.
pub proof fn lemma_triple_repeated(x: (int, int, int), y: (int, int, int))
    ensures
        spec_int_triple(x, x, y) == 0,
        spec_int_triple(x, y, x) == 0,
        spec_int_triple(y, x, x) == 0,
{
    lemma_triple_symmetry(x, x, y);
    lemma_triple_symmetry(x, y, x);
    lemma_triple_symmetry(y, x, x);
}

/// The triple product is linear in its first vector.
pub proof fn lemma_triple_linear(
    f: int,
    x: (int, int, int),
    g: int,
    w: (int, int, int),
    y: (int, int, int),
    z: (int, int, int),
)
    ensures
        spec_int_triple((f * x.0 + g * w.0, f * x.1 + g * w.1, f * x.2 + g * w.2), y, z) == f
            * spec_int_triple(x, y, z) + g * spec_int_triple(w, y, z),
{
    let c = spec_int_cross(y, z);
    assert((f * x.0 + g * w.0) * c.0 == f * (x.0 * c.0) + g * (w.0 * c.0)) by (nonlinear_arith);
    assert((f * x.1 + g * w.1) * c.1 == f * (x.1 * c.1) + g * (w.1 * c.1)) by (nonlinear_arith);
    assert((f * x.2 + g * w.2) * c.2 == f * (x.2 * c.2) + g * (w.2 * c.2)) by (nonlinear_arith);
    assert(f * spec_int_triple(x, y, z) == f * (x.0 * c.0) + f * (x.1 * c.1) + f * (x.2 * c.2))
        by (nonlinear_arith)
        requires
            spec_int_triple(x, y, z) == x.0 * c.0 + x.1 * c.1 + x.2 * c.2,
    ;
    assert(g * spec_int_triple(w, y, z) == g * (w.0 * c.0) + g * (w.1 * c.1) + g * (w.2 * c.2))
        by (nonlinear_arith)
        requires
            spec_int_triple(w, y, z) == w.0 * c.0 + w.1 * c.1 + w.2 * c.2,
    ;
}

/// The magnitude of a dot product is at most three times the product of
/// bounds on the components.
pub proof fn lemma_int_dot_bound(x: (int, int, int), y: (int, int, int), bx: int, by: int)
    requires
        -bx <= x.0 <= bx,
        -bx <= x.1 <= bx,
        -bx <= x.2 <= bx,
        -by <= y.0 <= by,
        -by <= y.1 <= by,
        -by <= y.2 <= by,
    ensures
        -(3 * (bx * by)) <= spec_int_dot(x, y) <= 3 * (bx * by),
{
    lemma_product_bound(x.0, y.0, bx, by);
    lemma_product_bound(x.1, y.1, bx, by);
    lemma_product_bound(x.2, y.2, bx, by);
}

/// The magnitude of each component of a cross product is at most twice the
/// product of bounds on the components.
pub proof fn lemma_int_cross_bound(x: (int, int, int), y: (int, int, int), bx: int, by: int)
    requires
        -bx <= x.0 <= bx,
        -bx <= x.1 <= bx,
        -bx <= x.2 <= bx,
        -by <= y.0 <= by,
        -by <= y.1 <= by,
        -by <= y.2 <= by,
    ensures
        -(2 * (bx * by)) <= spec_int_cross(x, y).0 <= 2 * (bx * by),
        -(2 * (bx * by)) <= spec_int_cross(x, y).1 <= 2 * (bx * by),
        -(2 * (bx * by)) <= spec_int_cross(x, y).2 <= 2 * (bx * by),
{
    lemma_product_bound(x.1, y.2, bx, by);
    lemma_product_bound(x.2, y.1, bx, by);
    lemma_product_bound(x.2, y.0, bx, by);
    lemma_product_bound(x.0, y.2, bx, by);
    lemma_product_bound(x.0, y.1, bx, by);
    lemma_product_bound(x.1, y.0, bx, by);
}

/// Where `p` stands for `pp / s` with an error of at most `e / s` in each
/// component, `x . p` stands for `(x . pp) / s` with an error of at most
/// three times the bound on `x` times `e / s`.
pub proof fn lemma_approx_dot(
    s: int,
    x: (int, int, int),
    p: (int, int, int),
    pp: (int, int, int),
    bx: int,
    e: int,
)
    requires
        -bx <= x.0 <= bx,
        -bx <= x.1 <= bx,
        -bx <= x.2 <= bx,
        -e <= s * p.0 - pp.0 <= e,
        -e <= s * p.1 - pp.1 <= e,
        -e <= s * p.2 - pp.2 <= e,
    ensures
        -(3 * (bx * e)) <= s * spec_int_dot(x, p) - spec_int_dot(x, pp) <= 3 * (bx * e),
{
    lemma_product_bound(x.0, s * p.0 - pp.0, bx, e);
    lemma_product_bound(x.1, s * p.1 - pp.1, bx, e);
    lemma_product_bound(x.2, s * p.2 - pp.2, bx, e);
    assert(x.0 * (s * p.0 - pp.0) == s * (x.0 * p.0) - x.0 * pp.0) by (nonlinear_arith);
    assert(x.1 * (s * p.1 - pp.1) == s * (x.1 * p.1) - x.1 * pp.1) by (nonlinear_arith);
    assert(x.2 * (s * p.2 - pp.2) == s * (x.2 * p.2) - x.2 * pp.2) by (nonlinear_arith);
    assert(s * spec_int_dot(x, p) == s * (x.0 * p.0) + s * (x.1 * p.1) + s * (x.2 * p.2))
        by (nonlinear_arith)
        requires
            spec_int_dot(x, p) == x.0 * p.0 + x.1 * p.1 + x.2 * p.2,
    ;
}

/// The normalized normal against the exact cross product of the edges: with
/// `m` the rounded cross product, `l0` its rounded length, `k` the factor by
/// which it is enlarged, `ll` the rounded length of the enlarged vector and
/// `n` the normalized vector, the dot product of `n` with the exact cross
/// product `mm` lies between nine and twelve tenths of `s^2 l0`.
proof fn lemma_normal_against_cross(
    s: int,
    k: int,
    l0: int,
    ll: int,
    m: (int, int, int),
    mm: (int, int, int),
    n: (int, int, int),
)
    requires
        s == 1_000_000_000,
        k >= 1,
        100_000_000 <= l0 <= 140_000 * s,
        ll > 0,
        -(2 * s) <= s * m.0 - mm.0 <= 2 * s,
        -(2 * s) <= s * m.1 - mm.1 <= 2 * s,
        -(2 * s) <= s * m.2 - mm.2 <= 2 * s,
        l0 * l0 <= spec_int_dot(m, m) <= l0 * l0 + 2 * l0,
        -l0 <= m.0 <= l0 && -l0 <= m.1 <= l0 && -l0 <= m.2 <= l0,
        k * l0 <= ll <= k * (l0 + 1),
        -ll <= (m.0 * k) * s - n.0 * ll <= ll,
        -ll <= (m.1 * k) * s - n.1 * ll <= ll,
        -ll <= (m.2 * k) * s - n.2 * ll <= ll,
    ensures
        9 * (s * s) * l0 <= 10 * spec_int_dot(n, mm) <= 12 * (s * s) * l0,
{
    let s2 = s * s;
    assert(s2 == 1_000_000_000_000_000_000);
    let d = spec_int_dot(n, mm);
    // ll (n . mm) against s k (m . mm).
    let e = ((m.0 * k) * s - n.0 * ll, (m.1 * k) * s - n.1 * ll, (m.2 * k) * s - n.2 * ll);
    let side = s * (l0 + 2);
    lemma_product_bound(mm.0, e.0, side, ll);
    lemma_product_bound(mm.1, e.1, side, ll);
    lemma_product_bound(mm.2, e.2, side, ll);
    assert(mm.0 * e.0 == s * k * (m.0 * mm.0) - ll * (n.0 * mm.0)) by (nonlinear_arith)
        requires
            e.0 == (m.0 * k) * s - n.0 * ll,
    ;
    assert(mm.1 * e.1 == s * k * (m.1 * mm.1) - ll * (n.1 * mm.1)) by (nonlinear_arith)
        requires
            e.1 == (m.1 * k) * s - n.1 * ll,
    ;
    assert(mm.2 * e.2 == s * k * (m.2 * mm.2) - ll * (n.2 * mm.2)) by (nonlinear_arith)
        requires
            e.2 == (m.2 * k) * s - n.2 * ll,
    ;
    let plain = m.0 * mm.0 + m.1 * mm.1 + m.2 * mm.2;
    assert(ll * d == ll * (n.0 * mm.0) + ll * (n.1 * mm.1) + ll * (n.2 * mm.2))
        by (nonlinear_arith)
        requires
            d == n.0 * mm.0 + n.1 * mm.1 + n.2 * mm.2,
    ;
    assert(s * k * plain == s * k * (m.0 * mm.0) + s * k * (m.1 * mm.1) + s * k * (m.2 * mm.2))
        by (nonlinear_arith)
        requires
            plain == m.0 * mm.0 + m.1 * mm.1 + m.2 * mm.2,
    ;
    let lost = 3 * (side * ll);
    assert(-lost <= s * k * plain - ll * d <= lost);
    // m . mm against s (m . m).
    lemma_product_bound(m.0, mm.0 - s * m.0, l0, 2 * s);
    lemma_product_bound(m.1, mm.1 - s * m.1, l0, 2 * s);
    lemma_product_bound(m.2, mm.2 - s * m.2, l0, 2 * s);
    assert(m.0 * (mm.0 - s * m.0) == m.0 * mm.0 - s * (m.0 * m.0)) by (nonlinear_arith);
    assert(m.1 * (mm.1 - s * m.1) == m.1 * mm.1 - s * (m.1 * m.1)) by (nonlinear_arith);
    assert(m.2 * (mm.2 - s * m.2) == m.2 * mm.2 - s * (m.2 * m.2)) by (nonlinear_arith);
    let sq = spec_int_dot(m, m);
    assert(l0 * (2 * s) == 2 * s * l0) by (nonlinear_arith);
    assert(-(6 * s * l0) <= plain - s * sq <= 6 * s * l0);
    let l2 = l0 * l0;
    assert(s * l2 <= s * sq <= s * l2 + 2 * s * l0) by (nonlinear_arith)
        requires
            l2 <= sq <= l2 + 2 * l0,
            s > 0,
    ;
    let low = s * l2 - 6 * s * l0;
    let high = s * l2 + 8 * s * l0;
    assert(low <= plain <= high);
    // Everything measured in k.
    let reach = k * (l0 + 1);
    assert(side * ll <= side * reach) by (nonlinear_arith)
        requires
            side >= 0,
            ll <= reach,
    ;
    assert(side * reach == k * (side * (l0 + 1))) by (nonlinear_arith)
        requires
            reach == k * (l0 + 1),
    ;
    let edge = 3 * (side * (l0 + 1));
    assert(lost <= k * edge) by (nonlinear_arith)
        requires
            lost == 3 * (side * ll),
            side * ll <= k * (side * (l0 + 1)),
            edge == 3 * (side * (l0 + 1)),
    ;
    assert(s * k * plain == k * (s * plain)) by (nonlinear_arith);
    assert(k * (s * low) <= k * (s * plain) <= k * (s * high)) by (nonlinear_arith)
        requires
            low <= plain <= high,
            s > 0,
            k >= 1,
    ;
    let bottom = s * low - edge;
    let top = s * high + edge;
    assert(k * bottom == k * (s * low) - k * edge && k * top == k * (s * high) + k * edge)
        by (nonlinear_arith)
        requires
            bottom == s * low - edge,
            top == s * high + edge,
    ;
    assert(k * bottom <= ll * d <= k * top);
    // The two ends, in l0 alone.
    let unit = 9 * s2 * l0;
    let most = 12 * s2 * l0;
    assert(10 * bottom >= unit * (l0 + 1)) by (nonlinear_arith)
        requires
            bottom == s * low - edge,
            low == s * l2 - 6 * s * l0,
            edge == 3 * (side * (l0 + 1)),
            side == s * (l0 + 2),
            l2 == l0 * l0,
            unit == 9 * s2 * l0,
            s2 == s * s,
            s == 1_000_000_000,
            100_000_000 <= l0 <= 140_000 * s,
    ;
    assert(10 * top <= most * l0) by (nonlinear_arith)
        requires
            top == s * high + edge,
            high == s * l2 + 8 * s * l0,
            edge == 3 * (side * (l0 + 1)),
            side == s * (l0 + 2),
            l2 == l0 * l0,
            most == 12 * s2 * l0,
            s2 == s * s,
            s == 1_000_000_000,
            100_000_000 <= l0 <= 140_000 * s,
    ;
    assert(10 * (ll * d) >= unit * ll) by (nonlinear_arith)
        requires
            k * bottom <= ll * d,
            10 * bottom >= unit * (l0 + 1),
            ll <= k * (l0 + 1),
            unit >= 0,
            k >= 1,
    ;
    assert(10 * (ll * d) <= most * ll) by (nonlinear_arith)
        requires
            ll * d <= k * top,
            10 * top <= most * l0,
            k * l0 <= ll,
            most >= 0,
            k >= 1,
    ;
    assert(unit <= 10 * d <= most) by (nonlinear_arith)
        requires
            10 * (ll * d) >= unit * ll,
            10 * (ll * d) <= most * ll,
            ll > 0,
    ;
    assert(9 * (s * s) * l0 == unit && 12 * (s * s) * l0 == most) by (nonlinear_arith)
        requires
            unit == 9 * s2 * l0,
            most == 12 * s2 * l0,
            s2 == s * s,
    ;
}

/// The vector with each component negated.
pub open spec fn spec_int_neg(x: (int, int, int)) -> (int, int, int) {
    (-x.0, -x.1, -x.2)
}

/// Negating the first vector negates the triple product.
proof fn lemma_triple_negated(x: (int, int, int), y: (int, int, int), z: (int, int, int))
    ensures
        spec_int_triple(spec_int_neg(x), y, z) == -spec_int_triple(x, y, z),
{
    lemma_triple_linear(-1, x, 0, x, y, z);
    assert(spec_int_neg(x) == (-1 * x.0 + 0 * x.0, -1 * x.1 + 0 * x.1, -1 * x.2 + 0 * x.2));
}

/// The triple products that the test of a ray along the normal computes:
/// with `n` the normal and `d` the triple product of `n` and the two edges,
/// `e1 . (-n x e2)` and `e2 . (e1 x -n)` are `d`, and those with a vector
/// twice in them are 0.
proof fn lemma_triples_of_the_normal(e1: (int, int, int), e2: (int, int, int), n: (int, int, int))
    ensures
        spec_int_triple(e1, spec_int_neg(n), e2) == spec_int_triple(n, e1, e2),
        spec_int_triple(e2, e1, spec_int_neg(n)) == spec_int_triple(n, e1, e2),
        spec_int_triple(e2, spec_int_neg(n), e2) == 0,
        spec_int_triple(n, spec_int_neg(n), e2) == 0,
        spec_int_triple(e1, e1, spec_int_neg(n)) == 0,
        spec_int_triple(n, e1, spec_int_neg(n)) == 0,
        spec_int_triple(e1, e1, e2) == 0,
        spec_int_triple(e2, e1, e2) == 0,
{
    let m = spec_int_neg(n);
    lemma_triple_symmetry(e1, m, e2);
    lemma_triple_negated(n, e2, e1);
    lemma_triple_symmetry(n, e2, e1);
    lemma_triple_symmetry(e2, e1, m);
    lemma_triple_repeated(e2, m);
    lemma_triple_symmetry(n, m, e2);
    lemma_triple_negated(n, e2, n);
    lemma_triple_repeated(n, e2);
    lemma_triple_repeated(e1, m);
    lemma_triple_symmetry(n, e1, m);
    lemma_triple_negated(n, n, e1);
    lemma_triple_repeated(n, e1);
    lemma_triple_repeated(e1, e2);
    lemma_triple_repeated(e2, e1);
}

/// The triple product of the vector from the first corner to the ray
/// origin: where `3 s tv` is `s (e1 + e2) + 3 k n - om`, the triple product
/// of `3 s tv` with `y` and `z` is that combination of the triple products.
proof fn lemma_offset_triple(
    s: int,
    k: int,
    e1: (int, int, int),
    e2: (int, int, int),
    n: (int, int, int),
    tv: (int, int, int),
    om: (int, int, int),
    y: (int, int, int),
    z: (int, int, int),
)
    requires
        3 * s * tv.0 == s * (e1.0 + e2.0) + 3 * k * n.0 - om.0,
        3 * s * tv.1 == s * (e1.1 + e2.1) + 3 * k * n.1 - om.1,
        3 * s * tv.2 == s * (e1.2 + e2.2) + 3 * k * n.2 - om.2,
    ensures
        3 * s * spec_int_triple(tv, y, z) == s * spec_int_triple(e1, y, z) + s * spec_int_triple(
            e2,
            y,
            z,
        ) + 3 * k * spec_int_triple(n, y, z) - spec_int_triple(om, y, z),
{
    let f = 3 * s;
    let g = 3 * k;
    let edges = (s * e1.0 + s * e2.0, s * e1.1 + s * e2.1, s * e1.2 + s * e2.2);
    let rest = (g * n.0 + -1 * om.0, g * n.1 + -1 * om.1, g * n.2 + -1 * om.2);
    let all = (1 * edges.0 + 1 * rest.0, 1 * edges.1 + 1 * rest.1, 1 * edges.2 + 1 * rest.2);
    let scaled = (f * tv.0 + 0 * tv.0, f * tv.1 + 0 * tv.1, f * tv.2 + 0 * tv.2);
    lemma_triple_linear(s, e1, s, e2, y, z);
    lemma_triple_linear(g, n, -1, om, y, z);
    lemma_triple_linear(1, edges, 1, rest, y, z);
    lemma_triple_linear(f, tv, 0, tv, y, z);
    assert(s * (e1.0 + e2.0) == s * e1.0 + s * e2.0) by (nonlinear_arith);
    assert(s * (e1.1 + e2.1) == s * e1.1 + s * e2.1) by (nonlinear_arith);
    assert(s * (e1.2 + e2.2) == s * e1.2 + s * e2.2) by (nonlinear_arith);
    assert(scaled == all);
}

/// Divides a bound by a positive factor: where `f x` lies within `f b` of
/// `f y`, `x` lies within `b` of `y`.
proof fn lemma_cancel(f: int, x: int, y: int, b: int)
    requires
        f > 0,
        -(f * b) <= f * x - f * y <= f * b,
    ensures
        -b <= x - y <= b,
{
    assert(-b <= x - y <= b) by (nonlinear_arith)
        requires
            f > 0,
            -(f * b) <= f * x - f * y <= f * b,
    ;
}

/// What the triangle test computes for a ray along the normal, in whole
/// numbers: `s` is the unit, `l` the length of the cross product of the
/// edges `e1` and `e2`, `n` the normal, `k` the distance of the ray origin
/// from the centroid, `tv` the vector from the first corner to the origin
/// with its rounding error `om`, `p` and `qv` the two rounded cross
/// products, and `det`, `tp`, `dq` and `eq` the four rounded dot products.
/// With `side` 1 where the triple product of `n` and the edges is positive
/// and -1 where it is negative, the determinant times `side` is near `l`,
/// `tp` and `dq` are near a third of the determinant, and `eq` is near `k`
/// times it.
proof fn lemma_test_values(
    s: int,
    l: int,
    k: int,
    e1: (int, int, int),
    e2: (int, int, int),
    n: (int, int, int),
    tv: (int, int, int),
    om: (int, int, int),
    p: (int, int, int),
    qv: (int, int, int),
    det: int,
    tp: int,
    dq: int,
    eq: int,
    side: int,
)
    requires
        s == 1_000_000_000,
        100_000_000 <= l <= 140_000 * s,
        0 < k <= 100 * s,
        -200 * s <= e1.0 <= 200 * s && -200 * s <= e1.1 <= 200 * s && -200 * s <= e1.2 <= 200 * s,
        -200 * s <= e2.0 <= 200 * s && -200 * s <= e2.1 <= 200 * s && -200 * s <= e2.2 <= 200 * s,
        -1_100_000_000 <= n.0 <= 1_100_000_000 && -1_100_000_000 <= n.1 <= 1_100_000_000
            && -1_100_000_000 <= n.2 <= 1_100_000_000,
        -250 * s <= tv.0 <= 250 * s && -250 * s <= tv.1 <= 250 * s && -250 * s <= tv.2 <= 250 * s,
        -6 * s <= om.0 <= 6 * s && -6 * s <= om.1 <= 6 * s && -6 * s <= om.2 <= 6 * s,
        side == 1 || side == -1,
        9 * (s * s) * l <= 10 * (side * spec_int_triple(n, e1, e2)) <= 12 * (s * s) * l,
        3 * s * tv.0 == s * (e1.0 + e2.0) + 3 * k * n.0 - om.0,
        3 * s * tv.1 == s * (e1.1 + e2.1) + 3 * k * n.1 - om.1,
        3 * s * tv.2 == s * (e1.2 + e2.2) + 3 * k * n.2 - om.2,
        -(2 * s) <= s * p.0 - spec_int_cross(spec_int_neg(n), e2).0 <= 2 * s,
        -(2 * s) <= s * p.1 - spec_int_cross(spec_int_neg(n), e2).1 <= 2 * s,
        -(2 * s) <= s * p.2 - spec_int_cross(spec_int_neg(n), e2).2 <= 2 * s,
        -(2 * s) <= s * qv.0 - spec_int_cross(tv, e1).0 <= 2 * s,
        -(2 * s) <= s * qv.1 - spec_int_cross(tv, e1).1 <= 2 * s,
        -(2 * s) <= s * qv.2 - spec_int_cross(tv, e1).2 <= 2 * s,
        -(3 * s) <= s * det - spec_int_dot(e1, p) <= 3 * s,
        -(3 * s) <= s * tp - spec_int_dot(tv, p) <= 3 * s,
        -(3 * s) <= s * dq - spec_int_dot(spec_int_neg(n), qv) <= 3 * s,
        -(3 * s) <= s * eq - spec_int_dot(e2, qv) <= 3 * s,
    ensures
        8 * l <= 10 * (side * det) <= 13 * l,
        -14_000 <= 3 * tp - det <= 14_000,
        -14_000 <= 3 * dq - det <= 14_000,
        -(610_000 * s) <= s * eq - k * det <= 610_000 * s,
{
    let s2 = s * s;
    let s3 = s * s * s;
    assert(s2 == 1_000_000_000_000_000_000);
    assert(s3 == 1_000_000_000_000_000_000_000_000_000);
    let m = spec_int_neg(n);
    let d = spec_int_triple(n, e1, e2);
    let pp = spec_int_cross(m, e2);
    let qq = spec_int_cross(tv, e1);
    let mm = spec_int_cross(e1, e2);
    let back = spec_int_cross(e1, m);
    lemma_triples_of_the_normal(e1, e2, n);
    lemma_int_cross_bound(m, e2, 1_100_000_000, 200_000_000_000);
    lemma_int_cross_bound(e1, m, 200_000_000_000, 1_100_000_000);
    lemma_int_cross_bound(e1, e2, 200_000_000_000, 200_000_000_000);
    // The determinant.
    lemma_approx_dot(s, e1, p, pp, 200_000_000_000, 2_000_000_000);
    assert(spec_int_dot(e1, pp) == d);
    assert(s * (s * det) == s2 * det) by (nonlinear_arith)
        requires
            s2 == s * s,
    ;
    assert(-(3 * s2) <= s * (s * det) - s * spec_int_dot(e1, p) <= 3 * s2) by (nonlinear_arith)
        requires
            -(3 * s) <= s * det - spec_int_dot(e1, p) <= 3 * s,
            s2 == s * s,
            s > 0,
    ;
    assert(-(1_203 * s2) <= s2 * det - d <= 1_203 * s2);
    let unit = s2 * l;
    assert(9 * (s * s) * l == 9 * unit && 12 * (s * s) * l == 12 * unit) by (nonlinear_arith)
        requires
            unit == s * s * l,
    ;
    let turned = side * det;
    let aimed = side * d;
    assert(s2 * turned - aimed == side * (s2 * det - d)) by (nonlinear_arith)
        requires
            turned == side * det,
            aimed == side * d,
    ;
    assert((side == 1 ==> turned == det && aimed == d) && (side == -1 ==> turned == -det && aimed
        == -d)) by (nonlinear_arith)
        requires
            turned == side * det,
            aimed == side * d,
    ;
    assert(-(1_203 * s2) <= s2 * turned - aimed <= 1_203 * s2);
    assert(s2 * (10 * turned) == 10 * (s2 * turned)) by (nonlinear_arith);
    assert(s2 * (8 * l) == 8 * unit && s2 * (13 * l) == 13 * unit) by (nonlinear_arith)
        requires
            unit == s2 * l,
    ;
    assert(unit >= 100_000_000 * s2) by (nonlinear_arith)
        requires
            unit == s2 * l,
            l >= 100_000_000,
            s2 > 0,
    ;
    assert(8 * l <= 10 * turned <= 13 * l) by (nonlinear_arith)
        requires
            s2 * (8 * l) <= s2 * (10 * turned) <= s2 * (13 * l),
            s2 > 0,
    ;
    // The first barycentric coordinate.
    lemma_approx_dot(s, tv, p, pp, 250_000_000_000, 2_000_000_000);
    assert(s * (s * tp) == s2 * tp) by (nonlinear_arith)
        requires
            s2 == s * s,
    ;
    assert(-(3 * s2) <= s * (s * tp) - s * spec_int_dot(tv, p) <= 3 * s2) by (nonlinear_arith)
        requires
            -(3 * s) <= s * tp - spec_int_dot(tv, p) <= 3 * s,
            s2 == s * s,
            s > 0,
    ;
    let first = spec_int_triple(tv, m, e2);
    assert(first == spec_int_dot(tv, pp));
    assert(-(1_503 * s2) <= s2 * tp - first <= 1_503 * s2);
    lemma_offset_triple(s, k, e1, e2, n, tv, om, m, e2);
    lemma_int_dot_bound(om, pp, 6_000_000_000, 440_000_000_000_000_000_000);
    assert(spec_int_triple(om, m, e2) == spec_int_dot(om, pp));
    assert(3 * k * spec_int_triple(n, m, e2) == 0) by (nonlinear_arith)
        requires
            spec_int_triple(n, m, e2) == 0,
    ;
    assert(s * spec_int_triple(e2, m, e2) == 0) by (nonlinear_arith)
        requires
            spec_int_triple(e2, m, e2) == 0,
    ;
    assert(-(7_920 * s3) <= 3 * s * first - s * d <= 7_920 * s3);
    assert(3 * s * first == s * (3 * first)) by (nonlinear_arith);
    assert(s * (7_920 * s2) == 7_920 * s3) by (nonlinear_arith)
        requires
            s2 == s * s,
            s3 == s * s * s,
    ;
    lemma_cancel(s, 3 * first, d, 7_920 * s2);
    assert(-(13_632 * s2) <= 3 * (s2 * tp) - s2 * det <= 13_632 * s2);
    assert(3 * (s2 * tp) == s2 * (3 * tp)) by (nonlinear_arith);
    assert(s2 * 13_632 == 13_632 * s2) by (nonlinear_arith);
    lemma_cancel(s2, 3 * tp, det, 13_632);
    // The second barycentric coordinate.
    lemma_approx_dot(s, m, qv, qq, 1_100_000_000, 2_000_000_000);
    assert(s * (s * dq) == s2 * dq) by (nonlinear_arith)
        requires
            s2 == s * s,
    ;
    assert(-(3 * s2) <= s * (s * dq) - s * spec_int_dot(m, qv) <= 3 * s2) by (nonlinear_arith)
        requires
            -(3 * s) <= s * dq - spec_int_dot(m, qv) <= 3 * s,
            s2 == s * s,
            s > 0,
    ;
    let second = spec_int_triple(tv, e1, m);
    lemma_triple_symmetry(m, tv, e1);
    assert(second == spec_int_dot(m, qq));
    assert(-(10 * s2) <= s2 * dq - second <= 10 * s2);
    lemma_offset_triple(s, k, e1, e2, n, tv, om, e1, m);
    lemma_int_dot_bound(om, back, 6_000_000_000, 440_000_000_000_000_000_000);
    assert(spec_int_triple(om, e1, m) == spec_int_dot(om, back));
    assert(3 * k * spec_int_triple(n, e1, m) == 0) by (nonlinear_arith)
        requires
            spec_int_triple(n, e1, m) == 0,
    ;
    assert(s * spec_int_triple(e1, e1, m) == 0) by (nonlinear_arith)
        requires
            spec_int_triple(e1, e1, m) == 0,
    ;
    assert(-(7_920 * s3) <= 3 * s * second - s * d <= 7_920 * s3);
    assert(3 * s * second == s * (3 * second)) by (nonlinear_arith);
    lemma_cancel(s, 3 * second, d, 7_920 * s2);
    assert(-(9_153 * s2) <= 3 * (s2 * dq) - s2 * det <= 9_153 * s2);
    assert(3 * (s2 * dq) == s2 * (3 * dq)) by (nonlinear_arith);
    assert(s2 * 14_000 == 14_000 * s2) by (nonlinear_arith);
    lemma_cancel(s2, 3 * dq, det, 14_000);
    // The ray parameter.
    lemma_approx_dot(s, e2, qv, qq, 200_000_000_000, 2_000_000_000);
    assert(s * (s * eq) == s2 * eq) by (nonlinear_arith)
        requires
            s2 == s * s,
    ;
    assert(-(3 * s2) <= s * (s * eq) - s * spec_int_dot(e2, qv) <= 3 * s2) by (nonlinear_arith)
        requires
            -(3 * s) <= s * eq - spec_int_dot(e2, qv) <= 3 * s,
            s2 == s * s,
            s > 0,
    ;
    let third = spec_int_triple(tv, e1, e2);
    lemma_triple_symmetry(e2, tv, e1);
    assert(third == spec_int_dot(e2, qq));
    assert(-(1_203 * s2) <= s2 * eq - third <= 1_203 * s2);
    lemma_offset_triple(s, k, e1, e2, n, tv, om, e1, e2);
    lemma_int_dot_bound(om, mm, 6_000_000_000, 80_000_000_000_000_000_000_000);
    assert(spec_int_triple(om, e1, e2) == spec_int_dot(om, mm));
    assert(s * spec_int_triple(e1, e1, e2) == 0) by (nonlinear_arith)
        requires
            spec_int_triple(e1, e1, e2) == 0,
    ;
    assert(s * spec_int_triple(e2, e1, e2) == 0) by (nonlinear_arith)
        requires
            spec_int_triple(e2, e1, e2) == 0,
    ;
    assert(-(1_440_000 * s3) <= 3 * s * third - 3 * k * d <= 1_440_000 * s3);
    assert(3 * s * third == 3 * (s * third) && 3 * k * d == 3 * (k * d)) by (nonlinear_arith);
    assert(-(480_000 * s3) <= s * third - k * d <= 480_000 * s3);
    assert(-(1_203 * s3) <= s * (s2 * eq) - s * third <= 1_203 * s3) by (nonlinear_arith)
        requires
            -(1_203 * s2) <= s2 * eq - third <= 1_203 * s2,
            s2 == s * s,
            s3 == s * s * s,
            s > 0,
    ;
    assert(-(120_300 * s3) <= k * (s2 * det) - k * d <= 120_300 * s3) by (nonlinear_arith)
        requires
            -(1_203 * s2) <= s2 * det - d <= 1_203 * s2,
            0 < k <= 100 * s,
            s2 == s * s,
            s3 == s * s * s,
            s > 0,
    ;
    assert(s * (s2 * eq) == s2 * (s * eq)) by (nonlinear_arith);
    assert(k * (s2 * det) == s2 * (k * det)) by (nonlinear_arith);
    assert(s2 * (610_000 * s) == 610_000 * s3) by (nonlinear_arith)
        requires
            s2 == s * s,
            s3 == s * s * s,
    ;
    lemma_cancel(s2, s * eq, k * det, 610_000 * s);
}

/// A third, up to rounding: where `3 x` is within 14 000 of the
/// determinant and `u` is `x` divided by the determinant and rounded, `3 u`
/// is within 180 000 of `s`.
proof fn lemma_third(s: int, det: int, x: int, u: int)
    requires
        s == 1_000_000_000,
        det >= 80_000_000 || det <= -80_000_000,
        -14_000 <= 3 * x - det <= 14_000,
        det > 0 ==> -det <= x * s - u * det <= det,
        det < 0 ==> det <= x * s - u * det <= -det,
    ensures
        -180_000 <= 3 * u - s <= 180_000,
{
    let off = 3 * x - det;
    let lost = x * s - u * det;
    assert((3 * u - s) * det == s * off - 3 * lost) by (nonlinear_arith)
        requires
            off == 3 * x - det,
            lost == x * s - u * det,
    ;
    if det > 0 {
        assert(-180_000 <= 3 * u - s <= 180_000) by (nonlinear_arith)
            requires
                (3 * u - s) * det == s * off - 3 * lost,
                -14_000 <= off <= 14_000,
                -det <= lost <= det,
                det >= 80_000_000,
                s == 1_000_000_000,
        ;
    } else {
        assert(-180_000 <= 3 * u - s <= 180_000) by (nonlinear_arith)
            requires
                (3 * u - s) * det == s * off - 3 * lost,
                -14_000 <= off <= 14_000,
                det <= lost <= -det,
                det <= -80_000_000,
                s == 1_000_000_000,
        ;
    }
}

/// The ray parameter, up to rounding: where `s eq` is within `610 000 s` of
/// `k det` and `t` is `eq` divided by the determinant and rounded, `t` is
/// within 7 700 000 of `k`.
proof fn lemma_parameter(s: int, det: int, k: int, eq: int, t: int)
    requires
        s == 1_000_000_000,
        det >= 80_000_000 || det <= -80_000_000,
        -(610_000 * s) <= s * eq - k * det <= 610_000 * s,
        det > 0 ==> -det <= eq * s - t * det <= det,
        det < 0 ==> det <= eq * s - t * det <= -det,
    ensures
        -7_700_000 <= t - k <= 7_700_000,
{
    let off = s * eq - k * det;
    let lost = eq * s - t * det;
    assert((t - k) * det == off - lost) by (nonlinear_arith)
        requires
            off == s * eq - k * det,
            lost == eq * s - t * det,
    ;
    if det > 0 {
        assert(-7_700_000 <= t - k <= 7_700_000) by (nonlinear_arith)
            requires
                (t - k) * det == off - lost,
                -(610_000 * s) <= off <= 610_000 * s,
                -det <= lost <= det,
                det >= 80_000_000,
                s == 1_000_000_000,
        ;
    } else {
        assert(-7_700_000 <= t - k <= 7_700_000) by (nonlinear_arith)
            requires
                (t - k) * det == off - lost,
                -(610_000 * s) <= off <= 610_000 * s,
                det <= lost <= -det,
                det <= -80_000_000,
                s == 1_000_000_000,
        ;
    }
}

/// The raw value of a cross product none of whose terms is clamped: each
/// component misses the exact value by less than two units.
pub proof fn lemma_cross_raw(x: Vec3, y: Vec3, bound: int)
    requires
        0 <= bound <= 1_000_000_000_000_000_000_000_000_000,
        -bound <= x.x.raw * y.y.raw <= bound && -bound <= x.x.raw * y.z.raw <= bound,
        -bound <= x.y.raw * y.x.raw <= bound && -bound <= x.y.raw * y.z.raw <= bound,
        -bound <= x.z.raw * y.x.raw <= bound && -bound <= x.z.raw * y.y.raw <= bound,
    ensures
        -(2 * UNIT) < x.spec_cross(y).x.raw * UNIT - spec_int_cross(spec_raw(x), spec_raw(y)).0 < 2
            * UNIT,
        -(2 * UNIT) < x.spec_cross(y).y.raw * UNIT - spec_int_cross(spec_raw(x), spec_raw(y)).1 < 2
            * UNIT,
        -(2 * UNIT) < x.spec_cross(y).z.raw * UNIT - spec_int_cross(spec_raw(x), spec_raw(y)).2 < 2
            * UNIT,
        -(2 * bound) <= x.spec_cross(y).x.raw * UNIT <= 2 * bound,
        -(2 * bound) <= x.spec_cross(y).y.raw * UNIT <= 2 * bound,
        -(2 * bound) <= x.spec_cross(y).z.raw * UNIT <= 2 * bound,
{
    lemma_mul_raw(x.y, y.z, bound);
    lemma_mul_raw(x.z, y.y, bound);
    lemma_mul_raw(x.x, y.z, bound);
    lemma_mul_raw(x.z, y.x, bound);
    lemma_mul_raw(x.x, y.y, bound);
    lemma_mul_raw(x.y, y.x, bound);
    lemma_sum_raw(x.y.spec_mul(y.z), x.z.spec_mul(y.y));
    lemma_sum_raw(x.x.spec_mul(y.z), x.z.spec_mul(y.x));
    let middle = x.x.spec_mul(y.z).spec_sub(x.z.spec_mul(y.x));
    lemma_sum_raw(middle, middle);
    lemma_sum_raw(x.x.spec_mul(y.y), x.y.spec_mul(y.x));
}

/// The raw values of the components of a vector.
pub open spec fn spec_raw(v: Vec3) -> (int, int, int) {
    (v.x.raw as int, v.y.raw as int, v.z.raw as int)
}

/// The centroid of a triangle: the sum of its corners divided by 3.
pub open spec fn spec_centroid(triangle: Triangle) -> Vec3 {
    triangle.a.spec_add(triangle.b).spec_add(triangle.c).spec_shrink(Scalar { raw: 3_000_000_000 })
}

/// The ray that is aimed at the centroid of a triangle along its normal: it
/// starts `distance` away from the centroid on the side that the normal
/// points to, and runs against the normal.
pub open spec fn spec_ray_at_centroid(triangle: Triangle, distance: Scalar) -> Ray {
    Ray {
        origin: spec_centroid(triangle).spec_add(triangle.spec_normal().spec_scale(distance)),
        direction: triangle.spec_normal().spec_neg(),
    }
}

/// Whether a triangle is of moderate size and not too thin: its corners lie
/// within 100 of the origin in each coordinate, and the cross product of its
/// edges, which is twice its area, has a length of at least 0.1 as it is
/// computed.
pub open spec fn spec_solid(triangle: Triangle) -> bool {
    &&& spec_within(triangle.a, 100 * UNIT)
    &&& spec_within(triangle.b, 100 * UNIT)
    &&& spec_within(triangle.c, 100 * UNIT)
    &&& triangle.b.spec_sub(triangle.a).spec_cross(
        triangle.c.spec_sub(triangle.a),
    ).spec_length().raw >= 100_000_000
}

/// The ray that is aimed at the centroid of a triangle from behind: it
/// starts `distance` away from the centroid on the side that the normal
/// points away from, and runs along the normal.
pub open spec fn spec_ray_from_behind(triangle: Triangle, distance: Scalar) -> Ray {
    Ray {
        origin: spec_centroid(triangle).spec_sub(triangle.spec_normal().spec_scale(distance)),
        direction: triangle.spec_normal(),
    }
}

/// The ray that is aimed at the centroid from the side that the normal
/// points to, or from behind.
pub open spec fn spec_ray_toward_centroid(triangle: Triangle, distance: Scalar, front: bool) -> Ray {
    if front {
        spec_ray_at_centroid(triangle, distance)
    } else {
        spec_ray_from_behind(triangle, distance)
    }
}

/// A ray aimed at the centroid of a triangle hits it.
///
/// Take a triangle of moderate size that is not too thin, and the ray that
/// starts at most 100 away from its centroid, on the side that the normal
/// points to, and runs against the normal. In any range that reaches 0.008
/// to both sides of that distance the ray hits the triangle, at a parameter
/// within 0.008 of the distance, and with barycentric coordinates that are
/// each within 0.00006 of a third.
pub proof fn lemma_centroid_ray_hits(
    triangle: Triangle,
    distance: Scalar,
    t_min: Scalar,
    t_max: Scalar,
    object_id: usize,
)
    requires
        spec_solid(triangle),
        0 < distance.raw <= 100 * UNIT,
        t_min.raw <= distance.raw - 8_000_000,
        t_max.raw >= distance.raw + 8_000_000,
    ensures
        triangle.spec_intersection(
            spec_ray_at_centroid(triangle, distance),
            t_min,
            t_max,
            object_id,
        ) matches Some(h) && -8_000_000 < h.t.raw - distance.raw < 8_000_000,
        -180_000 <= 3 * triangle.spec_u(spec_ray_at_centroid(triangle, distance)).raw - UNIT
            <= 180_000,
        -180_000 <= 3 * triangle.spec_v(spec_ray_at_centroid(triangle, distance)).raw - UNIT
            <= 180_000,
{
    lemma_centroid_ray(triangle, distance, true, t_min, t_max, object_id);
}

/// A ray aimed at the centroid of a triangle from behind hits it too: what
/// [`lemma_centroid_ray_hits`] says holds of the ray that starts on the
/// other side of the triangle and runs along the normal.
pub proof fn lemma_centroid_ray_hits_from_behind(
    triangle: Triangle,
    distance: Scalar,
    t_min: Scalar,
    t_max: Scalar,
    object_id: usize,
)
    requires
        spec_solid(triangle),
        0 < distance.raw <= 100 * UNIT,
        t_min.raw <= distance.raw - 8_000_000,
        t_max.raw >= distance.raw + 8_000_000,
    ensures
        triangle.spec_intersection(
            spec_ray_from_behind(triangle, distance),
            t_min,
            t_max,
            object_id,
        ) matches Some(h) && -8_000_000 < h.t.raw - distance.raw < 8_000_000,
        -180_000 <= 3 * triangle.spec_u(spec_ray_from_behind(triangle, distance)).raw - UNIT
            <= 180_000,
        -180_000 <= 3 * triangle.spec_v(spec_ray_from_behind(triangle, distance)).raw - UNIT
            <= 180_000,
{
    lemma_centroid_ray(triangle, distance, false, t_min, t_max, object_id);
}

/// The two laws of the rays aimed at the centroid, proved as one.
#[verifier::rlimit(100)]
proof fn lemma_centroid_ray(
    triangle: Triangle,
    distance: Scalar,
    front: bool,
    t_min: Scalar,
    t_max: Scalar,
    object_id: usize,
)
    requires
        spec_solid(triangle),
        0 < distance.raw <= 100 * UNIT,
        t_min.raw <= distance.raw - 8_000_000,
        t_max.raw >= distance.raw + 8_000_000,
    ensures
        triangle.spec_intersection(
            spec_ray_toward_centroid(triangle, distance, front),
            t_min,
            t_max,
            object_id,
        ) matches Some(h) && -8_000_000 < h.t.raw - distance.raw < 8_000_000,
        -180_000 <= 3 * triangle.spec_u(spec_ray_toward_centroid(triangle, distance, front)).raw
            - UNIT <= 180_000,
        -180_000 <= 3 * triangle.spec_v(spec_ray_toward_centroid(triangle, distance, front)).raw
            - UNIT <= 180_000,
{
    let s = UNIT as int;
    let ray = spec_ray_toward_centroid(triangle, distance, front);
    let k = distance.raw as int;
    let a = triangle.a;
    let b = triangle.b;
    let c = triangle.c;
    // The edges and the normal.
    let e1 = b.spec_sub(a);
    let e2 = c.spec_sub(a);
    lemma_sum_raw(b.x, a.x);
    lemma_sum_raw(b.y, a.y);
    lemma_sum_raw(b.z, a.z);
    lemma_sum_raw(c.x, a.x);
    lemma_sum_raw(c.y, a.y);
    lemma_sum_raw(c.z, a.z);
    lemma_products(e1, e2, 200_000_000_000, 200_000_000_000);
    let m = e1.spec_cross(e2);
    lemma_cross_raw(e1, e2, 40_000_000_000_000_000_000_000);
    let l = m.spec_length().raw as int;
    lemma_length_raw(m, 80_000_000_000_000);
    lemma_length_of_zero(m);
    lemma_normalized_raw(m);
    let n = m.spec_normalized();
    assert(n == triangle.spec_normal());
    let zoom = m.spec_zoom();
    let ll = floor_root(m.spec_square_sum() * zoom * zoom);
    let exact_cross = spec_int_cross(spec_raw(e1), spec_raw(e2));
    assert(l <= 140_000 * s) by (nonlinear_arith)
        requires
            l >= 0,
            l * l <= 19_200_000_000 * (s * s),
            s == 1_000_000_000,
    ;
    lemma_enlarged_length(zoom, l, ll, m.spec_square_sum());
    lemma_normal_against_cross(s, zoom, l, ll, spec_raw(m), exact_cross, spec_raw(n));
    // The ray.
    let sum = a.spec_add(b).spec_add(c);
    lemma_sum_raw(a.x, b.x);
    lemma_sum_raw(a.y, b.y);
    lemma_sum_raw(a.z, b.z);
    lemma_sum_raw(a.x.spec_add(b.x), c.x);
    lemma_sum_raw(a.y.spec_add(b.y), c.y);
    lemma_sum_raw(a.z.spec_add(b.z), c.z);
    let three = Scalar { raw: 3_000_000_000 };
    let g = sum.spec_shrink(three);
    lemma_div_raw(sum.x, three, 100_000_000_000);
    lemma_div_raw(sum.y, three, 100_000_000_000);
    lemma_div_raw(sum.z, three, 100_000_000_000);
    let along = n.spec_scale(distance);
    lemma_product_bound(n.x.raw as int, k, 1_100_000_000, 100_000_000_000);
    lemma_product_bound(n.y.raw as int, k, 1_100_000_000, 100_000_000_000);
    lemma_product_bound(n.z.raw as int, k, 1_100_000_000, 100_000_000_000);
    lemma_mul_raw(n.x, distance, 110_000_000_000_000_000_000);
    lemma_mul_raw(n.y, distance, 110_000_000_000_000_000_000);
    lemma_mul_raw(n.z, distance, 110_000_000_000_000_000_000);
    let origin = if front { g.spec_add(along) } else { g.spec_sub(along) };
    assert(ray.origin == origin);
    lemma_sum_raw(g.x, along.x);
    lemma_sum_raw(g.y, along.y);
    lemma_sum_raw(g.z, along.z);
    let d = if front { n.spec_neg() } else { n };
    assert(ray.direction == d);
    lemma_sum_raw(n.x, n.x);
    lemma_sum_raw(n.y, n.y);
    lemma_sum_raw(n.z, n.z);
    let toward = if front { spec_raw(n) } else { spec_int_neg(spec_raw(n)) };
    let side: int = if front { 1 } else { -1 };
    assert(spec_raw(d) == spec_int_neg(toward));
    lemma_triple_negated(spec_raw(n), spec_raw(e1), spec_raw(e2));
    // The vector from the first corner to the origin of the ray.
    let tv = origin.spec_sub(a);
    lemma_sum_raw(origin.x, a.x);
    lemma_sum_raw(origin.y, a.y);
    lemma_sum_raw(origin.z, a.z);
    let om = (
        s * (sum.x.raw - 3 * g.x.raw) + side * (3 * (n.x.raw * k - along.x.raw * s)),
        s * (sum.y.raw - 3 * g.y.raw) + side * (3 * (n.y.raw * k - along.y.raw * s)),
        s * (sum.z.raw - 3 * g.z.raw) + side * (3 * (n.z.raw * k - along.z.raw * s)),
    );
    assert(3 * k * (-n.x.raw) == -(3 * (n.x.raw * k))) by (nonlinear_arith);
    assert(3 * k * (-n.y.raw) == -(3 * (n.y.raw * k))) by (nonlinear_arith);
    assert(3 * k * (-n.z.raw) == -(3 * (n.z.raw * k))) by (nonlinear_arith);
    assert(3 * k * n.x.raw == 3 * (n.x.raw * k)) by (nonlinear_arith);
    assert(3 * k * n.y.raw == 3 * (n.y.raw * k)) by (nonlinear_arith);
    assert(3 * k * n.z.raw == 3 * (n.z.raw * k)) by (nonlinear_arith);
    // What the test computes.
    let p = d.spec_cross(e2);
    lemma_products(d, e2, 1_100_000_000, 200_000_000_000);
    lemma_cross_raw(d, e2, 220_000_000_000_000_000_000);
    let det = e1.spec_dot(p);
    assert(det == triangle.spec_det(ray));
    lemma_products(e1, p, 200_000_000_000, 440_000_000_000);
    lemma_dot_raw(e1, p, 88_000_000_000_000_000_000_000);
    let top_u = tv.spec_dot(p);
    lemma_products(tv, p, 250_000_000_000, 440_000_000_000);
    lemma_dot_raw(tv, p, 110_000_000_000_000_000_000_000);
    let qv = tv.spec_cross(e1);
    lemma_products(tv, e1, 250_000_000_000, 200_000_000_000);
    lemma_cross_raw(tv, e1, 50_000_000_000_000_000_000_000);
    let top_v = d.spec_dot(qv);
    lemma_products(d, qv, 1_100_000_000, 100_000_000_000_000);
    lemma_dot_raw(d, qv, 110_000_000_000_000_000_000_000);
    let top_t = e2.spec_dot(qv);
    lemma_products(e2, qv, 200_000_000_000, 100_000_000_000_000);
    lemma_dot_raw(e2, qv, 20_000_000_000_000_000_000_000_000);
    lemma_test_values(
        s,
        l,
        k,
        spec_raw(e1),
        spec_raw(e2),
        toward,
        spec_raw(tv),
        om,
        spec_raw(p),
        spec_raw(qv),
        det.raw as int,
        top_u.raw as int,
        top_v.raw as int,
        top_t.raw as int,
        side,
    );
    // The three quotients by the determinant.
    assert(front ==> det.raw >= 80_000_000);
    assert(!front ==> det.raw <= -80_000_000);
    let u = top_u.spec_div(det);
    assert(u == triangle.spec_u(ray));
    lemma_quotient_fits(top_u.raw as int, det.raw as int, 61_000_000_000_000, 800_000_000_000_000);
    lemma_div_raw_any(top_u, det, 800_000_000_000_000);
    lemma_third(s, det.raw as int, top_u.raw as int, u.raw as int);
    let v = top_v.spec_div(det);
    assert(v == triangle.spec_v(ray));
    lemma_quotient_fits(top_v.raw as int, det.raw as int, 61_000_000_000_000, 800_000_000_000_000);
    lemma_div_raw_any(top_v, det, 800_000_000_000_000);
    lemma_third(s, det.raw as int, top_v.raw as int, v.raw as int);
    let t = top_t.spec_div(det);
    assert(t == triangle.spec_t(ray));
    assert(-(18_300_000 * s) <= top_t.raw <= 18_300_000 * s) by {
        lemma_product_bound(k, det.raw as int, 100 * s, 182_000 * s);
    }
    lemma_quotient_fits(
        top_t.raw as int,
        det.raw as int,
        18_300_000_000_000_000,
        230_000_000_000_000_000,
    );
    lemma_div_raw_any(top_t, det, 230_000_000_000_000_000);
    lemma_parameter(s, det.raw as int, k, top_t.raw as int, t.raw as int);
    lemma_sum_raw(u, v);
    assert(det.raw >= EPSILON || det.raw <= -EPSILON);
    assert(triangle.spec_covers(ray));
}

/// Bounds the products of the components of two vectors.
proof fn lemma_products(x: Vec3, y: Vec3, bx: int, by: int)
    requires
        spec_within(x, bx),
        spec_within(y, by),
    ensures
        -(bx * by) <= x.x.raw * y.x.raw <= bx * by && -(bx * by) <= x.x.raw * y.y.raw <= bx * by
            && -(bx * by) <= x.x.raw * y.z.raw <= bx * by,
        -(bx * by) <= x.y.raw * y.x.raw <= bx * by && -(bx * by) <= x.y.raw * y.y.raw <= bx * by
            && -(bx * by) <= x.y.raw * y.z.raw <= bx * by,
        -(bx * by) <= x.z.raw * y.x.raw <= bx * by && -(bx * by) <= x.z.raw * y.y.raw <= bx * by
            && -(bx * by) <= x.z.raw * y.z.raw <= bx * by,
{
    lemma_product_bound(x.x.raw as int, y.x.raw as int, bx, by);
    lemma_product_bound(x.x.raw as int, y.y.raw as int, bx, by);
    lemma_product_bound(x.x.raw as int, y.z.raw as int, bx, by);
    lemma_product_bound(x.y.raw as int, y.x.raw as int, bx, by);
    lemma_product_bound(x.y.raw as int, y.y.raw as int, bx, by);
    lemma_product_bound(x.y.raw as int, y.z.raw as int, bx, by);
    lemma_product_bound(x.z.raw as int, y.x.raw as int, bx, by);
    lemma_product_bound(x.z.raw as int, y.y.raw as int, bx, by);
    lemma_product_bound(x.z.raw as int, y.z.raw as int, bx, by);
}

/// The raw value of the length of a vector whose squares do not clamp it:
/// its square is at most the exact squared length, which is less than the
/// square of the next number, and no component is longer than it.
proof fn lemma_length_raw(v: Vec3, bound: int)
    requires
        0 <= bound <= 1_000_000_000_000_000,
        spec_within(v, bound),
    ensures
        v.spec_length().raw * v.spec_length().raw <= spec_int_dot(spec_raw(v), spec_raw(v))
            <= v.spec_length().raw * v.spec_length().raw + 2 * v.spec_length().raw,
        spec_within(v, v.spec_length().raw as int),
        v.spec_length().raw * v.spec_length().raw <= 3 * (bound * bound),
        spec_int_dot(spec_raw(v), spec_raw(v)) == v.spec_square_sum(),
{
    reveal(Vec3::spec_length);
    lemma_square_bound(v.x.raw as int, bound);
    lemma_square_bound(v.y.raw as int, bound);
    lemma_square_bound(v.z.raw as int, bound);
    lemma_product_bound(bound, bound, 1_000_000_000_000_000, 1_000_000_000_000_000);
    let sum = v.spec_square_sum();
    lemma_floor_root_exists(sum);
    let l = floor_root(sum);
    assert(l <= 2_000_000_000_000_000) by (nonlinear_arith)
        requires
            l >= 0,
            l * l <= sum,
            sum <= 3_000_000_000_000_000_000_000_000_000_000,
    ;
    assert((l + 1) * (l + 1) == l * l + 2 * l + 1) by (nonlinear_arith);
    assert(-l <= v.x.raw <= l) by (nonlinear_arith)
        requires
            v.x.raw * v.x.raw <= sum,
            sum < (l + 1) * (l + 1),
            l >= 0,
    ;
    assert(-l <= v.y.raw <= l) by (nonlinear_arith)
        requires
            v.y.raw * v.y.raw <= sum,
            sum < (l + 1) * (l + 1),
            l >= 0,
    ;
    assert(-l <= v.z.raw <= l) by (nonlinear_arith)
        requires
            v.z.raw * v.z.raw <= sum,
            sum < (l + 1) * (l + 1),
            l >= 0,
    ;
}

/// The length of a vector enlarged by `k` lies between `k` times the length
/// and `k` times the next number.
proof fn lemma_enlarged_length(k: int, l: int, ll: int, sum: int)
    requires
        k >= 1,
        l >= 0,
        ll >= 0,
        l * l <= sum <= l * l + 2 * l,
        ll * ll <= sum * k * k < (ll + 1) * (ll + 1),
    ensures
        k * l <= ll <= k * (l + 1),
{
    let wide = sum * k * k;
    assert((k * l) * (k * l) <= wide) by (nonlinear_arith)
        requires
            wide == sum * k * k,
            l * l <= sum,
            k >= 1,
    ;
    assert(wide < (k * (l + 1)) * (k * (l + 1))) by (nonlinear_arith)
        requires
            wide == sum * k * k,
            sum <= l * l + 2 * l,
            k >= 1,
            l >= 0,
    ;
    assert(k * l <= ll) by (nonlinear_arith)
        requires
            (k * l) * (k * l) <= wide,
            wide < (ll + 1) * (ll + 1),
            ll >= 0,
            k * l >= 0,
    ;
    assert(ll <= k * (l + 1)) by (nonlinear_arith)
        requires
            ll * ll <= wide,
            wide < (k * (l + 1)) * (k * (l + 1)),
            ll >= 0,
            k * (l + 1) >= 0,
    ;
}

/// A quotient fits where its dividend is bounded and its divisor is not
/// small: `x` times the unit lies within `bound` times `det`.
proof fn lemma_quotient_fits(x: int, det: int, bx: int, bound: int)
    requires
        -bx <= x <= bx,
        det >= 80_000_000 || det <= -80_000_000,
        bx * 1_000_000_000 <= bound * 80_000_000,
        bound >= 0,
    ensures
        det > 0 ==> -(bound * det) <= x * UNIT <= bound * det,
        det < 0 ==> -(bound * -det) <= x * UNIT <= bound * -det,
{
    let size = if det > 0 { det } else { -det };
    assert(-(bound * size) <= x * UNIT <= bound * size) by (nonlinear_arith)
        requires
            -bx <= x <= bx,
            size >= 80_000_000,
            bx * 1_000_000_000 <= bound * 80_000_000,
            bound >= 0,
            UNIT == 1_000_000_000,
    ;
}

} // verus!
