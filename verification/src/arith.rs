//! Facts of integer arithmetic that the solver does not find by itself:
//! products of several unknowns, each stated once and proved alone.

use vstd::prelude::*;
use crate::geometry::{max2, max3, min2, min3};

verus! {

/// A product is bounded by the product of the bounds of its factors.
pub proof fn lemma_mul_bound(a: int, b: int, ma: int, mb: int)
    by (nonlinear_arith)
    requires
        -ma <= a <= ma,
        -mb <= b <= mb,
    ensures
        -(ma * mb) <= a * b <= ma * mb,
{
}

/// Multiplication is associative.
pub proof fn lemma_mul_assoc(x: int, y: int, z: int)
    by (nonlinear_arith)
    ensures
        (x * y) * z == x * (y * z),
{
}

/// Multiplication distributes over a difference, and a sign moves out of
/// a product.
pub proof fn lemma_mul_minus(p: int, q: int, n: int)
    by (nonlinear_arith)
    ensures
        (p - q) * n == p * n - q * n,
        p * (-1 * n) == -(p * n),
        p * (-n) == -(p * n),
{
}

/// Multiplication distributes over a sum of three.
pub proof fn lemma_sum_of_three(w: int, a: int, b: int, c: int)
    by (nonlinear_arith)
    ensures
        w * a + w * b + w * c == w * (a + b + c),
        a * w + b * w + c * w == (a + b + c) * w,
{
}

/// A positive factor can be cancelled from an order.
pub proof fn lemma_cancel(w: int, x: int, y: int)
    by (nonlinear_arith)
    requires
        w > 0,
        w * x <= w * y,
    ensures
        x <= y,
{
}

/// A positive factor keeps the sign.
pub proof fn lemma_cancel_sign(w: int, x: int)
    by (nonlinear_arith)
    requires
        w > 0,
    ensures
        w * x >= 0 <==> x >= 0,
        w * x <= 0 <==> x <= 0,
{
}

/// A weight that is not negative keeps an order.
pub proof fn lemma_weight_floor(w: int, a: int, m: int)
    by (nonlinear_arith)
    requires
        w >= 0,
        m <= a,
    ensures
        w * m <= w * a,
{
}

/// The product of a number between 0 and `t` with `n` lies between 0 and
/// the product of `t` with `n`.
pub proof fn lemma_scaled_term(t: int, q: int, n: int)
    by (nonlinear_arith)
    requires
        0 <= q <= t,
    ensures
        n >= 0 ==> 0 <= q * n <= t * n,
        n <= 0 ==> t * n <= q * n <= 0,
{
}

/// A positive factor keeps an order, strict or not.
pub proof fn lemma_scaled_order(k: int, x: int, y: int)
    by (nonlinear_arith)
    requires
        k > 0,
    ensures
        (k * x <= k * y) == (x <= y),
        (k * x < k * y) == (x < y),
{
}

/// A positive factor moves out of a minimum and out of a maximum.
pub proof fn lemma_scaled_extremes(k: int, a: int, b: int, c: int)
    requires
        k > 0,
    ensures
        min3(k * a, k * b, k * c) == k * min3(a, b, c),
        max3(k * a, k * b, k * c) == k * max3(a, b, c),
        min2(0, k * a) == k * min2(0, a),
        max2(0, k * a) == k * max2(0, a),
{
    lemma_scaled_order(k, a, b);
    lemma_scaled_order(k, b, c);
    lemma_scaled_order(k, a, c);
    lemma_scaled_order(k, 0, a);
    assert(k * 0 == 0) by (nonlinear_arith);
}

/// A factor moves out of a difference.
pub proof fn lemma_scaled_difference(k: int, a: int, o: int)
    by (nonlinear_arith)
    ensures
        k * a - k * o == k * (a - o),
{
}

/// A product of two lengths: the factor `k` comes out twice.
pub proof fn lemma_scaled_product(k: int, p: int, q: int)
    by (nonlinear_arith)
    ensures
        (k * p) * (k * q) == (k * k) * (p * q),
{
}

/// A length times an area: the factor `k` comes out three times.
pub proof fn lemma_cube_of(k: int, x: int, y: int)
    ensures
        (k * x) * ((k * k) * y) == (k * k * k) * (x * y),
        k > 0 ==> k * k * k > 0,
{
    let kk = k * k;
    assert((k * x) * (kk * y) == (k * kk) * (x * y)) by (nonlinear_arith);
    assert(k * kk == k * k * k) by (nonlinear_arith)
        requires
            kk == k * k,
    ;
    if k > 0 {
        assert(kk > 0) by (nonlinear_arith)
            requires
                k > 0,
                kk == k * k,
        ;
        assert(k * kk > 0) by (nonlinear_arith)
            requires
                k > 0,
                kk > 0,
        ;
    }
}

/// Three factors in another order: the first two swapped, and the first
/// and the last.
pub proof fn lemma_mul_swap(a: int, b: int, c: int)
    by (nonlinear_arith)
    ensures
        a * (b * c) == b * (a * c),
        a * (b * c) == c * (b * a),
{
}

/// A factor moves into a difference.
pub proof fn lemma_mul_into(a: int, x: int, y: int)
    by (nonlinear_arith)
    ensures
        a * (x - y) == a * x - a * y,
{
}

/// The cross product of two vectors is orthogonal to both of them.
pub proof fn lemma_triple_product(ux: int, uy: int, uz: int, vx: int, vy: int, vz: int)
    ensures
        ux * (uy * vz - uz * vy) + uy * (uz * vx - ux * vz) + uz * (ux * vy - uy * vx) == 0,
        vx * (uy * vz - uz * vy) + vy * (uz * vx - ux * vz) + vz * (ux * vy - uy * vx) == 0,
{
    lemma_mul_into(ux, uy * vz, uz * vy);
    lemma_mul_into(uy, uz * vx, ux * vz);
    lemma_mul_into(uz, ux * vy, uy * vx);
    lemma_mul_swap(ux, uy, vz);
    lemma_mul_swap(uy, uz, vx);
    lemma_mul_swap(uz, ux, vy);
    lemma_mul_into(vx, uy * vz, uz * vy);
    lemma_mul_into(vy, uz * vx, ux * vz);
    lemma_mul_into(vz, ux * vy, uy * vx);
    lemma_mul_swap(vx, uy, vz);
    lemma_mul_swap(vy, uz, vx);
    lemma_mul_swap(vz, ux, vy);
}

/// One component of the normal of a triangle: it stays when the vertices
/// move round by one place, and changes its sign when two of them swap.
pub proof fn lemma_cross_component(ap: int, aq: int, bp: int, bq: int, cp: int, cq: int)
    by (nonlinear_arith)
    ensures
        (cp - bp) * (aq - bq) - (cq - bq) * (ap - bp) == (bp - ap) * (cq - aq) - (bq - aq) * (cp
            - ap),
        (ap - bp) * (cq - bq) - (aq - bq) * (cp - bp) == -1 * ((bp - ap) * (cq - aq) - (bq - aq)
            * (cp - ap)),
{
}

} // verus!
