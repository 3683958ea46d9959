//! The triangle-cube intersection test: separating axes restricted to the
//! cube's three face normals and the triangle's own normal.

use vstd::prelude::*;
use crate::arith::{lemma_cancel, lemma_cancel_sign, lemma_cross_component, lemma_cube_of};
use crate::arith::{lemma_mul_assoc, lemma_mul_bound, lemma_mul_minus, lemma_scaled_difference};
use crate::arith::{lemma_scaled_extremes, lemma_scaled_order, lemma_scaled_product};
use crate::arith::{lemma_scaled_term, lemma_sum_of_three, lemma_triple_product, lemma_weight_floor};
use crate::geometry::{max2, max3, max_v3, min2, min3, min_v3};
use crate::geometry::{Cell, Cube, Facet, FacetN, Normal, Tri, TriN, Vector, V3, LIMIT};

verus! {

/// Largest magnitude of a component of the normal of a triangle in range.
pub const NORMAL_LIMIT: i128 = 0x8_0000_0000_0000_0000_0000;

/// A closed interval `[low, high]`.
#[derive(Clone, Copy, Debug, PartialEq, Eq, Structural)]
pub struct Iv(pub i64, pub i64);

/// Two closed intervals share a point.
pub open spec fn overlaps(al: int, ah: int, bl: int, bh: int) -> bool {
    max2(al, bl) <= min2(ah, bh)
}

/// The lower end of the projection of the cube `[0, s]^3` onto `n`.
pub open spec fn box_low(s: int, n: Vector) -> int {
    min2(0, s * n.x) + min2(0, s * n.y) + min2(0, s * n.z)
}

/// The upper end of the projection of the cube `[0, s]^3` onto `n`.
pub open spec fn box_high(s: int, n: Vector) -> int {
    max2(0, s * n.x) + max2(0, s * n.y) + max2(0, s * n.z)
}

/// No one of the four axes separates the cube `[0, s]^3` from the triangle
/// `a`, `b`, `c` whose normal is `n`. Touching counts as intersecting.
pub open spec fn sat_test(s: int, a: Vector, b: Vector, c: Vector, n: Vector) -> bool {
    &&& overlaps(0, s, min3(a.x, b.x, c.x), max3(a.x, b.x, c.x))
    &&& overlaps(0, s, min3(a.y, b.y, c.y), max3(a.y, b.y, c.y))
    &&& overlaps(0, s, min3(a.z, b.z, c.z), max3(a.z, b.z, c.z))
    &&& box_low(s, n) <= a.dot(n) <= box_high(s, n)
}

/// The test on a triangle with a cached normal, in the cube's own frame.
pub open spec fn hits(cell: Cell, t: FacetN) -> bool {
    sat_test(
        cell.edge,
        t.facet.a.minus(cell.origin),
        t.facet.b.minus(cell.origin),
        t.facet.c.minus(cell.origin),
        t.normal,
    )
}

/// The test on a bare triangle, with the normal that its vertex order gives.
pub open spec fn touches(cell: Cell, t: Facet) -> bool {
    hits(cell, t.with_normal())
}

/// The normal of a triangle within `m` has components within `8 * m * m`.
pub proof fn lemma_normal_bound(t: Facet, m: int)
    requires
        t.within(m),
    ensures
        t.normal().within(8 * (m * m)),
{
    let u = t.b.minus(t.a);
    let v = t.c.minus(t.a);
    lemma_mul_bound(u.y, v.z, 2 * m, 2 * m);
    lemma_mul_bound(u.z, v.y, 2 * m, 2 * m);
    lemma_mul_bound(u.z, v.x, 2 * m, 2 * m);
    lemma_mul_bound(u.x, v.z, 2 * m, 2 * m);
    lemma_mul_bound(u.x, v.y, 2 * m, 2 * m);
    lemma_mul_bound(u.y, v.x, 2 * m, 2 * m);
    assert((2 * m) * (2 * m) == 4 * (m * m)) by (nonlinear_arith);
}

/// Whether two closed intervals share a point.
pub fn intersect_iv(a: Iv, b: Iv) -> (r: bool)
    ensures
        r == overlaps(a.0 as int, a.1 as int, b.0 as int, b.1 as int),
{
    let low: i64 = if a.0 >= b.0 { a.0 } else { b.0 };
    let high: i64 = if a.1 <= b.1 { a.1 } else { b.1 };
    low <= high
}

/// Caches the face normal of a triangle.
pub fn with_normal(tri: Tri) -> (r: TriN)
    requires
        tri@.within(LIMIT as int),
    ensures
        r.0 == tri,
        r@ == tri@.with_normal(),
{
    let ux: i128 = (tri.b.x - tri.a.x) as i128;
    let uy: i128 = (tri.b.y - tri.a.y) as i128;
    let uz: i128 = (tri.b.z - tri.a.z) as i128;
    let vx: i128 = (tri.c.x - tri.a.x) as i128;
    let vy: i128 = (tri.c.y - tri.a.y) as i128;
    let vz: i128 = (tri.c.z - tri.a.z) as i128;
    proof {
        let m = 2 * LIMIT as int;
        lemma_mul_bound(uy as int, vz as int, m, m);
        lemma_mul_bound(uz as int, vy as int, m, m);
        lemma_mul_bound(uz as int, vx as int, m, m);
        lemma_mul_bound(ux as int, vz as int, m, m);
        lemma_mul_bound(ux as int, vy as int, m, m);
        lemma_mul_bound(uy as int, vx as int, m, m);
        assert(m * m == 0x4_0000_0000_0000_0000_0000) by (nonlinear_arith)
            requires
                m == 0x200_0000_0000,
        ;
    }
    let n = Normal { x: uy * vz - uz * vy, y: uz * vx - ux * vz, z: ux * vy - uy * vx };
    TriN(tri, n)
}

fn min0(v: i128) -> (r: i128)
    ensures
        r == min2(0, v as int),
{
    if v <= 0 { v } else { 0 }
}

fn max0(v: i128) -> (r: i128)
    ensures
        r == max2(0, v as int),
{
    if v >= 0 { v } else { 0 }
}

/// The test against the cube `[0, cs]^3`, for a triangle already moved into
/// the cube's frame.
pub fn intersect_cube0_tri(cs: i64, tri: &TriN) -> (r: bool)
    requires
        0 < cs <= LIMIT,
        tri.0@.within(2 * LIMIT),
        tri.1@.within(NORMAL_LIMIT as int),
    ensures
        r == sat_test(cs as int, tri.0.a@, tri.0.b@, tri.0.c@, tri.1@),
{
    let t = tri.0;
    let n = tri.1;
    let tri_min = min_v3(t.a, min_v3(t.b, t.c));
    let tri_max = max_v3(t.a, max_v3(t.b, t.c));
    if !intersect_iv(Iv(0, cs), Iv(tri_min.x, tri_max.x))
        || !intersect_iv(Iv(0, cs), Iv(tri_min.y, tri_max.y))
        || !intersect_iv(Iv(0, cs), Iv(tri_min.z, tri_max.z)) {
        return false;
    }
    proof {
        let s = cs as int;
        let big = NORMAL_LIMIT as int;
        lemma_mul_bound(s, n.x as int, LIMIT as int, big);
        lemma_mul_bound(s, n.y as int, LIMIT as int, big);
        lemma_mul_bound(s, n.z as int, LIMIT as int, big);
        lemma_mul_bound(t.a.x as int, n.x as int, 2 * LIMIT, big);
        lemma_mul_bound(t.a.y as int, n.y as int, 2 * LIMIT, big);
        lemma_mul_bound(t.a.z as int, n.z as int, 2 * LIMIT, big);
        assert((LIMIT as int) * big == 0x800_0000_0000_0000_0000_0000_0000_0000) by (nonlinear_arith)
            requires
                LIMIT == 0x100_0000_0000,
                big == 0x8_0000_0000_0000_0000_0000,
        ;
        assert((2 * LIMIT) * big == 0x1000_0000_0000_0000_0000_0000_0000_0000) by (nonlinear_arith)
            requires
                LIMIT == 0x100_0000_0000,
                big == 0x8_0000_0000_0000_0000_0000,
        ;
    }
    let dx: i128 = (cs as i128) * n.x;
    let dy: i128 = (cs as i128) * n.y;
    let dz: i128 = (cs as i128) * n.z;
    let cube_min: i128 = min0(dx) + min0(dy) + min0(dz);
    let cube_max: i128 = max0(dx) + max0(dy) + max0(dz);
    let tri_v: i128 = (t.a.x as i128) * n.x + (t.a.y as i128) * n.y + (t.a.z as i128) * n.z;
    if tri_v < cube_min || cube_max < tri_v {
        return false;
    }
    true
}

/// Whether the triangle touches or enters the cube.
pub fn intersect_cube_tri(cube: &Cube, tri: &TriN) -> (r: bool)
    requires
        cube.wf(),
        tri@.wf(),
    ensures
        r == hits(cube@, tri@),
        r == touches(cube@, tri.0@),
{
    let org = cube.0;
    let t = tri.0;
    let moved = Tri {
        a: V3 { x: t.a.x - org.x, y: t.a.y - org.y, z: t.a.z - org.z },
        b: V3 { x: t.b.x - org.x, y: t.b.y - org.y, z: t.b.z - org.z },
        c: V3 { x: t.c.x - org.x, y: t.c.y - org.y, z: t.c.z - org.z },
    };
    proof {
        lemma_normal_bound(t@, LIMIT as int);
        assert(8 * ((LIMIT as int) * (LIMIT as int)) == NORMAL_LIMIT) by (nonlinear_arith)
            requires
                LIMIT == 0x100_0000_0000,
                NORMAL_LIMIT == 0x8_0000_0000_0000_0000_0000,
        ;
    }
    intersect_cube0_tri(cube.1, &TriN(moved, tri.1))
}

proof fn lemma_dot_minus(p: Vector, q: Vector, n: Vector)
    ensures
        p.minus(q).dot(n) == p.dot(n) - q.dot(n),
{
    lemma_mul_minus(p.x, q.x, n.x);
    lemma_mul_minus(p.y, q.y, n.y);
    lemma_mul_minus(p.z, q.z, n.z);
}

/// The normal is orthogonal to the edges, so every vertex has the same
/// projection onto it, wherever the frame's origin is.
pub proof fn lemma_vertices_project_alike(f: Facet, origin: Vector)
    ensures
        f.b.minus(origin).dot(f.normal()) == f.a.minus(origin).dot(f.normal()),
        f.c.minus(origin).dot(f.normal()) == f.a.minus(origin).dot(f.normal()),
{
    let u = f.b.minus(f.a);
    let v = f.c.minus(f.a);
    let n = f.normal();
    lemma_triple_product(u.x, u.y, u.z, v.x, v.y, v.z);
    assert(u.dot(n) == 0);
    assert(v.dot(n) == 0);
    lemma_dot_minus(f.b.minus(origin), f.a.minus(origin), n);
    lemma_dot_minus(f.c.minus(origin), f.a.minus(origin), n);
    assert(f.b.minus(origin).minus(f.a.minus(origin)) == u);
    assert(f.c.minus(origin).minus(f.a.minus(origin)) == v);
}

proof fn lemma_normal_rotated(a: Vector, b: Vector, c: Vector)
    ensures
        (Facet { a: b, b: c, c: a }).normal() == (Facet { a, b, c }).normal(),
{
    lemma_cross_component(a.y, a.z, b.y, b.z, c.y, c.z);
    lemma_cross_component(a.z, a.x, b.z, b.x, c.z, c.x);
    lemma_cross_component(a.x, a.y, b.x, b.y, c.x, c.y);
}

proof fn lemma_normal_swapped(a: Vector, b: Vector, c: Vector)
    ensures
        (Facet { a: b, b: a, c }).normal() == (Facet { a, b, c }).normal().times(-1),
{
    lemma_cross_component(a.y, a.z, b.y, b.z, c.y, c.z);
    lemma_cross_component(a.z, a.x, b.z, b.x, c.z, c.x);
    lemma_cross_component(a.x, a.y, b.x, b.y, c.x, c.y);
}

proof fn lemma_box_negated(s: int, n: Vector)
    ensures
        box_low(s, n.times(-1)) == -box_high(s, n),
        box_high(s, n.times(-1)) == -box_low(s, n),
{
    lemma_mul_minus(s, 0, n.x);
    lemma_mul_minus(s, 0, n.y);
    lemma_mul_minus(s, 0, n.z);
}

proof fn lemma_dot_negated(p: Vector, n: Vector)
    ensures
        p.dot(n.times(-1)) == -p.dot(n),
{
    lemma_mul_minus(p.x, 0, n.x);
    lemma_mul_minus(p.y, 0, n.y);
    lemma_mul_minus(p.z, 0, n.z);
}

/// The test does not depend on which vertex comes first.
pub proof fn lemma_touches_rotated(cell: Cell, f: Facet)
    ensures
        touches(cell, Facet { a: f.b, b: f.c, c: f.a }) == touches(cell, f),
{
    lemma_normal_rotated(f.a, f.b, f.c);
    lemma_vertices_project_alike(f, cell.origin);
}

/// The test does not depend on the winding.
pub proof fn lemma_touches_swapped(cell: Cell, f: Facet)
    ensures
        touches(cell, Facet { a: f.b, b: f.a, c: f.c }) == touches(cell, f),
{
    let n = f.normal();
    lemma_normal_swapped(f.a, f.b, f.c);
    lemma_vertices_project_alike(f, cell.origin);
    lemma_box_negated(cell.edge, n);
    lemma_dot_negated(f.b.minus(cell.origin), n);
}

/// The test gives the same answer for every order of the three vertices.
pub proof fn lemma_touches_any_order(cell: Cell, a: Vector, b: Vector, c: Vector)
    ensures
        touches(cell, Facet { a: b, b: c, c: a }) == touches(cell, Facet { a, b, c }),
        touches(cell, Facet { a: c, b: a, c: b }) == touches(cell, Facet { a, b, c }),
        touches(cell, Facet { a: b, b: a, c }) == touches(cell, Facet { a, b, c }),
        touches(cell, Facet { a, b: c, c: b }) == touches(cell, Facet { a, b, c }),
        touches(cell, Facet { a: c, b, c: a }) == touches(cell, Facet { a, b, c }),
{
    let f = Facet { a, b, c };
    lemma_touches_rotated(cell, f);
    lemma_touches_rotated(cell, Facet { a: b, b: c, c: a });
    lemma_touches_swapped(cell, f);
    lemma_touches_swapped(cell, Facet { a: b, b: c, c: a });
    lemma_touches_swapped(cell, Facet { a: c, b: a, c: b });
}

/// The triangle lies strictly beyond the cell along one of the three axes.
pub open spec fn beyond(cell: Cell, f: Facet) -> bool {
    let o = cell.origin;
    let s = cell.edge;
    ||| max3(f.a.x, f.b.x, f.c.x) < o.x
    ||| min3(f.a.x, f.b.x, f.c.x) > o.x + s
    ||| max3(f.a.y, f.b.y, f.c.y) < o.y
    ||| min3(f.a.y, f.b.y, f.c.y) > o.y + s
    ||| max3(f.a.z, f.b.z, f.c.z) < o.z
    ||| min3(f.a.z, f.b.z, f.c.z) > o.z + s
}

/// A triangle strictly beyond the cell along an axis is never reported,
/// whatever normal is cached with it.
pub proof fn lemma_beyond_misses(cell: Cell, t: FacetN)
    requires
        beyond(cell, t.facet),
    ensures
        !hits(cell, t),
        !touches(cell, t.facet),
{
}

/// The sum of the vertices of a triangle, each taken as often as its weight.
pub open spec fn weighted(f: Facet, wa: int, wb: int, wc: int) -> Vector {
    f.a.times(wa).plus(f.b.times(wb)).plus(f.c.times(wc))
}

/// The point of the triangle with the barycentric weights `wa`, `wb`, `wc`
/// lies in the closed cell. The weights are whole numbers, so both sides
/// are multiplied by their sum.
pub open spec fn shares_point(cell: Cell, f: Facet, wa: int, wb: int, wc: int) -> bool {
    let w = wa + wb + wc;
    let q = weighted(f, wa, wb, wc);
    let o = cell.origin;
    &&& wa >= 0 && wb >= 0 && wc >= 0 && w > 0
    &&& w * o.x <= q.x <= w * (o.x + cell.edge)
    &&& w * o.y <= q.y <= w * (o.y + cell.edge)
    &&& w * o.z <= q.z <= w * (o.z + cell.edge)
}

proof fn lemma_weighted_between(wa: int, wb: int, wc: int, a: int, b: int, c: int)
    requires
        wa >= 0,
        wb >= 0,
        wc >= 0,
    ensures
        (wa + wb + wc) * min3(a, b, c) <= wa * a + wb * b + wc * c,
        wa * a + wb * b + wc * c <= (wa + wb + wc) * max3(a, b, c),
{
    let lo = min3(a, b, c);
    let hi = max3(a, b, c);
    lemma_weight_floor(wa, a, lo);
    lemma_weight_floor(wb, b, lo);
    lemma_weight_floor(wc, c, lo);
    lemma_weight_floor(wa, hi, a);
    lemma_weight_floor(wb, hi, b);
    lemma_weight_floor(wc, hi, c);
    lemma_sum_of_three(lo, wa, wb, wc);
    lemma_sum_of_three(hi, wa, wb, wc);
}

proof fn lemma_axis_shared(w: int, o: int, s: int, q: int, a: int, b: int, c: int, wa: int, wb: int, wc: int)
    requires
        wa >= 0,
        wb >= 0,
        wc >= 0,
        w == wa + wb + wc,
        w > 0,
        q == wa * a + wb * b + wc * c,
        w * o <= q <= w * (o + s),
    ensures
        overlaps(0, s, min3(a - o, b - o, c - o), max3(a - o, b - o, c - o)),
        0 <= q - w * o <= w * s,
        q - w * o == wa * (a - o) + wb * (b - o) + wc * (c - o),
{
    lemma_weighted_between(wa, wb, wc, a, b, c);
    lemma_sum_of_three(w, o, s, 0);
    assert(w * 0 == 0) by (nonlinear_arith);
    lemma_cancel(w, min3(a, b, c), o + s);
    lemma_cancel(w, o, max3(a, b, c));
    lemma_cancel(w, o, o + s);
    lemma_mul_minus(a, o, wa);
    lemma_mul_minus(b, o, wb);
    lemma_mul_minus(c, o, wc);
    lemma_sum_of_three(o, wa, wb, wc);
    assert(wa * (a - o) == (a - o) * wa && wb * (b - o) == (b - o) * wb && wc * (c - o) == (c - o)
        * wc) by (nonlinear_arith);
    assert(wa * a == a * wa && wb * b == b * wb && wc * c == c * wc && w * o == o * w)
        by (nonlinear_arith);
}

proof fn lemma_term_between(w: int, s: int, q: int, n: int)
    requires
        w > 0,
        0 <= q <= w * s,
    ensures
        w * min2(0, s * n) <= q * n <= w * max2(0, s * n),
{
    lemma_scaled_term(w * s, q, n);
    lemma_mul_assoc(w, s, n);
    assert(w * 0 == 0) by (nonlinear_arith);
    lemma_cancel_sign(w, s * n);
}

proof fn lemma_weighted_term(wa: int, wb: int, wc: int, a: int, b: int, c: int, n: int)
    ensures
        (wa * a + wb * b + wc * c) * n == wa * (a * n) + wb * (b * n) + wc * (c * n),
{
    lemma_sum_of_three(n, wa * a, wb * b, wc * c);
    lemma_mul_assoc(wa, a, n);
    lemma_mul_assoc(wb, b, n);
    lemma_mul_assoc(wc, c, n);
}

proof fn lemma_weights_project(wa: int, wb: int, wc: int, a: Vector, b: Vector, c: Vector, n: Vector)
    requires
        b.dot(n) == a.dot(n),
        c.dot(n) == a.dot(n),
    ensures
        (wa * a.x + wb * b.x + wc * c.x) * n.x + (wa * a.y + wb * b.y + wc * c.y) * n.y + (wa * a.z
            + wb * b.z + wc * c.z) * n.z == (wa + wb + wc) * a.dot(n),
{
    lemma_weighted_term(wa, wb, wc, a.x, b.x, c.x, n.x);
    lemma_weighted_term(wa, wb, wc, a.y, b.y, c.y, n.y);
    lemma_weighted_term(wa, wb, wc, a.z, b.z, c.z, n.z);
    lemma_sum_of_three(wa, a.x * n.x, a.y * n.y, a.z * n.z);
    lemma_sum_of_three(wb, b.x * n.x, b.y * n.y, b.z * n.z);
    lemma_sum_of_three(wc, c.x * n.x, c.y * n.y, c.z * n.z);
    lemma_sum_of_three(a.dot(n), wa, wb, wc);
    assert(wa * a.dot(n) == a.dot(n) * wa && wb * a.dot(n) == a.dot(n) * wb && wc * a.dot(n)
        == a.dot(n) * wc) by (nonlinear_arith);
    assert((wa + wb + wc) * a.dot(n) == a.dot(n) * (wa + wb + wc)) by (nonlinear_arith);
}

/// Where a point of the triangle lies in the closed cell, on its boundary
/// or inside, the triangle is reported. A vertex of the triangle is the
/// point with the weights 1, 0, 0.
pub proof fn lemma_shared_point_touches(cell: Cell, f: Facet, wa: int, wb: int, wc: int)
    requires
        shares_point(cell, f, wa, wb, wc),
    ensures
        touches(cell, f),
{
    let w = wa + wb + wc;
    let o = cell.origin;
    let s = cell.edge;
    let q = weighted(f, wa, wb, wc);
    let n = f.normal();
    let a = f.a.minus(o);
    let b = f.b.minus(o);
    let c = f.c.minus(o);
    lemma_axis_shared(w, o.x, s, q.x, f.a.x, f.b.x, f.c.x, wa, wb, wc);
    lemma_axis_shared(w, o.y, s, q.y, f.a.y, f.b.y, f.c.y, wa, wb, wc);
    lemma_axis_shared(w, o.z, s, q.z, f.a.z, f.b.z, f.c.z, wa, wb, wc);
    let px = q.x - w * o.x;
    let py = q.y - w * o.y;
    let pz = q.z - w * o.z;
    lemma_term_between(w, s, px, n.x);
    lemma_term_between(w, s, py, n.y);
    lemma_term_between(w, s, pz, n.z);
    lemma_vertices_project_alike(f, o);
    lemma_weights_project(wa, wb, wc, a, b, c, n);
    assert(px * n.x + py * n.y + pz * n.z == w * a.dot(n));
    lemma_sum_of_three(w, min2(0, s * n.x), min2(0, s * n.y), min2(0, s * n.z));
    lemma_sum_of_three(w, max2(0, s * n.x), max2(0, s * n.y), max2(0, s * n.z));
    lemma_cancel(w, box_low(s, n), a.dot(n));
    lemma_cancel(w, a.dot(n), box_high(s, n));
}

/// A triangle with a vertex in the closed cell, be it on a face of the
/// cell, is reported.
pub proof fn lemma_vertex_inside_touches(cell: Cell, f: Facet)
    requires
        cell.contains(f.a) || cell.contains(f.b) || cell.contains(f.c),
    ensures
        touches(cell, f),
{
    if cell.contains(f.a) {
        lemma_shared_point_touches(cell, f, 1, 0, 0);
    } else if cell.contains(f.b) {
        lemma_shared_point_touches(cell, f, 0, 1, 0);
    } else {
        lemma_shared_point_touches(cell, f, 0, 0, 1);
    }
}

proof fn lemma_scaled_axis(k: int, s: int, a: int, b: int, c: int)
    requires
        k > 0,
    ensures
        overlaps(0, k * s, min3(k * a, k * b, k * c), max3(k * a, k * b, k * c)) == overlaps(
            0,
            s,
            min3(a, b, c),
            max3(a, b, c),
        ),
{
    let lo = min3(a, b, c);
    let hi = max3(a, b, c);
    lemma_scaled_extremes(k, a, b, c);
    lemma_scaled_order(k, 0, s);
    lemma_scaled_order(k, 0, hi);
    lemma_scaled_order(k, lo, s);
    lemma_scaled_order(k, lo, hi);
    assert(k * 0 == 0) by (nonlinear_arith);
}

proof fn lemma_scaled_cross(k: int, p: int, q: int, r: int, t: int)
    ensures
        (k * p) * (k * q) - (k * r) * (k * t) == (k * k) * (p * q - r * t),
{
    lemma_scaled_product(k, p, q);
    lemma_scaled_product(k, r, t);
    lemma_mul_minus(p * q, r * t, k * k);
    assert((k * k) * (p * q - r * t) == (p * q - r * t) * (k * k)) by (nonlinear_arith);
    assert((k * k) * (p * q) == (p * q) * (k * k)) by (nonlinear_arith);
    assert((k * k) * (r * t) == (r * t) * (k * k)) by (nonlinear_arith);
}

proof fn lemma_scaled_minus(k: int, a: Vector, o: Vector)
    ensures
        a.times(k).minus(o.times(k)) == a.minus(o).times(k),
{
    lemma_scaled_difference(k, a.x, o.x);
    lemma_scaled_difference(k, a.y, o.y);
    lemma_scaled_difference(k, a.z, o.z);
}

/// The normal of a triangle `k` times as large is `k` times `k` as long.
pub proof fn lemma_normal_magnified(f: Facet, k: int)
    ensures
        f.times(k).normal() == f.normal().times(k * k),
        f.times(k).with_normal() == f.with_normal().times(k),
{
    let u = f.b.minus(f.a);
    let v = f.c.minus(f.a);
    lemma_scaled_minus(k, f.b, f.a);
    lemma_scaled_minus(k, f.c, f.a);
    lemma_scaled_cross(k, u.y, v.z, u.z, v.y);
    lemma_scaled_cross(k, u.z, v.x, u.x, v.z);
    lemma_scaled_cross(k, u.x, v.y, u.y, v.x);
}

/// The test does not depend on the unit of the grid: on a grid `k` times
/// as fine it reports the same triangles for the same cells.
pub proof fn lemma_hits_magnified(cell: Cell, t: FacetN, k: int)
    requires
        k > 0,
    ensures
        hits(cell.times(k), t.times(k)) == hits(cell, t),
{
    let o = cell.origin;
    let s = cell.edge;
    let n = t.normal;
    let a = t.facet.a.minus(o);
    let b = t.facet.b.minus(o);
    let c = t.facet.c.minus(o);
    let kkk = k * k * k;
    lemma_scaled_minus(k, t.facet.a, o);
    lemma_scaled_minus(k, t.facet.b, o);
    lemma_scaled_minus(k, t.facet.c, o);
    lemma_scaled_axis(k, s, a.x, b.x, c.x);
    lemma_scaled_axis(k, s, a.y, b.y, c.y);
    lemma_scaled_axis(k, s, a.z, b.z, c.z);
    lemma_cube_of(k, s, n.x);
    lemma_cube_of(k, s, n.y);
    lemma_cube_of(k, s, n.z);
    lemma_cube_of(k, a.x, n.x);
    lemma_cube_of(k, a.y, n.y);
    lemma_cube_of(k, a.z, n.z);
    lemma_scaled_extremes(kkk, s * n.x, s * n.y, s * n.z);
    lemma_scaled_extremes(kkk, s * n.y, 0, 0);
    lemma_scaled_extremes(kkk, s * n.z, 0, 0);
    lemma_sum_of_three(kkk, min2(0, s * n.x), min2(0, s * n.y), min2(0, s * n.z));
    lemma_sum_of_three(kkk, max2(0, s * n.x), max2(0, s * n.y), max2(0, s * n.z));
    lemma_sum_of_three(kkk, a.x * n.x, a.y * n.y, a.z * n.z);
    assert(box_low(k * s, n.times(k * k)) == kkk * box_low(s, n));
    assert(box_high(k * s, n.times(k * k)) == kkk * box_high(s, n));
    assert(a.times(k).dot(n.times(k * k)) == kkk * a.dot(n));
    lemma_scaled_order(kkk, box_low(s, n), a.dot(n));
    lemma_scaled_order(kkk, a.dot(n), box_high(s, n));
}

/// The test on a bare triangle does not depend on the unit of the grid.
pub proof fn lemma_touches_magnified(cell: Cell, f: Facet, k: int)
    requires
        k > 0,
    ensures
        touches(cell.times(k), f.times(k)) == touches(cell, f),
{
    lemma_normal_magnified(f, k);
    lemma_hits_magnified(cell, f.with_normal(), k);
}

} // verus!
