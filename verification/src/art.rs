//! From a surface to its lattice: the bounding cube, the octree of the
//! surface in it, and the lattice of that octree.

use vstd::prelude::*;
use crate::geometry::{facets, max, max2, max3, max_v3, min2, min3, min_v3, models};
use crate::geometry::{Cell, Cube, Facet, FacetN, Tri, TriN, Vector, V3, LIMIT};
use crate::arith::{lemma_mul_bound, lemma_scaled_difference, lemma_scaled_extremes};
use crate::intersect::{lemma_normal_magnified, with_normal};
use crate::lattice::{gen_printable, lattice, Config};
use crate::octree::{divide, divide_spec, halvable, lemma_divide_height, lemma_halvable_fewer};
use crate::octree::{all_wf, full_nodes, lemma_divide_magnified, lemma_nodes_bounded};
use crate::octree::{magnified, Octree};

verus! {

/// Largest magnitude of a coordinate of a surface.
pub const MESH_LIMIT: i64 = 0x4000_0000;

/// Largest number of levels that a surface can be subdivided to. The
/// fabrication cube sets a limit of its own: its edge, in nanometres, has
/// to halve exactly down to the deepest level. The standard cube of
/// 50 000 000 nm halves seven times, so with [`Config::standard`] at most
/// seven levels are admitted.
pub const MAX_DEPTH: u32 = 8;

/// The number of levels of the standard pipeline.
pub const DEPTH: u32 = 5;

/// The componentwise minimum of two points.
pub open spec fn lower(a: Vector, b: Vector) -> Vector {
    Vector { x: min2(a.x, b.x), y: min2(a.y, b.y), z: min2(a.z, b.z) }
}

/// The componentwise maximum of two points.
pub open spec fn upper(a: Vector, b: Vector) -> Vector {
    Vector { x: max2(a.x, b.x), y: max2(a.y, b.y), z: max2(a.z, b.z) }
}

/// The componentwise minimum of all vertices of a non-empty surface.
pub open spec fn low_corner(fs: Seq<Facet>) -> Vector
    decreases fs.len(),
{
    if fs.len() == 0 {
        Vector { x: 0, y: 0, z: 0 }
    } else {
        let f = fs.last();
        let own = lower(f.a, lower(f.b, f.c));
        if fs.len() == 1 {
            own
        } else {
            lower(low_corner(fs.drop_last()), own)
        }
    }
}

/// The componentwise maximum of all vertices of a non-empty surface.
pub open spec fn high_corner(fs: Seq<Facet>) -> Vector
    decreases fs.len(),
{
    if fs.len() == 0 {
        Vector { x: 0, y: 0, z: 0 }
    } else {
        let f = fs.last();
        let own = upper(f.a, upper(f.b, f.c));
        if fs.len() == 1 {
            own
        } else {
            upper(high_corner(fs.drop_last()), own)
        }
    }
}

/// Every vertex of the surface lies in the box `[lo, hi]`.
pub open spec fn encloses(lo: Vector, hi: Vector, fs: Seq<Facet>) -> bool {
    forall|i: int|
        0 <= i < fs.len() ==> {
            let f = #[trigger] fs[i];
            &&& lo.x <= f.a.x <= hi.x && lo.y <= f.a.y <= hi.y && lo.z <= f.a.z <= hi.z
            &&& lo.x <= f.b.x <= hi.x && lo.y <= f.b.y <= hi.y && lo.z <= f.b.z <= hi.z
            &&& lo.x <= f.c.x <= hi.x && lo.y <= f.c.y <= hi.y && lo.z <= f.c.z <= hi.z
        }
}

/// Some vertex of the surface has `v` as its X coordinate.
pub open spec fn attained_x(v: int, fs: Seq<Facet>) -> bool {
    exists|i: int|
        0 <= i < fs.len() && ((#[trigger] fs[i]).a.x == v || fs[i].b.x == v || fs[i].c.x == v)
}

/// Some vertex of the surface has `v` as its Y coordinate.
pub open spec fn attained_y(v: int, fs: Seq<Facet>) -> bool {
    exists|i: int|
        0 <= i < fs.len() && ((#[trigger] fs[i]).a.y == v || fs[i].b.y == v || fs[i].c.y == v)
}

/// Some vertex of the surface has `v` as its Z coordinate.
pub open spec fn attained_z(v: int, fs: Seq<Facet>) -> bool {
    exists|i: int|
        0 <= i < fs.len() && ((#[trigger] fs[i]).a.z == v || fs[i].b.z == v || fs[i].c.z == v)
}

/// `[lo, hi]` is the smallest box around the surface: it holds every
/// vertex, and on each axis both of its ends are coordinates of vertices.
pub open spec fn tight(lo: Vector, hi: Vector, fs: Seq<Facet>) -> bool {
    &&& encloses(lo, hi, fs)
    &&& attained_x(lo.x, fs) && attained_x(hi.x, fs)
    &&& attained_y(lo.y, fs) && attained_y(hi.y, fs)
    &&& attained_z(lo.z, fs) && attained_z(hi.z, fs)
}

/// The two corners are those of the smallest box around the surface.
pub proof fn lemma_corners_tight(fs: Seq<Facet>)
    requires
        fs.len() > 0,
    ensures
        tight(low_corner(fs), high_corner(fs), fs),
    decreases fs.len(),
{
    let last = fs.len() - 1;
    if fs.len() > 1 {
        let pre = fs.drop_last();
        lemma_corners_tight(pre);
        let lo = low_corner(pre);
        let hi = high_corner(pre);
        assert forall|i: int| 0 <= i < last implies fs[i] == pre[i] by {}
        let ix = choose|i: int| 0 <= i < pre.len() && ((#[trigger] pre[i]).a.x == lo.x || pre[i].b.x == lo.x || pre[i].c.x == lo.x);
        let iy = choose|i: int| 0 <= i < pre.len() && ((#[trigger] pre[i]).a.y == lo.y || pre[i].b.y == lo.y || pre[i].c.y == lo.y);
        let iz = choose|i: int| 0 <= i < pre.len() && ((#[trigger] pre[i]).a.z == lo.z || pre[i].b.z == lo.z || pre[i].c.z == lo.z);
        let jx = choose|i: int| 0 <= i < pre.len() && ((#[trigger] pre[i]).a.x == hi.x || pre[i].b.x == hi.x || pre[i].c.x == hi.x);
        let jy = choose|i: int| 0 <= i < pre.len() && ((#[trigger] pre[i]).a.y == hi.y || pre[i].b.y == hi.y || pre[i].c.y == hi.y);
        let jz = choose|i: int| 0 <= i < pre.len() && ((#[trigger] pre[i]).a.z == hi.z || pre[i].b.z == hi.z || pre[i].c.z == hi.z);
        assert(fs[ix] == pre[ix] && fs[iy] == pre[iy] && fs[iz] == pre[iz]);
        assert(fs[jx] == pre[jx] && fs[jy] == pre[jy] && fs[jz] == pre[jz]);
        assert(fs[last] == fs.last());
    } else {
        assert(fs[last] == fs.last());
    }
}

/// The corners of the smallest axis-aligned box around a surface.
pub fn aabb_for_mesh(mesh: &Vec<Tri>) -> (r: (V3, V3))
    requires
        mesh.len() > 0,
    ensures
        r.0@ == low_corner(facets(mesh@)),
        r.1@ == high_corner(facets(mesh@)),
        tight(r.0@, r.1@, facets(mesh@)),
{
    let first = mesh[0];
    let mut pmin = min_v3(first.a, min_v3(first.b, first.c));
    let mut pmax = max_v3(first.a, max_v3(first.b, first.c));
    let mut i: usize = 1;
    proof {
        assert(facets(mesh@.take(1)).last() == first@);
    }
    while i < mesh.len()
        invariant
            1 <= i <= mesh.len(),
            pmin@ == low_corner(facets(mesh@.take(i as int))),
            pmax@ == high_corner(facets(mesh@.take(i as int))),
        decreases mesh.len() - i,
    {
        let tri = mesh[i];
        proof {
            let cur = facets(mesh@.take(i + 1));
            assert(cur.drop_last() =~= facets(mesh@.take(i as int)));
            assert(cur.last() == tri@);
        }
        pmin = min_v3(pmin, min_v3(tri.a, min_v3(tri.b, tri.c)));
        pmax = max_v3(pmax, max_v3(tri.a, max_v3(tri.b, tri.c)));
        i += 1;
    }
    proof {
        assert(mesh@.take(i as int) == mesh@);
        lemma_corners_tight(facets(mesh@));
    }
    (pmin, pmax)
}

/// The longest side of the smallest box around the surface.
pub open spec fn extent(fs: Seq<Facet>) -> int {
    let lo = low_corner(fs);
    let hi = high_corner(fs);
    max3(hi.x - lo.x, hi.y - lo.y, hi.z - lo.z)
}

/// Two to the power `depth`: the number of cells along an edge of the
/// bounding cube at the deepest level.
pub open spec fn scale_of(depth: nat) -> int
    decreases depth,
{
    if depth == 0 {
        1
    } else {
        2 * scale_of((depth - 1) as nat)
    }
}

/// The surface on a grid `k` times as fine, each triangle with its normal.
pub open spec fn refined(fs: Seq<Facet>, k: int) -> Seq<FacetN> {
    Seq::new(fs.len(), |i: int| fs[i].times(k).with_normal())
}

/// The bounding cube of the surface: its minimum corner is that of the
/// smallest box around the surface, and its edge is the longest side of
/// that box.
pub open spec fn bounding_cell(fs: Seq<Facet>) -> Cell {
    Cell { origin: low_corner(fs), edge: extent(fs) }
}

/// The octree of the surface in its bounding cube, `depth` levels deep.
/// The grid is refined by two to the power `depth`, so that every cell has
/// corners on the grid.
pub open spec fn surface_tree(fs: Seq<Facet>, depth: nat) -> Octree<bool> {
    let k = scale_of(depth);
    divide_spec(bounding_cell(fs).times(k), refined(fs, k), depth)
}

/// Every vertex of the surface is within `m`.
pub open spec fn surface_within(fs: Seq<Facet>, m: int) -> bool {
    forall|i: int| 0 <= i < fs.len() ==> (#[trigger] fs[i]).within(m)
}

/// Down to the largest depth the grid is refined by 256 at most.
pub proof fn lemma_scale_of(depth: nat)
    requires
        depth <= MAX_DEPTH,
    ensures
        1 <= scale_of(depth) <= 256,
{
    reveal_with_fuel(scale_of, 9);
}

/// An edge that is a multiple of two to the power `depth` can be halved
/// `depth` times.
pub proof fn lemma_scaled_halvable(e: int, depth: nat)
    ensures
        halvable(scale_of(depth) * e, depth),
    decreases depth,
{
    if depth > 0 {
        let d = (depth - 1) as nat;
        let half = scale_of(d) * e;
        lemma_scaled_halvable(e, d);
        assert(scale_of(depth) * e == 2 * half) by (nonlinear_arith)
            requires
                scale_of(depth) == 2 * scale_of(d),
                half == scale_of(d) * e,
        ;
        assert((2 * half) % 2 == 0 && (2 * half) / 2 == half);
    }
}

proof fn lemma_corners_within(fs: Seq<Facet>, m: int)
    requires
        fs.len() > 0,
        surface_within(fs, m),
    ensures
        low_corner(fs).within(m),
        high_corner(fs).within(m),
        low_corner(fs).x <= high_corner(fs).x,
        low_corner(fs).y <= high_corner(fs).y,
        low_corner(fs).z <= high_corner(fs).z,
{
    lemma_corners_tight(fs);
    let lo = low_corner(fs);
    let hi = high_corner(fs);
    let ix = choose|i: int| 0 <= i < fs.len() && ((#[trigger] fs[i]).a.x == lo.x || fs[i].b.x == lo.x || fs[i].c.x == lo.x);
    let iy = choose|i: int| 0 <= i < fs.len() && ((#[trigger] fs[i]).a.y == lo.y || fs[i].b.y == lo.y || fs[i].c.y == lo.y);
    let iz = choose|i: int| 0 <= i < fs.len() && ((#[trigger] fs[i]).a.z == lo.z || fs[i].b.z == lo.z || fs[i].c.z == lo.z);
    let jx = choose|i: int| 0 <= i < fs.len() && ((#[trigger] fs[i]).a.x == hi.x || fs[i].b.x == hi.x || fs[i].c.x == hi.x);
    let jy = choose|i: int| 0 <= i < fs.len() && ((#[trigger] fs[i]).a.y == hi.y || fs[i].b.y == hi.y || fs[i].c.y == hi.y);
    let jz = choose|i: int| 0 <= i < fs.len() && ((#[trigger] fs[i]).a.z == hi.z || fs[i].b.z == hi.z || fs[i].c.z == hi.z);
    assert(fs[ix].within(m) && fs[iy].within(m) && fs[iz].within(m));
    assert(fs[jx].within(m) && fs[jy].within(m) && fs[jz].within(m));
}

fn scale(depth: u32) -> (k: i64)
    requires
        depth <= MAX_DEPTH,
    ensures
        k == scale_of(depth as nat),
        1 <= k <= 256,
{
    let mut k: i64 = 1;
    let mut d: u32 = 0;
    while d < depth
        invariant
            d <= depth <= MAX_DEPTH,
            k == scale_of(d as nat),
            1 <= k <= 256,
        decreases depth - d,
    {
        proof {
            lemma_scale_of((d + 1) as nat);
        }
        k = 2 * k;
        d += 1;
    }
    k
}

fn magnify(p: V3, k: i64) -> (r: V3)
    requires
        p@.within(MESH_LIMIT as int),
        1 <= k <= 256,
    ensures
        r@ == p@.times(k as int),
        r@.within(256 * MESH_LIMIT),
{
    proof {
        lemma_mul_bound(k as int, p.x as int, 256, MESH_LIMIT as int);
        lemma_mul_bound(k as int, p.y as int, 256, MESH_LIMIT as int);
        lemma_mul_bound(k as int, p.z as int, 256, MESH_LIMIT as int);
    }
    V3 { x: k * p.x, y: k * p.y, z: k * p.z }
}

/// The surface on a grid `k` times as fine, each triangle with its normal.
fn refine(mesh: &Vec<Tri>, k: i64) -> (r: Vec<TriN>)
    requires
        surface_within(facets(mesh@), MESH_LIMIT as int),
        1 <= k <= 256,
    ensures
        models(r@) == refined(facets(mesh@), k as int),
        all_wf(models(r@)),
{
    let mut out: Vec<TriN> = Vec::new();
    let mut i: usize = 0;
    while i < mesh.len()
        invariant
            i <= mesh.len(),
            1 <= k <= 256,
            surface_within(facets(mesh@), MESH_LIMIT as int),
            out.len() == i,
            forall|j: int| 0 <= j < i ==> (#[trigger] out[j])@ == mesh[j]@.times(k as int).with_normal(),
            forall|j: int| 0 <= j < i ==> (#[trigger] out[j])@.wf(),
        decreases mesh.len() - i,
    {
        let tri = mesh[i];
        assert(facets(mesh@)[i as int].within(MESH_LIMIT as int));
        let big = Tri { a: magnify(tri.a, k), b: magnify(tri.b, k), c: magnify(tri.c, k) };
        out.push(with_normal(big));
        i += 1;
    }
    assert(models(out@) =~= refined(facets(mesh@), k as int));
    out
}

/// What the pipeline asks of a surface: a triangle at least, every
/// coordinate in range, and an extent along some axis.
pub open spec fn admitted_surface(fs: Seq<Facet>) -> bool {
    &&& fs.len() > 0
    &&& surface_within(fs, MESH_LIMIT as int)
    &&& extent(fs) > 0
}

/// What the pipeline asks of a surface, a depth and the parameters of the
/// lattice: a surface with a triangle, in range and with an extent; a depth
/// in range; parameters that are well formed, with a fabrication cube whose
/// edge can be halved down to the deepest level.
pub open spec fn admitted(fs: Seq<Facet>, depth: nat, cfg: Config) -> bool {
    &&& admitted_surface(fs)
    &&& depth <= MAX_DEPTH
    &&& cfg.wf()
    &&& halvable(cfg.edge as int, depth)
}

fn is_within(p: V3) -> (r: bool)
    ensures
        r == p@.within(MESH_LIMIT as int),
{
    -MESH_LIMIT <= p.x && p.x <= MESH_LIMIT && -MESH_LIMIT <= p.y && p.y <= MESH_LIMIT
        && -MESH_LIMIT <= p.z && p.z <= MESH_LIMIT
}

fn is_halvable(edge: i64, depth: u32) -> (r: bool)
    requires
        depth <= MAX_DEPTH,
    ensures
        r == halvable(edge as int, depth as nat),
{
    let mut e: i64 = edge;
    let mut d: u32 = depth;
    while d > 0
        invariant
            d <= depth,
            halvable(edge as int, depth as nat) == halvable(e as int, d as nat),
        decreases d,
    {
        if e % 2 != 0 {
            return false;
        }
        e = e / 2;
        d -= 1;
    }
    true
}

/// Whether the pipeline takes the surface, the depth and the parameters.
pub fn admits(mesh: &Vec<Tri>, depth: u32, cfg: &Config) -> (r: bool)
    ensures
        r == admitted(facets(mesh@), depth as nat, *cfg),
{
    if mesh.len() == 0 || depth > MAX_DEPTH {
        return false;
    }
    if !(0 < cfg.edge && cfg.edge <= LIMIT && 0 < cfg.max_width && cfg.max_width <= LIMIT
        && cfg.radius_den > 0 && cfg.thick_den > 0) {
        return false;
    }
    if !is_halvable(cfg.edge, depth) {
        return false;
    }
    let mut i: usize = 0;
    while i < mesh.len()
        invariant
            i <= mesh.len(),
            forall|j: int| 0 <= j < i ==> (#[trigger] facets(mesh@)[j]).within(MESH_LIMIT as int),
        decreases mesh.len() - i,
    {
        let tri = mesh[i];
        if !(is_within(tri.a) && is_within(tri.b) && is_within(tri.c)) {
            assert(!facets(mesh@)[i as int].within(MESH_LIMIT as int));
            return false;
        }
        i += 1;
    }
    let (pmin, pmax) = aabb_for_mesh(mesh);
    proof {
        lemma_corners_within(facets(mesh@), MESH_LIMIT as int);
    }
    max(pmax.x - pmin.x, pmax.y - pmin.y, pmax.z - pmin.z) > 0
}

/// The lattice of a surface: the octree of the surface in its bounding
/// cube, `depth` levels deep, laid out in the fabrication cube of `cfg`.
pub fn gen_octree_art_with(mesh: &Vec<Tri>, depth: u32, cfg: &Config) -> (r: Vec<Tri>)
    requires
        admitted(facets(mesh@), depth as nat, *cfg),
    ensures
        facets(r@) == lattice(cfg.cell(), surface_tree(facets(mesh@), depth as nat), *cfg),
        r.len() == 144 * surface_tree(facets(mesh@), depth as nat).nodes(),
        144 <= r.len() <= 144 * full_nodes(depth as nat),
{
    let ghost fs = facets(mesh@);
    let k = scale(depth);
    let mesh_n = refine(mesh, k);
    let (pmin, pmax) = aabb_for_mesh(mesh);
    proof {
        lemma_corners_within(fs, MESH_LIMIT as int);
    }
    let size = max(pmax.x - pmin.x, pmax.y - pmin.y, pmax.z - pmin.z);
    proof {
        lemma_mul_bound(k as int, size as int, 256, 2 * MESH_LIMIT);
        assert(k * size > 0) by (nonlinear_arith)
            requires
                k >= 1,
                size > 0,
        ;
        assert(k * pmin.x + k * size == k * (pmin.x + size)) by (nonlinear_arith);
        assert(k * pmin.y + k * size == k * (pmin.y + size)) by (nonlinear_arith);
        assert(k * pmin.z + k * size == k * (pmin.z + size)) by (nonlinear_arith);
        lemma_mul_bound(k as int, pmin.x + size, 256, 3 * MESH_LIMIT);
        lemma_mul_bound(k as int, pmin.y + size, 256, 3 * MESH_LIMIT);
        lemma_mul_bound(k as int, pmin.z + size, 256, 3 * MESH_LIMIT);
        lemma_scaled_halvable(size as int, depth as nat);
    }
    let cube = Cube(magnify(pmin, k), k * size);
    let tree = divide(cube, &mesh_n, depth);
    proof {
        assert(cube@ == bounding_cell(fs).times(k as int));
        lemma_divide_height(cube@, models(mesh_n@), depth as nat);
        lemma_halvable_fewer(cfg.edge as int, depth as nat, tree.height());
        lemma_nodes_bounded(tree, depth as nat);
    }
    gen_printable(&tree, cfg)
}

/// The lattice of a surface with the standard parameters: five levels, in
/// a fabrication cube of 5 cm.
pub fn gen_octree_art(mesh: Vec<Tri>) -> (r: Vec<Tri>)
    requires
        admitted_surface(facets(mesh@)),
    ensures
        facets(r@) == lattice(
            Config::standard_spec().cell(),
            surface_tree(facets(mesh@), DEPTH as nat),
            Config::standard_spec(),
        ),
        144 <= r.len() <= 144 * full_nodes(DEPTH as nat),
{
    let cfg = Config::standard();
    proof {
        reveal_with_fuel(halvable, 6);
    }
    gen_octree_art_with(&mesh, DEPTH, &cfg)
}

/// The surface with every coordinate multiplied by `m`.
pub open spec fn scaled_surface(fs: Seq<Facet>, m: int) -> Seq<Facet> {
    Seq::new(fs.len(), |i: int| fs[i].times(m))
}

proof fn lemma_times_twice(v: Vector, m: int, k: int)
    by (nonlinear_arith)
    ensures
        v.times(m).times(k) == v.times(k).times(m),
{
}

proof fn lemma_corners_scaled(fs: Seq<Facet>, m: int)
    requires
        m > 0,
        fs.len() > 0,
    ensures
        low_corner(scaled_surface(fs, m)) == low_corner(fs).times(m),
        high_corner(scaled_surface(fs, m)) == high_corner(fs).times(m),
    decreases fs.len(),
{
    let big = scaled_surface(fs, m);
    let f = fs.last();
    assert(big.last() == f.times(m));
    lemma_scaled_extremes(m, f.a.x, f.b.x, f.c.x);
    lemma_scaled_extremes(m, f.a.y, f.b.y, f.c.y);
    lemma_scaled_extremes(m, f.a.z, f.b.z, f.c.z);
    if fs.len() > 1 {
        let pre = fs.drop_last();
        assert(big.drop_last() =~= scaled_surface(pre, m));
        lemma_corners_scaled(pre, m);
        let lo = low_corner(pre);
        let hi = high_corner(pre);
        lemma_scaled_extremes(m, lo.x, min3(f.a.x, f.b.x, f.c.x), min3(f.a.x, f.b.x, f.c.x));
        lemma_scaled_extremes(m, lo.y, min3(f.a.y, f.b.y, f.c.y), min3(f.a.y, f.b.y, f.c.y));
        lemma_scaled_extremes(m, lo.z, min3(f.a.z, f.b.z, f.c.z), min3(f.a.z, f.b.z, f.c.z));
        lemma_scaled_extremes(m, hi.x, max3(f.a.x, f.b.x, f.c.x), max3(f.a.x, f.b.x, f.c.x));
        lemma_scaled_extremes(m, hi.y, max3(f.a.y, f.b.y, f.c.y), max3(f.a.y, f.b.y, f.c.y));
        lemma_scaled_extremes(m, hi.z, max3(f.a.z, f.b.z, f.c.z), max3(f.a.z, f.b.z, f.c.z));
    }
}

/// The octree of a surface does not depend on the unit of its grid: the
/// same surface on a grid `m` times as fine has the same tree.
pub proof fn lemma_surface_tree_unit(fs: Seq<Facet>, m: int, depth: nat)
    requires
        m > 0,
        fs.len() > 0,
    ensures
        surface_tree(scaled_surface(fs, m), depth) == surface_tree(fs, depth),
{
    let k = scale_of(depth);
    let big = scaled_surface(fs, m);
    let lo = low_corner(fs);
    let hi = high_corner(fs);
    let cell = bounding_cell(fs).times(k);
    lemma_corners_scaled(fs, m);
    lemma_scaled_difference(m, hi.x, lo.x);
    lemma_scaled_difference(m, hi.y, lo.y);
    lemma_scaled_difference(m, hi.z, lo.z);
    lemma_scaled_extremes(m, hi.x - lo.x, hi.y - lo.y, hi.z - lo.z);
    assert(extent(big) == m * extent(fs));
    lemma_times_twice(lo, m, k);
    assert(k * (m * extent(fs)) == m * (k * extent(fs))) by (nonlinear_arith);
    assert(bounding_cell(big).times(k) == cell.times(m));
    assert forall|i: int| 0 <= i < fs.len() implies #[trigger] refined(big, k)[i] == magnified(
        refined(fs, k),
        m,
    )[i] by {
        let f = fs[i];
        lemma_times_twice(f.a, m, k);
        lemma_times_twice(f.b, m, k);
        lemma_times_twice(f.c, m, k);
        lemma_normal_magnified(f.times(k), m);
    }
    assert(refined(big, k) =~= magnified(refined(fs, k), m));
    lemma_scaled_halvable(extent(fs), depth);
    lemma_divide_magnified(cell, refined(fs, k), m, depth);
}

} // verus!
