//! The lattice generator: at every node of an octree, three rotated sets
//! of four columns along the edges of the node's cube.

use vstd::prelude::*;
use crate::geometry::{facets, fits, min2, Cell, Cube, Facet, Tri, Vector, V3, LIMIT};
use crate::arith::lemma_mul_bound;
use crate::octree::{divide_cube, full_nodes, halvable, lemma_halvable_children};
use crate::octree::{lemma_nodes_bounded, octant, Octants, Octree};

verus! {

/// The parameters of a lattice. Lengths are in nanometres.
#[derive(Clone, Copy, Debug, PartialEq, Eq, Structural)]
pub struct Config {
    /// Edge of the fabrication cube, whose minimum corner is the origin.
    pub edge: i64,
    /// Width of a column as a fraction of its cube's edge: the numerator.
    pub radius_num: u32,
    /// Width of a column as a fraction of its cube's edge: the denominator.
    pub radius_den: u32,
    /// Multiplier of the width on an occupied leaf: the numerator.
    pub thick_num: u32,
    /// Multiplier of the width on an occupied leaf: the denominator.
    pub thick_den: u32,
    /// Largest width of a column.
    pub max_width: i64,
}

impl Config {
    /// The lengths are positive and in range, and so are the denominators.
    pub open spec fn wf(self) -> bool {
        &&& 0 < self.edge <= LIMIT
        &&& 0 < self.max_width <= LIMIT
        &&& 0 < self.radius_den
        &&& 0 < self.thick_den
    }

    /// The cube that the root of the tree is laid out in.
    pub open spec fn cell(self) -> Cell {
        Cell { origin: Vector { x: 0, y: 0, z: 0 }, edge: self.edge as int }
    }

    /// The side of the square cross-section of the columns of a cube:
    /// the fraction of the edge, rounded down, capped at the largest width.
    pub open spec fn width(self, edge: int, occupied: bool) -> int {
        if occupied {
            min2(
                (edge * self.radius_num * self.thick_num) / (self.radius_den * self.thick_den),
                self.max_width as int,
            )
        } else {
            min2((edge * self.radius_num) / (self.radius_den as int), self.max_width as int)
        }
    }

    /// A fabrication cube of 5 cm, columns a fifth of their cube's edge
    /// wide, half as wide again on occupied leaves, and at most 5 mm.
    /// The edge of 50 000 000 nm halves exactly seven times: these
    /// parameters take a tree of at most seven levels.
    pub open spec fn standard_spec() -> Config {
        Config {
            edge: 50_000_000,
            radius_num: 1,
            radius_den: 5,
            thick_num: 3,
            thick_den: 2,
            max_width: 5_000_000,
        }
    }

    /// The standard parameters. Their fabrication cube takes a tree of at
    /// most seven levels.
    #[verifier::when_used_as_spec(standard_spec)]
    pub fn standard() -> (r: Config)
        ensures
            r == Config::standard_spec(),
            r.wf(),
            halvable(r.edge as int, 7),
            !halvable(r.edge as int, 8),
    {
        proof {
            reveal_with_fuel(halvable, 9);
        }
        Config {
            edge: 50_000_000,
            radius_num: 1,
            radius_den: 5,
            thick_num: 3,
            thick_den: 2,
            max_width: 5_000_000,
        }
    }

    /// The side of the square cross-section of the columns of a cube.
    pub fn column_width(&self, edge: i64, occupied: bool) -> (w: i64)
        requires
            self.wf(),
            0 <= edge <= LIMIT,
        ensures
            w == self.width(edge as int, occupied),
            0 <= w <= self.max_width,
    {
        let mut num: i128 = self.radius_num as i128;
        let mut den: i128 = self.radius_den as i128;
        if occupied {
            proof {
                lemma_mul_bound(
                    self.radius_num as int,
                    self.thick_num as int,
                    0x1_0000_0000,
                    0x1_0000_0000,
                );
                lemma_mul_bound(
                    self.radius_den as int,
                    self.thick_den as int,
                    0x1_0000_0000,
                    0x1_0000_0000,
                );
                assert(self.radius_den * self.thick_den > 0) by (nonlinear_arith)
                    requires
                        self.radius_den > 0,
                        self.thick_den > 0,
                ;
                assert(self.radius_num * self.thick_num >= 0) by (nonlinear_arith);
            }
            num = num * (self.thick_num as i128);
            den = den * (self.thick_den as i128);
        }
        proof {
            lemma_mul_bound(edge as int, num as int, LIMIT as int, 0x1_0000_0000_0000_0000);
            assert(edge * num >= 0) by (nonlinear_arith)
                requires
                    edge >= 0,
                    num >= 0,
            ;
            assert(edge * self.radius_num * self.thick_num == edge * (self.radius_num
                * self.thick_num)) by (nonlinear_arith);
            assert((edge * num) / (den as int) >= 0) by (nonlinear_arith)
                requires
                    edge * num >= 0,
                    den > 0,
            ;
        }
        let raw: i128 = (edge as i128 * num) / den;
        if raw <= self.max_width as i128 {
            raw as i64
        } else {
            self.max_width
        }
    }
}

/// The two triangles of the parallelogram at `p` spanned by `u` and `v`,
/// wound so that their normals point along `u` cross `v`.
pub open spec fn quad(p: Vector, u: Vector, v: Vector) -> Seq<Facet> {
    seq![
        Facet { a: p, b: p.plus(u), c: p.plus(v) },
        Facet { a: p.plus(u).plus(v), b: p.plus(v), c: p.plus(u) },
    ]
}

/// The step of length `len` along the X axis.
pub open spec fn along_x(len: int) -> Vector {
    Vector { x: len, y: 0, z: 0 }
}

/// The step of length `len` along the Y axis.
pub open spec fn along_y(len: int) -> Vector {
    Vector { x: 0, y: len, z: 0 }
}

/// The step of length `len` along the Z axis.
pub open spec fn along_z(len: int) -> Vector {
    Vector { x: 0, y: 0, z: len }
}

/// The twelve triangles of the box `[org, org + sz]`, two to a face: the
/// faces across Z, then across X, then across Y, the lower before the
/// upper, each wound so that its normal points out of the box.
pub open spec fn box_facets(org: Vector, sz: Vector) -> Seq<Facet> {
    quad(org, along_y(sz.y), along_x(sz.x))
        + quad(org.plus(along_z(sz.z)), along_x(sz.x), along_y(sz.y))
        + quad(org, along_z(sz.z), along_y(sz.y))
        + quad(org.plus(along_x(sz.x)), along_y(sz.y), along_z(sz.z))
        + quad(org, along_x(sz.x), along_z(sz.z))
        + quad(org.plus(along_y(sz.y)), along_z(sz.z), along_x(sz.x))
}

/// `v` turned by `k` thirds of a turn about the diagonal `(1, 1, 1)`:
/// each third of a turn moves the X axis to Y, Y to Z and Z to X.
pub open spec fn rot(k: int, v: Vector) -> Vector {
    if k == 0 {
        v
    } else if k == 1 {
        Vector { x: v.z, y: v.x, z: v.y }
    } else {
        Vector { x: v.y, y: v.z, z: v.x }
    }
}

/// One set of four columns of width `w` in a cell, turned by `k` thirds of
/// a turn: at the cell's corner, one edge along each of the two turned
/// axes of the base plane, and one edge along both.
pub open spec fn ring(cell: Cell, w: int, k: int) -> Seq<Facet> {
    let s = cell.edge;
    let size = rot(k, Vector { x: w, y: w, z: s });
    box_facets(cell.origin, size)
        + box_facets(cell.origin.plus(rot(k, Vector { x: s, y: 0, z: 0 })), size)
        + box_facets(cell.origin.plus(rot(k, Vector { x: 0, y: s, z: 0 })), size)
        + box_facets(cell.origin.plus(rot(k, Vector { x: s, y: s, z: 0 })), size)
}

/// The columns of one node: the set of four, turned by 0, 1 and 2 thirds
/// of a turn.
#[verifier::opaque]
pub open spec fn struts(cell: Cell, w: int) -> Seq<Facet> {
    ring(cell, w, 0) + ring(cell, w, 1) + ring(cell, w, 2)
}

/// The lattice of a tree laid out in a cell: the lattices of the eight
/// children of a branch in their octants, by index, then the columns of
/// the node itself. Only an occupied leaf has the wider columns.
pub open spec fn lattice(cell: Cell, tree: Octree<bool>, cfg: Config) -> Seq<Facet>
    decreases tree,
{
    match tree {
        Octree::Leaf(fill) => struts(cell, cfg.width(cell.edge, fill)),
        Octree::Br(c) => lattice(octant(cell, 0), c.c0, cfg)
            + lattice(octant(cell, 1), c.c1, cfg)
            + lattice(octant(cell, 2), c.c2, cfg)
            + lattice(octant(cell, 3), c.c3, cfg)
            + lattice(octant(cell, 4), c.c4, cfg)
            + lattice(octant(cell, 5), c.c5, cfg)
            + lattice(octant(cell, 6), c.c6, cfg)
            + lattice(octant(cell, 7), c.c7, cfg)
            + struts(cell, cfg.width(cell.edge, false)),
    }
}

proof fn lemma_facets_push(mesh: Seq<Tri>, t: Tri)
    ensures
        facets(mesh.push(t)) == facets(mesh).push(t@),
{
    assert(facets(mesh.push(t)) =~= facets(mesh).push(t@));
}

fn emit_quad(p: V3, u: V3, v: V3, accum: &mut Vec<Tri>)
    requires
        fits(p@.plus(u@)),
        fits(p@.plus(v@)),
        fits(p@.plus(u@).plus(v@)),
    ensures
        facets(final(accum)@) == facets(old(accum)@) + quad(p@, u@, v@),
{
    let pu = V3 { x: p.x + u.x, y: p.y + u.y, z: p.z + u.z };
    let pv = V3 { x: p.x + v.x, y: p.y + v.y, z: p.z + v.z };
    let puv = V3 { x: pu.x + v.x, y: pu.y + v.y, z: pu.z + v.z };
    let first = Tri { a: p, b: pu, c: pv };
    let second = Tri { a: puv, b: pv, c: pu };
    proof {
        lemma_facets_push(accum@, first);
        lemma_facets_push(accum@.push(first), second);
    }
    accum.push(first);
    accum.push(second);
    assert(facets(accum@) =~= facets(old(accum)@) + quad(p@, u@, v@));
}

/// Appends the twelve triangles of the box `[org, org + sz]`.
pub fn emit_aabb(org: V3, sz: V3, accum: &mut Vec<Tri>)
    requires
        fits(org@.plus(sz@)),
    ensures
        facets(final(accum)@) == facets(old(accum)@) + box_facets(org@, sz@),
{
    let zero: i64 = 0;
    let ex = V3 { x: sz.x, y: zero, z: zero };
    let ey = V3 { x: zero, y: sz.y, z: zero };
    let ez = V3 { x: zero, y: zero, z: sz.z };
    let ghost before = facets(accum@);
    // XY
    emit_quad(org, ey, ex, accum);
    emit_quad(V3 { x: org.x, y: org.y, z: org.z + sz.z }, ex, ey, accum);
    // YZ
    emit_quad(org, ez, ey, accum);
    emit_quad(V3 { x: org.x + sz.x, y: org.y, z: org.z }, ey, ez, accum);
    // ZX
    emit_quad(org, ex, ez, accum);
    emit_quad(V3 { x: org.x, y: org.y + sz.y, z: org.z }, ez, ex, accum);
    assert(facets(accum@) =~= before + box_facets(org@, sz@));
}

/// Turns `v` by `k` thirds of a turn about the diagonal `(1, 1, 1)`.
pub fn rotate(k: u8, v: V3) -> (r: V3)
    requires
        k < 3,
    ensures
        r@ == rot(k as int, v@),
{
    if k == 0 {
        v
    } else if k == 1 {
        V3 { x: v.z, y: v.x, z: v.y }
    } else {
        V3 { x: v.y, y: v.z, z: v.x }
    }
}

/// The cell and the width leave every corner of every column in range.
pub open spec fn roomy(cube: Cube, w: int) -> bool {
    &&& cube.0@.within(LIMIT as int)
    &&& 0 <= cube.1 <= LIMIT
    &&& 0 <= w <= LIMIT
}

fn emit_ring(cube: Cube, w: i64, k: u8, accum: &mut Vec<Tri>)
    requires
        roomy(cube, w as int),
        k < 3,
    ensures
        facets(final(accum)@) == facets(old(accum)@) + ring(cube@, w as int, k as int),
{
    let Cube(org, sz) = cube;
    let zero: i64 = 0;
    let ghost before = facets(accum@);
    let column_sz = rotate(k, V3 { x: w, y: w, z: sz });
    let dx = rotate(k, V3 { x: sz, y: zero, z: zero });
    let dy = rotate(k, V3 { x: zero, y: sz, z: zero });
    let dxy = rotate(k, V3 { x: sz, y: sz, z: zero });
    emit_aabb(org, column_sz, accum);
    emit_aabb(V3 { x: org.x + dx.x, y: org.y + dx.y, z: org.z + dx.z }, column_sz, accum);
    emit_aabb(V3 { x: org.x + dy.x, y: org.y + dy.y, z: org.z + dy.z }, column_sz, accum);
    emit_aabb(V3 { x: org.x + dxy.x, y: org.y + dxy.y, z: org.z + dxy.z }, column_sz, accum);
    assert(facets(accum@) =~= before + ring(cube@, w as int, k as int));
}

/// Appends the columns of one node: the set of four at each third of a turn.
pub fn emit_struts(cube: Cube, w: i64, accum: &mut Vec<Tri>)
    requires
        roomy(cube, w as int),
    ensures
        facets(final(accum)@) == facets(old(accum)@) + struts(cube@, w as int),
{
    let ghost before = facets(accum@);
    reveal(struts);
    emit_ring(cube, w, 0, accum);
    emit_ring(cube, w, 1, accum);
    emit_ring(cube, w, 2, accum);
    assert(facets(accum@) =~= before + struts(cube@, w as int));
}

proof fn lemma_append_step(before: Seq<Facet>, done: Seq<Facet>, next: Seq<Facet>)
    ensures
        (before + done) + next == before + (done + next),
{
    assert((before + done) + next =~= before + (done + next));
}

proof fn lemma_append_none(a: Seq<Facet>)
    ensures
        a + Seq::<Facet>::empty() == a,
        Seq::<Facet>::empty() + a == a,
{
    assert(a + Seq::<Facet>::empty() =~= a);
    assert(Seq::<Facet>::empty() + a =~= a);
}

/// The lattices of the eight children of a branch in the octants of its
/// cell, by index.
pub open spec fn offspring(cell: Cell, c: Octants<bool>, cfg: Config) -> Seq<Facet> {
    lattice(octant(cell, 0), c.c0, cfg) + lattice(octant(cell, 1), c.c1, cfg) + lattice(
        octant(cell, 2),
        c.c2,
        cfg,
    ) + lattice(octant(cell, 3), c.c3, cfg) + lattice(octant(cell, 4), c.c4, cfg) + lattice(
        octant(cell, 5),
        c.c5,
        cfg,
    ) + lattice(octant(cell, 6), c.c6, cfg) + lattice(octant(cell, 7), c.c7, cfg)
}

/// Appends the lattices of the children of a branch, by octant.
fn gen_children(cube: Cube, children: &Octants<bool>, cfg: &Config, accum: &mut Vec<Tri>)
    requires
        cube.wf(),
        cfg.wf(),
        cube.1 % 2 == 0,
        halvable(cube.1 / 2, children.c0.height()),
        halvable(cube.1 / 2, children.c1.height()),
        halvable(cube.1 / 2, children.c2.height()),
        halvable(cube.1 / 2, children.c3.height()),
        halvable(cube.1 / 2, children.c4.height()),
        halvable(cube.1 / 2, children.c5.height()),
        halvable(cube.1 / 2, children.c6.height()),
        halvable(cube.1 / 2, children.c7.height()),
    ensures
        facets(final(accum)@) == facets(old(accum)@) + offspring(cube@, *children, *cfg),
    decreases *children,
{
    let ghost before = facets(accum@);
    let ghost l0 = lattice(octant(cube@, 0), children.c0, *cfg);
    let ghost l1 = lattice(octant(cube@, 1), children.c1, *cfg);
    let ghost l2 = lattice(octant(cube@, 2), children.c2, *cfg);
    let ghost l3 = lattice(octant(cube@, 3), children.c3, *cfg);
    let ghost l4 = lattice(octant(cube@, 4), children.c4, *cfg);
    let ghost l5 = lattice(octant(cube@, 5), children.c5, *cfg);
    let ghost l6 = lattice(octant(cube@, 6), children.c6, *cfg);
    let ghost l7 = lattice(octant(cube@, 7), children.c7, *cfg);
    let cc = divide_cube(cube);
    proof {
        lemma_append_step(before, l0, l1);
        lemma_append_step(before, l0 + l1, l2);
        lemma_append_step(before, l0 + l1 + l2, l3);
        lemma_append_step(before, l0 + l1 + l2 + l3, l4);
        lemma_append_step(before, l0 + l1 + l2 + l3 + l4, l5);
        lemma_append_step(before, l0 + l1 + l2 + l3 + l4 + l5, l6);
        lemma_append_step(before, l0 + l1 + l2 + l3 + l4 + l5 + l6, l7);
    }
    gen_printable_aux(cc[0], &children.c0, cfg, accum);
    gen_printable_aux(cc[1], &children.c1, cfg, accum);
    gen_printable_aux(cc[2], &children.c2, cfg, accum);
    gen_printable_aux(cc[3], &children.c3, cfg, accum);
    gen_printable_aux(cc[4], &children.c4, cfg, accum);
    gen_printable_aux(cc[5], &children.c5, cfg, accum);
    gen_printable_aux(cc[6], &children.c6, cfg, accum);
    gen_printable_aux(cc[7], &children.c7, cfg, accum);
}

/// Appends the lattice of `octree` laid out in `cube`: the children of a
/// branch first, then the node's own columns. That is 144 triangles for
/// every node of the tree.
pub fn gen_printable_aux(cube: Cube, octree: &Octree<bool>, cfg: &Config, accum: &mut Vec<Tri>)
    requires
        cube.wf(),
        cfg.wf(),
        halvable(cube.1 as int, octree.height()),
    ensures
        facets(final(accum)@) == facets(old(accum)@) + lattice(cube@, *octree, *cfg),
        final(accum).len() == old(accum).len() + 144 * octree.nodes(),
        final(accum).len() <= old(accum).len() + 144 * full_nodes(octree.height()),
    decreases *octree,
{
    let ghost before = facets(accum@);
    let ghost made = lattice(cube@, *octree, *cfg);
    let ghost mut kids = Seq::<Facet>::empty();
    let mut occupied = false;
    match octree {
        Octree::Br(children) => {
            proof {
                lemma_halvable_children(cube.1 as int, *octree);
                kids = offspring(cube@, **children, *cfg);
            }
            gen_children(cube, children, cfg, accum);
        },
        Octree::Leaf(fill) => {
            if *fill {
                occupied = true;
            }
            proof {
                lemma_append_none(before);
            }
        },
    }
    let w = cfg.column_width(cube.1, occupied);
    proof {
        let own = struts(cube@, w as int);
        lemma_append_none(own);
        assert(kids + own == made);
        lemma_append_step(before, kids, own);
    }
    emit_struts(cube, w, accum);
    proof {
        lemma_lattice_len(cube@, *octree, *cfg);
        lemma_nodes_bounded(*octree, octree.height());
        assert(facets(accum@).len() == accum@.len());
        assert(before.len() == old(accum)@.len());
        assert((before + made).len() == before.len() + made.len());
    }
}

/// The lattice of `octree` laid out in the fabrication cube.
pub fn gen_printable(octree: &Octree<bool>, cfg: &Config) -> (tris: Vec<Tri>)
    requires
        cfg.wf(),
        halvable(cfg.edge as int, octree.height()),
    ensures
        facets(tris@) == lattice(cfg.cell(), *octree, *cfg),
        tris.len() == 144 * octree.nodes(),
        facets(tris@) == boxes(columns(cfg.cell(), *octree, *cfg)),
        all_slim(columns(cfg.cell(), *octree, *cfg), *cfg),
{
    let mut tris: Vec<Tri> = Vec::new();
    let zero: i64 = 0;
    gen_printable_aux(Cube(V3 { x: zero, y: zero, z: zero }, cfg.edge), octree, cfg, &mut tris);
    proof {
        assert(facets(tris@) =~= lattice(cfg.cell(), *octree, *cfg));
        lemma_lattice_len(cfg.cell(), *octree, *cfg);
        lemma_lattice_is_boxes(cfg.cell(), *octree, *cfg);
        lemma_columns_slim(cfg.cell(), *octree, *cfg);
    }
    tris
}

/// A column is never wider than the largest width, whatever its cube.
pub proof fn lemma_width_capped(cfg: Config, edge: int, occupied: bool)
    ensures
        cfg.width(edge, occupied) <= cfg.max_width,
{
}

/// The columns of one node are 144 triangles: twelve to a box, four boxes
/// to a set, three sets.
pub proof fn lemma_struts_len(cell: Cell, w: int)
    ensures
        struts(cell, w).len() == 144,
{
    reveal(struts);
    assert(ring(cell, w, 0).len() == 48);
    assert(ring(cell, w, 1).len() == 48);
    assert(ring(cell, w, 2).len() == 48);
}

/// The lattice has 144 triangles for every node of the tree, leaf or
/// branch, so it is never empty.
pub proof fn lemma_lattice_len(cell: Cell, tree: Octree<bool>, cfg: Config)
    ensures
        lattice(cell, tree, cfg).len() == 144 * tree.nodes(),
        lattice(cell, tree, cfg).len() >= 144,
    decreases tree,
{
    match tree {
        Octree::Leaf(fill) => {
            lemma_struts_len(cell, cfg.width(cell.edge, fill));
        },
        Octree::Br(c) => {
            lemma_lattice_len(octant(cell, 0), c.c0, cfg);
            lemma_lattice_len(octant(cell, 1), c.c1, cfg);
            lemma_lattice_len(octant(cell, 2), c.c2, cfg);
            lemma_lattice_len(octant(cell, 3), c.c3, cfg);
            lemma_lattice_len(octant(cell, 4), c.c4, cfg);
            lemma_lattice_len(octant(cell, 5), c.c5, cfg);
            lemma_lattice_len(octant(cell, 6), c.c6, cfg);
            lemma_lattice_len(octant(cell, 7), c.c7, cfg);
            lemma_struts_len(cell, cfg.width(cell.edge, false));
        },
    }
}

/// The lattice of a tree at most `depth` high has at least 144 triangles
/// and at most 144 for each node of the full tree of that height.
pub proof fn lemma_lattice_bounded(cell: Cell, tree: Octree<bool>, cfg: Config, depth: nat)
    requires
        tree.height() <= depth,
    ensures
        144 <= lattice(cell, tree, cfg).len() <= 144 * full_nodes(depth),
{
    lemma_lattice_len(cell, tree, cfg);
    lemma_nodes_bounded(tree, depth);
}

/// A third of a turn about the diagonal keeps the diagonal in place, moves
/// the X axis to the Y axis, keeps the inner product of any two vectors,
/// and three of them bring every vector back.
pub proof fn lemma_rot_third_turn(v: Vector, u: Vector, d: int)
    ensures
        rot(1, Vector { x: d, y: d, z: d }) == (Vector { x: d, y: d, z: d }),
        rot(1, along_x(d)) == along_y(d),
        rot(1, v).dot(rot(1, u)) == v.dot(u),
        rot(1, rot(1, v)) == rot(2, v),
        rot(1, rot(2, v)) == v,
{
}

/// The box `[org, org + sz]` as a set of points.
pub open spec fn in_box(org: Vector, sz: Vector, p: Vector) -> bool {
    &&& org.x <= p.x <= org.x + sz.x
    &&& org.y <= p.y <= org.y + sz.y
    &&& org.z <= p.z <= org.z + sz.z
}

proof fn lemma_face_sign(su: int, sv: int, d: int)
    by (nonlinear_arith)
    requires
        su > 0,
        sv > 0,
    ensures
        su * sv > 0,
        d >= 0 ==> (0 - su * sv) * d <= 0,
        d <= 0 ==> (su * sv - 0) * d <= 0,
{
}

/// Every triangle of a box with positive sides is wound outward: its
/// normal is not zero, and no point of the box lies in front of it.
pub proof fn lemma_box_outward(org: Vector, sz: Vector, i: int, p: Vector)
    requires
        sz.x > 0,
        sz.y > 0,
        sz.z > 0,
        0 <= i < 12,
        in_box(org, sz, p),
    ensures
        box_facets(org, sz)[i].normal() != (Vector { x: 0, y: 0, z: 0 }),
        box_facets(org, sz)[i].normal().dot(p.minus(box_facets(org, sz)[i].a)) <= 0,
{
    let f = box_facets(org, sz)[i];
    let n = f.normal();
    let q = p.minus(f.a);
    let ex = along_x(sz.x);
    let ey = along_y(sz.y);
    let ez = along_z(sz.z);
    lemma_axis_dot(n, q);
    if i < 2 {
        assert(f == quad(org, ey, ex)[i]);
        lemma_quad_normal(org, ey, ex);
        lemma_face_sign(sz.y, sz.x, p.z - org.z);
    } else if i < 4 {
        assert(f == quad(org.plus(ez), ex, ey)[i - 2]);
        lemma_quad_normal(org.plus(ez), ex, ey);
        lemma_face_sign(sz.x, sz.y, p.z - org.z - sz.z);
    } else if i < 6 {
        assert(f == quad(org, ez, ey)[i - 4]);
        lemma_quad_normal(org, ez, ey);
        lemma_face_sign(sz.z, sz.y, p.x - org.x);
    } else if i < 8 {
        assert(f == quad(org.plus(ex), ey, ez)[i - 6]);
        lemma_quad_normal(org.plus(ex), ey, ez);
        lemma_face_sign(sz.y, sz.z, p.x - org.x - sz.x);
    } else if i < 10 {
        assert(f == quad(org, ex, ez)[i - 8]);
        lemma_quad_normal(org, ex, ez);
        lemma_face_sign(sz.x, sz.z, p.y - org.y);
    } else {
        assert(f == quad(org.plus(ey), ez, ex)[i - 10]);
        lemma_quad_normal(org.plus(ey), ez, ex);
        lemma_face_sign(sz.z, sz.x, p.y - org.y - sz.y);
    }
}

proof fn lemma_axis_dot(n: Vector, q: Vector)
    by (nonlinear_arith)
    ensures
        n.x == 0 && n.y == 0 ==> n.dot(q) == n.z * q.z,
        n.y == 0 && n.z == 0 ==> n.dot(q) == n.x * q.x,
        n.z == 0 && n.x == 0 ==> n.dot(q) == n.y * q.y,
{
}

/// Both triangles of a parallelogram have the cross product of its two
/// sides as their normal.
proof fn lemma_quad_normal(p: Vector, u: Vector, v: Vector)
    ensures
        quad(p, u, v)[0].normal() == u.cross(v),
        quad(p, u, v)[1].normal() == u.cross(v),
{
    let f = quad(p, u, v)[1];
    assert(f.b.minus(f.a) == u.times(-1));
    assert(f.c.minus(f.a) == v.times(-1));
    assert(u.times(-1).cross(v.times(-1)) == u.cross(v)) by (nonlinear_arith);
}

/// A column: the box `[corner, corner + size]`.
pub struct Column {
    pub corner: Vector,
    pub size: Vector,
}

/// Column `k` of the twelve of a node with columns of width `w`: four to
/// a set, the sets turned by 0, 1 and 2 thirds of a turn. A column is as
/// long as the edge of the node's cell and `w` wide both ways.
pub open spec fn column(cell: Cell, w: int, k: int) -> Column {
    let s = cell.edge;
    let place = k % 4;
    let step = Vector {
        x: if place == 1 || place == 3 { s } else { 0 },
        y: if place == 2 || place == 3 { s } else { 0 },
        z: 0,
    };
    Column {
        corner: cell.origin.plus(rot(k / 4, step)),
        size: rot(k / 4, Vector { x: w, y: w, z: s }),
    }
}

/// The twelve columns of a node.
pub open spec fn node_columns(cell: Cell, w: int) -> Seq<Column> {
    Seq::new(12, |k: int| column(cell, w, k))
}

/// The columns of the lattice of a tree, in the order of the lattice: of
/// every node the twelve of its own cell, with the width of that cell.
pub open spec fn columns(cell: Cell, tree: Octree<bool>, cfg: Config) -> Seq<Column>
    decreases tree,
{
    match tree {
        Octree::Leaf(fill) => node_columns(cell, cfg.width(cell.edge, fill)),
        Octree::Br(c) => columns(octant(cell, 0), c.c0, cfg)
            + columns(octant(cell, 1), c.c1, cfg)
            + columns(octant(cell, 2), c.c2, cfg)
            + columns(octant(cell, 3), c.c3, cfg)
            + columns(octant(cell, 4), c.c4, cfg)
            + columns(octant(cell, 5), c.c5, cfg)
            + columns(octant(cell, 6), c.c6, cfg)
            + columns(octant(cell, 7), c.c7, cfg)
            + node_columns(cell, cfg.width(cell.edge, false)),
    }
}

/// The triangles of the columns, twelve to each, in their order.
pub open spec fn boxes(cols: Seq<Column>) -> Seq<Facet>
    decreases cols.len(),
{
    if cols.len() == 0 {
        Seq::empty()
    } else {
        boxes(cols.drop_last()) + box_facets(cols.last().corner, cols.last().size)
    }
}

/// The size is that of a column of width `w` and length `s`, turned by
/// some thirds of a turn.
pub open spec fn turned(size: Vector, w: int, s: int) -> bool {
    let upright = Vector { x: w, y: w, z: s };
    size == rot(0, upright) || size == rot(1, upright) || size == rot(2, upright)
}

/// The column is as long as some cell's edge, and its width is the width
/// that the parameters give to a cell of that edge, which is at most the
/// largest width.
pub open spec fn slim(col: Column, cfg: Config) -> bool {
    exists|s: int, occupied: bool| #[trigger]
        turned(col.size, cfg.width(s, occupied), s) && cfg.width(s, occupied) <= cfg.max_width
}

/// Every column of the sequence is slim.
#[verifier::opaque]
pub open spec fn all_slim(cols: Seq<Column>, cfg: Config) -> bool {
    forall|g: int| 0 <= g < cols.len() ==> slim(#[trigger] cols[g], cfg)
}

proof fn lemma_boxes_concat(a: Seq<Column>, b: Seq<Column>)
    ensures
        boxes(a + b) == boxes(a) + boxes(b),
    decreases b.len(),
{
    if b.len() == 0 {
        assert(a + b =~= a);
        assert(boxes(a) + boxes(b) =~= boxes(a));
    } else {
        let pre = b.drop_last();
        let last = box_facets(b.last().corner, b.last().size);
        lemma_boxes_concat(a, pre);
        assert((a + b).drop_last() =~= a + pre);
        assert((a + b).last() == b.last());
        lemma_append_step(boxes(a), boxes(pre), last);
    }
}

proof fn lemma_boxes_take(cols: Seq<Column>, k: int)
    requires
        0 <= k < cols.len(),
    ensures
        boxes(cols.take(k + 1)) == boxes(cols.take(k)) + box_facets(cols[k].corner, cols[k].size),
{
    assert(cols.take(k + 1).drop_last() =~= cols.take(k));
    assert(cols.take(k + 1).last() == cols[k]);
}

proof fn lemma_ring_boxes(cell: Cell, w: int, r: int)
    requires
        0 <= r < 3,
    ensures
        ring(cell, w, r) == box_facets(column(cell, w, 4 * r).corner, column(cell, w, 4 * r).size)
            + box_facets(column(cell, w, 4 * r + 1).corner, column(cell, w, 4 * r + 1).size)
            + box_facets(column(cell, w, 4 * r + 2).corner, column(cell, w, 4 * r + 2).size)
            + box_facets(column(cell, w, 4 * r + 3).corner, column(cell, w, 4 * r + 3).size),
{
    let o = cell.origin;
    let s = cell.edge;
    assert(o.plus(rot(r, Vector { x: 0, y: 0, z: 0 })) == o);
    assert(column(cell, w, 4 * r).corner == o);
    assert(column(cell, w, 4 * r + 1).corner == o.plus(rot(r, Vector { x: s, y: 0, z: 0 })));
    assert(column(cell, w, 4 * r + 2).corner == o.plus(rot(r, Vector { x: 0, y: s, z: 0 })));
    assert(column(cell, w, 4 * r + 3).corner == o.plus(rot(r, Vector { x: s, y: s, z: 0 })));
    assert(column(cell, w, 4 * r).size == rot(r, Vector { x: w, y: w, z: s }));
    assert(column(cell, w, 4 * r + 1).size == rot(r, Vector { x: w, y: w, z: s }));
    assert(column(cell, w, 4 * r + 2).size == rot(r, Vector { x: w, y: w, z: s }));
    assert(column(cell, w, 4 * r + 3).size == rot(r, Vector { x: w, y: w, z: s }));
}

proof fn lemma_node_boxes(cell: Cell, w: int)
    ensures
        boxes(node_columns(cell, w)) == struts(cell, w),
{
    reveal(struts);
    let cols = node_columns(cell, w);
    let b0 = box_facets(cols[0].corner, cols[0].size);
    let b1 = box_facets(cols[1].corner, cols[1].size);
    let b2 = box_facets(cols[2].corner, cols[2].size);
    let b3 = box_facets(cols[3].corner, cols[3].size);
    let b4 = box_facets(cols[4].corner, cols[4].size);
    let b5 = box_facets(cols[5].corner, cols[5].size);
    let b6 = box_facets(cols[6].corner, cols[6].size);
    let b7 = box_facets(cols[7].corner, cols[7].size);
    let b8 = box_facets(cols[8].corner, cols[8].size);
    let b9 = box_facets(cols[9].corner, cols[9].size);
    let b10 = box_facets(cols[10].corner, cols[10].size);
    let b11 = box_facets(cols[11].corner, cols[11].size);
    let r0 = ring(cell, w, 0);
    let r1 = ring(cell, w, 1);
    let r2 = ring(cell, w, 2);
    lemma_ring_boxes(cell, w, 0);
    lemma_ring_boxes(cell, w, 1);
    lemma_ring_boxes(cell, w, 2);
    assert(r0 == b0 + b1 + b2 + b3);
    assert(r1 == b4 + b5 + b6 + b7);
    assert(r2 == b8 + b9 + b10 + b11);
    assert(boxes(cols.take(0)) =~= Seq::<Facet>::empty());
    lemma_boxes_take(cols, 0);
    assert(boxes(cols.take(1)) =~= b0);
    lemma_boxes_take(cols, 1);
    lemma_boxes_take(cols, 2);
    lemma_boxes_take(cols, 3);
    assert(boxes(cols.take(4)) == r0);
    lemma_boxes_take(cols, 4);
    lemma_boxes_take(cols, 5);
    lemma_append_step(r0, b4, b5);
    lemma_boxes_take(cols, 6);
    lemma_append_step(r0, b4 + b5, b6);
    lemma_boxes_take(cols, 7);
    lemma_append_step(r0, b4 + b5 + b6, b7);
    assert(boxes(cols.take(8)) == r0 + r1);
    lemma_boxes_take(cols, 8);
    lemma_boxes_take(cols, 9);
    lemma_append_step(r0 + r1, b8, b9);
    lemma_boxes_take(cols, 10);
    lemma_append_step(r0 + r1, b8 + b9, b10);
    lemma_boxes_take(cols, 11);
    lemma_append_step(r0 + r1, b8 + b9 + b10, b11);
    assert(boxes(cols.take(12)) == r0 + r1 + r2);
    assert(cols.take(12) =~= cols);
}

/// A tree has twelve columns for every node.
pub proof fn lemma_columns_len(cell: Cell, tree: Octree<bool>, cfg: Config)
    ensures
        columns(cell, tree, cfg).len() == 12 * tree.nodes(),
    decreases tree,
{
    match tree {
        Octree::Leaf(_) => {},
        Octree::Br(c) => {
            lemma_columns_len(octant(cell, 0), c.c0, cfg);
            lemma_columns_len(octant(cell, 1), c.c1, cfg);
            lemma_columns_len(octant(cell, 2), c.c2, cfg);
            lemma_columns_len(octant(cell, 3), c.c3, cfg);
            lemma_columns_len(octant(cell, 4), c.c4, cfg);
            lemma_columns_len(octant(cell, 5), c.c5, cfg);
            lemma_columns_len(octant(cell, 6), c.c6, cfg);
            lemma_columns_len(octant(cell, 7), c.c7, cfg);
        },
    }
}

/// The lattice of a tree is the triangles of its columns: every group of
/// twelve triangles is a box, as long as the edge of one node's cell and as
/// wide as the parameters make the columns of that cell.
pub proof fn lemma_lattice_is_boxes(cell: Cell, tree: Octree<bool>, cfg: Config)
    ensures
        lattice(cell, tree, cfg) == boxes(columns(cell, tree, cfg)),
    decreases tree,
{
    match tree {
        Octree::Leaf(fill) => {
            lemma_node_boxes(cell, cfg.width(cell.edge, fill));
        },
        Octree::Br(c) => {
            let k0 = columns(octant(cell, 0), c.c0, cfg);
            let k1 = columns(octant(cell, 1), c.c1, cfg);
            let k2 = columns(octant(cell, 2), c.c2, cfg);
            let k3 = columns(octant(cell, 3), c.c3, cfg);
            let k4 = columns(octant(cell, 4), c.c4, cfg);
            let k5 = columns(octant(cell, 5), c.c5, cfg);
            let k6 = columns(octant(cell, 6), c.c6, cfg);
            let k7 = columns(octant(cell, 7), c.c7, cfg);
            let own = node_columns(cell, cfg.width(cell.edge, false));
            lemma_lattice_is_boxes(octant(cell, 0), c.c0, cfg);
            lemma_lattice_is_boxes(octant(cell, 1), c.c1, cfg);
            lemma_lattice_is_boxes(octant(cell, 2), c.c2, cfg);
            lemma_lattice_is_boxes(octant(cell, 3), c.c3, cfg);
            lemma_lattice_is_boxes(octant(cell, 4), c.c4, cfg);
            lemma_lattice_is_boxes(octant(cell, 5), c.c5, cfg);
            lemma_lattice_is_boxes(octant(cell, 6), c.c6, cfg);
            lemma_lattice_is_boxes(octant(cell, 7), c.c7, cfg);
            lemma_node_boxes(cell, cfg.width(cell.edge, false));
            lemma_boxes_concat(k0, k1);
            lemma_boxes_concat(k0 + k1, k2);
            lemma_boxes_concat(k0 + k1 + k2, k3);
            lemma_boxes_concat(k0 + k1 + k2 + k3, k4);
            lemma_boxes_concat(k0 + k1 + k2 + k3 + k4, k5);
            lemma_boxes_concat(k0 + k1 + k2 + k3 + k4 + k5, k6);
            lemma_boxes_concat(k0 + k1 + k2 + k3 + k4 + k5 + k6, k7);
            lemma_boxes_concat(k0 + k1 + k2 + k3 + k4 + k5 + k6 + k7, own);
        },
    }
}

/// Group `g` of twelve triangles of the columns is the box of column `g`.
pub proof fn lemma_boxes_group(cols: Seq<Column>, g: int)
    requires
        0 <= g < cols.len(),
    ensures
        boxes(cols).len() == 12 * cols.len(),
        boxes(cols).subrange(12 * g, 12 * g + 12) == box_facets(cols[g].corner, cols[g].size),
    decreases cols.len(),
{
    let pre = cols.drop_last();
    let last = box_facets(cols.last().corner, cols.last().size);
    assert(last.len() == 12);
    lemma_boxes_len(pre);
    if g < pre.len() {
        lemma_boxes_group(pre, g);
        assert(pre[g] == cols[g]);
        assert((boxes(pre) + last).subrange(12 * g, 12 * g + 12) =~= boxes(pre).subrange(
            12 * g,
            12 * g + 12,
        ));
    } else {
        assert((boxes(pre) + last).subrange(12 * g, 12 * g + 12) =~= last);
    }
}

proof fn lemma_boxes_len(cols: Seq<Column>)
    ensures
        boxes(cols).len() == 12 * cols.len(),
    decreases cols.len(),
{
    if cols.len() > 0 {
        lemma_boxes_len(cols.drop_last());
        assert(box_facets(cols.last().corner, cols.last().size).len() == 12);
    }
}

/// Column `g` of slim columns is slim.
pub proof fn lemma_slim_at(cols: Seq<Column>, cfg: Config, g: int)
    requires
        all_slim(cols, cfg),
        0 <= g < cols.len(),
    ensures
        slim(cols[g], cfg),
{
    reveal(all_slim);
}

proof fn lemma_slim_concat(a: Seq<Column>, b: Seq<Column>, cfg: Config)
    requires
        all_slim(a, cfg),
        all_slim(b, cfg),
    ensures
        all_slim(a + b, cfg),
{
    reveal(all_slim);
    assert forall|g: int| 0 <= g < (a + b).len() implies slim(#[trigger] (a + b)[g], cfg) by {
        if g < a.len() {
            assert((a + b)[g] == a[g]);
        } else {
            assert((a + b)[g] == b[g - a.len()]);
        }
    }
}

proof fn lemma_node_slim(cell: Cell, occupied: bool, cfg: Config)
    ensures
        all_slim(node_columns(cell, cfg.width(cell.edge, occupied)), cfg),
{
    reveal(all_slim);
    let w = cfg.width(cell.edge, occupied);
    let cols = node_columns(cell, w);
    assert forall|g: int| 0 <= g < cols.len() implies slim(#[trigger] cols[g], cfg) by {
        assert(turned(cols[g].size, cfg.width(cell.edge, occupied), cell.edge));
    }
}

/// Every column of a lattice is slim: no column is wider than the largest
/// width, whatever the cell and however deep it lies in the tree.
pub proof fn lemma_columns_slim(cell: Cell, tree: Octree<bool>, cfg: Config)
    ensures
        all_slim(columns(cell, tree, cfg), cfg),
    decreases tree,
{
    match tree {
        Octree::Leaf(fill) => {
            lemma_node_slim(cell, fill, cfg);
        },
        Octree::Br(c) => {
            let k0 = columns(octant(cell, 0), c.c0, cfg);
            let k1 = columns(octant(cell, 1), c.c1, cfg);
            let k2 = columns(octant(cell, 2), c.c2, cfg);
            let k3 = columns(octant(cell, 3), c.c3, cfg);
            let k4 = columns(octant(cell, 4), c.c4, cfg);
            let k5 = columns(octant(cell, 5), c.c5, cfg);
            let k6 = columns(octant(cell, 6), c.c6, cfg);
            let k7 = columns(octant(cell, 7), c.c7, cfg);
            let own = node_columns(cell, cfg.width(cell.edge, false));
            lemma_columns_slim(octant(cell, 0), c.c0, cfg);
            lemma_columns_slim(octant(cell, 1), c.c1, cfg);
            lemma_columns_slim(octant(cell, 2), c.c2, cfg);
            lemma_columns_slim(octant(cell, 3), c.c3, cfg);
            lemma_columns_slim(octant(cell, 4), c.c4, cfg);
            lemma_columns_slim(octant(cell, 5), c.c5, cfg);
            lemma_columns_slim(octant(cell, 6), c.c6, cfg);
            lemma_columns_slim(octant(cell, 7), c.c7, cfg);
            lemma_node_slim(cell, false, cfg);
            lemma_slim_concat(k0, k1, cfg);
            lemma_slim_concat(k0 + k1, k2, cfg);
            lemma_slim_concat(k0 + k1 + k2, k3, cfg);
            lemma_slim_concat(k0 + k1 + k2 + k3, k4, cfg);
            lemma_slim_concat(k0 + k1 + k2 + k3 + k4, k5, cfg);
            lemma_slim_concat(k0 + k1 + k2 + k3 + k4 + k5, k6, cfg);
            lemma_slim_concat(k0 + k1 + k2 + k3 + k4 + k5 + k6, k7, cfg);
            lemma_slim_concat(k0 + k1 + k2 + k3 + k4 + k5 + k6 + k7, own, cfg);
        },
    }
}

} // verus!
