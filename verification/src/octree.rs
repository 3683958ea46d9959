//! The octree of occupancy flags and its builder.

use vstd::prelude::*;
use crate::geometry::{models, Cell, Cube, FacetN, TriN, Vector, V3};
use crate::geometry::Facet;
use crate::intersect::{hits, intersect_cube_tri, lemma_hits_magnified};
use crate::intersect::{lemma_shared_point_touches, shares_point, weighted};

verus! {

/// The eight children of a branch, by octant: bit 0 of the index is set in
/// the upper half along X, bit 1 along Y, bit 2 along Z.
#[derive(Debug, PartialEq, Eq)]
pub struct Octants<A> {
    pub c0: Octree<A>,
    pub c1: Octree<A>,
    pub c2: Octree<A>,
    pub c3: Octree<A>,
    pub c4: Octree<A>,
    pub c5: Octree<A>,
    pub c6: Octree<A>,
    pub c7: Octree<A>,
}

/// A tree in which every branch has exactly eight children.
#[derive(Debug, PartialEq, Eq)]
pub enum Octree<A> {
    Br(Box<Octants<A>>),
    Leaf(A),
}

impl<A> Octants<A> {
    /// The child in octant `i`.
    pub open spec fn child(self, i: int) -> Octree<A> {
        if i == 0 {
            self.c0
        } else if i == 1 {
            self.c1
        } else if i == 2 {
            self.c2
        } else if i == 3 {
            self.c3
        } else if i == 4 {
            self.c4
        } else if i == 5 {
            self.c5
        } else if i == 6 {
            self.c6
        } else {
            self.c7
        }
    }

    /// The child in octant `i`.
    pub fn get(&self, i: usize) -> (r: &Octree<A>)
        requires
            i < 8,
        ensures
            *r == self.child(i as int),
    {
        if i == 0 {
            &self.c0
        } else if i == 1 {
            &self.c1
        } else if i == 2 {
            &self.c2
        } else if i == 3 {
            &self.c3
        } else if i == 4 {
            &self.c4
        } else if i == 5 {
            &self.c5
        } else if i == 6 {
            &self.c6
        } else {
            &self.c7
        }
    }
}

impl<A> Octree<A> {
    /// The number of branches on the longest path from the root to a leaf.
    pub open spec fn height(self) -> nat
        decreases self,
    {
        match self {
            Octree::Leaf(_) => 0,
            Octree::Br(c) => 1 + max_of_eight(
                c.c0.height(),
                c.c1.height(),
                c.c2.height(),
                c.c3.height(),
                c.c4.height(),
                c.c5.height(),
                c.c6.height(),
                c.c7.height(),
            ),
        }
    }

    /// The number of nodes, branches and leaves alike.
    pub open spec fn nodes(self) -> nat
        decreases self,
    {
        match self {
            Octree::Leaf(_) => 1,
            Octree::Br(c) => 1 + c.c0.nodes() + c.c1.nodes() + c.c2.nodes() + c.c3.nodes()
                + c.c4.nodes() + c.c5.nodes() + c.c6.nodes() + c.c7.nodes(),
        }
    }
}

impl<A: Default> Default for Octree<A> {
    /// A single leaf that holds the default value.
    fn default() -> (r: Octree<A>)
        ensures
            r is Leaf,
            A::default.ensures((), r->Leaf_0),
    {
        Octree::Leaf(A::default())
    }
}

impl Octree<bool> {
    /// The number of occupied leaves.
    pub open spec fn occupied(self) -> nat
        decreases self,
    {
        match self {
            Octree::Leaf(fill) => if fill { 1 } else { 0 },
            Octree::Br(c) => c.c0.occupied() + c.c1.occupied() + c.c2.occupied() + c.c3.occupied()
                + c.c4.occupied() + c.c5.occupied() + c.c6.occupied() + c.c7.occupied(),
        }
    }
}

/// The larger of two heights.
pub open spec fn max_of_two(a: nat, b: nat) -> nat {
    if a >= b { a } else { b }
}

/// The largest of eight heights.
pub open spec fn max_of_eight(a: nat, b: nat, c: nat, d: nat, e: nat, f: nat, g: nat, h: nat) -> nat {
    max_of_two(
        max_of_two(max_of_two(a, b), max_of_two(c, d)),
        max_of_two(max_of_two(e, f), max_of_two(g, h)),
    )
}

/// Octant `i` of a cell: half the edge, moved by half the edge along each
/// axis whose bit is set in `i`. The half is exact where the edge is even,
/// and only then do the eight octants tile the cell (see [`tiled`]); of an
/// odd edge the half is rounded down, and the octants leave a part of the
/// cell out.
pub open spec fn octant(cell: Cell, i: int) -> Cell {
    let h = cell.edge / 2;
    Cell {
        origin: Vector {
            x: cell.origin.x + if i % 2 == 1 { h } else { 0 },
            y: cell.origin.y + if (i / 2) % 2 == 1 { h } else { 0 },
            z: cell.origin.z + if (i / 4) % 2 == 1 { h } else { 0 },
        },
        edge: h,
    }
}

/// The edge `e` can be halved `d` times without a remainder.
pub open spec fn halvable(e: int, d: nat) -> bool
    decreases d,
{
    d == 0 || (e % 2 == 0 && halvable(e / 2, (d - 1) as nat))
}

/// The triangles of `tris` that the test reports for `cell`, in their order.
pub open spec fn relevant(cell: Cell, tris: Seq<FacetN>) -> Seq<FacetN> {
    tris.filter(|t: FacetN| hits(cell, t))
}

/// The tree that subdivision to `depth` builds: a cell is a leaf at depth 0
/// or when no triangle is reported for it, and is occupied when one is.
pub open spec fn divide_spec(cell: Cell, tris: Seq<FacetN>, depth: nat) -> Octree<bool>
    decreases depth,
{
    let found = relevant(cell, tris);
    if depth == 0 {
        Octree::Leaf(found.len() > 0)
    } else if found.len() == 0 {
        Octree::Leaf(false)
    } else {
        let d = (depth - 1) as nat;
        Octree::Br(
            Box::new(
                Octants {
                    c0: divide_spec(octant(cell, 0), found, d),
                    c1: divide_spec(octant(cell, 1), found, d),
                    c2: divide_spec(octant(cell, 2), found, d),
                    c3: divide_spec(octant(cell, 3), found, d),
                    c4: divide_spec(octant(cell, 4), found, d),
                    c5: divide_spec(octant(cell, 5), found, d),
                    c6: divide_spec(octant(cell, 6), found, d),
                    c7: divide_spec(octant(cell, 7), found, d),
                },
            ),
        )
    }
}

/// Every triangle of the sequence is well formed.
pub open spec fn all_wf(tris: Seq<FacetN>) -> bool {
    forall|i: int| 0 <= i < tris.len() ==> (#[trigger] tris[i]).wf()
}

/// The eight octants of a cube with an even edge, by index: each has half
/// the edge, and together they tile the cube.
pub fn divide_cube(cube: Cube) -> (r: [Cube; 8])
    requires
        cube.wf(),
        cube.1 % 2 == 0,
    ensures
        forall|i: int| 0 <= i < 8 ==> (#[trigger] r[i])@ == octant(cube@, i),
        forall|i: int| 0 <= i < 8 ==> 2 * (#[trigger] r[i]).1 == cube.1,
        forall|i: int| 0 <= i < 8 ==> (#[trigger] r[i]).wf(),
        tiled(cube@),
{
    let Cube(org, size) = cube;
    let ns: i64 = size / 2;
    let mut cubes: [Cube; 8] = [cube; 8];
    let mut i: usize = 0;
    while i < 8
        invariant
            i <= 8,
            cube.wf(),
            cube == Cube(org, size),
            size % 2 == 0,
            ns == size / 2,
            forall|j: int| 0 <= j < i ==> (#[trigger] cubes[j])@ == octant(cube@, j),
            forall|j: int| 0 <= j < i ==> 2 * (#[trigger] cubes[j]).1 == cube.1,
            forall|j: int| 0 <= j < i ==> (#[trigger] cubes[j]).wf(),
        decreases 8 - i,
    {
        assert((i & 1 > 0) == (i % 2 == 1) && (i & 2 > 0) == ((i / 2) % 2 == 1) && (i & 4 > 0) == ((i
            / 4) % 2 == 1)) by (bit_vector)
            requires
                i < 8,
        ;
        let dpos = V3 {
            x: if i & 1 > 0 { ns } else { 0 },
            y: if i & 2 > 0 { ns } else { 0 },
            z: if i & 4 > 0 { ns } else { 0 },
        };
        cubes[i] = Cube(V3 { x: org.x + dpos.x, y: org.y + dpos.y, z: org.z + dpos.z }, ns);
        i += 1;
    }
    proof {
        lemma_octants_tile(cube@);
    }
    cubes
}

/// The triangles that touch the cube, in their order.
pub fn filter_tris(cube: &Cube, tris: &Vec<TriN>) -> (r: Vec<TriN>)
    requires
        cube.wf(),
        all_wf(models(tris@)),
    ensures
        models(r@) == relevant(cube@, models(tris@)),
        all_wf(models(r@)),
{
    let mut out: Vec<TriN> = Vec::new();
    let mut i: usize = 0;
    assert(models(tris@.take(0)) =~= Seq::<FacetN>::empty());
    assert(models(out@) =~= Seq::<FacetN>::empty());
    while i < tris.len()
        invariant
            i <= tris.len(),
            cube.wf(),
            all_wf(models(tris@)),
            models(out@) == relevant(cube@, models(tris@.take(i as int))),
            all_wf(models(out@)),
        decreases tris.len() - i,
    {
        let t = tris[i];
        let ghost kept = out@;
        proof {
            let pre = models(tris@.take(i as int));
            let cur = models(tris@.take(i + 1));
            assert(cur.drop_last() =~= pre);
            assert(cur.last() == t@);
            reveal(Seq::filter);
            assert(models(tris@)[i as int].wf());
            assert(models(kept.push(t)) =~= models(kept).push(t@));
        }
        if intersect_cube_tri(cube, &t) {
            out.push(t);
        }
        i += 1;
    }
    proof {
        assert(tris@.take(i as int) == tris@);
    }
    out
}

/// Subdivides `cube` to at most `remaining_level` levels, keeping at each
/// cell only the triangles that touch it. Where a triangle touches the
/// cube, its edge has to halve exactly down to the deepest level; a cube
/// that no triangle touches is not subdivided, whatever its edge.
pub fn divide(cube: Cube, tris: &Vec<TriN>, remaining_level: u32) -> (r: Octree<bool>)
    requires
        cube.wf(),
        all_wf(models(tris@)),
        relevant(cube@, models(tris@)).len() > 0 ==> halvable(
            cube.1 as int,
            remaining_level as nat,
        ),
    ensures
        r == divide_spec(cube@, models(tris@), remaining_level as nat),
        r.height() <= remaining_level,
        relevant(cube@, models(tris@)).len() == 0 ==> r == Octree::<bool>::Leaf(false),
        forall|t: FacetN, wa: int, wb: int, wc: int|
            models(tris@).contains(t) && #[trigger] crossed(cube@, t, wa, wb, wc) ==> r.occupied()
                >= 1,
    decreases remaining_level,
{
    proof {
        lemma_divide_height(cube@, models(tris@), remaining_level as nat);
        assert forall|t: FacetN, wa: int, wb: int, wc: int|
            models(tris@).contains(t) && #[trigger] crossed(cube@, t, wa, wb, wc) implies divide_spec(
            cube@,
            models(tris@),
            remaining_level as nat,
        ).occupied() >= 1 by {
            lemma_crossed_found(cube@, models(tris@), t, wa, wb, wc);
            lemma_crossed_survives(cube@, models(tris@), t, wa, wb, wc, remaining_level as nat);
        }
    }
    let relevant_tris = filter_tris(&cube, tris);
    if remaining_level == 0 {
        Octree::Leaf(relevant_tris.len() > 0)
    } else if relevant_tris.len() == 0 {
        Octree::Leaf(false)
    } else {
        let cc = divide_cube(cube);
        let d: u32 = remaining_level - 1;
        assert(forall|i: int| 0 <= i < 8 ==> (#[trigger] cc[i]).1 == cube.1 / 2);
        let c0 = divide(cc[0], &relevant_tris, d);
        let c1 = divide(cc[1], &relevant_tris, d);
        let c2 = divide(cc[2], &relevant_tris, d);
        let c3 = divide(cc[3], &relevant_tris, d);
        let c4 = divide(cc[4], &relevant_tris, d);
        let c5 = divide(cc[5], &relevant_tris, d);
        let c6 = divide(cc[6], &relevant_tris, d);
        let c7 = divide(cc[7], &relevant_tris, d);
        Octree::Br(Box::new(Octants { c0, c1, c2, c3, c4, c5, c6, c7 }))
    }
}

/// An edge that can be halved `d` times can be halved any fewer times.
pub proof fn lemma_halvable_fewer(e: int, d: nat, fewer: nat)
    requires
        halvable(e, d),
        fewer <= d,
    ensures
        halvable(e, fewer),
    decreases fewer,
{
    if fewer > 0 {
        lemma_halvable_fewer(e / 2, (d - 1) as nat, (fewer - 1) as nat);
    }
}

/// An edge that can be halved as often as a branch is high is even, and its
/// half can be halved as often as each child is high.
pub proof fn lemma_halvable_children<A>(e: int, tree: Octree<A>)
    requires
        tree is Br,
        halvable(e, tree.height()),
    ensures
        e % 2 == 0,
        halvable(e / 2, tree->Br_0.c0.height()),
        halvable(e / 2, tree->Br_0.c1.height()),
        halvable(e / 2, tree->Br_0.c2.height()),
        halvable(e / 2, tree->Br_0.c3.height()),
        halvable(e / 2, tree->Br_0.c4.height()),
        halvable(e / 2, tree->Br_0.c5.height()),
        halvable(e / 2, tree->Br_0.c6.height()),
        halvable(e / 2, tree->Br_0.c7.height()),
{
    let c = tree->Br_0;
    let rest = (tree.height() - 1) as nat;
    lemma_halvable_fewer(e / 2, rest, c.c0.height());
    lemma_halvable_fewer(e / 2, rest, c.c1.height());
    lemma_halvable_fewer(e / 2, rest, c.c2.height());
    lemma_halvable_fewer(e / 2, rest, c.c3.height());
    lemma_halvable_fewer(e / 2, rest, c.c4.height());
    lemma_halvable_fewer(e / 2, rest, c.c5.height());
    lemma_halvable_fewer(e / 2, rest, c.c6.height());
    lemma_halvable_fewer(e / 2, rest, c.c7.height());
}

/// Subdivision to `depth` builds a tree that is at most `depth` high.
pub proof fn lemma_divide_height(cell: Cell, tris: Seq<FacetN>, depth: nat)
    ensures
        divide_spec(cell, tris, depth).height() <= depth,
    decreases depth,
{
    let found = relevant(cell, tris);
    if depth > 0 && found.len() > 0 {
        let d = (depth - 1) as nat;
        lemma_divide_height(octant(cell, 0), found, d);
        lemma_divide_height(octant(cell, 1), found, d);
        lemma_divide_height(octant(cell, 2), found, d);
        lemma_divide_height(octant(cell, 3), found, d);
        lemma_divide_height(octant(cell, 4), found, d);
        lemma_divide_height(octant(cell, 5), found, d);
        lemma_divide_height(octant(cell, 6), found, d);
        lemma_divide_height(octant(cell, 7), found, d);
    }
}

/// The number of nodes of the tree of height `depth` in which every branch
/// has eight branches below it down to the last level.
pub open spec fn full_nodes(depth: nat) -> nat
    decreases depth,
{
    if depth == 0 {
        1
    } else {
        1 + 8 * full_nodes((depth - 1) as nat)
    }
}

/// A higher full tree has no fewer nodes.
pub proof fn lemma_full_nodes_grows(fewer: nat, depth: nat)
    requires
        fewer <= depth,
    ensures
        full_nodes(fewer) <= full_nodes(depth),
    decreases depth,
{
    if fewer < depth {
        lemma_full_nodes_grows(fewer, (depth - 1) as nat);
    }
}

/// A tree at most `depth` high has no more nodes than the full tree of
/// that height.
pub proof fn lemma_nodes_bounded<A>(tree: Octree<A>, depth: nat)
    requires
        tree.height() <= depth,
    ensures
        1 <= tree.nodes() <= full_nodes(depth),
    decreases tree,
{
    match tree {
        Octree::Leaf(_) => {
            lemma_full_nodes_grows(0, depth);
        },
        Octree::Br(c) => {
            let d = (depth - 1) as nat;
            lemma_nodes_bounded(c.c0, d);
            lemma_nodes_bounded(c.c1, d);
            lemma_nodes_bounded(c.c2, d);
            lemma_nodes_bounded(c.c3, d);
            lemma_nodes_bounded(c.c4, d);
            lemma_nodes_bounded(c.c5, d);
            lemma_nodes_bounded(c.c6, d);
            lemma_nodes_bounded(c.c7, d);
        },
    }
}

/// A cell in which no triangle is found is an empty leaf at every depth.
pub proof fn lemma_empty_cell_is_leaf(cell: Cell, tris: Seq<FacetN>, depth: nat)
    requires
        relevant(cell, tris).len() == 0,
    ensures
        divide_spec(cell, tris, depth) == Octree::<bool>::Leaf(false),
{
}

/// The octant of a cell that holds `p` when `p` is in the cell: along each
/// axis the upper half from the middle on.
pub open spec fn octant_of(cell: Cell, p: Vector) -> int {
    let h = cell.edge / 2;
    (if p.x >= cell.origin.x + h { 1int } else { 0 })
        + (if p.y >= cell.origin.y + h { 2int } else { 0 })
        + (if p.z >= cell.origin.z + h { 4int } else { 0 })
}

/// The eight octants tile the cell: each has half its edge; a point is in
/// the closed cell exactly when it is in a closed octant; no point is
/// strictly inside two octants; and the octants have the volume of the
/// cell together.
pub open spec fn tiled(cell: Cell) -> bool {
    &&& forall|i: int| 0 <= i < 8 ==> 2 * (#[trigger] octant(cell, i)).edge == cell.edge
    &&& forall|p: Vector| #[trigger]
        cell.contains(p) ==> 0 <= octant_of(cell, p) < 8 && octant(
            cell,
            octant_of(cell, p),
        ).contains(p)
    &&& forall|i: int, p: Vector|
        0 <= i < 8 && #[trigger] octant(cell, i).contains(p) ==> cell.contains(p)
    &&& forall|i: int, j: int, p: Vector|
        0 <= i < 8 && 0 <= j < 8 && i != j ==> !(#[trigger] octant(cell, i).contains_inside(p)
            && #[trigger] octant(cell, j).contains_inside(p))
    &&& octant(cell, 0).volume() + octant(cell, 1).volume() + octant(cell, 2).volume() + octant(
        cell,
        3,
    ).volume() + octant(cell, 4).volume() + octant(cell, 5).volume() + octant(cell, 6).volume()
        + octant(cell, 7).volume() == cell.volume()
}

/// The octants of a cell with an even edge tile it.
pub proof fn lemma_octants_tile(cell: Cell)
    requires
        cell.edge >= 0,
        cell.edge % 2 == 0,
    ensures
        tiled(cell),
{
    assert forall|p: Vector| #[trigger] cell.contains(p) implies 0 <= octant_of(cell, p) < 8
        && octant(cell, octant_of(cell, p)).contains(p) by {
        lemma_octants_cover(cell, p);
    }
    assert forall|i: int, p: Vector| 0 <= i < 8 && #[trigger] octant(cell, i).contains(
        p,
    ) implies cell.contains(p) by {
        lemma_octants_cover(cell, p);
    }
    assert forall|i: int, j: int, p: Vector| 0 <= i < 8 && 0 <= j < 8 && i != j implies !(
    #[trigger] octant(cell, i).contains_inside(p) && #[trigger] octant(cell, j).contains_inside(
        p,
    )) by {
        lemma_octants_apart(cell, i, j, p);
    }
    lemma_octants_halve(cell, 0);
    let h = cell.edge / 2;
    assert(forall|i: int| 0 <= i < 8 ==> (#[trigger] octant(cell, i)).volume() == h * h * h);
}

/// Each octant of a cell with an even edge has half the edge, and the
/// eight have the volume of the cell together.
pub proof fn lemma_octants_halve(cell: Cell, i: int)
    requires
        cell.edge % 2 == 0,
        0 <= i < 8,
    ensures
        2 * octant(cell, i).edge == cell.edge,
        8 * octant(cell, i).volume() == cell.volume(),
{
    let h = cell.edge / 2;
    assert(8 * (h * h * h) == (2 * h) * (2 * h) * (2 * h)) by (nonlinear_arith);
}

/// The octants of a cell with an even edge leave no gap: a point is in
/// the closed cell exactly when it is in one of the closed octants.
pub proof fn lemma_octants_cover(cell: Cell, p: Vector)
    requires
        cell.edge >= 0,
        cell.edge % 2 == 0,
    ensures
        cell.contains(p) ==> 0 <= octant_of(cell, p) < 8 && octant(cell, octant_of(cell, p)).contains(p),
        forall|i: int| 0 <= i < 8 && #[trigger] octant(cell, i).contains(p) ==> cell.contains(p),
{
}

/// The octants of a cell do not overlap: no point is strictly inside two
/// of them.
pub proof fn lemma_octants_apart(cell: Cell, i: int, j: int, p: Vector)
    requires
        cell.edge >= 0,
        0 <= i < 8,
        0 <= j < 8,
        i != j,
    ensures
        !(octant(cell, i).contains_inside(p) && octant(cell, j).contains_inside(p)),
{
}

/// Some octant of the cell is reported for some triangle of the sequence.
pub open spec fn some_octant_hit(cell: Cell, tris: Seq<FacetN>) -> bool {
    exists|i: int| 0 <= i < 8 && (#[trigger] relevant(octant(cell, i), tris)).len() > 0
}

/// At every cell down to `depth` levels below `cell`, the test confirms
/// itself one level further down: where it reports a triangle for a cell
/// on the deepest level, it reports one for an octant of that cell too.
pub open spec fn confirmed(cell: Cell, tris: Seq<FacetN>, depth: nat) -> bool
    decreases depth,
{
    let found = relevant(cell, tris);
    found.len() > 0 ==> if depth == 0 {
        some_octant_hit(cell, found)
    } else {
        let d = (depth - 1) as nat;
        &&& confirmed(octant(cell, 0), found, d)
        &&& confirmed(octant(cell, 1), found, d)
        &&& confirmed(octant(cell, 2), found, d)
        &&& confirmed(octant(cell, 3), found, d)
        &&& confirmed(octant(cell, 4), found, d)
        &&& confirmed(octant(cell, 5), found, d)
        &&& confirmed(octant(cell, 6), found, d)
        &&& confirmed(octant(cell, 7), found, d)
    }
}

/// One level more never lowers the number of occupied leaves, where the
/// test confirms itself: every occupied leaf then has an occupied leaf
/// among its octants.
pub proof fn lemma_occupied_grows(cell: Cell, tris: Seq<FacetN>, depth: nat)
    requires
        confirmed(cell, tris, depth),
    ensures
        divide_spec(cell, tris, depth).occupied() <= divide_spec(cell, tris, depth + 1).occupied(),
    decreases depth,
{
    let found = relevant(cell, tris);
    if found.len() > 0 {
        if depth == 0 {
            let i = choose|i: int| 0 <= i < 8 && (#[trigger] relevant(octant(cell, i), found)).len() > 0;
            let deeper = divide_spec(cell, tris, 1);
            assert(divide_spec(octant(cell, i), found, 0) == Octree::<bool>::Leaf(true));
            assert(deeper.occupied() >= divide_spec(octant(cell, i), found, 0).occupied());
        } else {
            let d = (depth - 1) as nat;
            lemma_occupied_grows(octant(cell, 0), found, d);
            lemma_occupied_grows(octant(cell, 1), found, d);
            lemma_occupied_grows(octant(cell, 2), found, d);
            lemma_occupied_grows(octant(cell, 3), found, d);
            lemma_occupied_grows(octant(cell, 4), found, d);
            lemma_occupied_grows(octant(cell, 5), found, d);
            lemma_occupied_grows(octant(cell, 6), found, d);
            lemma_occupied_grows(octant(cell, 7), found, d);
        }
    }
}

/// The octant that holds the point of the triangle with the weights `wa`,
/// `wb`, `wc`, when the cell holds it: along each axis the upper half from
/// the middle on.
pub open spec fn octant_of_shared(cell: Cell, f: Facet, wa: int, wb: int, wc: int) -> int {
    let h = cell.edge / 2;
    let w = wa + wb + wc;
    let q = weighted(f, wa, wb, wc);
    (if q.x >= w * (cell.origin.x + h) { 1int } else { 0 })
        + (if q.y >= w * (cell.origin.y + h) { 2int } else { 0 })
        + (if q.z >= w * (cell.origin.z + h) { 4int } else { 0 })
}

/// A point of a triangle that lies in a cell with an even edge lies in one
/// of its octants.
pub proof fn lemma_shared_point_in_octant(cell: Cell, f: Facet, wa: int, wb: int, wc: int)
    requires
        cell.edge % 2 == 0,
        shares_point(cell, f, wa, wb, wc),
    ensures
        0 <= octant_of_shared(cell, f, wa, wb, wc) < 8,
        shares_point(octant(cell, octant_of_shared(cell, f, wa, wb, wc)), f, wa, wb, wc),
{
    let h = cell.edge / 2;
    let o = cell.origin;
    assert(o.x + h + h == o.x + cell.edge);
    assert(o.y + h + h == o.y + cell.edge);
    assert(o.z + h + h == o.z + cell.edge);
    assert(o.x + 0 == o.x && o.y + 0 == o.y && o.z + 0 == o.z);
}

/// A triangle with its own normal, and with a point in the closed cell:
/// the point with the barycentric weights `wa`, `wb`, `wc`.
pub open spec fn crossed(cell: Cell, t: FacetN, wa: int, wb: int, wc: int) -> bool {
    t.normal == t.facet.normal() && shares_point(cell, t.facet, wa, wb, wc)
}

/// A triangle with its own normal and a vertex in the closed cell.
pub open spec fn anchored(cell: Cell, t: FacetN) -> bool {
    &&& t.normal == t.facet.normal()
    &&& cell.contains(t.facet.a) || cell.contains(t.facet.b) || cell.contains(t.facet.c)
}

/// A triangle that crosses the cell is among those found for it.
pub proof fn lemma_crossed_found(cell: Cell, tris: Seq<FacetN>, t: FacetN, wa: int, wb: int, wc: int)
    requires
        tris.contains(t),
        crossed(cell, t, wa, wb, wc),
    ensures
        relevant(cell, tris).contains(t),
{
    let pred = |t: FacetN| hits(cell, t);
    lemma_shared_point_touches(cell, t.facet, wa, wb, wc);
    assert(t == t.facet.with_normal());
    let at = choose|i: int| 0 <= i < tris.len() && tris[i] == t;
    tris.lemma_filter_contains(pred, at);
}

/// A surface that crosses the cell, with a vertex in it or without one, has
/// an occupied leaf at every depth: what was found there is not lost on a
/// finer level.
pub proof fn lemma_crossed_survives(
    cell: Cell,
    tris: Seq<FacetN>,
    t: FacetN,
    wa: int,
    wb: int,
    wc: int,
    depth: nat,
)
    requires
        halvable(cell.edge, depth),
        tris.contains(t),
        crossed(cell, t, wa, wb, wc),
    ensures
        divide_spec(cell, tris, depth).occupied() >= 1,
    decreases depth,
{
    let found = relevant(cell, tris);
    lemma_crossed_found(cell, tris, t, wa, wb, wc);
    if depth > 0 {
        let d = (depth - 1) as nat;
        lemma_shared_point_in_octant(cell, t.facet, wa, wb, wc);
        let i = octant_of_shared(cell, t.facet, wa, wb, wc);
        lemma_crossed_survives(octant(cell, i), found, t, wa, wb, wc, d);
    }
}

/// A surface with a vertex in the cell has an occupied leaf at every
/// depth.
pub proof fn lemma_occupied_survives(cell: Cell, tris: Seq<FacetN>, t: FacetN, depth: nat)
    requires
        halvable(cell.edge, depth),
        tris.contains(t),
        anchored(cell, t),
    ensures
        divide_spec(cell, tris, depth).occupied() >= 1,
{
    if cell.contains(t.facet.a) {
        lemma_crossed_survives(cell, tris, t, 1, 0, 0, depth);
    } else if cell.contains(t.facet.b) {
        lemma_crossed_survives(cell, tris, t, 0, 1, 0, depth);
    } else {
        lemma_crossed_survives(cell, tris, t, 0, 0, 1, depth);
    }
}

/// The triangles on a grid `k` times as fine.
pub open spec fn magnified(tris: Seq<FacetN>, k: int) -> Seq<FacetN> {
    Seq::new(tris.len(), |i: int| tris[i].times(k))
}

proof fn lemma_relevant_magnified(cell: Cell, tris: Seq<FacetN>, k: int)
    requires
        k > 0,
    ensures
        relevant(cell.times(k), magnified(tris, k)) == magnified(relevant(cell, tris), k),
    decreases tris.len(),
{
    reveal(Seq::filter);
    let fine = magnified(tris, k);
    if tris.len() == 0 {
        assert(relevant(cell.times(k), fine) =~= magnified(relevant(cell, tris), k));
    } else {
        let pre = tris.drop_last();
        let last = tris.last();
        lemma_relevant_magnified(cell, pre, k);
        lemma_hits_magnified(cell, last, k);
        assert(fine.drop_last() =~= magnified(pre, k));
        assert(fine.last() == last.times(k));
        let kept = relevant(cell, pre);
        if hits(cell, last) {
            assert(magnified(kept.push(last), k) =~= magnified(kept, k).push(last.times(k)));
        }
    }
}

proof fn lemma_half_magnified(k: int, e: int)
    requires
        e % 2 == 0,
    ensures
        (k * e) / 2 == k * (e / 2),
{
    let h = e / 2;
    assert(k * (2 * h) == 2 * (k * h)) by (nonlinear_arith);
}

proof fn lemma_octant_magnified(cell: Cell, k: int, i: int)
    requires
        cell.edge % 2 == 0,
    ensures
        octant(cell.times(k), i) == octant(cell, i).times(k),
{
    let h = cell.edge / 2;
    lemma_half_magnified(k, cell.edge);
    assert(k * (cell.origin.x + h) == k * cell.origin.x + k * h) by (nonlinear_arith);
    assert(k * (cell.origin.y + h) == k * cell.origin.y + k * h) by (nonlinear_arith);
    assert(k * (cell.origin.z + h) == k * cell.origin.z + k * h) by (nonlinear_arith);
}

/// The tree does not depend on the unit of the grid: on a grid `k` times
/// as fine, subdivision of the same cube around the same triangles builds
/// the same tree.
pub proof fn lemma_divide_magnified(cell: Cell, tris: Seq<FacetN>, k: int, depth: nat)
    requires
        k > 0,
        halvable(cell.edge, depth),
    ensures
        divide_spec(cell.times(k), magnified(tris, k), depth) == divide_spec(cell, tris, depth),
    decreases depth,
{
    let found = relevant(cell, tris);
    lemma_relevant_magnified(cell, tris, k);
    if depth > 0 && found.len() > 0 {
        let d = (depth - 1) as nat;
        lemma_octant_magnified(cell, k, 0);
        lemma_octant_magnified(cell, k, 1);
        lemma_octant_magnified(cell, k, 2);
        lemma_octant_magnified(cell, k, 3);
        lemma_octant_magnified(cell, k, 4);
        lemma_octant_magnified(cell, k, 5);
        lemma_octant_magnified(cell, k, 6);
        lemma_octant_magnified(cell, k, 7);
        lemma_divide_magnified(octant(cell, 0), found, k, d);
        lemma_divide_magnified(octant(cell, 1), found, k, d);
        lemma_divide_magnified(octant(cell, 2), found, k, d);
        lemma_divide_magnified(octant(cell, 3), found, k, d);
        lemma_divide_magnified(octant(cell, 4), found, k, d);
        lemma_divide_magnified(octant(cell, 5), found, k, d);
        lemma_divide_magnified(octant(cell, 6), found, k, d);
        lemma_divide_magnified(octant(cell, 7), found, k, d);
    }
}

} // verus!
