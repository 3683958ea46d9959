//! Points, triangles and cubes on the integer grid, and their model over
//! the mathematical integers.

use vstd::prelude::*;

verus! {

/// Largest magnitude of a coordinate that the intersection test accepts.
pub const LIMIT: i64 = 0x100_0000_0000;

/// A vector of mathematical integers: the model of points, edges and normals.
pub struct Vector {
    pub x: int,
    pub y: int,
    pub z: int,
}

impl Vector {
    /// The sum of two vectors.
    pub open spec fn plus(self, o: Vector) -> Vector {
        Vector { x: self.x + o.x, y: self.y + o.y, z: self.z + o.z }
    }

    /// The difference of two vectors.
    pub open spec fn minus(self, o: Vector) -> Vector {
        Vector { x: self.x - o.x, y: self.y - o.y, z: self.z - o.z }
    }

    /// The vector with every component multiplied by `k`.
    pub open spec fn times(self, k: int) -> Vector {
        Vector { x: k * self.x, y: k * self.y, z: k * self.z }
    }

    /// The inner product of two vectors.
    pub open spec fn dot(self, o: Vector) -> int {
        self.x * o.x + self.y * o.y + self.z * o.z
    }

    /// The cross product of two vectors.
    pub open spec fn cross(self, o: Vector) -> Vector {
        Vector {
            x: self.y * o.z - self.z * o.y,
            y: self.z * o.x - self.x * o.z,
            z: self.x * o.y - self.y * o.x,
        }
    }

    /// Every component has magnitude at most `m`.
    pub open spec fn within(self, m: int) -> bool {
        &&& -m <= self.x <= m
        &&& -m <= self.y <= m
        &&& -m <= self.z <= m
    }
}

/// The smaller of two numbers.
pub open spec fn min2(a: int, b: int) -> int {
    if a <= b { a } else { b }
}

/// The larger of two numbers.
pub open spec fn max2(a: int, b: int) -> int {
    if a >= b { a } else { b }
}

/// The smallest of three numbers.
pub open spec fn min3(a: int, b: int, c: int) -> int {
    min2(a, min2(b, c))
}

/// The largest of three numbers.
pub open spec fn max3(a: int, b: int, c: int) -> int {
    max2(a, max2(b, c))
}

/// A point of the grid, or a displacement between two of them.
#[derive(Clone, Copy, Debug, PartialEq, Eq, Structural)]
pub struct V3 {
    pub x: i64,
    pub y: i64,
    pub z: i64,
}

impl View for V3 {
    type V = Vector;

    open spec fn view(&self) -> Vector {
        Vector { x: self.x as int, y: self.y as int, z: self.z as int }
    }
}

impl V3 {
    /// The point with the coordinates `x`, `y`, `z`.
    pub fn new(x: i64, y: i64, z: i64) -> (r: V3)
        ensures
            r == (V3 { x, y, z }),
    {
        V3 { x, y, z }
    }
}

/// A face normal: the cross product of two edges, not scaled to unit length.
#[derive(Clone, Copy, Debug, PartialEq, Eq, Structural)]
pub struct Normal {
    pub x: i128,
    pub y: i128,
    pub z: i128,
}

impl View for Normal {
    type V = Vector;

    open spec fn view(&self) -> Vector {
        Vector { x: self.x as int, y: self.y as int, z: self.z as int }
    }
}

/// The model of a triangle: an ordered triple of points.
pub struct Facet {
    pub a: Vector,
    pub b: Vector,
    pub c: Vector,
}

impl Facet {
    /// The face normal that the vertex order gives: the cross product of
    /// the edges out of the first vertex.
    pub open spec fn normal(self) -> Vector {
        self.b.minus(self.a).cross(self.c.minus(self.a))
    }

    /// Every coordinate of every vertex has magnitude at most `m`.
    pub open spec fn within(self, m: int) -> bool {
        self.a.within(m) && self.b.within(m) && self.c.within(m)
    }

    /// The triangle with its own normal.
    pub open spec fn with_normal(self) -> FacetN {
        FacetN { facet: self, normal: self.normal() }
    }

    /// The triangle with every coordinate multiplied by `k`.
    pub open spec fn times(self, k: int) -> Facet {
        Facet { a: self.a.times(k), b: self.b.times(k), c: self.c.times(k) }
    }
}

/// The model of a triangle with a cached normal.
pub struct FacetN {
    pub facet: Facet,
    pub normal: Vector,
}

impl FacetN {
    /// The vertices are in range and the cached normal is the triangle's own.
    pub open spec fn wf(self) -> bool {
        self.facet.within(LIMIT as int) && self.normal == self.facet.normal()
    }

    /// The triangle with every coordinate multiplied by `k`. The normal is
    /// a product of two edges, so it is multiplied by `k` twice.
    pub open spec fn times(self, k: int) -> FacetN {
        FacetN { facet: self.facet.times(k), normal: self.normal.times(k * k) }
    }
}

/// A triangle: an ordered triple of grid points.
#[derive(Clone, Copy, Debug, PartialEq, Eq, Structural)]
pub struct Tri {
    pub a: V3,
    pub b: V3,
    pub c: V3,
}

impl View for Tri {
    type V = Facet;

    open spec fn view(&self) -> Facet {
        Facet { a: self.a@, b: self.b@, c: self.c@ }
    }
}

/// The models of the triangles of a mesh, in their order.
pub open spec fn facets(mesh: Seq<Tri>) -> Seq<Facet> {
    Seq::new(mesh.len(), |i: int| mesh[i]@)
}

/// Every component is a value of the grid's coordinate type.
pub open spec fn fits(v: Vector) -> bool {
    &&& i64::MIN <= v.x <= i64::MAX
    &&& i64::MIN <= v.y <= i64::MAX
    &&& i64::MIN <= v.z <= i64::MAX
}

/// A triangle with its cached face normal.
#[derive(Clone, Copy, Debug, PartialEq, Eq, Structural)]
pub struct TriN(pub Tri, pub Normal);

impl View for TriN {
    type V = FacetN;

    open spec fn view(&self) -> FacetN {
        FacetN { facet: self.0@, normal: self.1@ }
    }
}

/// The models of a sequence of triangles with normals, in their order.
pub open spec fn models(tris: Seq<TriN>) -> Seq<FacetN> {
    Seq::new(tris.len(), |i: int| tris[i]@)
}

/// The model of a cube: its minimum corner and its edge length.
pub struct Cell {
    pub origin: Vector,
    pub edge: int,
}

impl Cell {
    /// The point `p` lies in the closed cube.
    pub open spec fn contains(self, p: Vector) -> bool {
        &&& self.origin.x <= p.x <= self.origin.x + self.edge
        &&& self.origin.y <= p.y <= self.origin.y + self.edge
        &&& self.origin.z <= p.z <= self.origin.z + self.edge
    }

    /// The point `p` lies strictly inside the cube.
    pub open spec fn contains_inside(self, p: Vector) -> bool {
        &&& self.origin.x < p.x < self.origin.x + self.edge
        &&& self.origin.y < p.y < self.origin.y + self.edge
        &&& self.origin.z < p.z < self.origin.z + self.edge
    }

    /// The volume of the cube.
    pub open spec fn volume(self) -> int {
        self.edge * self.edge * self.edge
    }

    /// The cube with every coordinate multiplied by `k`.
    pub open spec fn times(self, k: int) -> Cell {
        Cell { origin: self.origin.times(k), edge: k * self.edge }
    }
}

/// An axis-aligned cube: its minimum corner and its edge length.
/// It spans `[origin, origin + (edge, edge, edge)]`.
#[derive(Clone, Copy, Debug, PartialEq, Eq, Structural)]
pub struct Cube(pub V3, pub i64);

impl View for Cube {
    type V = Cell;

    open spec fn view(&self) -> Cell {
        Cell { origin: self.0@, edge: self.1 as int }
    }
}

impl Cube {
    /// The edge is positive, and both extreme corners are in range.
    pub open spec fn wf(self) -> bool {
        &&& 0 < self.1 <= LIMIT
        &&& self.0@.within(LIMIT as int)
        &&& self.0.x + self.1 <= LIMIT
        &&& self.0.y + self.1 <= LIMIT
        &&& self.0.z + self.1 <= LIMIT
    }
}

/// The largest of three numbers.
pub fn max(a: i64, b: i64, c: i64) -> (r: i64)
    ensures
        r == max3(a as int, b as int, c as int),
{
    let bc: i64 = if b >= c { b } else { c };
    if a >= bc { a } else { bc }
}

/// The componentwise minimum of two points.
pub fn min_v3(a: V3, b: V3) -> (r: V3)
    ensures
        r.x == min2(a.x as int, b.x as int),
        r.y == min2(a.y as int, b.y as int),
        r.z == min2(a.z as int, b.z as int),
{
    V3 {
        x: if a.x <= b.x { a.x } else { b.x },
        y: if a.y <= b.y { a.y } else { b.y },
        z: if a.z <= b.z { a.z } else { b.z },
    }
}

/// The componentwise maximum of two points.
pub fn max_v3(a: V3, b: V3) -> (r: V3)
    ensures
        r.x == max2(a.x as int, b.x as int),
        r.y == max2(a.y as int, b.y as int),
        r.z == max2(a.z as int, b.z as int),
{
    V3 {
        x: if a.x >= b.x { a.x } else { b.x },
        y: if a.y >= b.y { a.y } else { b.y },
        z: if a.z >= b.z { a.z } else { b.z },
    }
}

} // verus!
