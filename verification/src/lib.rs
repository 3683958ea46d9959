//! Printable octree lattices on an integer grid.
//!
//! A closed triangulated surface is indexed in an octree of cubic cells,
//! and the tree is then walked to emit a self-similar lattice of columns:
//! every node of the tree, branch or leaf, has its columns along the edges
//! of its cube, and an occupied leaf has them wider.
//!
//! - [`geometry`]: points, triangles and cubes, and their models.
//! - [`intersect`]: the test whether a triangle touches a cube.
//! - [`octree`]: the tree of occupancy flags and its builder.
//! - [`lattice`]: the generator of the columns.
//! - [`art`]: the bounding cube of a surface, and the whole way from a
//!   surface to its lattice.
//! - [`text`]: rewriting the numbers of a text that carry an exponent.
//! - [`arith`]: facts of integer arithmetic that the proofs rest on.
//!
//! All coordinates are integers. A surface is given in grid units of the
//! caller's choosing, and the lattice comes out in nanometres. Every
//! contract speaks of the mathematical integers: a point is a
//! [`geometry::Vector`], a triangle a [`geometry::Facet`], a cube a
//! [`geometry::Cell`]. On a grid the test rounds nothing, and the laws of
//! the library are proved of the very code that runs. A cube halves
//! exactly only where its edge is even: the octants of such a cube tile it,
//! and a cube is subdivided only as deep as its edge can be halved.

pub mod arith;
pub mod geometry;
pub mod intersect;
pub mod octree;
pub mod lattice;
pub mod art;
pub mod text;
pub mod mesh;
