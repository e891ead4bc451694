//! Builds a bounding volume hierarchy over triangles on the integer grid,
//! rewrites it into a depth-first array and packs that array into a fixed
//! binary layout.
//!
//! Coordinates are 32-bit integers: whoever holds geometry in another form
//! puts it on a grid first. Every quantity that the builder compares is then
//! an exact integer, and the tree that comes out is a function of the
//! primitives that went in.

pub mod primitives;
pub mod process;
