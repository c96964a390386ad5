//! Classification of 2-D lattice points against a polygon with holes.
//!
//! A polygon arrives as a flat vertex array and ring splits; a batch of
//! points arrives as a flat coordinate array. Coordinates are `i32` lattice
//! values and all geometry is exact: a host that holds floating-point
//! coordinates scales them onto the lattice first, and at that scale two
//! points either coincide or are at least a unit apart.
//!
//! Each point gets a 0/1 flag: outside the polygon's box it is 0; on an edge
//! it is the caller's boundary flag; otherwise the parity rule decides, with
//! the outer ring counted in and each associated hole counted out.
pub mod geometry;
pub mod polygon;
pub mod grid;
pub mod scanline;
pub mod classify;

pub use classify::{
    ClassifyError, point_in_polygon, point_in_polygon_rayster, point_in_polygon_scanline,
};
