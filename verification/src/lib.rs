//! Surface nets: the connectivity of an isosurface mesh over a cubic lattice.
//!
//! A scalar field is sampled on the `(resolution + 1)^3` points of a lattice.
//! A negative sample is solid, any other sample is air. A cell of the lattice
//! through which the surface passes receives one vertex; around every lattice
//! edge that the surface crosses, the four cells that share the edge are
//! joined into a quad, which is split into two triangles.
//!
//! This crate decides everything that depends on the signs of the samples
//! alone: which cells carry a vertex, the order of the vertices, the quads
//! and the winding of their triangles. Where the surface lies inside a cell
//! is arithmetic on the samples themselves and is left to the caller.

pub mod array;
pub mod cell;
pub mod lattice;
pub mod laws;
pub mod mesh;
pub mod net;
pub mod sampler;

pub use array::Array;
pub use cell::{find_center, find_edge, OFFSETS};
pub use lattice::{coords, Coord};
pub use mesh::{
    is_face, make_all_quads, make_quad, make_triangle, place_vertices, FaceResult, Quad,
    NO_VERTEX,
};
pub use net::{
    make_all_triangles, surface_net, surface_net_impl, SurfaceNet, SurfaceNetError,
};
pub use sampler::FieldSampler;
