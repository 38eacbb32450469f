//! The mesh of a field: its vertices, its quads and its triangles.

use crate::cell::signs;
use crate::lattice::{checked_cube, cube, lemma_cube_side, Coord};
use crate::laws::lemma_quads_ok;
use crate::mesh::{
    active_cells, all_quads, covered, index_grid, make_all_quads, make_triangle, place_vertices, quad_ok,
    quad_triangles, Quad, NO_VERTEX,
};
use crate::sampler::{is_field, FieldSampler};
use vstd::prelude::*;

verus! {

/// Why a field was not meshed.
#[derive(Clone, Copy, Debug, PartialEq, Eq, Structural)]
pub enum SurfaceNetError {
    /// The grid has no cells: the resolution is zero.
    InvalidResolution,
    /// The lattice has more points than can be counted in a `usize`.
    GridTooLarge,
}

/// The connectivity of a mesh.
///
/// `cells` holds, for every vertex, the cell in which it lies; vertex `i` of
/// the mesh belongs to `cells[i]`. `quads` holds the quads, each over four
/// different vertices.
pub struct SurfaceNet {
    cells: Vec<Coord>,
    quads: Vec<Quad>,
}

/// A mesh as plain sequences.
pub ghost struct SurfaceNetView {
    pub cells: Seq<Coord>,
    pub quads: Seq<Quad>,
}

impl View for SurfaceNet {
    type V = SurfaceNetView;

    closed spec fn view(&self) -> SurfaceNetView {
        SurfaceNetView { cells: self.cells@, quads: self.quads@ }
    }
}

/// Whether `net` is the mesh of the field with the signs `negative` over a
/// grid of `resolution` cells a side: its vertices are the cells through
/// which the surface passes, in ascending order of `(x, y, z)`, and its
/// quads are those around the crossed edges, over the index grid of those
/// vertices.
pub open spec fn is_surface_net(
    net: SurfaceNetView,
    negative: spec_fn(Coord) -> bool,
    resolution: usize,
) -> bool {
    &&& net.cells == active_cells(negative, resolution)
    &&& net.quads == all_quads(negative, index_grid(negative, resolution), resolution)
}

/// The triangles of a sequence of quads: the two triangles of each quad, quad
/// after quad, each split as `first_shorter` says at the quad's place.
pub open spec fn triangles(quads: Seq<Quad>, first_shorter: Seq<bool>) -> Seq<usize> {
    Seq::new(quads.len(), |k: int| quad_triangles(quads[k], first_shorter[k])).flatten()
}

impl SurfaceNet {
    #[verifier::type_invariant]
    spec fn joined(self) -> bool {
        forall|k: int| 0 <= k < self.quads@.len() ==> quad_ok(#[trigger] self.quads@[k], self.cells@.len())
    }

    /// The cells of the vertices, in the order of the vertices.
    pub fn cells(&self) -> (cells: &Vec<Coord>)
        ensures
            cells@ == self@.cells,
            forall|k: int|
                0 <= k < self@.quads.len() ==> quad_ok(#[trigger] self@.quads[k], cells@.len()),
    {
        proof {
            use_type_invariant(self);
        }
        &self.cells
    }

    /// The quads of the mesh. Each joins four different vertices.
    pub fn quads(&self) -> (quads: &Vec<Quad>)
        ensures
            quads@ == self@.quads,
            forall|k: int| 0 <= k < quads@.len() ==> quad_ok(#[trigger] quads@[k], self@.cells.len()),
            self@.cells.len() <= usize::MAX,
    {
        proof {
            use_type_invariant(self);
            assert(self.cells.len() == self.cells@.len());
        }
        &self.quads
    }
}

/// Whether the three corners of every triangle in `indices` are different
/// vertices out of `vertex_count`.
pub open spec fn triangles_ok(indices: Seq<usize>, vertex_count: nat) -> bool {
    &&& indices.len() % 3 == 0
    &&& forall|i: int| 0 <= i < indices.len() ==> #[trigger] indices[i] < vertex_count
    &&& forall|t: int|
        0 <= t && 3 * t + 2 < indices.len() ==> {
            &&& #[trigger] indices[3 * t] != indices[3 * t + 1]
            &&& indices[3 * t] != indices[3 * t + 2]
            &&& indices[3 * t + 1] != indices[3 * t + 2]
        }
}

/// Splits every quad of `net` into two triangles and returns the corners of
/// all triangles as one list of vertex indices, three for each triangle.
///
/// `first_shorter` holds one answer for each quad, in the order of the
/// quads: whether the diagonal from `v1` to `v4` is shorter than the one
/// from `v2` to `v3`. Where it does not hold exactly one answer for each
/// quad, the result is `None`.
pub fn make_all_triangles(net: &SurfaceNet, first_shorter: &Vec<bool>) -> (indices: Option<
    Vec<usize>,
>)
    ensures
        indices.is_some() <==> first_shorter@.len() == net@.quads.len(),
        indices.is_some() ==> {
            &&& indices.unwrap()@ == triangles(net@.quads, first_shorter@)
            &&& indices.unwrap()@.len() == 6 * net@.quads.len()
            &&& triangles_ok(indices.unwrap()@, net@.cells.len())
            &&& forall|i: int|
                0 <= i < indices.unwrap()@.len() ==> #[trigger] indices.unwrap()@[i] != NO_VERTEX
        },
{
    let quads = net.quads();
    if first_shorter.len() != quads.len() {
        return None;
    }
    let ghost parts = Seq::new(
        quads@.len(),
        |k: int| quad_triangles(quads@[k], first_shorter@[k]),
    );
    let ghost count = net@.cells.len();
    let mut indices: Vec<usize> = Vec::new();
    let mut k: usize = 0;
    assert(parts.take(0) =~= Seq::empty());
    while k < quads.len()
        invariant
            k <= quads.len(),
            quads@ == net@.quads,
            first_shorter@.len() == quads@.len(),
            count == net@.cells.len(),
            count <= usize::MAX,
            parts == Seq::new(quads@.len(), |k: int| quad_triangles(quads@[k], first_shorter@[k])),
            forall|k: int| 0 <= k < quads@.len() ==> quad_ok(#[trigger] quads@[k], count),
            indices@ == parts.take(k as int).flatten(),
            indices@.len() == 6 * k,
            triangles_ok(indices@, count),
        decreases quads.len() - k,
    {
        let ghost before = indices@;
        let ghost added = quad_triangles(quads@[k as int], first_shorter@[k as int]);
        make_triangle(&mut indices, &quads[k], first_shorter[k]);
        proof {
            assert(quad_ok(quads@[k as int], count));
            assert(added.len() == 6);
            assert(indices@ == before + added);
            assert(parts.take(k + 1) =~= parts.take(k as int).push(added));
            crate::mesh::lemma_flatten_push(parts.take(k as int), added);
            assert forall|i: int| 0 <= i < indices@.len() implies #[trigger] indices@[i]
                < count by {
                if i >= before.len() {
                    assert(indices@[i] == added[i - before.len()]);
                }
            }
            assert forall|t: int| 0 <= t && 3 * t + 2 < indices@.len() implies {
                &&& #[trigger] indices@[3 * t] != indices@[3 * t + 1]
                &&& indices@[3 * t] != indices@[3 * t + 2]
                &&& indices@[3 * t + 1] != indices@[3 * t + 2]
            } by {
                if t >= 2 * k {
                    let j = 3 * t - before.len();
                    assert(j == 0 || j == 3);
                    assert(indices@[3 * t] == added[j]);
                    assert(indices@[3 * t + 1] == added[j + 1]);
                    assert(indices@[3 * t + 2] == added[j + 2]);
                } else {
                    assert(indices@[3 * t] == before[3 * t]);
                    assert(indices@[3 * t + 1] == before[3 * t + 1]);
                    assert(indices@[3 * t + 2] == before[3 * t + 2]);
                }
            }
        }
        k += 1;
    }
    proof {
        assert(parts.take(k as int) =~= parts);
        assert(parts =~= Seq::new(
            net@.quads.len(),
            |k: int| quad_triangles(net@.quads[k], first_shorter@[k]),
        ));
    }
    Some(indices)
}

/// Meshes the field behind `grid_values`: finds the cells through which the
/// surface passes and numbers their vertices, then gathers the quads around
/// the crossed lattice edges.
pub fn surface_net_impl<F: Fn(usize, usize, usize) -> bool>(
    grid_values: &FieldSampler<bool, F>,
) -> (net: SurfaceNet)
    ensures
        is_surface_net(net@, signs(grid_values.field()), grid_values.resolution()),
        covered(grid_values.field(), grid_values.resolution()),
{
    let resolution = grid_values.resolution();
    let (cells, grid_to_index) = place_vertices(grid_values);
    let quads = make_all_quads(grid_values, &grid_to_index);
    proof {
        lemma_cube_side(resolution as nat, (resolution + 1) as nat);
        lemma_quads_ok(signs(grid_values.field()), resolution);
    }
    SurfaceNet { cells, quads }
}

/// Meshes a field over a grid of `resolution` cells a side.
///
/// `signed_distance_field` tells for every point of the lattice whether the
/// field is negative there, which is the solid side of the surface. With
/// `precompute` it is called once for every point of the lattice before
/// anything else is done; without, it is called whenever a sign is needed.
/// The mesh is the same either way.
pub fn surface_net<F: Fn(usize, usize, usize) -> bool>(
    resolution: usize,
    signed_distance_field: F,
    precompute: bool,
) -> (result: Result<SurfaceNet, SurfaceNetError>)
    requires
        is_field(signed_distance_field, resolution),
    ensures
        result.is_ok() <==> resolution > 0 && cube((resolution + 1) as nat) <= usize::MAX,
        result == Err::<SurfaceNet, SurfaceNetError>(SurfaceNetError::InvalidResolution)
            <==> resolution == 0,
        result == Err::<SurfaceNet, SurfaceNetError>(SurfaceNetError::GridTooLarge) <==> resolution
            > 0 && cube((resolution + 1) as nat) > usize::MAX,
        result.is_ok() ==> is_surface_net(
            result.unwrap()@,
            signs(signed_distance_field),
            resolution,
        ),
        result.is_ok() ==> covered(signed_distance_field, resolution),
{
    if resolution == 0 {
        return Err(SurfaceNetError::InvalidResolution);
    }
    let fits = match resolution.checked_add(1) {
        Some(points) => checked_cube(points).is_some(),
        None => {
            proof {
                lemma_cube_side(0, (resolution + 1) as nat);
            }
            false
        },
    };
    if !fits {
        return Err(SurfaceNetError::GridTooLarge);
    }
    let grid_values = FieldSampler::new(resolution, signed_distance_field, precompute);
    Ok(surface_net_impl(&grid_values))
}

} // verus!
