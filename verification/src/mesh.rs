//! Joining the vertices: the faces between lattice points, the quads around
//! crossed edges, and the triangles that the quads are split into.

use crate::array::Array;
use crate::cell::{answered, cell_active, cell_answered, corner, find_center, signs};
use crate::lattice::{
    coord_at, cube, cube_len, in_cube, lemma_cube_side, lemma_linear_bound, lemma_scan_ascends,
    lemma_scan_start, linear, next_coord, scan_order, Coord,
};
use crate::sampler::{on_lattice, FieldSampler};
use vstd::prelude::*;

verus! {

/// What the surface does between a lattice point and its neighbour along an
/// axis.
#[derive(Clone, Copy, Debug, PartialEq, Eq, Structural)]
pub enum FaceResult {
    /// Both points lie on the same side of the surface.
    NoFace,
    /// The point is air and its neighbour is solid.
    FacePositive,
    /// The point is solid and its neighbour is air.
    FaceNegative,
}

/// The four vertices around a crossed lattice edge, and which way the
/// surface faces there.
///
/// The four cells that share the edge lie around it like this:
///
/// ```text
/// v1 v3
/// v2 v4
/// ```
///
/// `v1` is the vertex of the cell that the edge leaves, `v2` and `v3` are
/// those of its neighbours one step back along the first and the second of
/// the two other axes, and `v4` is that of the cell one step back along
/// both. So `v1` and `v4` lie across the quad from each other, and so do
/// `v2` and `v3`.
#[derive(Clone, Copy, Debug, PartialEq, Eq, Structural)]
pub struct Quad {
    pub v1: usize,
    pub v2: usize,
    pub v3: usize,
    pub v4: usize,
    pub face: FaceResult,
}

/// The entry of the index grid for a cell without a vertex. It is never the
/// index of a vertex.
pub const NO_VERTEX: usize = usize::MAX;

/// The coordinate `c` moved forward by `d`.
pub open spec fn plus(c: Coord, d: Coord) -> Coord {
    ((c.0 + d.0) as usize, (c.1 + d.1) as usize, (c.2 + d.2) as usize)
}

/// The coordinate `c` moved back by `d`.
pub open spec fn minus(c: Coord, d: Coord) -> Coord {
    ((c.0 - d.0) as usize, (c.1 - d.1) as usize, (c.2 - d.2) as usize)
}

/// Whether `c` can be moved back by `axis1` and by `axis2`, one after the
/// other, without leaving the grid.
pub open spec fn steps_back(c: Coord, axis1: Coord, axis2: Coord) -> bool {
    c.0 >= axis1.0 + axis2.0 && c.1 >= axis1.1 + axis2.1 && c.2 >= axis1.2 + axis2.2
}

/// Whether `c` moved forward by `offset` is still a point of the lattice of
/// a grid of `resolution` cells a side.
pub open spec fn steps_forward(resolution: usize, c: Coord, offset: Coord) -> bool {
    c.0 + offset.0 <= resolution && c.1 + offset.1 <= resolution && c.2 + offset.2 <= resolution
}

/// The face between the lattice point `c` and the point `offset` further.
pub open spec fn face(negative: spec_fn(Coord) -> bool, c: Coord, offset: Coord) -> FaceResult {
    let here = negative(c);
    let there = negative(plus(c, offset));
    if !here && there {
        FaceResult::FacePositive
    } else if here && !there {
        FaceResult::FaceNegative
    } else {
        FaceResult::NoFace
    }
}

/// The quad of four entries of the index grid around an edge with the given
/// face. There is none where the surface does not cross the edge, nor where
/// one of the four cells has no vertex.
pub open spec fn quad_of(face: FaceResult, v1: usize, v2: usize, v3: usize, v4: usize) -> Option<
    Quad,
> {
    if face == FaceResult::NoFace || v1 == NO_VERTEX || v2 == NO_VERTEX || v3 == NO_VERTEX || v4
        == NO_VERTEX {
        None
    } else {
        Some(Quad { v1, v2, v3, v4, face })
    }
}

/// Whether a quad joins four different vertices out of `vertex_count` and
/// lies on a crossed edge.
pub open spec fn quad_ok(quad: Quad, vertex_count: nat) -> bool {
    &&& quad.face != FaceResult::NoFace
    &&& quad.v1 < vertex_count
    &&& quad.v2 < vertex_count
    &&& quad.v3 < vertex_count
    &&& quad.v4 < vertex_count
    &&& quad.v1 != quad.v2
    &&& quad.v1 != quad.v3
    &&& quad.v1 != quad.v4
    &&& quad.v2 != quad.v3
    &&& quad.v2 != quad.v4
    &&& quad.v3 != quad.v4
}

/// The two triangles of a quad, as six vertex indices.
///
/// The quad is split along the diagonal from `v1` to `v4` where
/// `first_shorter` holds, and along the diagonal from `v2` to `v3` where it
/// does not. Seen from the air, in a right-handed frame, the corners of each
/// triangle run anticlockwise: the triangles of a positive face turn one way
/// and those of a negative face the other way, whichever diagonal splits the
/// quad.
pub open spec fn quad_triangles(quad: Quad, first_shorter: bool) -> Seq<usize> {
    let Quad { v1, v2, v3, v4, face } = quad;
    match (face, first_shorter) {
        (FaceResult::NoFace, _) => Seq::empty(),
        (FaceResult::FacePositive, true) => seq![v1, v4, v2, v1, v3, v4],
        (FaceResult::FacePositive, false) => seq![v2, v3, v4, v2, v1, v3],
        (FaceResult::FaceNegative, true) => seq![v1, v2, v4, v1, v4, v3],
        (FaceResult::FaceNegative, false) => seq![v2, v4, v3, v2, v3, v1],
    }
}

/// Appends the two triangles of `quad` to `indices`.
///
/// `first_shorter` says whether the diagonal from `v1` to `v4` is shorter
/// than the one from `v2` to `v3`, measured between the placed vertices: the
/// quad is split along the shorter of the two, and along the second where
/// neither is shorter.
pub fn make_triangle(indices: &mut Vec<usize>, quad: &Quad, first_shorter: bool)
    ensures
        final(indices)@ == old(indices)@ + quad_triangles(*quad, first_shorter),
{
    let v1 = quad.v1;
    let v2 = quad.v2;
    let v3 = quad.v3;
    let v4 = quad.v4;
    if first_shorter {
        match quad.face {
            FaceResult::NoFace => (),
            FaceResult::FacePositive => {
                indices.push(v1);
                indices.push(v4);
                indices.push(v2);

                indices.push(v1);
                indices.push(v3);
                indices.push(v4);
            },
            FaceResult::FaceNegative => {
                indices.push(v1);
                indices.push(v2);
                indices.push(v4);

                indices.push(v1);
                indices.push(v4);
                indices.push(v3);
            },
        }
    } else {
        match quad.face {
            FaceResult::NoFace => (),
            FaceResult::FacePositive => {
                indices.push(v2);
                indices.push(v3);
                indices.push(v4);

                indices.push(v2);
                indices.push(v1);
                indices.push(v3);
            },
            FaceResult::FaceNegative => {
                indices.push(v2);
                indices.push(v4);
                indices.push(v3);

                indices.push(v2);
                indices.push(v3);
                indices.push(v1);
            },
        }
    }
    assert(indices@ =~= old(indices)@ + quad_triangles(*quad, first_shorter));
}

/// Compares the signs of the field at the lattice point `coord` and at the
/// point `offset` further.
pub fn is_face<F: Fn(usize, usize, usize) -> bool>(
    grid_values: &FieldSampler<bool, F>,
    coord: Coord,
    offset: Coord,
) -> (result: FaceResult)
    requires
        steps_forward(grid_values.resolution(), coord, offset),
    ensures
        result == face(signs(grid_values.field()), coord, offset),
        answered(grid_values.field(), coord),
        answered(grid_values.field(), plus(coord, offset)),
{
    let other = (coord.0 + offset.0, coord.1 + offset.1, coord.2 + offset.2);
    match (
        grid_values.sample(coord.0, coord.1, coord.2),
        grid_values.sample(other.0, other.1, other.2),
    ) {
        (false, true) => FaceResult::FacePositive,
        (true, false) => FaceResult::FaceNegative,
        _ => FaceResult::NoFace,
    }
}

/// Gathers the quad around the lattice edge that leaves `coord` along
/// `offset`: the vertices of the cell at `coord`, of the cells one step back
/// along `axis1` and along `axis2`, and of the cell one step back along both,
/// as `grid_to_index` has them. There is no quad where the surface does not
/// cross the edge, and none where one of the four cells has no vertex.
pub fn make_quad<F: Fn(usize, usize, usize) -> bool>(
    grid_values: &FieldSampler<bool, F>,
    grid_to_index: &Array<usize>,
    coord: Coord,
    offset: Coord,
    axis1: Coord,
    axis2: Coord,
) -> (quad: Option<Quad>)
    requires
        in_cube(grid_to_index.side(), coord),
        steps_forward(grid_values.resolution(), coord, offset),
        steps_back(coord, axis1, axis2),
    ensures
        quad == quad_of(
            face(signs(grid_values.field()), coord, offset),
            grid_to_index.at(coord),
            grid_to_index.at(minus(coord, axis1)),
            grid_to_index.at(minus(coord, axis2)),
            grid_to_index.at(minus(minus(coord, axis1), axis2)),
        ),
{
    let face_result = is_face(grid_values, coord, offset);
    if let FaceResult::NoFace = face_result {
        return None;
    }
    let v1 = grid_to_index[(coord.0, coord.1, coord.2)];
    let v2 = grid_to_index[(coord.0 - axis1.0, coord.1 - axis1.1, coord.2 - axis1.2)];
    let v3 = grid_to_index[(coord.0 - axis2.0, coord.1 - axis2.1, coord.2 - axis2.2)];
    let v4 = grid_to_index[(
        coord.0 - axis1.0 - axis2.0,
        coord.1 - axis1.1 - axis2.1,
        coord.2 - axis1.2 - axis2.2,
    )];
    if v1 == NO_VERTEX || v2 == NO_VERTEX || v3 == NO_VERTEX || v4 == NO_VERTEX {
        return None;
    }
    Some(Quad { v1, v2, v3, v4, face: face_result })
}

/// The test for a cell that carries a vertex, as a function of the cell.
pub open spec fn is_active(negative: spec_fn(Coord) -> bool) -> spec_fn(Coord) -> bool {
    |c: Coord| cell_active(negative, c)
}

/// The cells of a grid of `resolution` cells a side that carry a vertex, in
/// ascending order of `(x, y, z)`. This is the order of the vertices.
pub open spec fn active_cells(negative: spec_fn(Coord) -> bool, resolution: usize) -> Seq<Coord> {
    scan_order(resolution).filter(is_active(negative))
}

/// The number of cells with a vertex among the first `i` cells of the scan.
pub open spec fn rank(negative: spec_fn(Coord) -> bool, resolution: usize, i: int) -> nat {
    scan_order(resolution).take(i).filter(is_active(negative)).len()
}

/// The entry of the index grid at place `i` of the scan: the index of the
/// cell's vertex, or `NO_VERTEX` where the cell has none.
pub open spec fn grid_entry(negative: spec_fn(Coord) -> bool, resolution: usize, i: int) -> usize {
    if cell_active(negative, coord_at(resolution, i)) {
        rank(negative, resolution, i) as usize
    } else {
        NO_VERTEX
    }
}

/// The index grid: for every cell, in the order of the scan, the index of
/// its vertex or `NO_VERTEX`.
pub open spec fn index_grid(negative: spec_fn(Coord) -> bool, resolution: usize) -> Seq<usize> {
    Seq::new(cube(resolution as nat), |i: int| grid_entry(negative, resolution, i))
}

/// The three lattice edges that leave a point, each with the two other axes
/// in the order in which a quad around it is gathered.
pub open spec fn axes(a: int) -> (Coord, Coord, Coord) {
    if a == 0 {
        ((1, 0, 0), (0, 1, 0), (0, 0, 1))
    } else if a == 1 {
        ((0, 1, 0), (0, 0, 1), (1, 0, 0))
    } else {
        ((0, 0, 1), (1, 0, 0), (0, 1, 0))
    }
}

/// The quad around the lattice edge that leaves `c` along axis `a`, over the
/// entries of `grid`. An edge in one of the lower faces of the grid, where
/// `c` has no neighbour one step back along both other axes, has none.
pub open spec fn edge_quad(
    negative: spec_fn(Coord) -> bool,
    grid: Seq<usize>,
    resolution: usize,
    c: Coord,
    a: int,
) -> Option<Quad> {
    let (offset, axis1, axis2) = axes(a);
    if steps_back(c, axis1, axis2) {
        quad_of(
            face(negative, c, offset),
            grid[linear(resolution, c)],
            grid[linear(resolution, minus(c, axis1))],
            grid[linear(resolution, minus(c, axis2))],
            grid[linear(resolution, minus(minus(c, axis1), axis2))],
        )
    } else {
        None
    }
}

/// A sequence of the quad, if there is one.
pub open spec fn quad_seq(quad: Option<Quad>) -> Seq<Quad> {
    match quad {
        Some(q) => seq![q],
        None => Seq::empty(),
    }
}

/// The quads around the three lattice edges that leave `c`: first the one
/// along `x`, then `y`, then `z`.
pub open spec fn cell_quads(
    negative: spec_fn(Coord) -> bool,
    grid: Seq<usize>,
    resolution: usize,
    c: Coord,
) -> Seq<Quad> {
    quad_seq(edge_quad(negative, grid, resolution, c, 0)) + quad_seq(
        edge_quad(negative, grid, resolution, c, 1),
    ) + quad_seq(edge_quad(negative, grid, resolution, c, 2))
}

/// The quads of each cell, as a function of the cell.
pub open spec fn quads_at(
    negative: spec_fn(Coord) -> bool,
    grid: Seq<usize>,
    resolution: usize,
) -> spec_fn(Coord) -> Seq<Quad> {
    |c: Coord| cell_quads(negative, grid, resolution, c)
}

/// The quads of the whole grid: those of each cell, cell after cell in the
/// order of the scan.
pub open spec fn all_quads(
    negative: spec_fn(Coord) -> bool,
    grid: Seq<usize>,
    resolution: usize,
) -> Seq<Quad> {
    scan_order(resolution).map_values(quads_at(negative, grid, resolution)).flatten()
}

/// Flattening after one more sequence appends that sequence.
pub proof fn lemma_flatten_push<A>(parts: Seq<Seq<A>>, part: Seq<A>)
    ensures
        parts.push(part).flatten() == parts.flatten() + part,
{
    assert(parts.push(part) =~= parts + seq![part]);
    vstd::seq_lib::lemma_flatten_concat(parts, seq![part]);
    seq![part].lemma_flatten_one_element();
}

/// Whether the field has answered at every point of the lattice of a grid
/// of `resolution` cells a side. A grid without cells asks nothing of its
/// field.
pub open spec fn covered<F: Fn(usize, usize, usize) -> bool>(field: F, resolution: usize) -> bool {
    resolution > 0 ==> forall|p: Coord| on_lattice(resolution, p) ==> #[trigger] answered(field, p)
}

/// Every point of the lattice is a corner of some cell of the grid: a field
/// that has answered at the corners of every cell has answered everywhere.
pub proof fn lemma_cells_cover_lattice<F: Fn(usize, usize, usize) -> bool>(
    field: F,
    resolution: usize,
)
    requires
        forall|c: Coord| in_cube(resolution, c) ==> #[trigger] cell_answered(field, c),
    ensures
        covered(field, resolution),
{
    if resolution > 0 {
        assert forall|p: Coord| on_lattice(resolution, p) implies #[trigger] answered(
            field,
            p,
        ) by {
            let last = (resolution - 1) as usize;
            let c: Coord = (
                if p.0 < resolution { p.0 } else { last },
                if p.1 < resolution { p.1 } else { last },
                if p.2 < resolution { p.2 } else { last },
            );
            let k: int = (p.0 - c.0) + 2 * (p.1 - c.1) + 4 * (p.2 - c.2);
            assert(cell_answered(field, c));
            assert(corner(c, k as usize) == p);
        }
    }
}

/// Walks the cells of the grid in ascending order of `(x, y, z)` and gives
/// every cell through which the surface passes the next vertex index.
/// Returns those cells in that order, and the index grid, which holds for
/// every cell the index of its vertex or `NO_VERTEX`.
pub fn place_vertices<F: Fn(usize, usize, usize) -> bool>(
    grid_values: &FieldSampler<bool, F>,
) -> (placed: (Vec<Coord>, Array<usize>))
    ensures
        placed.0@ == active_cells(signs(grid_values.field()), grid_values.resolution()),
        placed.1.side() == grid_values.resolution(),
        placed.1@ == index_grid(signs(grid_values.field()), grid_values.resolution()),
        covered(grid_values.field(), grid_values.resolution()),
{
    let resolution = grid_values.resolution();
    let ghost negative = signs(grid_values.field());
    let ghost scan = scan_order(resolution);
    proof {
        lemma_cube_side(resolution as nat, (resolution + 1) as nat);
    }
    let total = cube_len(resolution);
    let mut cells: Vec<Coord> = Vec::new();
    let mut grid: Vec<usize> = Vec::new();
    let mut c: Coord = (0, 0, 0);
    let mut i: usize = 0;
    proof {
        lemma_scan_start(resolution);
        assert(scan.take(0) =~= Seq::empty());
        assert(scan.take(0).filter(is_active(negative)) =~= Seq::empty()) by {
            scan.take(0).lemma_filter_len(is_active(negative));
        }
    }
    while i < total
        invariant
            resolution == grid_values.resolution(),
            negative == signs(grid_values.field()),
            scan == scan_order(resolution),
            total == cube(resolution as nat),
            i <= total,
            linear(resolution, c) == i,
            i < total ==> in_cube(resolution, c) && c == coord_at(resolution, i as int),
            cells@ == scan.take(i as int).filter(is_active(negative)),
            grid@.len() == i,
            forall|j: int| 0 <= j < i ==> grid@[j] == grid_entry(negative, resolution, j),
            forall|d: Coord|
                in_cube(resolution, d) && linear(resolution, d) < i ==> #[trigger] cell_answered(
                    grid_values.field(),
                    d,
                ),
        decreases total - i,
    {
        proof {
            assert(scan.take(i + 1) =~= scan.take(i as int).push(c));
            scan.take(i as int).lemma_filter_push(c, is_active(negative));
            scan.take(i as int).lemma_filter_len(is_active(negative));
        }
        if find_center(grid_values, c).is_some() {
            grid.push(cells.len());
            cells.push(c);
        } else {
            grid.push(NO_VERTEX);
        }
        proof {
            assert forall|d: Coord|
                in_cube(resolution, d) && linear(resolution, d) < i + 1 implies #[trigger] cell_answered(
                grid_values.field(),
                d,
            ) by {
                lemma_scan_ascends(resolution, d, c);
            }
        }
        c = next_coord(resolution, c);
        i += 1;
    }
    proof {
        assert(scan.take(total as int) =~= scan);
        assert(grid@ =~= index_grid(negative, resolution));
        assert forall|d: Coord| in_cube(resolution, d) implies #[trigger] cell_answered(
            grid_values.field(),
            d,
        ) by {
            lemma_linear_bound(resolution, d);
        }
        lemma_cells_cover_lattice(grid_values.field(), resolution);
    }
    (cells, Array::new(resolution, grid))
}

/// Walks the cells of the grid in ascending order of `(x, y, z)` and gathers
/// the quads around the three lattice edges that leave each cell, over the
/// vertex indices in `grid_to_index`.
///
/// An edge along `x` gets a quad only where `y` and `z` of the cell are not
/// zero, and likewise for the other two axes: the edges in the lower faces
/// of the grid lack a neighbouring cell, so the mesh stays open there.
pub fn make_all_quads<F: Fn(usize, usize, usize) -> bool>(
    grid_values: &FieldSampler<bool, F>,
    grid_to_index: &Array<usize>,
) -> (quads: Vec<Quad>)
    requires
        grid_to_index.side() == grid_values.resolution(),
    ensures
        quads@ == all_quads(
            signs(grid_values.field()),
            grid_to_index@,
            grid_values.resolution(),
        ),
{
    let resolution = grid_values.resolution();
    let ghost negative = signs(grid_values.field());
    let ghost scan = scan_order(resolution);
    let ghost per_cell = quads_at(negative, grid_to_index@, resolution);
    proof {
        lemma_cube_side(resolution as nat, (resolution + 1) as nat);
    }
    let total = cube_len(resolution);
    let mut quads: Vec<Quad> = Vec::new();
    let mut c: Coord = (0, 0, 0);
    let mut i: usize = 0;
    proof {
        lemma_scan_start(resolution);
        assert(scan.take(0).map_values(per_cell) =~= Seq::empty());
    }
    while i < total
        invariant
            resolution == grid_values.resolution(),
            resolution == grid_to_index.side(),
            negative == signs(grid_values.field()),
            scan == scan_order(resolution),
            per_cell == quads_at(negative, grid_to_index@, resolution),
            total == cube(resolution as nat),
            i <= total,
            linear(resolution, c) == i,
            i < total ==> in_cube(resolution, c) && c == coord_at(resolution, i as int),
            quads@ == scan.take(i as int).map_values(per_cell).flatten(),
        decreases total - i,
    {
        let ghost before = quads@;
        if c.1 != 0 && c.2 != 0 {
            if let Some(quad) = make_quad(grid_values, grid_to_index, c, (1, 0, 0), (0, 1, 0), (0, 0, 1)) {
                quads.push(quad);
            }
        }
        assert(quads@ =~= before + quad_seq(
            edge_quad(negative, grid_to_index@, resolution, c, 0),
        ));
        let ghost after_x = quads@;
        if c.0 != 0 && c.2 != 0 {
            if let Some(quad) = make_quad(grid_values, grid_to_index, c, (0, 1, 0), (0, 0, 1), (1, 0, 0)) {
                quads.push(quad);
            }
        }
        assert(quads@ =~= after_x + quad_seq(
            edge_quad(negative, grid_to_index@, resolution, c, 1),
        ));
        let ghost after_y = quads@;
        if c.0 != 0 && c.1 != 0 {
            if let Some(quad) = make_quad(grid_values, grid_to_index, c, (0, 0, 1), (1, 0, 0), (0, 1, 0)) {
                quads.push(quad);
            }
        }
        assert(quads@ =~= after_y + quad_seq(
            edge_quad(negative, grid_to_index@, resolution, c, 2),
        ));
        proof {
            assert(quads@ =~= before + cell_quads(negative, grid_to_index@, resolution, c));
            assert(scan.take(i + 1).map_values(per_cell) =~= scan.take(i as int).map_values(
                per_cell,
            ).push(per_cell(c)));
            lemma_flatten_push(scan.take(i as int).map_values(per_cell), per_cell(c));
        }
        c = next_coord(resolution, c);
        i += 1;
    }
    assert(scan.take(total as int) =~= scan);
    quads
}

} // verus!
