//! What holds of every mesh: the vertices and the index grid agree, a
//! crossed edge has all four of its cells, and a field of one sign has no
//! surface.

use crate::cell::{cell_active, corner, crosses, OFFSETS};
use crate::lattice::{
    comes_before, coord_at, cube, in_cube, lemma_coord_at_linear, lemma_linear_bound,
    lemma_linear_coord_at, lemma_scan_ascends, linear, scan_order, Coord,
};
use crate::mesh::{
    active_cells, all_quads, axes, cell_quads, edge_quad, face, grid_entry, index_grid, is_active,
    lemma_flatten_push, minus, plus, quad_ok, quad_triangles, quads_at, rank, steps_back,
    FaceResult, Quad, NO_VERTEX,
};
use crate::net::{is_surface_net, triangles, SurfaceNetView};
use crate::sampler::on_lattice;
use vstd::prelude::*;

verus! {

/// A cell through which the surface passes stands in the list of vertices at
/// the index that the index grid holds for it, and that index is not
/// `NO_VERTEX`.
pub proof fn lemma_vertex_of_cell(negative: spec_fn(Coord) -> bool, resolution: usize, c: Coord)
    requires
        cube(resolution as nat) <= usize::MAX,
        in_cube(resolution, c),
        cell_active(negative, c),
    ensures
        index_grid(negative, resolution)[linear(resolution, c)] < active_cells(
            negative,
            resolution,
        ).len(),
        active_cells(negative, resolution)[index_grid(negative, resolution)[linear(
            resolution,
            c,
        )] as int] == c,
        index_grid(negative, resolution)[linear(resolution, c)] != NO_VERTEX,
{
    let scan = scan_order(resolution);
    let active = is_active(negative);
    let i = linear(resolution, c);
    lemma_linear_bound(resolution, c);
    lemma_coord_at_linear(resolution, c);
    let head = scan.take(i);
    assert(scan.take(i + 1) =~= head.push(c));
    head.lemma_filter_push(c, active);
    head.lemma_filter_len(active);
    assert(scan =~= scan.take(i + 1) + scan.skip(i + 1));
    Seq::filter_distributes_over_add(scan.take(i + 1), scan.skip(i + 1), active);
    scan.lemma_filter_len(active);
    assert(rank(negative, resolution, i) == head.filter(active).len());
    assert(grid_entry(negative, resolution, i) == rank(negative, resolution, i));
}

/// A cell through which the surface does not pass has `NO_VERTEX` in the
/// index grid.
pub proof fn lemma_no_vertex_of_cell(negative: spec_fn(Coord) -> bool, resolution: usize, c: Coord)
    requires
        in_cube(resolution, c),
        !cell_active(negative, c),
    ensures
        index_grid(negative, resolution)[linear(resolution, c)] == NO_VERTEX,
{
    lemma_linear_bound(resolution, c);
    lemma_coord_at_linear(resolution, c);
}

/// Around a lattice edge that the surface crosses, the surface passes
/// through all four cells that share the edge.
pub proof fn lemma_crossed_edge_cells_active(negative: spec_fn(Coord) -> bool, c: Coord, a: int)
    requires
        0 <= a < 3,
        c.0 < usize::MAX && c.1 < usize::MAX && c.2 < usize::MAX,
        steps_back(c, axes(a).1, axes(a).2),
        face(negative, c, axes(a).0) != FaceResult::NoFace,
    ensures
        cell_active(negative, c),
        cell_active(negative, minus(c, axes(a).1)),
        cell_active(negative, minus(c, axes(a).2)),
        cell_active(negative, minus(minus(c, axes(a).1), axes(a).2)),
{
    let (offset, axis1, axis2) = axes(a);
    let far = plus(c, offset);
    let c2 = minus(c, axis1);
    let c3 = minus(c, axis2);
    let c4 = minus(c2, axis2);
    assert(negative(c) != negative(far));
    if a == 0 {
        lemma_edge_crossed(negative, c, 0, c, far);
        lemma_edge_crossed(negative, c2, 5, c, far);
        lemma_edge_crossed(negative, c3, 8, c, far);
        lemma_edge_crossed(negative, c4, 11, c, far);
    } else if a == 1 {
        lemma_edge_crossed(negative, c, 1, c, far);
        lemma_edge_crossed(negative, c2, 9, c, far);
        lemma_edge_crossed(negative, c3, 3, c, far);
        lemma_edge_crossed(negative, c4, 10, c, far);
    } else {
        lemma_edge_crossed(negative, c, 2, c, far);
        lemma_edge_crossed(negative, c2, 4, c, far);
        lemma_edge_crossed(negative, c3, 6, c, far);
        lemma_edge_crossed(negative, c4, 7, c, far);
    }
}

/// A cell is active where one of its edges runs between two lattice points
/// of different sign.
proof fn lemma_edge_crossed(
    negative: spec_fn(Coord) -> bool,
    cell: Coord,
    e: int,
    low: Coord,
    high: Coord,
)
    requires
        0 <= e < 12,
        corner(cell, OFFSETS[e].0) == low,
        corner(cell, OFFSETS[e].1) == high,
        negative(low) != negative(high),
    ensures
        cell_active(negative, cell),
{
    assert(crosses(negative, cell, e));
}

/// What holds of every element of every part holds of every element of the
/// flattened sequence.
proof fn lemma_flatten_all<A>(parts: Seq<Seq<A>>, holds: spec_fn(A) -> bool)
    requires
        forall|i: int, k: int|
            0 <= i < parts.len() && 0 <= k < parts[i].len() ==> holds(#[trigger] parts[i][k]),
    ensures
        forall|k: int| 0 <= k < parts.flatten().len() ==> holds(#[trigger] parts.flatten()[k]),
    decreases parts.len(),
{
    if parts.len() > 0 {
        let front = parts.drop_last();
        let back = parts.last();
        assert forall|i: int, k: int|
            0 <= i < front.len() && 0 <= k < front[i].len() implies holds(
            #[trigger] front[i][k],
        ) by {
            assert(front[i][k] == parts[i][k]);
        }
        lemma_flatten_all(front, holds);
        assert(parts =~= front.push(back));
        lemma_flatten_push(front, back);
        assert forall|k: int| 0 <= k < parts.flatten().len() implies holds(
            #[trigger] parts.flatten()[k],
        ) by {
            if k >= front.flatten().len() {
                assert(parts.flatten()[k] == parts[parts.len() - 1][k - front.flatten().len()]);
            }
        }
    }
}

/// The quad around a lattice edge, over the index grid of the field itself.
///
/// Where the edge does not lie in a lower face of the grid and the surface
/// crosses it, there is a quad: no cell around the edge lacks a vertex. Its
/// four vertices are different from each other, and they are the vertices of
/// the cell at `c`, of its neighbours one step back along the first and the
/// second of the other axes, and of the cell one step back along both.
/// Anywhere else there is no quad.
pub proof fn lemma_edge_quad(negative: spec_fn(Coord) -> bool, resolution: usize, c: Coord, a: int)
    requires
        cube(resolution as nat) <= usize::MAX,
        in_cube(resolution, c),
        0 <= a < 3,
    ensures
        match edge_quad(negative, index_grid(negative, resolution), resolution, c, a) {
            Some(quad) => {
                let cells = active_cells(negative, resolution);
                &&& steps_back(c, axes(a).1, axes(a).2)
                &&& quad.face == face(negative, c, axes(a).0)
                &&& quad_ok(quad, cells.len())
                &&& cells[quad.v1 as int] == c
                &&& cells[quad.v2 as int] == minus(c, axes(a).1)
                &&& cells[quad.v3 as int] == minus(c, axes(a).2)
                &&& cells[quad.v4 as int] == minus(minus(c, axes(a).1), axes(a).2)
            },
            None => !steps_back(c, axes(a).1, axes(a).2) || face(negative, c, axes(a).0)
                == FaceResult::NoFace,
        },
{
    let (offset, axis1, axis2) = axes(a);
    if steps_back(c, axis1, axis2) && face(negative, c, offset) != FaceResult::NoFace {
        lemma_crossed_edge_cells_active(negative, c, a);
        lemma_vertex_of_cell(negative, resolution, c);
        lemma_vertex_of_cell(negative, resolution, minus(c, axis1));
        lemma_vertex_of_cell(negative, resolution, minus(c, axis2));
        lemma_vertex_of_cell(negative, resolution, minus(minus(c, axis1), axis2));
    }
}

/// Every quad of a mesh lies on a crossed edge and joins four different
/// vertices of the mesh: no index in it is `NO_VERTEX` or beyond the last
/// vertex.
pub proof fn lemma_quads_ok(negative: spec_fn(Coord) -> bool, resolution: usize)
    requires
        cube(resolution as nat) <= usize::MAX,
    ensures
        forall|k: int|
            0 <= k < all_quads(negative, index_grid(negative, resolution), resolution).len()
                ==> quad_ok(
                #[trigger] all_quads(negative, index_grid(negative, resolution), resolution)[k],
                active_cells(negative, resolution).len(),
            ),
{
    let grid = index_grid(negative, resolution);
    let count = active_cells(negative, resolution).len();
    let parts = scan_order(resolution).map_values(quads_at(negative, grid, resolution));
    let holds = |quad: Quad| quad_ok(quad, count);
    assert forall|i: int, k: int| 0 <= i < parts.len() && 0 <= k < parts[i].len() implies holds(
        #[trigger] parts[i][k],
    ) by {
        let c = coord_at(resolution, i);
        lemma_linear_coord_at(resolution, i);
        lemma_edge_quad(negative, resolution, c, 0);
        lemma_edge_quad(negative, resolution, c, 1);
        lemma_edge_quad(negative, resolution, c, 2);
        assert(parts[i] == cell_quads(negative, grid, resolution, c));
    }
    lemma_flatten_all(parts, holds);
    assert forall|k: int|
        0 <= k < all_quads(negative, grid, resolution).len() implies quad_ok(
        #[trigger] all_quads(negative, grid, resolution)[k],
        count,
    ) by {
        assert(holds(parts.flatten()[k]));
    }
}

/// A field that is solid everywhere, or air everywhere, has no surface: no
/// cell carries a vertex, no edge a quad, and there is no triangle.
pub proof fn lemma_uniform_field_is_empty(
    negative: spec_fn(Coord) -> bool,
    resolution: usize,
    solid: bool,
)
    requires
        resolution < usize::MAX,
        forall|c: Coord| on_lattice(resolution, c) ==> #[trigger] negative(c) == solid,
    ensures
        active_cells(negative, resolution).len() == 0,
        all_quads(negative, index_grid(negative, resolution), resolution).len() == 0,
        forall|first_shorter: Seq<bool>|
            (#[trigger] triangles(
                all_quads(negative, index_grid(negative, resolution), resolution),
                first_shorter,
            )).len() == 0,
{
    let scan = scan_order(resolution);
    let active = is_active(negative);
    let cells = active_cells(negative, resolution);
    if cells.len() > 0 {
        scan.lemma_filter_pred(active, 0);
        assert(scan.filter(active).contains(cells[0]));
        scan.lemma_filter_contains_rev(active, cells[0]);
        let j = choose|j: int| 0 <= j < scan.len() && scan[j] == cells[0];
        lemma_linear_coord_at(resolution, j);
        lemma_uniform_cell_inactive(negative, resolution, solid, cells[0]);
    }
    let grid = index_grid(negative, resolution);
    let parts = scan.map_values(quads_at(negative, grid, resolution));
    let never = |quad: Quad| false;
    assert forall|i: int, k: int| 0 <= i < parts.len() && 0 <= k < parts[i].len() implies never(
        #[trigger] parts[i][k],
    ) by {
        let c = coord_at(resolution, i);
        lemma_linear_coord_at(resolution, i);
        assert(parts[i] == cell_quads(negative, grid, resolution, c));
        assert(negative(c) == solid);
        assert(negative(plus(c, axes(0).0)) == solid);
        assert(negative(plus(c, axes(1).0)) == solid);
        assert(negative(plus(c, axes(2).0)) == solid);
    }
    lemma_flatten_all(parts, never);
    if parts.flatten().len() > 0 {
        assert(never(parts.flatten()[0]));
    }
    let quads = all_quads(negative, grid, resolution);
    assert forall|first_shorter: Seq<bool>| (#[trigger] triangles(quads, first_shorter)).len()
        == 0 by {
        assert(Seq::new(quads.len(), |k: int| quad_triangles(quads[k], first_shorter[k]))
            =~= Seq::<Seq<usize>>::empty());
    }
}

/// Two tests that agree on every element of a sequence keep the same
/// elements of it.
proof fn lemma_filter_agree<A>(s: Seq<A>, p: spec_fn(A) -> bool, q: spec_fn(A) -> bool)
    requires
        forall|i: int| 0 <= i < s.len() ==> p(#[trigger] s[i]) == q(s[i]),
    ensures
        s.filter(p) == s.filter(q),
    decreases s.len(),
{
    if s.len() == 0 {
        s.lemma_filter_len(p);
        s.lemma_filter_len(q);
        assert(s.filter(p) =~= s.filter(q));
    } else {
        let front = s.drop_last();
        assert forall|i: int| 0 <= i < front.len() implies p(#[trigger] front[i]) == q(
            front[i],
        ) by {
            assert(front[i] == s[i]);
        }
        lemma_filter_agree(front, p, q);
        assert(s =~= front.push(s.last()));
        front.lemma_filter_push(s.last(), p);
        front.lemma_filter_push(s.last(), q);
    }
}

/// A cell's activity depends only on the signs at its eight corners.
proof fn lemma_active_agree(
    first: spec_fn(Coord) -> bool,
    second: spec_fn(Coord) -> bool,
    resolution: usize,
    c: Coord,
)
    requires
        resolution < usize::MAX,
        in_cube(resolution, c),
        forall|p: Coord| on_lattice(resolution, p) ==> #[trigger] first(p) == second(p),
    ensures
        cell_active(first, c) == cell_active(second, c),
{
    assert forall|e: int| 0 <= e < 12 implies crosses(first, c, e) == crosses(second, c, e) by {
        let low = corner(c, OFFSETS[e].0);
        let high = corner(c, OFFSETS[e].1);
        assert(on_lattice(resolution, low));
        assert(on_lattice(resolution, high));
        assert(first(low) == second(low));
        assert(first(high) == second(high));
    }
    if cell_active(first, c) {
        let e = choose|e: int| 0 <= e < 12 && crosses(first, c, e);
        assert(crosses(second, c, e));
    }
    if cell_active(second, c) {
        let e = choose|e: int| 0 <= e < 12 && crosses(second, c, e);
        assert(crosses(first, c, e));
    }
}

/// The mesh depends on nothing but the signs at the points of the lattice:
/// two fields whose signs agree there have the same vertices, the same index
/// grid and the same quads, however the signs were obtained.
pub proof fn lemma_same_signs_same_mesh(
    first: spec_fn(Coord) -> bool,
    second: spec_fn(Coord) -> bool,
    resolution: usize,
)
    requires
        resolution < usize::MAX,
        forall|p: Coord| on_lattice(resolution, p) ==> #[trigger] first(p) == second(p),
    ensures
        active_cells(first, resolution) == active_cells(second, resolution),
        index_grid(first, resolution) == index_grid(second, resolution),
        all_quads(first, index_grid(first, resolution), resolution) == all_quads(
            second,
            index_grid(second, resolution),
            resolution,
        ),
{
    let scan = scan_order(resolution);
    assert forall|i: int| 0 <= i < scan.len() implies is_active(first)(#[trigger] scan[i])
        == is_active(second)(scan[i]) by {
        lemma_linear_coord_at(resolution, i);
        lemma_active_agree(first, second, resolution, scan[i]);
    }
    lemma_filter_agree(scan, is_active(first), is_active(second));
    assert forall|i: int| 0 <= i < scan.len() implies grid_entry(first, resolution, i)
        == grid_entry(second, resolution, i) by {
        let head = scan.take(i);
        assert forall|j: int| 0 <= j < head.len() implies is_active(first)(#[trigger] head[j])
            == is_active(second)(head[j]) by {
            assert(head[j] == scan[j]);
        }
        lemma_filter_agree(head, is_active(first), is_active(second));
        assert(is_active(first)(scan[i]) == is_active(second)(scan[i]));
    }
    assert(index_grid(first, resolution) =~= index_grid(second, resolution));
    let grid = index_grid(first, resolution);
    assert forall|i: int| 0 <= i < scan.len() implies quads_at(first, grid, resolution)(
        #[trigger] scan[i],
    ) == quads_at(second, grid, resolution)(scan[i]) by {
        let c = scan[i];
        lemma_linear_coord_at(resolution, i);
        assert(first(c) == second(c));
        assert(first(plus(c, axes(0).0)) == second(plus(c, axes(0).0)));
        assert(first(plus(c, axes(1).0)) == second(plus(c, axes(1).0)));
        assert(first(plus(c, axes(2).0)) == second(plus(c, axes(2).0)));
    }
    assert(scan.map_values(quads_at(first, grid, resolution)) =~= scan.map_values(
        quads_at(second, grid, resolution),
    ));
}

/// In a field of one sign no cell is active.
proof fn lemma_uniform_cell_inactive(
    negative: spec_fn(Coord) -> bool,
    resolution: usize,
    solid: bool,
    c: Coord,
)
    requires
        resolution < usize::MAX,
        in_cube(resolution, c),
        forall|c: Coord| on_lattice(resolution, c) ==> #[trigger] negative(c) == solid,
    ensures
        !cell_active(negative, c),
{
    assert forall|e: int| 0 <= e < 12 implies !crosses(negative, c, e) by {
        let low = corner(c, OFFSETS[e].0);
        let high = corner(c, OFFSETS[e].1);
        assert(on_lattice(resolution, low));
        assert(on_lattice(resolution, high));
        assert(negative(low) == solid);
        assert(negative(high) == solid);
    }
}

/// The two triangles of a quad share the diagonal along which the quad is
/// split and have the two other vertices as their third corners; and the
/// triangles of a negative face are those of a positive face with two
/// corners exchanged, which turns each of them over.
pub proof fn lemma_winding(v1: usize, v2: usize, v3: usize, v4: usize, first_shorter: bool)
    ensures
        ({
            let up = quad_triangles(
                Quad { v1, v2, v3, v4, face: FaceResult::FacePositive },
                first_shorter,
            );
            let down = quad_triangles(
                Quad { v1, v2, v3, v4, face: FaceResult::FaceNegative },
                first_shorter,
            );
            let (a, b) = if first_shorter {
                (v1, v4)
            } else {
                (v2, v3)
            };
            let (c, d) = if first_shorter {
                (v2, v3)
            } else {
                (v4, v1)
            };
            &&& up.len() == 6 && down.len() == 6
            &&& up.subrange(0, 3) == seq![a, b, c]
            &&& up.subrange(3, 6) == seq![a, d, b]
            &&& down.subrange(0, 3) == seq![a, c, b]
            &&& down.subrange(3, 6) == seq![a, b, d]
        }),
{
    let up = quad_triangles(Quad { v1, v2, v3, v4, face: FaceResult::FacePositive }, first_shorter);
    let down = quad_triangles(
        Quad { v1, v2, v3, v4, face: FaceResult::FaceNegative },
        first_shorter,
    );
    if first_shorter {
        assert(up.subrange(0, 3) =~= seq![v1, v4, v2]);
        assert(up.subrange(3, 6) =~= seq![v1, v3, v4]);
        assert(down.subrange(0, 3) =~= seq![v1, v2, v4]);
        assert(down.subrange(3, 6) =~= seq![v1, v4, v3]);
    } else {
        assert(up.subrange(0, 3) =~= seq![v2, v3, v4]);
        assert(up.subrange(3, 6) =~= seq![v2, v1, v3]);
        assert(down.subrange(0, 3) =~= seq![v2, v4, v3]);
        assert(down.subrange(3, 6) =~= seq![v2, v3, v1]);
    }
}

/// A field has one mesh: two meshes of the same signs over the same grid
/// are equal, vertex for vertex and quad for quad.
pub proof fn lemma_surface_net_unique(
    first: SurfaceNetView,
    second: SurfaceNetView,
    negative: spec_fn(Coord) -> bool,
    resolution: usize,
)
    requires
        is_surface_net(first, negative, resolution),
        is_surface_net(second, negative, resolution),
    ensures
        first == second,
{
}

/// The number of vertices of a mesh is the number of cells through which
/// the surface passes, and the vertices are those cells, each once, in
/// ascending order of their place in the scan.
pub proof fn lemma_vertices_are_active_cells(
    net: SurfaceNetView,
    negative: spec_fn(Coord) -> bool,
    resolution: usize,
)
    requires
        cube(resolution as nat) <= usize::MAX,
        is_surface_net(net, negative, resolution),
    ensures
        forall|c: Coord|
            in_cube(resolution, c) ==> (cell_active(negative, c) <==> #[trigger] net.cells.contains(
                c,
            )),
        forall|i: int|
            0 <= i < net.cells.len() ==> in_cube(resolution, #[trigger] net.cells[i])
                && cell_active(negative, net.cells[i]),
        forall|i: int, j: int|
            0 <= i < j < net.cells.len() ==> comes_before(
                #[trigger] net.cells[i],
                #[trigger] net.cells[j],
            ),
{
    let scan = scan_order(resolution);
    let active = is_active(negative);
    assert forall|i: int| 0 <= i < net.cells.len() implies in_cube(
        resolution,
        #[trigger] net.cells[i],
    ) && cell_active(negative, net.cells[i]) by {
        lemma_cell_of_vertex(negative, resolution, i);
    }
    assert forall|c: Coord| in_cube(resolution, c) implies (cell_active(negative, c)
        <==> #[trigger] net.cells.contains(c)) by {
        if cell_active(negative, c) {
            lemma_vertex_of_cell(negative, resolution, c);
        }
        if net.cells.contains(c) {
            let i = choose|i: int| 0 <= i < net.cells.len() && net.cells[i] == c;
            lemma_cell_of_vertex(negative, resolution, i);
        }
    }
    assert forall|i: int, j: int| 0 <= i < j < net.cells.len() implies comes_before(
        #[trigger] net.cells[i],
        #[trigger] net.cells[j],
    ) by {
        lemma_cell_of_vertex(negative, resolution, i);
        lemma_cell_of_vertex(negative, resolution, j);
        lemma_scan_ascends(resolution, net.cells[i], net.cells[j]);
        let a = linear(resolution, net.cells[i]);
        let b = linear(resolution, net.cells[j]);
        lemma_linear_bound(resolution, net.cells[i]);
        lemma_linear_bound(resolution, net.cells[j]);
        lemma_coord_at_linear(resolution, net.cells[i]);
        lemma_coord_at_linear(resolution, net.cells[j]);
        if a >= b {
            lemma_rank_monotone(negative, resolution, b, a);
            if a == b {
                assert(net.cells[i] == net.cells[j]);
            }
        }
    }
}

/// The cell of a vertex lies in the grid, the surface passes through it, and
/// the index grid holds the vertex's index for it.
pub proof fn lemma_cell_of_vertex(negative: spec_fn(Coord) -> bool, resolution: usize, i: int)
    requires
        cube(resolution as nat) <= usize::MAX,
        0 <= i < active_cells(negative, resolution).len(),
    ensures
        in_cube(resolution, active_cells(negative, resolution)[i]),
        cell_active(negative, active_cells(negative, resolution)[i]),
        index_grid(negative, resolution)[linear(
            resolution,
            active_cells(negative, resolution)[i],
        )] == i,
{
    let scan = scan_order(resolution);
    let active = is_active(negative);
    let cells = active_cells(negative, resolution);
    let c = cells[i];
    scan.lemma_filter_pred(active, i);
    assert(scan.filter(active).contains(c));
    scan.lemma_filter_contains_rev(active, c);
    let j = choose|j: int| 0 <= j < scan.len() && scan[j] == c;
    lemma_linear_coord_at(resolution, j);
    lemma_vertex_of_cell(negative, resolution, c);
    let k = index_grid(negative, resolution)[linear(resolution, c)] as int;
    if k != i {
        lemma_no_repeats(negative, resolution, cube(resolution as nat) as int);
        assert(cells[k] == cells[i]);
        assert(scan.take(cube(resolution as nat) as int) =~= scan);
    }
}

/// The number of vertices before a place of the scan does not shrink as the
/// place moves on, and grows past a cell with a vertex.
proof fn lemma_rank_monotone(negative: spec_fn(Coord) -> bool, resolution: usize, i: int, j: int)
    requires
        0 <= i <= j <= cube(resolution as nat),
    ensures
        rank(negative, resolution, i) <= rank(negative, resolution, j),
        i < j && cell_active(negative, coord_at(resolution, i)) ==> rank(negative, resolution, i)
            < rank(negative, resolution, j),
{
    let scan = scan_order(resolution);
    let active = is_active(negative);
    assert(scan.take(j).take(i) =~= scan.take(i));
    scan.take(j).lemma_filter_take_len(active, i);
    if i < j && cell_active(negative, coord_at(resolution, i)) {
        assert(scan.take(j).take(i + 1) =~= scan.take(i + 1));
        scan.take(j).lemma_filter_take_len(active, i + 1);
        assert(scan.take(i + 1) =~= scan.take(i).push(scan[i]));
        scan.take(i).lemma_filter_push(scan[i], active);
    }
}

/// No cell stands twice among the vertices of the first `n` cells of the scan.
proof fn lemma_no_repeats(negative: spec_fn(Coord) -> bool, resolution: usize, n: int)
    requires
        0 <= n <= cube(resolution as nat),
    ensures
        scan_order(resolution).take(n).filter(is_active(negative)).no_duplicates(),
        forall|k: int|
            0 <= k < scan_order(resolution).take(n).filter(is_active(negative)).len() ==> linear(
                resolution,
                #[trigger] scan_order(resolution).take(n).filter(is_active(negative))[k],
            ) < n,
    decreases n,
{
    let scan = scan_order(resolution);
    let active = is_active(negative);
    if n == 0 {
        scan.take(0).lemma_filter_len(active);
    } else {
        lemma_no_repeats(negative, resolution, n - 1);
        let head = scan.take(n - 1);
        let c = scan[n - 1];
        assert(scan.take(n) =~= head.push(c));
        head.lemma_filter_push(c, active);
        lemma_linear_coord_at(resolution, n - 1);
    }
}

} // verus!
