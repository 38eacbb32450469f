//! One cell of the grid: its corners, its edges, and the edges that the
//! surface crosses.

use crate::lattice::{in_cube, Coord};
use crate::sampler::FieldSampler;
use vstd::prelude::*;

verus! {

/// The twelve edges of a cell, each as the numbers of its two corners. Bit 0
/// of a corner's number is its offset along `x`, bit 1 along `y`, bit 2
/// along `z`.
pub const OFFSETS: [(usize, usize); 12] = [
    (0b000, 0b001),
    (0b000, 0b010),
    (0b000, 0b100),
    (0b001, 0b011),
    (0b001, 0b101),
    (0b010, 0b011),
    (0b010, 0b110),
    (0b011, 0b111),
    (0b100, 0b101),
    (0b100, 0b110),
    (0b101, 0b111),
    (0b110, 0b111),
];

/// The sign of a field at every point: `true` where the field is negative,
/// which is the solid side of the surface.
pub open spec fn signs<F: Fn(usize, usize, usize) -> bool>(field: F) -> spec_fn(Coord) -> bool {
    |c: Coord| field.ensures((c.0, c.1, c.2), true)
}

/// Whether the field has answered at `c`: it has a value there, which is
/// negative exactly where `signs` says so. A field answers where it is
/// called.
pub open spec fn answered<F: Fn(usize, usize, usize) -> bool>(field: F, c: Coord) -> bool {
    field.ensures((c.0, c.1, c.2), signs(field)(c))
}

/// Whether the field has answered at all eight corners of cell `c`.
pub open spec fn cell_answered<F: Fn(usize, usize, usize) -> bool>(field: F, c: Coord) -> bool {
    forall|k: int| 0 <= k < 8 ==> answered(field, #[trigger] corner(c, k as usize))
}

/// The offset of corner `k` from the lowest corner of its cell.
pub open spec fn corner_offset(k: usize) -> Coord {
    ((k % 2) as usize, ((k / 2) % 2) as usize, ((k / 4) % 2) as usize)
}

/// The lattice point at corner `k` of cell `c`.
pub open spec fn corner(c: Coord, k: usize) -> Coord {
    (
        (c.0 + corner_offset(k).0) as usize,
        (c.1 + corner_offset(k).1) as usize,
        (c.2 + corner_offset(k).2) as usize,
    )
}

/// Whether the surface crosses edge `e` of cell `c`: one end is solid and the
/// other is not.
pub open spec fn crosses(negative: spec_fn(Coord) -> bool, c: Coord, e: int) -> bool {
    negative(corner(c, OFFSETS[e].0)) != negative(corner(c, OFFSETS[e].1))
}

/// Whether the surface passes through cell `c`: it crosses at least one of
/// the cell's twelve edges.
pub open spec fn cell_active(negative: spec_fn(Coord) -> bool, c: Coord) -> bool {
    exists|e: int| 0 <= e < 12 && crosses(negative, c, e)
}

/// The two ends of an edge as offsets from the cell's lowest corner, where
/// the signs at its ends differ.
pub open spec fn edge_crossing(
    offset1: usize,
    offset2: usize,
    negative1: bool,
    negative2: bool,
) -> Option<(Coord, Coord)> {
    if negative1 == negative2 {
        None
    } else {
        Some((corner_offset(offset1), corner_offset(offset2)))
    }
}

/// The numbers of the edges of cell `c` that the surface crosses, ascending.
pub open spec fn crossing_edges(negative: spec_fn(Coord) -> bool, c: Coord) -> Seq<int> {
    Seq::new(12, |e: int| e).filter(|e: int| crosses(negative, c, e))
}

/// The ends of edge `e` as offsets from the cell's lowest corner.
pub open spec fn edge_ends(e: int) -> (Coord, Coord) {
    (corner_offset(OFFSETS[e].0), corner_offset(OFFSETS[e].1))
}

/// The ends of the edges of cell `c` that the surface crosses, in the order
/// of the table of edges.
pub open spec fn crossings(negative: spec_fn(Coord) -> bool, c: Coord) -> Seq<(Coord, Coord)> {
    crossing_edges(negative, c).map_values(|e: int| edge_ends(e))
}

/// Decides whether the surface crosses the edge between corners `offset1`
/// and `offset2`, whose ends are solid where `negative1` and `negative2`
/// say. Where it does, gives the two ends as offsets from the cell's lowest
/// corner, between which the crossing point lies.
pub fn find_edge(offset1: usize, offset2: usize, negative1: bool, negative2: bool) -> (crossing:
    Option<(Coord, Coord)>)
    ensures
        crossing == edge_crossing(offset1, offset2, negative1, negative2),
{
    if negative1 == negative2 {
        return None;
    }
    proof {
        lemma_corner_bits(offset1);
        lemma_corner_bits(offset2);
    }
    Some(
        (
            (offset1 & 1, (offset1 >> 1) & 1, (offset1 >> 2) & 1),
            (offset2 & 1, (offset2 >> 1) & 1, (offset2 >> 2) & 1),
        ),
    )
}

/// The bits of a corner's number are its offsets.
pub proof fn lemma_corner_bits(k: usize)
    ensures
        (k & 1, (k >> 1) & 1, (k >> 2) & 1) == corner_offset(k),
        corner_offset(k).0 <= 1,
        corner_offset(k).1 <= 1,
        corner_offset(k).2 <= 1,
{
    assert(k & 1 == k % 2 && (k >> 1) & 1 == (k / 2) % 2 && (k >> 2) & 1 == (k / 4) % 2)
        by (bit_vector);
}

/// Where a cell has a crossing edge it is active, and the other way round.
pub proof fn lemma_active_iff_crossings(negative: spec_fn(Coord) -> bool, c: Coord)
    ensures
        cell_active(negative, c) <==> crossings(negative, c).len() > 0,
{
    let all = Seq::new(12, |e: int| e);
    let crossed = |e: int| crosses(negative, c, e);
    if cell_active(negative, c) {
        let e = choose|e: int| 0 <= e < 12 && crosses(negative, c, e);
        assert(all[e] == e);
        all.lemma_filter_contains(crossed, e);
    }
    if crossing_edges(negative, c).len() > 0 {
        let e = crossing_edges(negative, c)[0];
        all.lemma_filter_pred(crossed, 0);
        assert(all.filter(crossed).contains(e));
        all.lemma_filter_contains_rev(crossed, e);
    }
}

/// The surface passes through a cell exactly where the cell's corners do not
/// all lie on the same side of it: the edges of a cell join all its
/// corners, so two corners of different sign have a crossed edge between
/// them.
pub proof fn lemma_active_iff_mixed_corners(negative: spec_fn(Coord) -> bool, c: Coord)
    ensures
        cell_active(negative, c) <==> exists|k: int|
            0 < k < 8 && negative(#[trigger] corner(c, k as usize)) != negative(corner(c, 0)),
{
    let first = negative(corner(c, 0));
    if cell_active(negative, c) {
        let e = choose|e: int| 0 <= e < 12 && crosses(negative, c, e);
        let low = OFFSETS[e].0 as int;
        let high = OFFSETS[e].1 as int;
        if negative(corner(c, low as usize)) != first {
            assert(0 < low < 8);
        } else {
            assert(negative(corner(c, high as usize)) != first);
            assert(0 < high < 8);
        }
    }
    if exists|k: int|
        0 < k < 8 && negative(#[trigger] corner(c, k as usize)) != negative(corner(c, 0)) {
        if !cell_active(negative, c) {
            assert(!crosses(negative, c, 0));
            assert(!crosses(negative, c, 1));
            assert(!crosses(negative, c, 2));
            assert(!crosses(negative, c, 3));
            assert(!crosses(negative, c, 4));
            assert(!crosses(negative, c, 6));
            assert(!crosses(negative, c, 7));
            assert(forall|k: int| 0 < k < 8 ==> negative(#[trigger] corner(c, k as usize)) == first);
        }
    }
}

/// Reads the signs at the eight corners of cell `coord` and finds the edges
/// that the surface crosses. A cell without such an edge carries no vertex:
/// the result is `None`. For any other cell the result lists the ends of the
/// crossed edges, in the order of the table of edges; the cell's vertex is
/// the mean of the crossing points on them.
pub fn find_center<F: Fn(usize, usize, usize) -> bool>(
    grid_values: &FieldSampler<bool, F>,
    coord: Coord,
) -> (edges: Option<Vec<(Coord, Coord)>>)
    requires
        in_cube(grid_values.resolution(), coord),
    ensures
        edges.is_some() <==> cell_active(signs(grid_values.field()), coord),
        edges.is_some() ==> edges.unwrap()@ == crossings(signs(grid_values.field()), coord),
        cell_answered(grid_values.field(), coord),
{
    let ghost negative = signs(grid_values.field());
    let mut values = [false; 8];
    let mut k: usize = 0;
    while k < 8
        invariant
            k <= 8,
            in_cube(grid_values.resolution(), coord),
            negative == signs(grid_values.field()),
            forall|j: int| 0 <= j < k ==> values[j] == negative(corner(coord, j as usize)),
            forall|j: int|
                0 <= j < k ==> answered(grid_values.field(), #[trigger] corner(coord, j as usize)),
        decreases 8 - k,
    {
        proof {
            lemma_corner_bits(k);
        }
        values[k] = grid_values.sample(
            coord.0 + (k & 1),
            coord.1 + ((k >> 1) & 1),
            coord.2 + ((k >> 2) & 1),
        );
        k += 1;
    }
    let ghost all = Seq::new(12, |e: int| e);
    let ghost crossed = |e: int| crosses(negative, coord, e);
    let ghost ends = |e: int| edge_ends(e);
    let mut edges: Vec<(Coord, Coord)> = Vec::new();
    let mut e: usize = 0;
    while e < 12
        invariant
            e <= 12,
            all == Seq::new(12, |e: int| e),
            crossed == |e: int| crosses(negative, coord, e),
            ends == |e: int| edge_ends(e),
            forall|j: int| 0 <= j < 8 ==> values[j] == negative(corner(coord, j as usize)),
            edges@ == all.take(e as int).filter(crossed).map_values(ends),
        decreases 12 - e,
    {
        let (offset1, offset2) = OFFSETS[e];
        proof {
            assert(all.take(e + 1) =~= all.take(e as int).push(e as int));
            all.take(e as int).lemma_filter_push(e as int, crossed);
            let kept = all.take(e as int).filter(crossed);
            assert(kept.push(e as int).map_values(ends) =~= kept.map_values(ends).push(ends(e as int)));
        }
        if let Some(crossing) = find_edge(offset1, offset2, values[offset1], values[offset2]) {
            edges.push(crossing);
        }
        e += 1;
    }
    proof {
        assert(all.take(12) =~= all);
        lemma_active_iff_crossings(negative, coord);
    }
    if edges.len() == 0 {
        None
    } else {
        Some(edges)
    }
}

} // verus!
