//! Reading a field on the lattice, directly or from a table filled once.

use crate::array::Array;
use crate::lattice::{cube, in_cube, lemma_cube_side, Coord};
use vstd::prelude::*;

verus! {

/// Whether `c` is a point of the lattice of a grid of `resolution` cells a
/// side, which has `resolution + 1` points a side.
pub open spec fn on_lattice(resolution: usize, c: Coord) -> bool {
    c.0 <= resolution && c.1 <= resolution && c.2 <= resolution
}

/// Whether `field` may be called on every point of the lattice and gives at
/// most one value for each: what a field must be to be sampled.
pub open spec fn is_field<T, F: Fn(usize, usize, usize) -> T>(field: F, resolution: usize) -> bool {
    &&& forall|x: usize, y: usize, z: usize| #[trigger]
        on_lattice(resolution, (x, y, z)) ==> field.requires((x, y, z))
    &&& forall|x: usize, y: usize, z: usize, a: T, b: T|
        on_lattice(resolution, (x, y, z)) && #[trigger] field.ensures((x, y, z), a)
            && #[trigger] field.ensures((x, y, z), b) ==> a == b
}

/// A field over the lattice of a grid, read either by calling it on every
/// access or from a table of its values that was filled once.
#[verifier::reject_recursive_types(T)]
pub struct FieldSampler<T: Copy, F: Fn(usize, usize, usize) -> T> {
    resolution: usize,
    field: F,
    cache: Option<Array<T>>,
}

impl<T: Copy, F: Fn(usize, usize, usize) -> T> FieldSampler<T, F> {
    #[verifier::type_invariant]
    spec fn sound(self) -> bool {
        &&& is_field(self.field, self.resolution)
        &&& cube((self.resolution + 1) as nat) <= usize::MAX
        &&& match self.cache {
            Some(table) => {
                &&& table.side() == self.resolution + 1
                &&& forall|c: Coord| #[trigger]
                    in_cube(table.side(), c) ==> self.field.ensures((c.0, c.1, c.2), table.at(c))
            },
            None => true,
        }
    }

    /// The number of cells along a side of the grid.
    pub closed spec fn spec_resolution(&self) -> usize {
        self.resolution
    }

    /// The number of cells along a side of the grid. The lattice has one
    /// point more along each side, and its points can be counted.
    #[verifier::when_used_as_spec(spec_resolution)]
    pub fn resolution(&self) -> (resolution: usize)
        ensures
            resolution == self.resolution(),
            cube((resolution + 1) as nat) <= usize::MAX,
            is_field(self.field(), resolution),
    {
        proof {
            use_type_invariant(self);
        }
        self.resolution
    }

    /// The field that is read.
    pub closed spec fn field(&self) -> F {
        self.field
    }

    /// A sampler of `field` over a grid of `resolution` cells a side. With
    /// `precompute`, the field is called once for every point of the lattice,
    /// in the order of the scan, and never again.
    pub fn new(resolution: usize, field: F, precompute: bool) -> (sampler: Self)
        requires
            is_field(field, resolution),
            cube((resolution + 1) as nat) <= usize::MAX,
        ensures
            sampler.resolution() == resolution,
            sampler.field() == field,
            precompute ==> forall|x: usize, y: usize, z: usize| #[trigger]
                on_lattice(resolution, (x, y, z)) ==> exists|value: T| #[trigger]
                    field.ensures((x, y, z), value),
    {
        proof {
            lemma_cube_side(0, (resolution + 1) as nat);
        }
        if precompute {
            let table = Array::create_from(
                resolution + 1,
                |c: Coord| -> (value: T)
                    requires
                        on_lattice(resolution, c),
                    ensures
                        field.ensures((c.0, c.1, c.2), value)
                    { field(c.0, c.1, c.2) },
            );
            proof {
                assert forall|x: usize, y: usize, z: usize| #[trigger]
                    on_lattice(resolution, (x, y, z)) implies exists|value: T| #[trigger]
                    field.ensures((x, y, z), value) by {
                    assert(in_cube(table.side(), (x, y, z)));
                    assert(field.ensures((x, y, z), table.at((x, y, z))));
                }
            }
            Self { resolution, field, cache: Some(table) }
        } else {
            Self { resolution, field, cache: None }
        }
    }

    /// The value of the field at the lattice point `(x, y, z)`.
    pub fn sample(&self, x: usize, y: usize, z: usize) -> (value: T)
        requires
            on_lattice(self.resolution(), (x, y, z)),
        ensures
            self.field().ensures((x, y, z), value),
            forall|other: T| self.field().ensures((x, y, z), other) ==> other == value,
    {
        proof {
            use_type_invariant(self);
            lemma_cube_side(0, (self.resolution + 1) as nat);
        }
        match &self.cache {
            Some(table) => {
                assert(in_cube(table.side(), (x, y, z)));
                table[(x, y, z)]
            },
            None => (self.field)(x, y, z),
        }
    }
}

} // verus!
