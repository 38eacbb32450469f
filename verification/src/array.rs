//! A cube of values, stored in the order of the scan.

use crate::lattice::{
    coord_at, cube, cube_len, in_cube, lemma_coord_at_linear, lemma_linear_bound,
    lemma_scan_start, linear, next_coord, scan_order, Coord,
};
use vstd::prelude::*;

verus! {

/// A value for every coordinate of a cube, held in one vector in the order
/// of the scan: the value of `(x, y, z)` stands at `x * size * size + y * size + z`.
pub struct Array<T> {
    size: usize,
    backing: Vec<T>,
}

impl<T> View for Array<T> {
    type V = Seq<T>;

    /// The values in the order of the scan.
    closed spec fn view(&self) -> Seq<T> {
        self.backing@
    }
}

impl<T> Array<T> {
    #[verifier::type_invariant]
    spec fn filled(self) -> bool {
        self.backing.len() == cube(self.size as nat)
    }

    /// The side of the cube.
    pub closed spec fn side(&self) -> usize {
        self.size
    }

    /// The value at a coordinate of the cube.
    pub open spec fn at(&self, c: Coord) -> T {
        self@[linear(self.side(), c)]
    }

    /// A cube of side `size` over `backing`, which holds one value for each
    /// coordinate in the order of the scan.
    pub fn new(size: usize, backing: Vec<T>) -> (array: Self)
        requires
            backing@.len() == cube(size as nat),
        ensures
            array.side() == size,
            array@ == backing@,
    {
        Self { size, backing }
    }

    /// Every coordinate of a cube of side `size`, in the order of the scan.
    pub fn coords(size: usize) -> (all: Vec<Coord>)
        requires
            cube(size as nat) <= usize::MAX,
        ensures
            all@ == scan_order(size),
    {
        crate::lattice::coords(size)
    }

    /// The side of the cube.
    pub fn size(&self) -> (size: usize)
        ensures
            size == self.side(),
            self@.len() == cube(size as nat),
    {
        proof {
            use_type_invariant(self);
        }
        self.size
    }

    /// The value at `index`, or `None` where `index` lies outside the cube.
    pub fn get(&self, index: Coord) -> (value: Option<&T>)
        ensures
            in_cube(self.side(), index) <==> value.is_some(),
            value.is_some() ==> *value.unwrap() == self.at(index),
    {
        if index.0 >= self.size || index.1 >= self.size || index.2 >= self.size {
            None
        } else {
            Some(&self[index])
        }
    }

    /// A cube of side `size` that holds at each coordinate what `func`
    /// returns for it. `func` is called once for each coordinate, in the
    /// order of the scan.
    pub fn create_from<F: FnMut(Coord) -> T>(size: usize, mut func: F) -> (array: Self)
        requires
            cube(size as nat) <= usize::MAX,
            forall|c: Coord| in_cube(size, c) ==> func.requires((c,)),
        ensures
            array.side() == size,
            array@.len() == cube(size as nat),
            forall|c: Coord| in_cube(size, c) ==> func.ensures((c,), #[trigger] array.at(c)),
    {
        let total = cube_len(size);
        let mut backing: Vec<T> = Vec::new();
        let mut c: Coord = (0, 0, 0);
        let mut i: usize = 0;
        let ghost generator = func;
        proof {
            lemma_scan_start(size);
        }
        while i < total
            invariant
                func == generator,
                total == cube(size as nat),
                i <= total,
                linear(size, c) == i,
                i < total ==> in_cube(size, c) && c == coord_at(size, i as int),
                backing@.len() == i,
                forall|c: Coord| in_cube(size, c) ==> func.requires((c,)),
                forall|j: int| 0 <= j < i ==> func.ensures((coord_at(size, j),), #[trigger] backing@[j]),
            decreases total - i,
        {
            let value = func(c);
            backing.push(value);
            c = next_coord(size, c);
            i += 1;
        }
        let array = Self { size, backing };
        proof {
            assert forall|c: Coord| in_cube(size, c) implies func.ensures(
                (c,),
                #[trigger] array.at(c),
            ) by {
                lemma_linear_bound(size, c);
                lemma_coord_at_linear(size, c);
            }
        }
        array
    }
}

impl<T> vstd::std_specs::core::IndexSpecImpl<Coord> for Array<T> {
    /// An index must lie in the cube.
    open spec fn index_req(&self, index: &Coord) -> bool {
        in_cube(self.side(), *index)
    }
}

impl<T> std::ops::Index<Coord> for Array<T> {
    type Output = T;

    /// The value at `index`, which lies in the cube.
    fn index(&self, index: Coord) -> (value: &T)
        ensures
            *value == self.at(index),
            self@.len() == cube(self.side() as nat),
    {
        proof {
            use_type_invariant(self);
            lemma_linear_bound(self.size, index);
            let (x, y, s) = (index.0 as int, index.1 as int, self.size as int);
            assert(0 <= s * s * x <= s * s * x + s * y && s * s * x == x * s * s && s * y == y * s
                && 0 <= s * s <= s * s * x + s * s && s * s * x + s * s <= s * s * s)
                by (nonlinear_arith)
                requires
                    0 <= x < s,
                    0 <= y < s,
            ;
        }
        &self.backing[self.size * self.size * index.0 + self.size * index.1 + index.2]
    }
}

} // verus!
