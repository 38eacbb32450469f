//! The cubic lattice: coordinates, their linear order, and the scan over them.

use vstd::prelude::*;

verus! {

/// A point of the lattice, or the cell whose lowest corner is that point.
pub type Coord = (usize, usize, usize);

/// The number of points in a cube of side `n`.
pub open spec fn cube(n: nat) -> nat {
    n * n * n
}

/// Whether every coordinate of `c` is below `n`.
pub open spec fn in_cube(n: usize, c: Coord) -> bool {
    c.0 < n && c.1 < n && c.2 < n
}

/// The place of `c` in the scan of a cube of side `n`: `x` is the slowest
/// coordinate and `z` the fastest.
pub open spec fn linear(n: usize, c: Coord) -> int {
    c.0 * n * n + c.1 * n + c.2
}

/// The coordinate at place `i` of the scan of a cube of side `n`.
pub open spec fn coord_at(n: usize, i: int) -> Coord {
    ((i / (n * n)) as usize, ((i / (n as int)) % (n as int)) as usize, (i % (n as int)) as usize)
}

/// All coordinates of a cube of side `n`, in ascending order of `(x, y, z)`.
pub open spec fn scan_order(n: usize) -> Seq<Coord> {
    Seq::new(cube(n as nat), |i: int| coord_at(n, i))
}

/// A cube has at least as many points as its side is long, and no fewer
/// than a cube of a shorter side.
pub proof fn lemma_cube_side(m: nat, n: nat)
    requires
        m <= n,
    ensures
        n <= cube(n),
        cube(m) <= cube(n),
{
    assert(n <= n * n * n) by (nonlinear_arith);
    assert(m * m * m <= n * n * n) by (nonlinear_arith)
        requires
            m <= n,
    ;
}

/// The place of a coordinate of the cube lies inside the scan.
pub proof fn lemma_linear_bound(n: usize, c: Coord)
    requires
        in_cube(n, c),
    ensures
        0 <= linear(n, c) < cube(n as nat),
{
    let (x, y, z) = (c.0 as int, c.1 as int, c.2 as int);
    let s = n as int;
    assert(x * s * s + y * s + z < s * s * s) by (nonlinear_arith)
        requires
            0 <= x < s,
            0 <= y < s,
            0 <= z < s,
    ;
    assert(0 <= x * s * s + y * s + z) by (nonlinear_arith)
        requires
            0 <= x < s,
            0 <= y < s,
            0 <= z < s,
    ;
}

/// Reading the scan at the place of a coordinate gives the coordinate back.
pub proof fn lemma_coord_at_linear(n: usize, c: Coord)
    requires
        in_cube(n, c),
    ensures
        coord_at(n, linear(n, c)) == c,
{
    let (x, y, z) = (c.0 as int, c.1 as int, c.2 as int);
    let s = n as int;
    let i = linear(n, c);
    let low = y * s + z;
    assert(0 <= low < s * s) by (nonlinear_arith)
        requires
            low == y * s + z,
            0 <= y < s,
            0 <= z < s,
    ;
    assert(i == x * (s * s) + low) by (nonlinear_arith)
        requires
            i == x * s * s + y * s + z,
            low == y * s + z,
    ;
    vstd::arithmetic::div_mod::lemma_fundamental_div_mod_converse(i, s * s, x, low);
    let high = x * s + y;
    assert(i == high * s + z) by (nonlinear_arith)
        requires
            i == x * s * s + y * s + z,
            high == x * s + y,
    ;
    vstd::arithmetic::div_mod::lemma_fundamental_div_mod_converse(i, s, high, z);
    vstd::arithmetic::div_mod::lemma_fundamental_div_mod_converse(high, s, x, y);
}

/// Every place of the scan holds a coordinate of the cube, and that
/// coordinate's place is the one it was read from.
pub proof fn lemma_linear_coord_at(n: usize, i: int)
    requires
        0 <= i < cube(n as nat),
    ensures
        in_cube(n, coord_at(n, i)),
        linear(n, coord_at(n, i)) == i,
{
    let s = n as int;
    assert(s > 0) by (nonlinear_arith)
        requires
            0 <= i < s * s * s,
            s >= 0,
    ;
    assert(s * s > 0) by (nonlinear_arith)
        requires
            s > 0,
    ;
    let x = i / (s * s);
    let high = i / s;
    let y = high % s;
    let z = i % s;
    vstd::arithmetic::div_mod::lemma_fundamental_div_mod(i, s);
    vstd::arithmetic::div_mod::lemma_fundamental_div_mod(high, s);
    vstd::arithmetic::div_mod::lemma_div_denominator(i, s, s);
    vstd::arithmetic::div_mod::lemma_mod_bound(i, s);
    vstd::arithmetic::div_mod::lemma_mod_bound(high, s);
    assert(x == high / s);
    vstd::arithmetic::div_mod::lemma_div_pos_is_pos(i, s * s);
    assert(x < s) by {
        vstd::arithmetic::div_mod::lemma_div_by_multiple_is_strongly_ordered(
            i,
            s * s * s,
            s,
            s * s,
        );
        vstd::arithmetic::div_mod::lemma_div_by_multiple(s, s * s);
        assert(s * s * s == s * (s * s)) by (nonlinear_arith);
    }
    assert(x * s * s + y * s + z == i) by (nonlinear_arith)
        requires
            i == s * high + z,
            high == s * x + y,
    ;
}

/// Whether `a` comes before `b` in ascending order of `(x, y, z)`.
pub open spec fn comes_before(a: Coord, b: Coord) -> bool {
    a.0 < b.0 || (a.0 == b.0 && (a.1 < b.1 || (a.1 == b.1 && a.2 < b.2)))
}

/// The scan runs in ascending order of `(x, y, z)`: of two coordinates of the
/// cube, the one that comes first by `x`, then `y`, then `z` has the earlier
/// place.
pub proof fn lemma_scan_ascends(n: usize, a: Coord, b: Coord)
    requires
        in_cube(n, a),
        in_cube(n, b),
    ensures
        comes_before(a, b) <==> linear(n, a) < linear(n, b),
        a == b <==> linear(n, a) == linear(n, b),
{
    lemma_coord_at_linear(n, a);
    lemma_coord_at_linear(n, b);
    let s = n as int;
    let (ax, ay, az) = (a.0 as int, a.1 as int, a.2 as int);
    let (bx, by, bz) = (b.0 as int, b.1 as int, b.2 as int);
    if ax < bx {
        assert(ax * s * s + ay * s + az < bx * s * s + by * s + bz) by (nonlinear_arith)
            requires
                0 <= ax < bx,
                0 <= ay < s,
                0 <= az < s,
                0 <= by,
                0 <= bz,
        ;
    } else if bx < ax {
        assert(bx * s * s + by * s + bz < ax * s * s + ay * s + az) by (nonlinear_arith)
            requires
                0 <= bx < ax,
                0 <= by < s,
                0 <= bz < s,
                0 <= ay,
                0 <= az,
        ;
    } else if ay < by {
        assert(ay * s + az < by * s + bz) by (nonlinear_arith)
            requires
                0 <= ay < by,
                0 <= az < s,
                0 <= bz,
        ;
    } else if by < ay {
        assert(by * s + bz < ay * s + az) by (nonlinear_arith)
            requires
                0 <= by < ay,
                0 <= bz < s,
                0 <= az,
        ;
    }
}

/// The scan starts at the origin.
pub proof fn lemma_scan_start(n: usize)
    ensures
        linear(n, (0, 0, 0)) == 0,
        cube(n as nat) > 0 ==> in_cube(n, (0, 0, 0)) && coord_at(n, 0) == (0usize, 0usize, 0usize),
{
    let origin: Coord = (0, 0, 0);
    assert(linear(n, origin) == 0) by (nonlinear_arith)
        requires
            origin == (0usize, 0usize, 0usize),
    ;
    if cube(n as nat) > 0 {
        assert(n > 0) by (nonlinear_arith)
            requires
                n * n * n > 0,
        ;
        lemma_coord_at_linear(n, origin);
    }
}

/// The number of points in a cube of side `n`, where that number fits.
pub fn cube_len(n: usize) -> (total: usize)
    requires
        cube(n as nat) <= usize::MAX,
    ensures
        total == cube(n as nat),
{
    if n == 0 {
        assert(cube(0) == 0) by (nonlinear_arith);
        return 0;
    }
    assert(n * n <= n * n * n) by (nonlinear_arith)
        requires
            n >= 1,
    ;
    n * n * n
}

/// The number of points in a cube of side `n`, or `None` where that number
/// is beyond `usize::MAX`.
pub fn checked_cube(n: usize) -> (total: Option<usize>)
    ensures
        total.is_some() <==> cube(n as nat) <= usize::MAX,
        total.is_some() ==> total.unwrap() == cube(n as nat),
{
    if n == 0 {
        assert(cube(0) == 0) by (nonlinear_arith);
        return Some(0);
    }
    assert(n * n <= n * n * n) by (nonlinear_arith)
        requires
            n >= 1,
    ;
    match n.checked_mul(n) {
        Some(square) => square.checked_mul(n),
        None => None,
    }
}

/// The coordinate that follows `c` in the scan of a cube of side `n`. After
/// the last coordinate of the cube comes `(n, 0, 0)`, which lies outside it.
pub fn next_coord(n: usize, c: Coord) -> (next: Coord)
    requires
        in_cube(n, c),
    ensures
        linear(n, next) == linear(n, c) + 1,
        linear(n, c) + 1 < cube(n as nat) ==> in_cube(n, next) && next == coord_at(
            n,
            linear(n, c) + 1,
        ),
{
    let next: Coord = if c.2 + 1 < n {
        (c.0, c.1, c.2 + 1)
    } else if c.1 + 1 < n {
        (c.0, c.1 + 1, 0)
    } else {
        (c.0 + 1, 0, 0)
    };
    proof {
        let (x, y, s) = (c.0 as int, c.1 as int, n as int);
        assert(x * s * s + (y + 1) * s == x * s * s + y * s + s) by (nonlinear_arith);
        assert((x + 1) * s * s == x * s * s + (s - 1) * s + s) by (nonlinear_arith);
        if linear(n, c) + 1 < cube(n as nat) {
            if next.0 >= n {
                assert((x + 1) * s * s == s * s * s) by (nonlinear_arith)
                    requires
                        x + 1 == s,
                ;
            }
            lemma_coord_at_linear(n, next);
        }
    }
    next
}

/// Every coordinate of a cube of side `size`, in the order of the scan.
pub fn coords(size: usize) -> (all: Vec<Coord>)
    requires
        cube(size as nat) <= usize::MAX,
    ensures
        all@ == scan_order(size),
{
    let total = cube_len(size);
    let mut all: Vec<Coord> = Vec::new();
    let mut c: Coord = (0, 0, 0);
    let mut i: usize = 0;
    proof {
        lemma_scan_start(size);
    }
    while i < total
        invariant
            total == cube(size as nat),
            i <= total,
            linear(size, c) == i,
            i < total ==> in_cube(size, c) && c == coord_at(size, i as int),
            all@ == scan_order(size).take(i as int),
        decreases total - i,
    {
        all.push(c);
        assert(all@ == scan_order(size).take(i + 1));
        c = next_coord(size, c);
        i += 1;
    }
    assert(all@ == scan_order(size));
    all
}

} // verus!
