//! Spiral addressing of grid cells: every cell of the infinite plane gets a
//! dense, non-negative index that grows with its distance from the origin.

use vstd::prelude::*;

verus! {

/// A grid cell of a layer's plane, relative to the dataset's origin.
#[derive(Copy, Clone, Eq, PartialEq, PartialOrd, Ord, Hash, Debug, Structural)]
pub struct Sector(pub i32, pub i32);

/// A tile inside a sector.
#[derive(Copy, Clone, Eq, PartialEq, PartialOrd, Ord, Hash, Debug, Structural)]
pub struct Tile(pub u16, pub u16);

/// Zig-zag magnitude of a coordinate: 0, -1, 1, -2, 2, ... become 0, 0, 1, 1, 2, ...
pub open spec fn magnitude(c: int) -> int {
    if c >= 0 {
        c
    } else {
        -c - 1
    }
}

/// Which of the four sign quadrants a cell lies in, as a number below four.
pub open spec fn quadrant(x: int, y: int) -> int {
    if x >= 0 {
        if y >= 0 {
            0
        } else {
            2
        }
    } else {
        if y >= 0 {
            1
        } else {
            3
        }
    }
}

/// The ring of a cell: the larger of its two magnitudes.
pub open spec fn ring(x: int, y: int) -> int {
    if magnitude(x) > magnitude(y) {
        magnitude(x)
    } else {
        magnitude(y)
    }
}

/// Position of a pair of magnitudes in the spiral: ring `a` holds the
/// positions `a * a` to `a * a + 2 * a`.
pub open spec fn spiral_position(ax: int, ay: int) -> int {
    if ax > ay {
        ax * ax + 2 * ay + 1
    } else {
        ay * ay + 2 * ax
    }
}

/// The dense index of the cell `(x, y)`.
pub open spec fn sector_index(x: int, y: int) -> int {
    spiral_position(magnitude(x), magnitude(y)) * 4 + quadrant(x, y)
}

impl Sector {
    /// The dense index of this cell.
    pub open spec fn index(self) -> int {
        sector_index(self.0 as int, self.1 as int)
    }

    /// The ring this cell lies in.
    pub open spec fn ring(self) -> int {
        ring(self.0 as int, self.1 as int)
    }
}

/// A spiral position lies inside its ring's block of positions.
pub proof fn lemma_position_in_ring(ax: int, ay: int)
    requires
        0 <= ax,
        0 <= ay,
    ensures
        ({
            let a = if ax > ay { ax } else { ay };
            a * a <= spiral_position(ax, ay) < (a + 1) * (a + 1)
        }),
{
    let a = if ax > ay { ax } else { ay };
    assert((a + 1) * (a + 1) == a * a + 2 * a + 1) by (nonlinear_arith);
}

/// A smaller ring ends before a larger ring begins.
pub proof fn lemma_rings_apart(a: int, b: int)
    requires
        0 <= a < b,
    ensures
        (a + 1) * (a + 1) <= b * b,
{
    assert((a + 1) * (a + 1) <= b * b) by (nonlinear_arith)
        requires
            0 <= a,
            a + 1 <= b,
    ;
}

/// The magnitudes of a position are determined by the position.
pub proof fn lemma_position_injective(px: int, py: int, qx: int, qy: int)
    requires
        0 <= px,
        0 <= py,
        0 <= qx,
        0 <= qy,
        spiral_position(px, py) == spiral_position(qx, qy),
    ensures
        px == qx,
        py == qy,
{
    let p = if px > py { px } else { py };
    let q = if qx > qy { qx } else { qy };
    lemma_position_in_ring(px, py);
    lemma_position_in_ring(qx, qy);
    if p < q {
        lemma_rings_apart(p, q);
    }
    if q < p {
        lemma_rings_apart(q, p);
    }
    assert(p == q);
}

/// The origin has index zero, and no index is negative.
pub proof fn lemma_index_origin(x: int, y: int)
    ensures
        sector_index(0, 0) == 0,
        0 <= sector_index(x, y),
{
    lemma_position_in_ring(magnitude(x), magnitude(y));
    let a = ring(x, y);
    assert(0 <= a * a) by (nonlinear_arith);
    assert(spiral_position(0, 0) == 0);
}

/// The index is injective: two cells with the same index are the same cell.
pub proof fn lemma_index_injective(x1: int, y1: int, x2: int, y2: int)
    requires
        sector_index(x1, y1) == sector_index(x2, y2),
    ensures
        x1 == x2,
        y1 == y2,
{
    let here = spiral_position(magnitude(x1), magnitude(y1));
    let there = spiral_position(magnitude(x2), magnitude(y2));
    assert(here == there && quadrant(x1, y1) == quadrant(x2, y2));
    lemma_position_injective(magnitude(x1), magnitude(y1), magnitude(x2), magnitude(y2));
}

/// The index grows with the ring: a cell of a smaller ring has a smaller
/// index than any cell of a larger ring.
pub proof fn lemma_index_ring_monotonic(x1: int, y1: int, x2: int, y2: int)
    requires
        ring(x1, y1) < ring(x2, y2),
    ensures
        sector_index(x1, y1) < sector_index(x2, y2),
{
    lemma_position_in_ring(magnitude(x1), magnitude(y1));
    lemma_position_in_ring(magnitude(x2), magnitude(y2));
    lemma_rings_apart(ring(x1, y1), ring(x2, y2));
}

/// The cells of a ring take the indices of one block: the cells of ring
/// `r` have the indices from `4 * r * r` up to, but not including,
/// `4 * (r + 1) * (r + 1)`.
pub proof fn lemma_index_in_ring_block(x: int, y: int)
    ensures
        4 * (ring(x, y) * ring(x, y)) <= sector_index(x, y) < 4 * ((ring(x, y) + 1) * (ring(x, y)
            + 1)),
{
    lemma_position_in_ring(magnitude(x), magnitude(y));
}

/// Two sectors with the same index are the same sector.
pub proof fn lemma_sector_index_injective(a: Sector, b: Sector)
    requires
        a.index() == b.index(),
    ensures
        a == b,
{
    lemma_index_injective(a.0 as int, a.1 as int, b.0 as int, b.1 as int);
}

/// A sector of a smaller ring has a smaller index than any sector of a
/// larger ring.
pub proof fn lemma_sector_ring_monotonic(a: Sector, b: Sector)
    requires
        a.ring() < b.ring(),
    ensures
        a.index() < b.index(),
{
    lemma_index_ring_monotonic(a.0 as int, a.1 as int, b.0 as int, b.1 as int);
}

/// The indices are dense: every non-negative number is the index of a cell.
pub proof fn lemma_index_dense(i: int) -> (cell: (int, int))
    requires
        0 <= i,
    ensures
        sector_index(cell.0, cell.1) == i,
{
    let p = i / 4;
    let q = i % 4;
    let a = choose_root(p);
    let d = p - a * a;
    assert((a + 1) * (a + 1) == a * a + 2 * a + 1) by (nonlinear_arith);
    let (ax, ay) = if d % 2 == 1 {
        (a, d / 2)
    } else {
        (d / 2, a)
    };
    assert(spiral_position(ax, ay) == p);
    let x = if q == 1 || q == 3 { -ax - 1 } else { ax };
    let y = if q == 2 || q == 3 { -ay - 1 } else { ay };
    assert(magnitude(x) == ax && magnitude(y) == ay);
    assert(quadrant(x, y) == q);
    (x, y)
}

/// The integer square root of a non-negative number.
proof fn choose_root(p: int) -> (a: int)
    requires
        0 <= p,
    ensures
        0 <= a,
        a * a <= p < (a + 1) * (a + 1),
    decreases p,
{
    if p == 0 {
        0
    } else {
        let b = choose_root(p - 1);
        if (b + 1) * (b + 1) <= p {
            assert((b + 2) * (b + 2) > (b + 1) * (b + 1)) by (nonlinear_arith)
                requires
                    0 <= b,
            ;
            assert(p - 1 < (b + 1) * (b + 1));
            assert((b + 1 + 1) * (b + 1 + 1) == (b + 2) * (b + 2)) by (nonlinear_arith);
            b + 1
        } else {
            b
        }
    }
}

/// The largest index of any cell fits in 64 bits.
pub proof fn lemma_index_fits(x: int, y: int)
    requires
        i32::MIN <= x <= i32::MAX,
        i32::MIN <= y <= i32::MAX,
    ensures
        0 <= sector_index(x, y) <= u64::MAX,
{
    let ax = magnitude(x);
    let ay = magnitude(y);
    lemma_position_in_ring(ax, ay);
    let a = ring(x, y);
    assert(0 <= a <= 0x7fff_ffff);
    assert(0 <= a * a && (a + 1) * (a + 1) <= 0x8000_0000 * 0x8000_0000) by (nonlinear_arith)
        requires
            0 <= a <= 0x7fff_ffff,
    ;
}

/// Computes the zig-zag magnitude of a coordinate.
fn coordinate_magnitude(c: i32) -> (m: u64)
    ensures
        m == magnitude(c as int),
        m <= 0x7fff_ffff,
{
    if c >= 0 {
        c as u64
    } else {
        (-(c + 1)) as u64
    }
}

/// Computes the dense index of a cell.
pub fn compute_index(sector: Sector) -> (index: u64)
    ensures
        index == sector.index(),
{
    let ax: u64 = coordinate_magnitude(sector.0);
    let ay: u64 = coordinate_magnitude(sector.1);
    let q: u64 = if sector.0 >= 0 {
        if sector.1 >= 0 {
            0
        } else {
            2
        }
    } else {
        if sector.1 >= 0 {
            1
        } else {
            3
        }
    };
    proof {
        lemma_index_fits(sector.0 as int, sector.1 as int);
        lemma_position_in_ring(ax as int, ay as int);
        assert(0 <= ax * ax <= 0x7fff_ffff * 0x7fff_ffff) by (nonlinear_arith)
            requires
                0 <= ax <= 0x7fff_ffff,
        ;
        assert(0 <= ay * ay <= 0x7fff_ffff * 0x7fff_ffff) by (nonlinear_arith)
            requires
                0 <= ay <= 0x7fff_ffff,
        ;
    }
    if ax > ay {
        (ax * ax + 2 * ay + 1) * 4 + q
    } else {
        (ay * ay + 2 * ax) * 4 + q
    }
}

} // verus!
