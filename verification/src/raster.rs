//! Rasters of geographic data: where the values of a raster stand, and a
//! cache that fetches rasters on demand and remembers the cells that have
//! none.

use crate::lru::{
    has_cell, lru_capacity, lru_entries, lru_get, lru_insert, lru_len, lru_limit, lru_new,
    lru_remove_lru,
};
use crate::archive::{bitvec_bits, bitvec_get, bitvec_len};
use bit_vec::BitVec;
use lru_cache::LruCache;
use std::collections::HashSet;
use vstd::prelude::*;

verus! {

/// The layout of a raster: a grid of `width` by `height` cells with `bands`
/// values each, stored row by row, the northernmost row first, the bands of
/// a cell side by side.
#[derive(Copy, Clone, Debug, PartialEq, Eq, Structural)]
pub struct Raster {
    pub width: usize,
    pub height: usize,
    pub bands: usize,
}

impl Raster {
    /// The number of values of the raster.
    pub open spec fn len(&self) -> int {
        self.width * self.height * self.bands
    }

    /// Where the value of a band of a cell stands.
    pub open spec fn offset(&self, x: int, y: int, band: int) -> int {
        (x + y * self.width) * self.bands + band
    }

    /// The place of a value lies among the values of the raster.
    pub proof fn lemma_offset_in_range(&self, x: int, y: int, band: int)
        requires
            0 <= x < self.width,
            0 <= y < self.height,
            0 <= band < self.bands,
        ensures
            0 <= self.offset(x, y, band) < self.len(),
            0 <= x + y * self.width < self.width * self.height,
    {
        let w = self.width as int;
        let h = self.height as int;
        let b = self.bands as int;
        assert(0 <= y * w <= (h - 1) * w) by (nonlinear_arith)
            requires
                0 <= y <= h - 1,
                0 <= w,
        ;
        assert((h - 1) * w == h * w - w) by (nonlinear_arith);
        assert(w * h == h * w) by (nonlinear_arith);
        let cell = x + y * w;
        assert(0 <= cell * b <= (w * h - 1) * b) by (nonlinear_arith)
            requires
                0 <= cell <= w * h - 1,
                0 <= b,
        ;
        assert((w * h - 1) * b == w * h * b - b) by (nonlinear_arith);
    }

    /// Where the value of a band of a cell stands.
    pub fn cell_offset(&self, x: usize, y: usize, band: usize) -> (offset: usize)
        requires
            self.len() <= usize::MAX,
            x < self.width,
            y < self.height,
            band < self.bands,
        ensures
            offset == self.offset(x as int, y as int, band as int),
            offset < self.len(),
    {
        proof {
            self.lemma_offset_in_range(x as int, y as int, band as int);
            let w = self.width as int;
            let h = self.height as int;
            let b = self.bands as int;
            assert(0 <= y * w) by (nonlinear_arith)
                requires
                    0 <= y,
                    0 <= w,
            ;
            assert(0 <= w * h) by (nonlinear_arith)
                requires
                    0 <= w,
                    0 <= h,
            ;
            assert(w * h <= w * h * b) by (nonlinear_arith)
                requires
                    0 <= w * h,
                    1 <= b,
            ;
            assert(0 <= (x + y * w) * b) by (nonlinear_arith)
                requires
                    0 <= x + y * w,
                    0 <= b,
            ;
        }
        (x + y * self.width) * self.bands + band
    }

    /// The places of the four values between which a point is interpolated
    /// in one band: the values at the cell `(x, y)` that holds the point, at
    /// its eastern neighbour, at its southern neighbour, and at the cell
    /// diagonally across, in this order. At the eastern and southern edge
    /// the cell stands in for the neighbour that is missing. A point outside
    /// the raster gives `None`.
    pub fn interpolation_offsets(&self, x: i64, y: i64, band: usize) -> (offsets: Option<
        [usize; 4],
    >)
        requires
            self.len() <= usize::MAX,
            band < self.bands,
        ensures
            offsets is Some <==> 0 <= x < self.width && 0 <= y < self.height,
            offsets is Some ==> ({
                let east = if x + 1 < self.width {
                    x + 1
                } else {
                    x as int
                };
                let south = if y + 1 < self.height {
                    y + 1
                } else {
                    y as int
                };
                &&& offsets.unwrap()[0] == self.offset(x as int, y as int, band as int)
                &&& offsets.unwrap()[1] == self.offset(east, y as int, band as int)
                &&& offsets.unwrap()[2] == self.offset(x as int, south, band as int)
                &&& offsets.unwrap()[3] == self.offset(east, south, band as int)
                &&& forall|i: int| 0 <= i < 4 ==> offsets.unwrap()[i] < self.len()
            }),
    {
        if x < 0 || y < 0 {
            return None;
        }
        if x as u64 >= self.width as u64 || y as u64 >= self.height as u64 {
            return None;
        }
        let fx = x as usize;
        let fy = y as usize;
        let fx_1 = if fx + 1 < self.width {
            fx + 1
        } else {
            fx
        };
        let fy_1 = if fy + 1 < self.height {
            fy + 1
        } else {
            fy
        };
        Some(
            [
                self.cell_offset(fx, fy, band),
                self.cell_offset(fx_1, fy, band),
                self.cell_offset(fx, fy_1, band),
                self.cell_offset(fx_1, fy_1, band),
            ],
        )
    }

    /// The places of the four values around a point that has all of its
    /// neighbours: the values at the cell `(x, y)`, at the cell east of it,
    /// at the cell south of it, and at the cell diagonally across, in this
    /// order. A point in the last column or the last row, or outside the
    /// raster, gives `None`.
    pub fn inner_offsets(&self, x: i64, y: i64, band: usize) -> (offsets: Option<[usize; 4]>)
        requires
            self.len() <= usize::MAX,
            band < self.bands,
        ensures
            offsets is Some <==> 0 <= x && x + 1 < self.width && 0 <= y && y + 1 < self.height,
            offsets is Some ==> ({
                &&& offsets.unwrap()[0] == self.offset(x as int, y as int, band as int)
                &&& offsets.unwrap()[1] == self.offset(x + 1, y as int, band as int)
                &&& offsets.unwrap()[2] == self.offset(x as int, y + 1, band as int)
                &&& offsets.unwrap()[3] == self.offset(x + 1, y + 1, band as int)
                &&& forall|i: int| 0 <= i < 4 ==> offsets.unwrap()[i] < self.len()
            }),
    {
        if x < 0 || y < 0 {
            return None;
        }
        if x as u64 >= self.width as u64 || y as u64 >= self.height as u64 {
            return None;
        }
        let fx = x as usize;
        let fy = y as usize;
        if fx + 1 >= self.width || fy + 1 >= self.height {
            return None;
        }
        Some(
            [
                self.cell_offset(fx, fy, band),
                self.cell_offset(fx + 1, fy, band),
                self.cell_offset(fx, fy + 1, band),
                self.cell_offset(fx + 1, fy + 1, band),
            ],
        )
    }

    /// The place of the first of the three values of the cell `(x, y)`, for
    /// a raster of three bands or more. A cell outside the raster gives
    /// `None`.
    pub fn nearest3_offset(&self, x: i64, y: i64) -> (offset: Option<usize>)
        requires
            self.len() <= usize::MAX,
            self.bands >= 3,
        ensures
            offset is Some <==> 0 <= x < self.width && 0 <= y < self.height,
            offset is Some ==> offset.unwrap() == self.offset(x as int, y as int, 0)
                && offset.unwrap() + 3 <= self.len(),
    {
        if x < 0 || y < 0 {
            return None;
        }
        if x as u64 >= self.width as u64 || y as u64 >= self.height as u64 {
            return None;
        }
        proof {
            self.lemma_offset_in_range(x as int, y as int, 2);
        }
        Some(self.cell_offset(x as usize, y as usize, 0))
    }

    /// The place of the value of a band in a raster that spans the globe:
    /// the row is kept between the first and the last row, and the column
    /// wraps around.
    pub fn global_offset(&self, x: i64, y: i64, band: usize) -> (offset: usize)
        requires
            self.len() <= usize::MAX,
            0 < self.width <= i64::MAX,
            0 < self.height <= i64::MAX,
            band < self.bands,
        ensures
            offset == self.offset(
                x as int % self.width as int,
                if y < 0 {
                    0
                } else if y >= self.height {
                    self.height - 1
                } else {
                    y as int
                },
                band as int,
            ),
            offset < self.len(),
    {
        let row: usize = if y < 0 {
            0
        } else if y >= self.height as i64 {
            self.height - 1
        } else {
            y as usize
        };
        let width = self.width as u64;
        let column: usize = if x >= 0 {
            (x as u64 % width) as usize
        } else {
            let below = (-(x + 1)) as u64;
            proof {
                let w = self.width as int;
                let q = below as int / w;
                let m = below as int % w;
                vstd::arithmetic::div_mod::lemma_fundamental_div_mod(below as int, w);
                assert(x as int == (-q - 1) * w + (w - 1 - m)) by (nonlinear_arith)
                    requires
                        -(x as int) - 1 == w * q + m,
                ;
                vstd::arithmetic::div_mod::lemma_fundamental_div_mod_converse(
                    x as int,
                    w,
                    -q - 1,
                    w - 1 - m,
                );
            }
            (width - 1 - below % width) as usize
        };
        self.cell_offset(column, row, band)
    }
}

/// The number that stands for a cell in the set of holes.
pub open spec fn cell_code(key: (i16, i16)) -> u32 {
    ((key.0 + 32768) * 65536 + (key.1 + 32768)) as u32
}

/// A coordinate rounded down to a multiple of `size`.
pub open spec fn floor_to(c: int, size: int) -> int {
    c - c % size
}

/// What a cache knows of a cell.
#[derive(Copy, Clone, Debug, PartialEq, Eq, Structural)]
pub enum Lookup {
    /// A load of the cell has failed before: there is no raster, and none
    /// is to be asked for again.
    Hole,
    /// The raster of the cell is resident in this slot.
    Resident { slot: usize },
    /// The raster of the cell has to be loaded.
    Missing { latitude: i16, longitude: i16 },
    /// The point lies in no cell that can be named: the corner of its cell
    /// is out of the range of the coordinates.
    Outside,
}

/// The state of a raster cache.
pub struct RasterCacheState {
    /// The degrees of latitude and longitude that one raster covers.
    pub raster_size: i16,
    /// The number of bands of the rasters.
    pub bands: usize,
    /// The number of rasters that the cache may hold.
    pub capacity: nat,
    /// The cells whose load has failed.
    pub holes: Set<(i16, i16)>,
    /// The resident cells with their slots, the cell that was used least
    /// recently first.
    pub order: Seq<((i16, i16), usize)>,
}

impl RasterCacheState {
    /// The cache is consistent: a raster covers a positive number of
    /// degrees, no more rasters are resident than the cache may hold, the
    /// resident cells have the first slots, each cell one of its own, and no
    /// cell is both resident and a hole.
    pub open spec fn well_formed(self) -> bool {
        &&& 0 < self.raster_size
        &&& forall|i: int|
            0 <= i < self.order.len() ==> !self.holes.contains((#[trigger] self.order[i]).0)
        &&& self.capacity <= usize::MAX
        &&& self.order.len() <= self.capacity
        &&& forall|i: int| 0 <= i < self.order.len() ==> (#[trigger] self.order[i]).1 < self.order.len()
        &&& forall|i: int, j: int|
            0 <= i < j < self.order.len() ==> (#[trigger] self.order[i]).0 != (
            #[trigger] self.order[j]).0
        &&& forall|i: int, j: int|
            0 <= i < j < self.order.len() ==> (#[trigger] self.order[i]).1 != (
            #[trigger] self.order[j]).1
    }

    /// Whether the cell of a point can be named: its corner lies within the
    /// range of the coordinates.
    pub open spec fn in_range(self, latitude: i16, longitude: i16) -> bool {
        floor_to(latitude as int, self.raster_size as int) >= i16::MIN && floor_to(
            longitude as int,
            self.raster_size as int,
        ) >= i16::MIN
    }

    /// The cell that holds a point: its coordinates rounded down to the
    /// size of a raster.
    pub open spec fn cell_of(self, latitude: i16, longitude: i16) -> (i16, i16) {
        (
            floor_to(latitude as int, self.raster_size as int) as i16,
            floor_to(longitude as int, self.raster_size as int) as i16,
        )
    }

    /// Whether the raster of a cell is resident.
    pub open spec fn resident(self, key: (i16, i16)) -> bool {
        has_cell(self.order, key)
    }

    /// The place of a resident cell in the order of use.
    pub open spec fn place_of(self, key: (i16, i16)) -> int {
        choose|i: int| 0 <= i < self.order.len() && (#[trigger] self.order[i]).0 == key
    }

    /// The slot of a resident cell.
    pub open spec fn slot_of(self, key: (i16, i16)) -> usize {
        self.order[self.place_of(key)].1
    }

    /// What the cache knows of a cell. A hole stays a hole, whatever else
    /// the cache holds.
    pub open spec fn lookup(self, key: (i16, i16)) -> Lookup {
        if self.holes.contains(key) {
            Lookup::Hole
        } else if self.resident(key) {
            Lookup::Resident { slot: self.slot_of(key) }
        } else {
            Lookup::Missing { latitude: key.0, longitude: key.1 }
        }
    }

    /// The cache with a resident cell made the most recently used one.
    pub open spec fn refreshed(self, key: (i16, i16)) -> RasterCacheState {
        RasterCacheState {
            order: self.order.remove(self.place_of(key)).push((key, self.slot_of(key))),
            ..self
        }
    }

    /// The state after a cell was asked for: a resident cell that is no
    /// hole becomes the most recently used one, and nothing else changes.
    pub open spec fn touched(self, key: (i16, i16)) -> RasterCacheState {
        if !self.holes.contains(key) && self.resident(key) {
            self.refreshed(key)
        } else {
            self
        }
    }

    /// The slot that a loaded raster goes into: none if the cell is a hole;
    /// else the slot of the cell if it is resident; else none if the cache
    /// may hold nothing; else a fresh slot while there is one; else the slot
    /// of the cell that was used least recently.
    pub open spec fn slot_for(self, key: (i16, i16)) -> Option<usize> {
        if self.holes.contains(key) {
            None
        } else if self.resident(key) {
            Some(self.slot_of(key))
        } else if self.capacity == 0 {
            None
        } else if self.order.len() < self.capacity {
            Some(self.order.len() as usize)
        } else {
            Some(self.order[0].1)
        }
    }

    /// The state after the raster of a cell was loaded: the cell is the
    /// most recently used one; if the cache was full, the cell that was
    /// used least recently has left. A raster for a hole is not taken: the
    /// cell stays a hole, and the cache stays as it is.
    pub open spec fn stored(self, key: (i16, i16)) -> RasterCacheState {
        if self.holes.contains(key) {
            self
        } else if self.resident(key) {
            self.refreshed(key)
        } else if self.capacity == 0 {
            self
        } else if self.order.len() < self.capacity {
            RasterCacheState { order: self.order.push((key, self.order.len() as usize)), ..self }
        } else {
            RasterCacheState {
                order: self.order.subrange(1, self.order.len() as int).push(
                    (key, self.order[0].1),
                ),
                ..self
            }
        }
    }

    /// The state after the load of a cell has failed: the cell is a hole.
    /// A failure that is reported for a resident cell makes no hole: the
    /// raster stays, and counts as used.
    pub open spec fn failed(self, key: (i16, i16)) -> RasterCacheState {
        if self.resident(key) {
            self.refreshed(key)
        } else {
            RasterCacheState { holes: self.holes.insert(key), ..self }
        }
    }
}

/// In a consistent cache a resident cell stands at one place only.
pub proof fn lemma_place_of(state: RasterCacheState, i: int)
    requires
        state.well_formed(),
        0 <= i < state.order.len(),
    ensures
        state.resident(state.order[i].0),
        state.place_of(state.order[i].0) == i,
        state.slot_of(state.order[i].0) == state.order[i].1,
{
    let key = state.order[i].0;
    let c = state.place_of(key);
    if c < i {
        assert(state.order[c].0 != state.order[i].0);
    }
    if i < c {
        assert(state.order[i].0 != state.order[c].0);
    }
}

/// Making a cell the most recently used one keeps a cache consistent.
pub proof fn lemma_refreshed(state: RasterCacheState, key: (i16, i16))
    requires
        state.well_formed(),
        state.resident(key),
    ensures
        state.refreshed(key).well_formed(),
        state.refreshed(key).holes == state.holes,
        state.refreshed(key).order.len() == state.order.len(),
        forall|other: (i16, i16)|
            state.resident(other) <==> #[trigger] state.refreshed(key).resident(other),
{
    let at = state.place_of(key);
    let after = state.refreshed(key);
    let n = state.order.len() as int;
    assert forall|i: int| 0 <= i < n implies (#[trigger] after.order[i]) == (if i < at {
        state.order[i]
    } else if i < n - 1 {
        state.order[i + 1]
    } else {
        state.order[at]
    }) by {}
    assert forall|i: int, j: int| 0 <= i < j < n implies (#[trigger] after.order[i]).0 != (
    #[trigger] after.order[j]).0 && after.order[i].1 != after.order[j].1 by {
        let a = if i < at {
            i
        } else if i < n - 1 {
            i + 1
        } else {
            at
        };
        let b = if j < at {
            j
        } else if j < n - 1 {
            j + 1
        } else {
            at
        };
        if a < b {
            assert(state.order[a].0 != state.order[b].0);
            assert(state.order[a].1 != state.order[b].1);
        } else {
            assert(state.order[b].0 != state.order[a].0);
            assert(state.order[b].1 != state.order[a].1);
        }
    }
    assert forall|i: int| 0 <= i < n implies (#[trigger] after.order[i]).1 < n by {
        let a = if i < at {
            i
        } else if i < n - 1 {
            i + 1
        } else {
            at
        };
        assert(state.order[a].1 < n);
    }
    assert forall|i: int| 0 <= i < n implies !after.holes.contains(
        (#[trigger] after.order[i]).0,
    ) by {
        let a = if i < at {
            i
        } else if i < n - 1 {
            i + 1
        } else {
            at
        };
        assert(!state.holes.contains(state.order[a].0));
    }
    assert forall|other: (i16, i16)| state.resident(other) <==> #[trigger] after.resident(
        other,
    ) by {
        if state.resident(other) {
            let p = state.place_of(other);
            let q = if p < at {
                p
            } else if p == at {
                n - 1
            } else {
                p - 1
            };
            assert(after.order[q].0 == other);
        }
        if after.resident(other) {
            let q = after.place_of(other);
            let p = if q < at {
                q
            } else if q < n - 1 {
                q + 1
            } else {
                at
            };
            assert(state.order[p].0 == other);
        }
    }
}

/// A failed load keeps a cache consistent, takes no raster out, and leaves
/// every hole a hole.
pub proof fn lemma_failed(state: RasterCacheState, key: (i16, i16))
    requires
        state.well_formed(),
    ensures
        state.failed(key).well_formed(),
        state.failed(key).capacity == state.capacity,
        state.failed(key).raster_size == state.raster_size,
        state.failed(key).order.len() == state.order.len(),
        forall|other: (i16, i16)|
            state.holes.contains(other) ==> #[trigger] state.failed(key).holes.contains(other),
        !state.resident(key) ==> state.failed(key).holes.contains(key),
{
    if state.resident(key) {
        lemma_refreshed(state, key);
    } else {
        let after = state.failed(key);
        assert forall|i: int| 0 <= i < after.order.len() implies !after.holes.contains(
            (#[trigger] after.order[i]).0,
        ) by {
            assert(!state.holes.contains(state.order[i].0));
            assert(state.order[i].0 != key);
        }
    }
}

/// Storing a raster keeps a cache consistent and within its capacity, and
/// touches no hole.
pub proof fn lemma_stored(state: RasterCacheState, key: (i16, i16))
    requires
        state.well_formed(),
    ensures
        state.stored(key).well_formed(),
        state.stored(key).holes == state.holes,
        state.stored(key).capacity == state.capacity,
        state.stored(key).order.len() <= state.capacity,
        state.capacity > 0 && !state.holes.contains(key) ==> state.stored(key).resident(key)
            && state.slot_for(key) == Some(state.stored(key).slot_of(key)),
{
    let after = state.stored(key);
    let n = state.order.len() as int;
    if state.holes.contains(key) {
    } else if state.resident(key) {
        lemma_refreshed(state, key);
        assert(after.order[n - 1] == (key, state.slot_of(key)));
        lemma_place_of(after, n - 1);
    } else if state.capacity == 0 {
    } else if state.order.len() < state.capacity {
        assert(after.order[n] == (key, n as usize));
        assert forall|i: int, j: int| 0 <= i < j < after.order.len() implies (
        #[trigger] after.order[i]).0 != (#[trigger] after.order[j]).0 && after.order[i].1
            != after.order[j].1 by {
            if j == n {
                assert(state.order[i].0 != key);
                assert(state.order[i].1 < n);
            } else {
                assert(state.order[i].0 != state.order[j].0);
                assert(state.order[i].1 != state.order[j].1);
            }
        }
        assert forall|i: int| 0 <= i < after.order.len() implies (#[trigger] after.order[i]).1
            < after.order.len() by {
            if i < n {
                assert(state.order[i].1 < n);
            }
        }
        assert forall|i: int| 0 <= i < after.order.len() implies !after.holes.contains(
            (#[trigger] after.order[i]).0,
        ) by {
            if i < n {
                assert(!state.holes.contains(state.order[i].0));
            }
        }
        lemma_place_of(after, n);
    } else {
        assert(after.order[n - 1] == (key, state.order[0].1));
        assert forall|i: int, j: int| 0 <= i < j < after.order.len() implies (
        #[trigger] after.order[i]).0 != (#[trigger] after.order[j]).0 && after.order[i].1
            != after.order[j].1 by {
            assert(after.order[i] == state.order[i + 1]);
            if j == n - 1 {
                assert(state.order[i + 1].0 != key);
                assert(state.order[0].1 != state.order[i + 1].1);
            } else {
                assert(after.order[j] == state.order[j + 1]);
                assert(state.order[i + 1].0 != state.order[j + 1].0);
                assert(state.order[i + 1].1 != state.order[j + 1].1);
            }
        }
        assert forall|i: int| 0 <= i < after.order.len() implies (#[trigger] after.order[i]).1
            < after.order.len() by {
            if i < n - 1 {
                assert(after.order[i] == state.order[i + 1]);
                assert(state.order[i + 1].1 < n);
            } else {
                assert(state.order[0].1 < n);
            }
        }
        assert forall|i: int| 0 <= i < after.order.len() implies !after.holes.contains(
            (#[trigger] after.order[i]).0,
        ) by {
            if i < n - 1 {
                assert(after.order[i] == state.order[i + 1]);
                assert(!state.holes.contains(state.order[i + 1].0));
            }
        }
        lemma_place_of(after, n - 1);
    }
}

/// Different cells have different codes.
pub proof fn lemma_cell_code(a: (i16, i16), b: (i16, i16))
    ensures
        cell_code(a) == cell_code(b) <==> a == b,
{
}

/// A coordinate rounded down to a multiple of `size`, if the result is in
/// the range of the coordinates.
pub fn floor_coordinate(c: i16, size: i16) -> (r: Option<i16>)
    requires
        0 < size,
    ensures
        r == (if floor_to(c as int, size as int) >= i16::MIN {
            Some(floor_to(c as int, size as int) as i16)
        } else {
            None
        }),
{
    let wide: i32 = c as i32;
    let step: i32 = size as i32;
    let over: i32 = if wide >= 0 {
        wide % step
    } else {
        let below: i32 = -(wide + 1);
        proof {
            let q = below as int / step as int;
            let m = below as int % step as int;
            vstd::arithmetic::div_mod::lemma_fundamental_div_mod(below as int, step as int);
            assert(wide as int == (-q - 1) * step + (step - 1 - m)) by (nonlinear_arith)
                requires
                    -(wide as int) - 1 == step * q + m,
            ;
            vstd::arithmetic::div_mod::lemma_fundamental_div_mod_converse(
                wide as int,
                step as int,
                -q - 1,
                step - 1 - m,
            );
        }
        step - 1 - below % step
    };
    let floor: i32 = wide - over;
    if floor >= i16::MIN as i32 {
        Some(floor as i16)
    } else {
        None
    }
}

/// A cache of rasters that are fetched on demand, each for one cell of the
/// globe.
///
/// The cache decides whether the raster of a cell has to be loaded, which
/// slot a loaded raster gets and which raster leaves for it, and remembers
/// the cells whose load has failed. Loading a raster and keeping its values
/// in the slot is the caller's part.
pub struct RasterCache {
    raster_size: i16,
    bands: usize,
    holes: HashSet<u32>,
    rasters: LruCache<(i16, i16), usize>,
}

impl View for RasterCache {
    type V = RasterCacheState;

    closed spec fn view(&self) -> RasterCacheState {
        RasterCacheState {
            raster_size: self.raster_size,
            bands: self.bands,
            capacity: lru_capacity(self.rasters),
            holes: Set::new(|key: (i16, i16)| self.holes@.contains(cell_code(key))),
            order: lru_entries(self.rasters),
        }
    }
}

impl RasterCache {
    /// An empty cache for at most `size` rasters of a source whose rasters
    /// have `bands` bands and cover `raster_size` degrees each way.
    pub fn new(raster_size: i16, bands: usize, size: usize) -> (cache: RasterCache)
        requires
            0 < raster_size,
        ensures
            cache@ == (RasterCacheState {
                raster_size,
                bands,
                capacity: size as nat,
                holes: Set::empty(),
                order: Seq::empty(),
            }),
            cache@.well_formed(),
    {
        broadcast use vstd::std_specs::hash::group_hash_axioms;

        let cache = RasterCache {
            raster_size,
            bands,
            holes: HashSet::new(),
            rasters: lru_new(size),
        };
        assert(cache@.holes =~= Set::<(i16, i16)>::empty());
        cache
    }

    /// The number of bands of the rasters.
    pub fn bands(&self) -> (bands: usize)
        ensures
            bands == self@.bands,
    {
        self.bands
    }

    /// The degrees of latitude and longitude that one raster covers.
    pub fn raster_size(&self) -> (size: i16)
        ensures
            size == self@.raster_size,
    {
        self.raster_size
    }

    /// The cell that holds a point, if it can be named.
    pub fn cell(&self, latitude: i16, longitude: i16) -> (key: Option<(i16, i16)>)
        requires
            self@.well_formed(),
        ensures
            key == (if self@.in_range(latitude, longitude) {
                Some(self@.cell_of(latitude, longitude))
            } else {
                None
            }),
    {
        match floor_coordinate(latitude, self.raster_size) {
            Some(south) => match floor_coordinate(longitude, self.raster_size) {
                Some(west) => Some((south, west)),
                None => None,
            },
            None => None,
        }
    }

    /// Asks for the raster of the cell that holds a point.
    ///
    /// A cell whose load has failed before is a hole: the answer is `Hole`,
    /// and the source is not to be asked again. A resident raster is
    /// answered with its slot, and becomes the most recently used one. For
    /// any other cell the answer is `Missing`: the caller loads the raster
    /// and reports the outcome with `loaded`. Where the answer is not
    /// `Resident`, the cache stays as it is.
    pub fn get(&mut self, latitude: i16, longitude: i16) -> (answer: Lookup)
        requires
            old(self)@.well_formed(),
        ensures
            final(self)@.well_formed(),
            !old(self)@.in_range(latitude, longitude) ==> answer == Lookup::Outside && final(self)@
                == old(self)@,
            old(self)@.in_range(latitude, longitude) ==> answer == old(self)@.lookup(
                old(self)@.cell_of(latitude, longitude),
            ) && final(self)@ == old(self)@.touched(old(self)@.cell_of(latitude, longitude)),
    {
        broadcast use vstd::std_specs::hash::group_hash_axioms;

        let key = match self.cell(latitude, longitude) {
            Some(key) => key,
            None => {
                return Lookup::Outside;
            },
        };
        if self.holes.contains(&Self::code(key)) {
            return Lookup::Hole;
        }
        let ghost before = self@;
        match lru_get(&mut self.rasters, key) {
            Some(slot) => {
                proof {
                    let i = choose|i: int|
                        0 <= i < before.order.len() && #[trigger] before.order[i] == (key, slot)
                            && lru_entries(self.rasters) == before.order.remove(i).push(
                            (key, slot),
                        );
                    lemma_place_of(before, i);
                    lemma_refreshed(before, key);
                    assert(self@.holes =~= before.holes);
                }
                Lookup::Resident { slot }
            },
            None => {
                assert(self@.holes =~= before.holes);
                Lookup::Missing { latitude: key.0, longitude: key.1 }
            },
        }
    }

    /// Reports the outcome of a load of the cell that holds a point.
    ///
    /// A raster that was found gets a slot, which is returned, and becomes
    /// the most recently used one; if the cache was full, the raster that
    /// was used least recently leaves and the new one takes its slot. A
    /// cache that may hold nothing gives `None`, and so does a cell that is
    /// a hole, whose raster is not taken. A load that failed makes the cell
    /// a hole, and gives `None`; where the cell is resident it makes no
    /// hole, and the raster stays.
    pub fn loaded(&mut self, latitude: i16, longitude: i16, found: bool) -> (slot: Option<usize>)
        requires
            old(self)@.well_formed(),
        ensures
            final(self)@.well_formed(),
            final(self)@.order.len() <= final(self)@.capacity,
            !old(self)@.in_range(latitude, longitude) ==> slot is None && final(self)@ == old(
                self,
            )@,
            old(self)@.in_range(latitude, longitude) && found ==> slot == old(self)@.slot_for(
                old(self)@.cell_of(latitude, longitude),
            ) && final(self)@ == old(self)@.stored(old(self)@.cell_of(latitude, longitude)),
            old(self)@.in_range(latitude, longitude) && !found ==> slot is None && final(self)@
                == old(self)@.failed(old(self)@.cell_of(latitude, longitude)),
    {
        broadcast use vstd::std_specs::hash::group_hash_axioms;

        let key = match self.cell(latitude, longitude) {
            Some(key) => key,
            None => {
                return None;
            },
        };
        let ghost before = self@;
        proof {
            lemma_stored(before, key);
            lemma_failed(before, key);
        }
        if found && self.holes.contains(&Self::code(key)) {
            return None;
        }
        match lru_get(&mut self.rasters, key) {
            Some(slot) => {
                proof {
                    let i = choose|i: int|
                        0 <= i < before.order.len() && #[trigger] before.order[i] == (key, slot)
                            && lru_entries(self.rasters) == before.order.remove(i).push(
                            (key, slot),
                        );
                    lemma_place_of(before, i);
                    assert(self@.holes =~= before.holes);
                }
                return if found {
                    Some(slot)
                } else {
                    None
                };
            },
            None => {},
        }
        if !found {
            self.holes.insert(Self::code(key));
            proof {
                assert forall|other: (i16, i16)|
                    self@.holes.contains(other) <==> before.holes.insert(key).contains(other) by {
                    lemma_cell_code(other, key);
                }
                assert(self@.holes =~= before.holes.insert(key));
            }
            return None;
        }
        let capacity = lru_limit(&self.rasters);
        if capacity == 0 {
            assert(self@.holes =~= before.holes);
            return None;
        }
        let length = lru_len(&self.rasters);
        let slot = if length < capacity {
            length
        } else {
            match lru_remove_lru(&mut self.rasters) {
                Some(entry) => entry.1,
                None => 0,
            }
        };
        proof {
            let rest = lru_entries(self.rasters);
            if has_cell(rest, key) {
                let i = choose|i: int| 0 <= i < rest.len() && (#[trigger] rest[i]).0 == key;
                if length < capacity {
                    assert(before.order[i].0 == key);
                } else {
                    assert(before.order[i + 1].0 == key);
                }
            }
        }
        lru_insert(&mut self.rasters, key, slot);
        proof {
            assert(self@.holes =~= before.holes);
            assert(self@.order =~= before.stored(key).order);
        }
        Some(slot)
    }

    /// The number that stands for a cell in the set of holes.
    fn code(key: (i16, i16)) -> (code: u32)
        ensures
            code == cell_code(key),
    {
        ((key.0 as i64 + 32768) * 65536 + (key.1 as i64 + 32768)) as u32
    }
}

/// One operation on a raster cache.
pub enum RasterOp {
    /// `get(latitude, longitude)`
    Get { latitude: i16, longitude: i16 },
    /// `loaded(latitude, longitude, found)`
    Loaded { latitude: i16, longitude: i16, found: bool },
}

impl RasterCacheState {
    /// The state after one operation.
    pub open spec fn step(self, op: RasterOp) -> RasterCacheState {
        match op {
            RasterOp::Get { latitude, longitude } => if self.in_range(latitude, longitude) {
                self.touched(self.cell_of(latitude, longitude))
            } else {
                self
            },
            RasterOp::Loaded { latitude, longitude, found } => if !self.in_range(
                latitude,
                longitude,
            ) {
                self
            } else if found {
                self.stored(self.cell_of(latitude, longitude))
            } else {
                self.failed(self.cell_of(latitude, longitude))
            },
        }
    }

    /// The state after a sequence of operations.
    pub open spec fn run(self, ops: Seq<RasterOp>) -> RasterCacheState
        decreases ops.len(),
    {
        if ops.len() == 0 {
            self
        } else {
            self.run(ops.drop_last()).step(ops.last())
        }
    }
}

/// Whatever is done with a cache, it stays consistent and within its
/// capacity, and a hole stays a hole.
pub proof fn lemma_holes_stay(state: RasterCacheState, ops: Seq<RasterOp>, key: (i16, i16))
    requires
        state.well_formed(),
    ensures
        state.run(ops).well_formed(),
        state.run(ops).order.len() <= state.run(ops).capacity,
        state.run(ops).capacity == state.capacity,
        state.run(ops).raster_size == state.raster_size,
        state.holes.contains(key) ==> state.run(ops).holes.contains(key),
    decreases ops.len(),
{
    if ops.len() > 0 {
        lemma_holes_stay(state, ops.drop_last(), key);
        let before = state.run(ops.drop_last());
        match ops.last() {
            RasterOp::Get { latitude, longitude } => {
                let cell = before.cell_of(latitude, longitude);
                if before.resident(cell) {
                    lemma_refreshed(before, cell);
                }
            },
            RasterOp::Loaded { latitude, longitude, found } => {
                let cell = before.cell_of(latitude, longitude);
                lemma_stored(before, cell);
                lemma_failed(before, cell);
            },
        }
    }
}

/// The negative cache: once the load of a cell that was missing has
/// failed, every later question for a point of that cell is answered with
/// `Hole`, whatever was done with the cache in between. The answer is never
/// `Missing`, so the load is not tried again.
pub proof fn lemma_failed_load_not_retried(
    state: RasterCacheState,
    latitude: i16,
    longitude: i16,
    between: Seq<RasterOp>,
    again_latitude: i16,
    again_longitude: i16,
)
    requires
        state.well_formed(),
        state.in_range(latitude, longitude),
        state.in_range(again_latitude, again_longitude),
        state.cell_of(again_latitude, again_longitude) == state.cell_of(latitude, longitude),
        !state.resident(state.cell_of(latitude, longitude)),
    ensures
        ({
            let failed = state.step(RasterOp::Loaded { latitude, longitude, found: false });
            let later = failed.run(between);
            &&& later.in_range(again_latitude, again_longitude)
            &&& later.lookup(later.cell_of(again_latitude, again_longitude)) == Lookup::Hole
            &&& later.step(RasterOp::Get { latitude: again_latitude, longitude: again_longitude })
                == later
        }),
{
    let cell = state.cell_of(latitude, longitude);
    let failed = state.failed(cell);
    lemma_failed(state, cell);
    lemma_holes_stay(failed, between, cell);
}

/// A mask of bits that reads as a raster of one band: a bit that is set is
/// the value 255, and a bit that is clear the value 0.
pub struct BitContainer(pub BitVec<u32>);

impl BitContainer {
    /// The bits of the mask.
    pub open spec fn bits(&self) -> Seq<bool> {
        bitvec_bits(self.0)
    }

    /// The value that a bit reads as.
    pub open spec fn value_of(bit: bool) -> u8 {
        if bit {
            255
        } else {
            0
        }
    }

    /// The number of places of the mask.
    pub fn len(&self) -> (n: usize)
        ensures
            n == self.bits().len(),
    {
        bitvec_len(&self.0)
    }

    /// The value at a place of the mask, or `None` behind its last place.
    pub fn get(&self, i: usize) -> (value: Option<u8>)
        ensures
            value == (if i < self.bits().len() {
                Some(Self::value_of(self.bits()[i as int]))
            } else {
                None
            }),
    {
        match bitvec_get(&self.0, i) {
            Some(bit) => Some(
                if bit {
                    255
                } else {
                    0
                },
            ),
            None => None,
        }
    }

    /// The value at a place of the mask.
    pub fn index(&self, i: usize) -> (value: u8)
        requires
            i < self.bits().len(),
        ensures
            value == Self::value_of(self.bits()[i as int]),
    {
        match bitvec_get(&self.0, i) {
            Some(bit) => if bit {
                255
            } else {
                0
            },
            None => 0,
        }
    }
}

} // verus!
