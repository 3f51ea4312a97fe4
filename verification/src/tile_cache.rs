//! A bounded cache of tiles: a fixed number of resident slots, the keys that
//! occupy them in order of admission, and the state of the fill of each slot.

use crate::linked::{
    has_key, linked_entries, linked_get, linked_insert, linked_len, linked_new,
    linked_pop_front,
};
use crate::priority::Priority;
use linked_hash_map::LinkedHashMap;
use vstd::multiset::Multiset;
use vstd::prelude::*;

verus! {

/// The state of the fill of one slot.
#[derive(Copy, Clone, Debug, PartialEq, Eq, Structural)]
pub enum FenceState {
    /// The fill with this token was requested and is not known to be done.
    Pending { token: u64 },
    /// The fill is done.
    Ready,
}

/// The completion token of the fill of one slot.
///
/// A fence is attached to a slot when a fill of the slot is requested. It is
/// pending until the fill is seen to be complete, then ready, and never
/// pending again: a later fill of the slot gets a fence of its own.
#[derive(Copy, Clone, Debug, PartialEq, Eq, Structural)]
pub struct Fence {
    pub state: FenceState,
}

impl Fence {
    /// The fence of the fill with the given token, not known to be done.
    pub open spec fn pending(token: u64) -> Fence {
        Fence { state: FenceState::Pending { token } }
    }

    /// The fence of a fill that is done.
    pub open spec fn ready() -> Fence {
        Fence { state: FenceState::Ready }
    }

    /// Whether the fill is done.
    pub open spec fn is_ready(self) -> bool {
        self.state is Ready
    }

    /// Polls the fence. `signalled` is what the device says of this fence's
    /// fill; a fence that is ready does not look at it. Once the fence has
    /// said that the fill is done, it says so ever after.
    pub fn is_done(&mut self, signalled: bool) -> (done: bool)
        ensures
            done == (old(self).is_ready() || signalled),
            *final(self) == (if done {
                Fence::ready()
            } else {
                *old(self)
            }),
    {
        match self.state {
            FenceState::Ready => true,
            FenceState::Pending { .. } => {
                if signalled {
                    self.state = FenceState::Ready;
                }
                signalled
            },
        }
    }
}

/// What an admission into the cache did.
#[derive(Copy, Clone, Debug, PartialEq, Eq, Structural)]
pub struct Admission {
    /// The slot that holds the key.
    pub slot: usize,
    /// The token of the fill that has to begin now, if the key was not
    /// resident before.
    pub fill: Option<u64>,
}

/// The token after `token`.
pub open spec fn next_token(token: u64) -> u64 {
    if token == u64::MAX {
        0
    } else {
        (token + 1) as u64
    }
}

/// The state of a tile cache.
pub struct CacheState {
    /// The number of slots that the cache may use.
    pub capacity: nat,
    /// The resident keys with their slots, the key admitted longest ago first.
    pub order: Seq<(u64, usize)>,
    /// The slots in use: the key of each and the fence of its fill.
    pub slots: Seq<(u64, Fence)>,
    /// The demands that were recorded and not yet served.
    pub missing: Seq<(Priority, u64)>,
    /// The token that the next fill gets.
    pub token: u64,
    /// The lowest and the highest priority among the resident tiles, as the
    /// last priority pass found them; `None` while no tile has a priority.
    pub range: Option<(Priority, Priority)>,
    /// The side length of a tile, in pixels.
    pub resolution: u32,
}

impl CacheState {
    /// The cache is consistent: every resident key has a slot of its own
    /// which names that key, no more slots are in use than there are
    /// resident keys, and no more than the capacity.
    pub open spec fn well_formed(self) -> bool {
        &&& self.capacity <= usize::MAX
        &&& self.order.len() == self.slots.len()
        &&& self.slots.len() <= self.capacity
        &&& forall|i: int|
            0 <= i < self.order.len() ==> (#[trigger] self.order[i]).1 < self.slots.len()
                && self.slots[self.order[i].1 as int].0 == self.order[i].0
        &&& forall|i: int, j: int|
            0 <= i < j < self.order.len() ==> (#[trigger] self.order[i]).0 != (
            #[trigger] self.order[j]).0
    }

    /// Whether `key` occupies a slot.
    pub open spec fn resident(self, key: u64) -> bool {
        has_key(self.order, key)
    }

    /// The slot that `key` occupies.
    pub open spec fn slot_of(self, key: u64) -> usize
        recommends
            self.resident(key),
    {
        let i = choose|i: int| 0 <= i < self.order.len() && (#[trigger] self.order[i]).0 == key;
        self.order[i].1
    }

    /// Whether `key` occupies a slot whose fill is done.
    pub open spec fn ready(self, key: u64) -> bool {
        self.resident(key) && self.slots[self.slot_of(key) as int].1.is_ready()
    }

    /// The keys that occupy slots, the key admitted longest ago first.
    pub open spec fn keys(self) -> Seq<u64> {
        self.order.map_values(|e: (u64, usize)| e.0)
    }

    /// The slot that `inserted(key)` puts a key into that is not resident: a
    /// fresh slot while there is one, else the slot of the key that was
    /// admitted longest ago.
    pub open spec fn free_slot(self) -> usize {
        if self.order.len() < self.capacity {
            self.slots.len() as usize
        } else {
            self.order[0].1
        }
    }

    /// The state after `key` was asked for. A resident key changes nothing.
    /// Any other key gets `free_slot()`, with a pending fence that holds the
    /// current token; if that slot was in use, its key leaves the cache.
    pub open spec fn inserted(self, key: u64) -> CacheState {
        if self.resident(key) {
            self
        } else if self.order.len() < self.capacity {
            CacheState {
                order: self.order.push((key, self.free_slot())),
                slots: self.slots.push((key, Fence::pending(self.token))),
                token: next_token(self.token),
                ..self
            }
        } else {
            CacheState {
                order: self.order.subrange(1, self.order.len() as int).push(
                    (key, self.free_slot()),
                ),
                slots: self.slots.update(
                    self.free_slot() as int,
                    (key, Fence::pending(self.token)),
                ),
                token: next_token(self.token),
                ..self
            }
        }
    }

    /// The answer to `key` being asked for.
    pub open spec fn admission(self, key: u64) -> Admission {
        if self.resident(key) {
            Admission { slot: self.slot_of(key), fill: None }
        } else {
            Admission { slot: self.free_slot(), fill: Some(self.token) }
        }
    }
}

/// An insertion keeps a cache consistent and within its capacity.
pub proof fn lemma_inserted_well_formed(state: CacheState, key: u64)
    requires
        state.well_formed(),
        0 < state.capacity,
    ensures
        state.inserted(key).well_formed(),
        state.inserted(key).capacity == state.capacity,
        state.inserted(key).slots.len() <= state.capacity,
        state.inserted(key).resident(key),
        state.inserted(key).slot_of(key) == state.admission(key).slot,
{
    let after = state.inserted(key);
    if state.resident(key) {
    } else if state.order.len() < state.capacity {
        let n = state.order.len() as int;
        assert(after.order[n] == (key, state.free_slot()));
        assert forall|i: int, j: int| 0 <= i < j < after.order.len() implies (
        #[trigger] after.order[i]).0 != (#[trigger] after.order[j]).0 by {
            if j == n {
                assert(state.order[i].0 != key);
            } else {
                assert(state.order[i].0 != state.order[j].0);
            }
        }
        assert forall|i: int| 0 <= i < after.order.len() implies (#[trigger] after.order[i]).1
            < after.slots.len() && after.slots[after.order[i].1 as int].0 == after.order[i].0 by {
            if i < n {
                assert(state.order[i].1 < state.slots.len());
            }
        }
        lemma_slot_of(after, n);
    } else {
        let n = state.order.len() as int;
        let s = state.order[0].1;
        assert(state.order[0].1 < state.slots.len());
        assert(after.order.len() == n);
        assert(after.order[n - 1] == (key, s));
        assert forall|i: int, j: int| 0 <= i < j < after.order.len() implies (
        #[trigger] after.order[i]).0 != (#[trigger] after.order[j]).0 by {
            assert(after.order[i] == state.order[i + 1]);
            if j == n - 1 {
                assert(state.order[i + 1].0 != key);
            } else {
                assert(after.order[j] == state.order[j + 1]);
                assert(state.order[i + 1].0 != state.order[j + 1].0);
            }
        }
        assert forall|i: int| 0 <= i < after.order.len() implies (#[trigger] after.order[i]).1
            < after.slots.len() && after.slots[after.order[i].1 as int].0 == after.order[i].0 by {
            if i < n - 1 {
                assert(after.order[i] == state.order[i + 1]);
                lemma_slots_distinct(state, 0, i + 1);
            }
        }
        lemma_slot_of(after, n - 1);
    }
}

/// In a consistent cache two resident keys do not share a slot.
pub proof fn lemma_slots_distinct(state: CacheState, i: int, j: int)
    requires
        state.well_formed(),
        0 <= i < state.order.len(),
        0 <= j < state.order.len(),
        i != j,
    ensures
        state.order[i].1 != state.order[j].1,
{
    if i < j {
        assert(state.order[i].0 != state.order[j].0);
    } else {
        assert(state.order[j].0 != state.order[i].0);
    }
}

/// In a consistent cache the slot of a resident key is the slot of its
/// entry.
pub proof fn lemma_slot_of(state: CacheState, i: int)
    requires
        0 <= i < state.order.len(),
        forall|a: int, b: int|
            0 <= a < b < state.order.len() ==> (#[trigger] state.order[a]).0 != (
            #[trigger] state.order[b]).0,
    ensures
        state.resident(state.order[i].0),
        state.slot_of(state.order[i].0) == state.order[i].1,
{
    let key = state.order[i].0;
    let c = choose|c: int| 0 <= c < state.order.len() && (#[trigger] state.order[c]).0 == key;
    if c < i {
        assert(state.order[c].0 != state.order[i].0);
    }
    if i < c {
        assert(state.order[i].0 != state.order[c].0);
    }
}

/// A cache of tiles in a fixed number of resident slots.
///
/// Keys are 64-bit numbers: the dense index of a sector, or the number of a
/// quadtree node. The cache decides which slot a key gets and which key
/// leaves for it; moving the tile's data into the slot is the caller's part.
pub struct TileCache {
    size: usize,
    contents: Vec<(u64, Fence)>,
    sector_indices: LinkedHashMap<u64, usize>,
    resolution: u32,
    missing: Vec<(Priority, u64)>,
    token: u64,
    range: Option<(Priority, Priority)>,
}

impl View for TileCache {
    type V = CacheState;

    closed spec fn view(&self) -> CacheState {
        CacheState {
            capacity: self.size as nat,
            order: linked_entries(self.sector_indices),
            slots: self.contents@,
            missing: self.missing@,
            token: self.token,
            range: self.range,
            resolution: self.resolution,
        }
    }
}

impl TileCache {
    /// An empty cache with `size` slots for tiles of the given resolution.
    pub fn new(size: usize, resolution: u32) -> (cache: TileCache)
        ensures
            cache@ == CacheState::empty(size as nat, resolution),
            cache@.well_formed(),
    {
        TileCache {
            size,
            contents: Vec::new(),
            sector_indices: linked_new(),
            resolution,
            missing: Vec::new(),
            token: 0,
            range: None,
        }
    }

    /// The number of slots that the cache may use.
    pub fn capacity(&self) -> (n: usize)
        ensures
            n == self@.capacity,
    {
        self.size
    }

    /// The number of slots in use.
    pub fn len(&self) -> (n: usize)
        requires
            self@.well_formed(),
        ensures
            n == self@.slots.len(),
            n <= self@.capacity,
    {
        self.contents.len()
    }

    /// The side length of a tile, in pixels.
    pub fn resolution(&self) -> (r: u32)
        ensures
            r == self@.resolution,
    {
        self.resolution
    }

    /// The slot that `key` occupies, if it is resident.
    pub fn slot(&self, key: u64) -> (slot: Option<usize>)
        requires
            self@.well_formed(),
        ensures
            slot == (if self@.resident(key) {
                Some(self@.slot_of(key))
            } else {
                None
            }),
    {
        let found = linked_get(&self.sector_indices, key);
        proof {
            if found is Some {
                let i = self@.order.index_of((key, found.unwrap()));
                lemma_slot_of(self@, i);
            }
        }
        found
    }

    /// Whether `key` occupies a slot whose fill is done.
    pub fn contains(&self, key: u64) -> (ready: bool)
        requires
            self@.well_formed(),
        ensures
            ready == self@.ready(key),
    {
        match self.slot(key) {
            Some(index) => {
                proof {
                    let i = choose|i: int|
                        0 <= i < self@.order.len() && (#[trigger] self@.order[i]).0 == key;
                    assert(self@.order[i].1 < self@.slots.len());
                }
                match self.contents[index].1.state {
                    FenceState::Ready => true,
                    FenceState::Pending { .. } => false,
                }
            },
            None => false,
        }
    }

    /// The fence of a slot, if the slot is in use.
    pub fn fence(&self, slot: usize) -> (fence: Option<Fence>)
        ensures
            fence == (if slot < self@.slots.len() {
                Some(self@.slots[slot as int].1)
            } else {
                None
            }),
    {
        if slot < self.contents.len() {
            Some(self.contents[slot].1)
        } else {
            None
        }
    }

    /// Reports that the fill with the given token is complete. The fence of
    /// `slot` becomes `Ready` if it is pending with that token. A signal for
    /// a fill that the slot no longer waits for changes nothing.
    pub fn signal(&mut self, slot: usize, token: u64) -> (accepted: bool)
        requires
            old(self)@.well_formed(),
        ensures
            accepted == old(self)@.awaits(slot, token),
            final(self)@ == old(self)@.signalled(slot, token),
            final(self)@.well_formed(),
    {
        if slot >= self.contents.len() {
            return false;
        }
        let (key, fence) = self.contents[slot];
        match fence.state {
            FenceState::Pending { token: t } => {
                if t == token {
                    self.contents.set(slot, (key, Fence { state: FenceState::Ready }));
                    true
                } else {
                    false
                }
            },
            FenceState::Ready => false,
        }
    }

    /// Asks for `key`. A key that is resident keeps its slot, and nothing
    /// changes. Any other key gets a slot: a fresh one while the cache has
    /// one, else the slot of the key that was admitted longest ago, which
    /// leaves the cache whether or not its own fill was done. The fill of
    /// that slot has to begin now: the slot's fence is pending, with the
    /// token that the result names.
    pub fn insert(&mut self, key: u64) -> (admission: Admission)
        requires
            old(self)@.well_formed(),
            0 < old(self)@.capacity,
        ensures
            final(self)@ == old(self)@.inserted(key),
            admission == old(self)@.admission(key),
            final(self)@.well_formed(),
            final(self)@.capacity == old(self)@.capacity,
            final(self)@.slots.len() <= final(self)@.capacity,
    {
        proof {
            lemma_inserted_well_formed(self@, key);
        }
        if let Some(index) = self.slot(key) {
            return Admission { slot: index, fill: None };
        }
        let ghost before = self@;
        let token = self.token;
        let index = if linked_len(&self.sector_indices) == self.size {
            let front = linked_pop_front(&mut self.sector_indices);
            let index = front.unwrap().1;
            assert(before.order[0].1 < before.slots.len());
            self.contents.set(index, (key, Fence { state: FenceState::Pending { token } }));
            index
        } else {
            self.contents.push((key, Fence { state: FenceState::Pending { token } }));
            self.contents.len() - 1
        };
        proof {
            let rest = linked_entries(self.sector_indices);
            if has_key(rest, key) {
                let i = choose|i: int| 0 <= i < rest.len() && (#[trigger] rest[i]).0 == key;
                if before.order.len() < before.capacity {
                    assert(before.order[i].0 == key);
                } else {
                    assert(before.order[i + 1].0 == key);
                }
            }
        }
        linked_insert(&mut self.sector_indices, key, index);
        self.token = if token == u64::MAX {
            0
        } else {
            token + 1
        };
        assert(self@.order =~= before.inserted(key).order);
        assert(self@.slots =~= before.inserted(key).slots);
        Admission { slot: index, fill: Some(token) }
    }
}

/// A fill that has to begin: the data of `key` goes into `slot`, and the
/// slot's fence waits for `token`.
#[derive(Copy, Clone, Debug, PartialEq, Eq, Structural)]
pub struct Fill {
    pub key: u64,
    pub slot: usize,
    pub token: u64,
}

/// `sorted` with `demand` put behind the demands that are at least as
/// urgent, where `sorted` runs from the most urgent demand to the least.
pub open spec fn ranked_insert(sorted: Seq<(Priority, u64)>, demand: (Priority, u64)) -> Seq<
    (Priority, u64),
>
    decreases sorted.len(),
{
    if sorted.len() > 0 && sorted[0].0.rank() >= demand.0.rank() {
        seq![sorted[0]] + ranked_insert(sorted.skip(1), demand)
    } else {
        seq![demand] + sorted
    }
}

/// The demands from the most urgent to the least; demands of one priority
/// keep the order in which they were recorded.
pub open spec fn ranked(demands: Seq<(Priority, u64)>) -> Seq<(Priority, u64)>
    decreases demands.len(),
{
    if demands.len() == 0 {
        Seq::empty()
    } else {
        ranked_insert(ranked(demands.drop_last()), demands.last())
    }
}

/// Whether the demands run from the most urgent to the least.
pub open spec fn descending(demands: Seq<(Priority, u64)>) -> bool {
    forall|i: int, j: int|
        0 <= i < j < demands.len() ==> (#[trigger] demands[i]).0.rank() >= (
        #[trigger] demands[j]).0.rank()
}

/// Where `ranked_insert` puts a demand: behind `at` demands that are at
/// least as urgent, and before one that is less urgent.
proof fn lemma_ranked_insert_at(sorted: Seq<(Priority, u64)>, demand: (Priority, u64), at: int)
    requires
        0 <= at <= sorted.len(),
        forall|k: int| 0 <= k < at ==> (#[trigger] sorted[k]).0.rank() >= demand.0.rank(),
        at < sorted.len() ==> sorted[at].0.rank() < demand.0.rank(),
    ensures
        ranked_insert(sorted, demand) == sorted.insert(at, demand),
    decreases at,
{
    if at == 0 {
        assert(seq![demand] + sorted =~= sorted.insert(0, demand));
    } else {
        let rest = sorted.skip(1);
        assert forall|k: int| 0 <= k < at - 1 implies (#[trigger] rest[k]).0.rank()
            >= demand.0.rank() by {
            assert(rest[k] == sorted[k + 1]);
        }
        lemma_ranked_insert_at(rest, demand, at - 1);
        assert(sorted[0].0.rank() >= demand.0.rank());
        assert(seq![sorted[0]] + rest.insert(at - 1, demand) =~= sorted.insert(at, demand));
    }
}

/// Putting a demand into a descending sequence gives a descending sequence
/// with the same demands and one more.
pub proof fn lemma_ranked_insert(sorted: Seq<(Priority, u64)>, demand: (Priority, u64))
    requires
        descending(sorted),
    ensures
        descending(ranked_insert(sorted, demand)),
        ranked_insert(sorted, demand).len() == sorted.len() + 1,
        ranked_insert(sorted, demand).to_multiset() == sorted.to_multiset().insert(demand),
    decreases sorted.len(),
{
    broadcast use vstd::seq_lib::group_to_multiset_ensures;

    let result = ranked_insert(sorted, demand);
    if sorted.len() > 0 && sorted[0].0.rank() >= demand.0.rank() {
        let rest = sorted.skip(1);
        assert forall|i: int, j: int| 0 <= i < j < rest.len() implies (#[trigger] rest[i]).0.rank()
            >= (#[trigger] rest[j]).0.rank() by {
            assert(rest[i] == sorted[i + 1] && rest[j] == sorted[j + 1]);
        }
        lemma_ranked_insert(rest, demand);
        let tail = ranked_insert(rest, demand);
        assert(result =~= seq![sorted[0]] + tail);
        assert forall|i: int, j: int| 0 <= i < j < result.len() implies (
        #[trigger] result[i]).0.rank() >= (#[trigger] result[j]).0.rank() by {
            if i == 0 {
                assert(tail.to_multiset().count(tail[j - 1]) > 0);
                if tail[j - 1] != demand {
                    assert(rest.to_multiset().count(tail[j - 1]) > 0);
                    let k = rest.index_of(tail[j - 1]);
                    assert(rest[k] == sorted[k + 1]);
                }
            } else {
                assert(result[i] == tail[i - 1] && result[j] == tail[j - 1]);
            }
        }
        assert(sorted =~= seq![sorted[0]] + rest);
        vstd::seq_lib::lemma_multiset_commutative(seq![sorted[0]], rest);
        vstd::seq_lib::lemma_multiset_commutative(seq![sorted[0]], tail);
        assert(result.to_multiset() =~= sorted.to_multiset().insert(demand));
    } else {
        assert(result =~= seq![demand] + sorted);
        assert forall|i: int, j: int| 0 <= i < j < result.len() implies (
        #[trigger] result[i]).0.rank() >= (#[trigger] result[j]).0.rank() by {
            if i == 0 {
                assert(result[j] == sorted[j - 1]);
                assert(sorted[0].0.rank() >= sorted[j - 1].0.rank()) by {
                    if j - 1 > 0 {
                        assert(sorted[0].0.rank() >= sorted[j - 1].0.rank());
                    }
                }
            } else {
                assert(result[i] == sorted[i - 1] && result[j] == sorted[j - 1]);
            }
        }
        vstd::seq_lib::lemma_multiset_commutative(seq![demand], sorted);
        assert(seq![demand].to_multiset() =~= Multiset::<(Priority, u64)>::empty().insert(demand))
            by {
            assert(seq![demand] =~= Seq::<(Priority, u64)>::empty().push(demand));
        }
        assert(result.to_multiset() =~= sorted.to_multiset().insert(demand));
    }
}

/// The ranked demands are the recorded demands, each as often as it was
/// recorded, from the most urgent to the least.
pub proof fn lemma_ranked(demands: Seq<(Priority, u64)>)
    ensures
        descending(ranked(demands)),
        ranked(demands).len() == demands.len(),
        ranked(demands).to_multiset() == demands.to_multiset(),
    decreases demands.len(),
{
    broadcast use vstd::seq_lib::group_to_multiset_ensures;

    if demands.len() == 0 {
        assert(ranked(demands).to_multiset() =~= demands.to_multiset());
    } else {
        lemma_ranked(demands.drop_last());
        lemma_ranked_insert(ranked(demands.drop_last()), demands.last());
        assert(demands =~= demands.drop_last().push(demands.last()));
        assert(ranked(demands).to_multiset() =~= demands.to_multiset());
    }
}

impl CacheState {
    /// Whether a demand for `key` is recorded.
    pub open spec fn demanded(self, key: u64) -> bool {
        exists|i: int| 0 <= i < self.missing.len() && (#[trigger] self.missing[i]).1 == key
    }

    /// The state after a demand for `key` was made: the demand is recorded
    /// unless the key occupies a slot or is demanded already.
    pub open spec fn with_demand(self, priority: Priority, key: u64) -> CacheState {
        if self.resident(key) || self.demanded(key) {
            self
        } else {
            CacheState { missing: self.missing.push((priority, key)), ..self }
        }
    }

    /// The state after the keys of `demands` were asked for, one after the
    /// other.
    pub open spec fn inserted_all(self, demands: Seq<(Priority, u64)>) -> CacheState
        decreases demands.len(),
    {
        if demands.len() == 0 {
            self
        } else {
            self.inserted_all(demands.drop_last()).inserted(demands.last().1)
        }
    }

    /// The fills that begin while the keys of `demands` are asked for, one
    /// after the other.
    pub open spec fn fills_of(self, demands: Seq<(Priority, u64)>) -> Seq<Fill>
        decreases demands.len(),
    {
        if demands.len() == 0 {
            Seq::empty()
        } else {
            let before = self.inserted_all(demands.drop_last());
            let earlier = self.fills_of(demands.drop_last());
            let key = demands.last().1;
            if before.resident(key) {
                earlier
            } else {
                earlier.push(Fill { key, slot: before.free_slot(), token: before.token })
            }
        }
    }

    /// The demands that the next load serves: the most urgent ones, as many
    /// as the cache has slots, from the most urgent to the least.
    pub open spec fn served(self) -> Seq<(Priority, u64)> {
        let all = ranked(self.missing);
        if all.len() <= self.capacity {
            all
        } else {
            all.take(self.capacity as int)
        }
    }

    /// The state after a load: the served demands were asked for in their
    /// order, and no demand is left.
    pub open spec fn loaded(self) -> CacheState {
        CacheState { missing: Seq::empty(), ..self.inserted_all(self.served()) }
    }
}

/// Asking for keys one after the other keeps a cache consistent and within
/// its capacity, and leaves the recorded demands alone.
pub proof fn lemma_inserted_all_well_formed(state: CacheState, demands: Seq<(Priority, u64)>)
    requires
        state.well_formed(),
        0 < state.capacity || demands.len() == 0,
    ensures
        state.inserted_all(demands).well_formed(),
        state.inserted_all(demands).capacity == state.capacity,
        state.inserted_all(demands).slots.len() <= state.capacity,
        state.inserted_all(demands).missing == state.missing,
    decreases demands.len(),
{
    if demands.len() > 0 {
        lemma_inserted_all_well_formed(state, demands.drop_last());
        lemma_inserted_well_formed(state.inserted_all(demands.drop_last()), demands.last().1);
    }
}

impl TileCache {
    /// Records a demand for `key`, to be served by the next load. A key
    /// that occupies a slot, or that is demanded already, is not recorded
    /// again. The slots stay as they are.
    pub fn add_missing(&mut self, priority: Priority, key: u64)
        requires
            old(self)@.well_formed(),
        ensures
            final(self)@ == old(self)@.with_demand(priority, key),
            final(self)@.well_formed(),
    {
        if self.slot(key).is_some() {
            return ;
        }
        let mut i: usize = 0;
        while i < self.missing.len()
            invariant
                i <= self.missing.len(),
                forall|k: int| 0 <= k < i ==> (#[trigger] self.missing@[k]).1 != key,
                *self == *old(self),
                old(self)@.well_formed(),
            decreases self.missing.len() - i,
        {
            if self.missing[i].1 == key {
                return ;
            }
            i += 1;
        }
        self.missing.push((priority, key));
    }

    /// The demands from the most urgent to the least.
    fn ranked_demands(&self) -> (sorted: Vec<(Priority, u64)>)
        ensures
            sorted@ == ranked(self@.missing),
    {
        let mut sorted: Vec<(Priority, u64)> = Vec::new();
        let mut i: usize = 0;
        while i < self.missing.len()
            invariant
                i <= self.missing.len(),
                sorted@ == ranked(self.missing@.take(i as int)),
            decreases self.missing.len() - i,
        {
            let demand = self.missing[i];
            let mut at: usize = 0;
            proof {
                lemma_ranked(self.missing@.take(i as int));
            }
            while at < sorted.len() && sorted[at].0.0 >= demand.0.0
                invariant
                    at <= sorted.len(),
                    forall|k: int| 0 <= k < at ==> (#[trigger] sorted@[k]).0.rank() >= demand.0.rank(),
                decreases sorted.len() - at,
            {
                at += 1;
            }
            proof {
                lemma_ranked_insert_at(sorted@, demand, at as int);
                assert(self.missing@.take(i + 1).drop_last() =~= self.missing@.take(i as int));
            }
            sorted.insert(at, demand);
            i += 1;
        }
        assert(self.missing@.take(i as int) =~= self.missing@);
        sorted
    }

    /// Serves the recorded demands: the most urgent ones, as many as the
    /// cache has slots, are asked for as by `insert`, from the most urgent
    /// to the least. Returns the fills that have to begin, in that order.
    /// No demand is left afterwards.
    pub fn load_missing(&mut self) -> (fills: Vec<Fill>)
        requires
            old(self)@.well_formed(),
        ensures
            final(self)@ == old(self)@.loaded(),
            fills@ == old(self)@.fills_of(old(self)@.served()),
            final(self)@.well_formed(),
            final(self)@.capacity == old(self)@.capacity,
            final(self)@.slots.len() <= final(self)@.capacity,
            final(self)@.missing.len() == 0,
    {
        let sorted = self.ranked_demands();
        let count: usize = if sorted.len() <= self.size {
            sorted.len()
        } else {
            self.size
        };
        let ghost before = self@;
        let ghost served = before.served();
        assert(served =~= sorted@.take(count as int));
        let mut fills: Vec<Fill> = Vec::new();
        let mut i: usize = 0;
        while i < count
            invariant
                i <= count <= sorted.len(),
                count <= before.capacity,
                served == sorted@.take(count as int),
                before.well_formed(),
                self@ == before.inserted_all(served.take(i as int)),
                fills@ == before.fills_of(served.take(i as int)),
            decreases count - i,
        {
            let key = sorted[i].1;
            proof {
                lemma_inserted_all_well_formed(before, served.take(i as int));
                assert(served.take(i + 1).drop_last() =~= served.take(i as int));
                assert(served.take(i + 1).last() == sorted@[i as int]);
            }
            let admission = self.insert(key);
            if let Some(token) = admission.fill {
                fills.push(Fill { key, slot: admission.slot, token });
            }
            i += 1;
        }
        proof {
            assert(served.take(i as int) =~= served);
            assert(served.len() == count);
            lemma_inserted_all_well_formed(before, served);
        }
        self.missing.clear();
        fills
    }
}

/// One operation on a tile cache.
pub enum CacheOp {
    /// `insert(key)`
    Insert { key: u64 },
    /// `add_missing(priority, key)`
    AddMissing { priority: Priority, key: u64 },
    /// `load_missing()`
    LoadMissing,
    /// `signal(slot, token)`
    Signal { slot: usize, token: u64 },
}

impl CacheState {
    /// A cache of the given capacity, for tiles of the given resolution,
    /// that holds nothing.
    pub open spec fn empty(capacity: nat, resolution: u32) -> CacheState {
        CacheState {
            capacity,
            order: Seq::empty(),
            slots: Seq::empty(),
            missing: Seq::empty(),
            token: 0,
            range: None,
            resolution,
        }
    }

    /// Whether `slot` waits for the fill with the given token.
    pub open spec fn awaits(self, slot: usize, token: u64) -> bool {
        slot < self.slots.len() && self.slots[slot as int].1 == Fence::pending(token)
    }

    /// The state after the fill with the given token was reported complete
    /// for `slot`.
    pub open spec fn signalled(self, slot: usize, token: u64) -> CacheState {
        if self.awaits(slot, token) {
            CacheState {
                slots: self.slots.update(slot as int, (self.slots[slot as int].0, Fence::ready())),
                ..self
            }
        } else {
            self
        }
    }

    /// The state after one operation.
    pub open spec fn step(self, op: CacheOp) -> CacheState {
        match op {
            CacheOp::Insert { key } => self.inserted(key),
            CacheOp::AddMissing { priority, key } => self.with_demand(priority, key),
            CacheOp::LoadMissing => self.loaded(),
            CacheOp::Signal { slot, token } => self.signalled(slot, token),
        }
    }

    /// The state after a sequence of operations.
    pub open spec fn run(self, ops: Seq<CacheOp>) -> CacheState
        decreases ops.len(),
    {
        if ops.len() == 0 {
            self
        } else {
            self.run(ops.drop_last()).step(ops.last())
        }
    }
}

/// The capacity invariant: whatever operations are made on a consistent
/// cache, in whatever order, the cache stays consistent, keeps its capacity,
/// and never has more slots in use than its capacity.
pub proof fn lemma_capacity_invariant(state: CacheState, ops: Seq<CacheOp>)
    requires
        state.well_formed(),
        0 < state.capacity,
    ensures
        state.run(ops).well_formed(),
        state.run(ops).capacity == state.capacity,
        state.run(ops).slots.len() <= state.capacity,
        state.run(ops).order.len() <= state.capacity,
    decreases ops.len(),
{
    if ops.len() > 0 {
        lemma_capacity_invariant(state, ops.drop_last());
        let before = state.run(ops.drop_last());
        match ops.last() {
            CacheOp::Insert { key } => {
                lemma_inserted_well_formed(before, key);
            },
            CacheOp::AddMissing { priority, key } => {},
            CacheOp::LoadMissing => {
                lemma_inserted_all_well_formed(before, before.served());
            },
            CacheOp::Signal { slot, token } => {},
        }
    }
}

/// A fence that is ready stays ready while its slot keeps its key: reports
/// of completed fills and recorded demands never make a slot pending again.
pub proof fn lemma_ready_stays_ready(state: CacheState, slot: usize, op: CacheOp)
    requires
        state.well_formed(),
        slot < state.slots.len(),
        state.slots[slot as int].1.is_ready(),
        op is Signal || op is AddMissing,
    ensures
        state.step(op).slots.len() == state.slots.len(),
        state.step(op).slots[slot as int] == state.slots[slot as int],
{
}

/// An insertion starts a fill in the slot that it names and in no other:
/// every other slot keeps its key and its fence.
pub proof fn lemma_insert_touches_one_slot(state: CacheState, key: u64, slot: usize)
    requires
        state.well_formed(),
        0 < state.capacity,
        slot < state.slots.len(),
        state.resident(key) || slot != state.free_slot(),
    ensures
        slot < state.inserted(key).slots.len(),
        state.inserted(key).slots[slot as int] == state.slots[slot as int],
{
}

/// Least-recently-admitted eviction: a key that is not resident, put into a
/// full cache, takes the place of the key that was admitted longest ago.
/// That key leaves, every other key stays resident in its slot, and the new
/// key is the most recent one.
pub proof fn lemma_insert_evicts_oldest(state: CacheState, key: u64)
    requires
        state.well_formed(),
        0 < state.capacity,
        !state.resident(key),
        state.order.len() == state.capacity,
    ensures
        state.inserted(key).keys() == state.keys().skip(1).push(key),
        !state.inserted(key).resident(state.order[0].0),
        forall|i: int|
            1 <= i < state.order.len() ==> state.inserted(key).order[i - 1]
                == #[trigger] state.order[i],
        state.inserted(key).slot_of(key) == state.order[0].1,
{
    let after = state.inserted(key);
    lemma_inserted_well_formed(state, key);
    assert(after.keys() =~= state.keys().skip(1).push(key));
    let oldest = state.order[0].0;
    if after.resident(oldest) {
        let i = choose|i: int| 0 <= i < after.order.len() && (#[trigger] after.order[i]).0 == oldest;
        if i < after.order.len() - 1 {
            assert(after.order[i] == state.order[i + 1]);
            assert(state.order[0].0 != state.order[i + 1].0);
        } else {
            assert(state.order[0].0 == key);
        }
    }
}

/// Whether the demands name pairwise different keys.
pub open spec fn distinct_keys(demands: Seq<(Priority, u64)>) -> bool {
    forall|i: int, j: int|
        0 <= i < j < demands.len() ==> (#[trigger] demands[i]).1 != (#[trigger] demands[j]).1
}

/// The keys of the demands, in their order.
pub open spec fn keys_of(demands: Seq<(Priority, u64)>) -> Seq<u64> {
    demands.map_values(|d: (Priority, u64)| d.1)
}

/// Different keys that fit into an empty cache all become resident, in the
/// order in which they were asked for.
pub proof fn lemma_fill_empty(capacity: nat, resolution: u32, demands: Seq<(Priority, u64)>)
    requires
        0 < capacity <= usize::MAX,
        distinct_keys(demands),
        demands.len() <= capacity,
    ensures
        CacheState::empty(capacity, resolution).inserted_all(demands).keys() == keys_of(demands),
        CacheState::empty(capacity, resolution).inserted_all(demands).well_formed(),
    decreases demands.len(),
{
    let start = CacheState::empty(capacity, resolution);
    if demands.len() == 0 {
        assert(start.inserted_all(demands).keys() =~= keys_of(demands));
    } else {
        let earlier = demands.drop_last();
        lemma_fill_empty(capacity, resolution, earlier);
        lemma_inserted_all_well_formed(start, earlier);
        let before = start.inserted_all(earlier);
        let key = demands.last().1;
        lemma_inserted_well_formed(before, key);
        assert(before.keys().len() == earlier.len());
        if before.resident(key) {
            let i = choose|i: int|
                0 <= i < before.order.len() && (#[trigger] before.order[i]).0 == key;
            assert(before.keys()[i] == key);
            assert(keys_of(earlier)[i] == earlier[i].1);
            assert(demands[i].1 != demands[demands.len() - 1].1);
        }
        let after = before.inserted(key);
        assert(before.order.len() == before.keys().len());
        assert(after.order == before.order.push((key, before.free_slot())));
        assert forall|i: int| 0 <= i < demands.len() implies after.keys()[i] == keys_of(
            demands,
        )[i] by {
            if i < earlier.len() {
                assert(after.order[i] == before.order[i]);
                assert(before.keys()[i] == before.order[i].0);
                assert(keys_of(earlier)[i] == earlier[i].1);
            }
        }
        assert(after.keys() =~= keys_of(demands));
    }
}

/// One key more than an empty cache has slots: of `N + 1` different keys put
/// into a cache of capacity `N`, exactly the first leaves, and the others
/// are resident in the order in which they were asked for.
pub proof fn lemma_one_more_than_capacity(
    capacity: nat,
    resolution: u32,
    demands: Seq<(Priority, u64)>,
)
    requires
        0 < capacity <= usize::MAX,
        distinct_keys(demands),
        demands.len() == capacity + 1,
    ensures
        CacheState::empty(capacity, resolution).inserted_all(demands).keys() == keys_of(demands).skip(1),
        !CacheState::empty(capacity, resolution).inserted_all(demands).resident(demands[0].1),
        forall|i: int|
            1 <= i < demands.len() ==> CacheState::empty(capacity, resolution).inserted_all(demands).resident(
                (#[trigger] demands[i]).1,
            ),
{
    let start = CacheState::empty(capacity, resolution);
    let earlier = demands.drop_last();
    lemma_fill_empty(capacity, resolution, earlier);
    lemma_inserted_all_well_formed(start, earlier);
    let before = start.inserted_all(earlier);
    let key = demands.last().1;
    assert(before.keys().len() == earlier.len());
    if before.resident(key) {
        let i = choose|i: int| 0 <= i < before.order.len() && (#[trigger] before.order[i]).0 == key;
        assert(before.keys()[i] == key);
        assert(keys_of(earlier)[i] == earlier[i].1);
        assert(demands[i].1 != demands[demands.len() - 1].1);
    }
    assert(before.order.len() == before.keys().len());
    lemma_insert_evicts_oldest(before, key);
    let after = before.inserted(key);
    assert(after == start.inserted_all(demands));
    assert forall|i: int| 0 <= i < capacity implies after.keys()[i] == keys_of(demands).skip(
        1,
    )[i] by {
        if i < capacity - 1 {
            assert(after.keys()[i] == before.keys().skip(1)[i]);
            assert(before.keys()[i + 1] == keys_of(earlier)[i + 1]);
            assert(keys_of(earlier)[i + 1] == earlier[i + 1].1);
        }
    }
    assert(after.keys() =~= keys_of(demands).skip(1));
    assert(before.keys()[0] == before.order[0].0);
    assert(keys_of(earlier)[0] == demands[0].1);
    assert forall|i: int| 1 <= i < demands.len() implies after.resident((#[trigger] demands[i]).1) by {
        assert(after.keys()[i - 1] == demands[i].1);
        assert(after.order[i - 1].0 == demands[i].1);
    }
}

/// A range of priorities made wide enough to hold one more priority.
pub open spec fn widened(range: Option<(Priority, Priority)>, priority: Priority) -> Option<
    (Priority, Priority),
> {
    match range {
        None => Some((priority, priority)),
        Some((lowest, highest)) => Some(
            (
                if priority.rank() < lowest.rank() {
                    priority
                } else {
                    lowest
                },
                if priority.rank() > highest.rank() {
                    priority
                } else {
                    highest
                },
            ),
        ),
    }
}

/// The lowest and the highest priority among the tiles in the slots, where
/// the key of a tile is the place of its priority in `priorities`. A key
/// that is no such place has no priority.
pub open spec fn range_of(slots: Seq<(u64, Fence)>, priorities: Seq<Priority>) -> Option<
    (Priority, Priority),
>
    decreases slots.len(),
{
    if slots.len() == 0 {
        None
    } else {
        let earlier = range_of(slots.drop_last(), priorities);
        if slots.last().0 < priorities.len() {
            widened(earlier, priorities[slots.last().0 as int])
        } else {
            earlier
        }
    }
}

/// The range of the priorities holds the priority of every tile, and its
/// ends are priorities of tiles.
pub proof fn lemma_range_of(slots: Seq<(u64, Fence)>, priorities: Seq<Priority>, slot: int)
    requires
        0 <= slot < slots.len(),
        slots[slot].0 < priorities.len(),
    ensures
        range_of(slots, priorities) matches Some((lowest, highest)) && lowest.rank()
            <= priorities[slots[slot].0 as int].rank() <= highest.rank() && (exists|i: int|
            0 <= i < slots.len() && (#[trigger] slots[i]).0 < priorities.len()
                && priorities[slots[i].0 as int] == lowest) && (exists|i: int|
            0 <= i < slots.len() && (#[trigger] slots[i]).0 < priorities.len()
                && priorities[slots[i].0 as int] == highest),
    decreases slots.len(),
{
    let shorter = slots.drop_last();
    let last = slots.len() - 1;
    if slot < last {
        lemma_range_of(shorter, priorities, slot);
        let (lowest, highest) = range_of(shorter, priorities).unwrap();
        let i = choose|i: int|
            0 <= i < shorter.len() && (#[trigger] shorter[i]).0 < priorities.len()
                && priorities[shorter[i].0 as int] == lowest;
        let j = choose|j: int|
            0 <= j < shorter.len() && (#[trigger] shorter[j]).0 < priorities.len()
                && priorities[shorter[j].0 as int] == highest;
        assert(slots[i] == shorter[i] && slots[j] == shorter[j]);
        assert(slots[slot] == shorter[slot]);
    } else {
        if range_of(shorter, priorities) is Some {
            let (lowest, highest) = range_of(shorter, priorities).unwrap();
            lemma_range_some(shorter, priorities);
            let k = choose|k: int|
                0 <= k < shorter.len() && (#[trigger] shorter[k]).0 < priorities.len();
            lemma_range_of(shorter, priorities, k);
            let i = choose|i: int|
                0 <= i < shorter.len() && (#[trigger] shorter[i]).0 < priorities.len()
                    && priorities[shorter[i].0 as int] == lowest;
            let j = choose|j: int|
                0 <= j < shorter.len() && (#[trigger] shorter[j]).0 < priorities.len()
                    && priorities[shorter[j].0 as int] == highest;
            assert(slots[i] == shorter[i] && slots[j] == shorter[j]);
        }
        assert(slots[last].0 < priorities.len());
    }
}

/// A range that is not empty comes from a tile with a priority.
proof fn lemma_range_some(slots: Seq<(u64, Fence)>, priorities: Seq<Priority>)
    requires
        range_of(slots, priorities) is Some,
    ensures
        exists|k: int| 0 <= k < slots.len() && (#[trigger] slots[k]).0 < priorities.len(),
    decreases slots.len(),
{
    if slots.len() > 0 {
        let last = slots.len() - 1;
        if slots[last].0 < priorities.len() {
        } else {
            lemma_range_some(slots.drop_last(), priorities);
            let k = choose|k: int|
                0 <= k < slots.drop_last().len() && (#[trigger] slots.drop_last()[k]).0
                    < priorities.len();
            assert(slots[k] == slots.drop_last()[k]);
        }
    }
}

impl TileCache {
    /// Takes the new priorities of the nodes: the cache notes the lowest
    /// and the highest priority among its resident tiles, each tile under
    /// the place of its node. The slots and the demands stay as they are.
    pub fn update_priorities(&mut self, priorities: &Vec<Priority>)
        requires
            old(self)@.well_formed(),
        ensures
            final(self)@ == (CacheState {
                range: range_of(old(self)@.slots, priorities@),
                ..old(self)@
            }),
            final(self)@.well_formed(),
    {
        let mut range: Option<(Priority, Priority)> = None;
        let mut i: usize = 0;
        assert(self.contents@.take(0) =~= Seq::<(u64, Fence)>::empty());
        while i < self.contents.len()
            invariant
                i <= self.contents@.len(),
                *self == *old(self),
                range == range_of(self.contents@.take(i as int), priorities@),
            decreases self.contents@.len() - i,
        {
            let key = self.contents[i].0;
            assert(self.contents@.take(i + 1).drop_last() =~= self.contents@.take(i as int));
            assert(self.contents@.take(i + 1).last() == self.contents@[i as int]);
            if key < priorities.len() as u64 {
                let priority = priorities[key as usize];
                range = match range {
                    None => Some((priority, priority)),
                    Some((lowest, highest)) => Some(
                        (
                            if priority.0 < lowest.0 {
                                priority
                            } else {
                                lowest
                            },
                            if priority.0 > highest.0 {
                                priority
                            } else {
                                highest
                            },
                        ),
                    ),
                };
            }
            i += 1;
        }
        assert(self.contents@.take(i as int) =~= self.contents@);
        self.range = range;
    }

    /// The lowest and the highest priority among the resident tiles, as the
    /// last priority pass found them.
    pub fn priority_range(&self) -> (range: Option<(Priority, Priority)>)
        ensures
            range == self@.range,
    {
        self.range
    }
}

/// Whether every pending fence waits for a token that was given out
/// before the one that the next fill gets.
pub open spec fn tokens_given(state: CacheState) -> bool {
    forall|slot: int|
        0 <= slot < state.slots.len() ==> ((#[trigger] state.slots[slot]).1.state matches FenceState::Pending {
            token,
        } ==> token < state.token)
}

/// Fresh fences: while fewer fills have begun than 64 bits can count, the
/// fence of a new fill waits for a token that no other pending fence of the
/// cache waits for.
pub proof fn lemma_fresh_token(state: CacheState, key: u64, slot: int)
    requires
        state.well_formed(),
        0 < state.capacity,
        tokens_given(state),
        state.token < u64::MAX,
        !state.resident(key),
        0 <= slot < state.inserted(key).slots.len(),
        slot != state.free_slot(),
    ensures
        tokens_given(state.inserted(key)),
        state.inserted(key).slots[state.free_slot() as int].1 == Fence::pending(state.token),
        state.inserted(key).slots[slot].1 != Fence::pending(state.token),
{
    let after = state.inserted(key);
    lemma_inserted_well_formed(state, key);
    if state.order.len() >= state.capacity {
        assert(state.order[0].1 < state.slots.len());
    }
    assert(state.slots[slot] == after.slots[slot]);
    assert forall|s: int| 0 <= s < after.slots.len() implies ((
    #[trigger] after.slots[s]).1.state matches FenceState::Pending { token } ==> token
        < after.token) by {
        if s != state.free_slot() {
            assert(after.slots[s] == state.slots[s]);
        }
    }
}

} // verus!
