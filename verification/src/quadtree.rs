//! The level-of-detail driver of the render quadtree: from the priorities of
//! the nodes it decides which tiles to bring into the caches and which nodes
//! to render.

use crate::priority::{Priority, CUTOFF_BITS};
use crate::tile_cache::{range_of, CacheState, Fill, TileCache};
use vstd::prelude::*;

verus! {

/// The number of layers that a node can have a tile in.
pub const NUM_LAYERS: usize = 3;

/// The place of a node in the arena of a quadtree. The root is at place 0.
#[derive(Copy, Clone, Debug, PartialEq, Eq, PartialOrd, Ord, Hash, Structural)]
pub struct NodeId(pub u32);

impl NodeId {
    /// The root of the tree.
    pub fn root() -> (id: NodeId)
        ensures
            id == NodeId(0),
    {
        NodeId(0)
    }

    /// The place of the node in the arena.
    pub fn index(&self) -> (i: usize)
        ensures
            i == self.0,
    {
        self.0 as usize
    }
}

/// A node of the render quadtree.
#[derive(Copy, Clone, Debug)]
pub struct Node {
    /// For each layer, the tile of the node in it, if the node needs one.
    pub tile_indices: [Option<u32>; 3],
    /// The up to four children of the node.
    pub children: [Option<NodeId>; 4],
    /// How urgently the node needs its data.
    pub priority: Priority,
    /// Whether the node is rendered.
    pub visible: bool,
}

/// Whether the arena holds a tree that can be walked: it has a root, its
/// places fit in 32 bits, and every child is a place of the arena.
pub open spec fn arena_ok(nodes: Seq<Node>) -> bool {
    &&& 0 < nodes.len() <= u32::MAX
    &&& forall|id: int, i: int|
        0 <= id < nodes.len() && 0 <= i < 4 ==> (#[trigger] nodes[id].children[i] matches Some(
            child,
        ) ==> child.0 < nodes.len())
}

/// Whether `child` is a child of `parent`.
pub open spec fn is_child(nodes: Seq<Node>, parent: int, child: int) -> bool {
    exists|i: int| 0 <= i < 4 && #[trigger] nodes[parent].children[i] == Some(NodeId(child as u32))
}

/// Whether `path` leads from the root to its last node, each node a child
/// of the one before, through nodes at which the walk descends.
pub open spec fn is_path(nodes: Seq<Node>, descend: Seq<bool>, path: Seq<int>) -> bool {
    &&& path.len() > 0
    &&& path[0] == 0
    &&& forall|k: int|
        0 <= k < path.len() ==> 0 <= #[trigger] path[k] < nodes.len()
    &&& forall|k: int|
        0 <= k < path.len() - 1 ==> descend[#[trigger] path[k]] && is_child(
            nodes,
            path[k],
            path[k + 1],
        )
}

/// Whether a walk from the root, which goes on to the children of a node
/// only where `descend` says so, comes to the node `id`.
pub open spec fn reached(nodes: Seq<Node>, descend: Seq<bool>, id: int) -> bool {
    exists|path: Seq<int>| is_path(nodes, descend, path) && #[trigger] path.last() == id
}

/// The children of `id` in the first `upto` places that are not in `queue`,
/// each once, in the order of the places.
pub open spec fn fresh_children(nodes: Seq<Node>, queue: Seq<NodeId>, id: int, upto: int) -> Seq<
    NodeId,
>
    decreases upto,
{
    if upto <= 0 {
        Seq::empty()
    } else {
        let earlier = fresh_children(nodes, queue, id, upto - 1);
        match nodes[id].children[upto - 1] {
            Some(child) => if (queue + earlier).contains(child) {
                earlier
            } else {
                earlier.push(child)
            },
            None => earlier,
        }
    }
}

/// The nodes that a breadth-first walk visits, in the order of the visits,
/// when it has visited `queue`, has looked at the children of the first
/// `head` of them, and goes on for at most `fuel` nodes.
pub open spec fn visit(
    nodes: Seq<Node>,
    descend: Seq<bool>,
    queue: Seq<NodeId>,
    head: int,
    fuel: nat,
) -> Seq<NodeId>
    decreases fuel,
{
    if fuel == 0 || head >= queue.len() {
        queue
    } else {
        let id = queue[head].0 as int;
        let next = if descend[id] {
            queue + fresh_children(nodes, queue, id, 4)
        } else {
            queue
        };
        visit(nodes, descend, next, head + 1, (fuel - 1) as nat)
    }
}

/// The nodes that a breadth-first walk from the root visits, in the order of
/// the visits. The walk visits the root, and the children of every visited
/// node at which `descend` holds, in the order of the children; a node that
/// can be come to in two ways is visited once.
pub open spec fn visit_order(nodes: Seq<Node>, descend: Seq<bool>) -> Seq<NodeId> {
    visit(nodes, descend, seq![NodeId(0)], 0, nodes.len())
}

/// Whether the node at place `k` of `order` is a child of a node that
/// stands earlier in `order`, and at which the walk descends.
pub open spec fn parent_before(nodes: Seq<Node>, descend: Seq<bool>, order: Seq<NodeId>, k: int) -> bool {
    exists|h: int|
        0 <= h < k && descend[(#[trigger] order[h]).0 as int] && is_child(
            nodes,
            order[h].0 as int,
            order[k].0 as int,
        )
}

/// The number of `true` entries.
pub open spec fn count_true(flags: Seq<bool>) -> nat
    decreases flags.len(),
{
    if flags.len() == 0 {
        0
    } else {
        count_true(flags.drop_last()) + if flags.last() {
            1nat
        } else {
            0nat
        }
    }
}

/// No more entries are `true` than there are entries.
proof fn lemma_count_bound(flags: Seq<bool>)
    ensures
        count_true(flags) <= flags.len(),
    decreases flags.len(),
{
    if flags.len() > 0 {
        lemma_count_bound(flags.drop_last());
    }
}

/// Setting an entry that is `false` gives one `true` entry more.
proof fn lemma_count_set(flags: Seq<bool>, at: int)
    requires
        0 <= at < flags.len(),
        !flags[at],
    ensures
        count_true(flags.update(at, true)) == count_true(flags) + 1,
    decreases flags.len(),
{
    let after = flags.update(at, true);
    if at == flags.len() - 1 {
        assert(after.drop_last() =~= flags.drop_last());
    } else {
        lemma_count_set(flags.drop_last(), at);
        assert(after.drop_last() =~= flags.drop_last().update(at, true));
    }
}

/// No entry is `true` among entries that are all `false`.
proof fn lemma_count_none(flags: Seq<bool>)
    requires
        forall|i: int| 0 <= i < flags.len() ==> !flags[i],
    ensures
        count_true(flags) == 0,
    decreases flags.len(),
{
    if flags.len() > 0 {
        lemma_count_none(flags.drop_last());
    }
}

/// A set of nodes that holds the root, and the children of each of its
/// nodes at which the walk descends, holds every node that the walk comes
/// to.
proof fn lemma_closed_holds_reached(
    nodes: Seq<Node>,
    descend: Seq<bool>,
    seen: Seq<bool>,
    path: Seq<int>,
)
    requires
        arena_ok(nodes),
        seen.len() == nodes.len(),
        seen[0],
        forall|id: int, i: int|
            0 <= id < nodes.len() && 0 <= i < 4 && seen[id] && descend[id] ==> (
            #[trigger] nodes[id].children[i] matches Some(child) ==> seen[child.0 as int]),
        is_path(nodes, descend, path),
    ensures
        seen[path.last()],
    decreases path.len(),
{
    if path.len() > 1 {
        let shorter = path.drop_last();
        assert(is_path(nodes, descend, shorter)) by {
            assert forall|k: int| 0 <= k < shorter.len() - 1 implies descend[#[trigger] shorter[k]]
                && is_child(nodes, shorter[k], shorter[k + 1]) by {
                assert(shorter[k] == path[k] && shorter[k + 1] == path[k + 1]);
            }
            assert forall|k: int| 0 <= k < shorter.len() implies 0 <= #[trigger] shorter[k]
                < nodes.len() by {
                assert(shorter[k] == path[k]);
            }
        }
        lemma_closed_holds_reached(nodes, descend, seen, shorter);
        let k = path.len() - 2;
        let parent = path[k];
        assert(shorter.last() == parent);
        assert(descend[parent] && is_child(nodes, parent, path[k + 1]));
        let i = choose|i: int|
            0 <= i < 4 && #[trigger] nodes[parent].children[i] == Some(
                NodeId(path[k + 1] as u32),
            );
        assert(nodes[parent].children[i] matches Some(child) ==> seen[child.0 as int]);
    }
}

/// Walks the tree breadth-first from the root, going on to the children of a
/// node only where `descend` says so, and gives the nodes in the order of
/// the visits: each node that the walk comes to, once.
pub fn breadth_first(nodes: &Vec<Node>, descend: &Vec<bool>) -> (order: Vec<NodeId>)
    requires
        arena_ok(nodes@),
        descend@.len() == nodes@.len(),
    ensures
        order@ == visit_order(nodes@, descend@),
        order@.len() <= nodes@.len(),
        order@.len() > 0 && order@[0] == NodeId(0),
        forall|k: int|
            0 <= k < order@.len() ==> (#[trigger] order@[k]).0 < nodes@.len() && reached(
                nodes@,
                descend@,
                order@[k].0 as int,
            ),
        forall|id: int|
            0 <= id < nodes@.len() && reached(nodes@, descend@, id) ==> order@.contains(
                NodeId(id as u32),
            ),
        forall|a: int, b: int| 0 <= a < b < order@.len() ==> order@[a] != order@[b],
        forall|k: int| 0 < k < order@.len() ==> #[trigger] parent_before(nodes@, descend@, order@, k),
{
    let n = nodes.len();
    let mut seen: Vec<bool> = Vec::new();
    let mut i: usize = 0;
    while i < n
        invariant
            i <= n,
            seen@.len() == i,
            forall|k: int| 0 <= k < i ==> !seen@[k],
        decreases n - i,
    {
        seen.push(false);
        i += 1;
    }
    let mut order: Vec<NodeId> = Vec::new();
    order.push(NodeId(0));
    proof {
        lemma_count_none(seen@);
        lemma_count_set(seen@, 0);
        let path = seq![0int];
        assert(is_path(nodes@, descend@, path) && path.last() == 0);
    }
    seen.set(0, true);
    let mut head: usize = 0;
    while head < order.len()
        invariant
            n == nodes@.len(),
            arena_ok(nodes@),
            descend@.len() == n,
            seen@.len() == n,
            head <= order@.len(),
            count_true(seen@) == order@.len(),
            order@.len() > 0 && order@[0] == NodeId(0),
            seen@[0],
            visit_order(nodes@, descend@) == visit(
                nodes@,
                descend@,
                order@,
                head as int,
                (n - head) as nat,
            ),
            forall|k: int|
                0 <= k < order@.len() ==> (#[trigger] order@[k]).0 < n && seen@[order@[k].0 as int]
                    && reached(nodes@, descend@, order@[k].0 as int),
            forall|id: int|
                0 <= id < n && seen@[id] ==> order@.contains(NodeId(id as u32)),
            forall|a: int, b: int| 0 <= a < b < order@.len() ==> order@[a] != order@[b],
            forall|k: int|
                0 < k < order@.len() ==> #[trigger] parent_before(nodes@, descend@, order@, k),
            forall|h: int, i: int|
                0 <= h < head && 0 <= i < 4 && descend@[order@[h].0 as int] ==> (
                #[trigger] nodes@[order@[h].0 as int].children[i] matches Some(child)
                    ==> seen@[child.0 as int]),
        decreases n - head,
    {
        proof {
            lemma_count_bound(seen@);
        }
        let id = order[head].0 as usize;
        let ghost queue = order@;
        assert(order@[head as int].0 < n);
        assert(reached(nodes@, descend@, id as int));
        if descend[id] {
            let mut i: usize = 0;
            while i < 4
                invariant
                    i <= 4,
                    id < n,
                    head < queue.len(),
                    queue[head as int].0 == id,
                    descend@[id as int],
                    reached(nodes@, descend@, id as int),
                    n == nodes@.len(),
                    arena_ok(nodes@),
                    descend@.len() == n,
                    seen@.len() == n,
                    count_true(seen@) == order@.len(),
                    order@ == queue + fresh_children(nodes@, queue, id as int, i as int),
                    seen@[0],
                    forall|k: int|
                        0 <= k < order@.len() ==> (#[trigger] order@[k]).0 < n
                            && seen@[order@[k].0 as int] && reached(
                            nodes@,
                            descend@,
                            order@[k].0 as int,
                        ),
                    forall|v: int|
                        0 <= v < n && seen@[v] ==> order@.contains(NodeId(v as u32)),
                    forall|a: int, b: int| 0 <= a < b < order@.len() ==> order@[a] != order@[b],
                    forall|k: int|
                        0 < k < order@.len() ==> #[trigger] parent_before(
                            nodes@,
                            descend@,
                            order@,
                            k,
                        ),
                    forall|h: int, j: int|
                        0 <= h < head && 0 <= j < 4 && descend@[order@[h].0 as int] ==> (
                        #[trigger] nodes@[order@[h].0 as int].children[j] matches Some(child)
                            ==> seen@[child.0 as int]),
                    forall|j: int|
                        0 <= j < i ==> (#[trigger] nodes@[id as int].children[j] matches Some(
                            child,
                        ) ==> seen@[child.0 as int]),
                decreases 4 - i,
            {
                let ghost before = order@;
                let ghost seen_before = seen@;
                match nodes[id].children[i] {
                    Some(child) => {
                        assert(nodes@[id as int].children[i as int] matches Some(c) ==> c.0 < n);
                        let c = child.0 as usize;
                        if !seen[c] {
                            proof {
                                lemma_count_set(seen@, c as int);
                                if before.contains(child) {
                                    let k = before.index_of(child);
                                    assert(seen@[before[k].0 as int]);
                                }
                                let path = choose|path: Seq<int>|
                                    is_path(nodes@, descend@, path) && #[trigger] path.last()
                                        == id as int;
                                let longer = path.push(c as int);
                                assert(is_child(nodes@, id as int, c as int)) by {
                                    assert(nodes@[id as int].children[i as int] == Some(
                                        NodeId(c as u32),
                                    ));
                                }
                                assert(is_path(nodes@, descend@, longer)) by {
                                    assert forall|k: int| 0 <= k < longer.len() - 1 implies descend@[
                                    #[trigger] longer[k]] && is_child(
                                        nodes@,
                                        longer[k],
                                        longer[k + 1],
                                    ) by {
                                        if k < path.len() - 1 {
                                            assert(longer[k] == path[k] && longer[k + 1] == path[k
                                                + 1]);
                                        }
                                    }
                                    assert forall|k: int| 0 <= k < longer.len() implies 0
                                        <= #[trigger] longer[k] < nodes@.len() by {
                                        if k < path.len() {
                                            assert(longer[k] == path[k]);
                                        }
                                    }
                                }
                                assert(longer.last() == c as int);
                            }
                            seen.set(c, true);
                            order.push(child);
                            proof {
                                assert forall|v: int| 0 <= v < n && seen@[v] implies order@.contains(
                                    NodeId(v as u32),
                                ) by {
                                    if v == c {
                                        assert(order@[order@.len() - 1] == child);
                                    } else {
                                        assert(before.contains(NodeId(v as u32)));
                                        let k = before.index_of(NodeId(v as u32));
                                        assert(order@[k] == NodeId(v as u32));
                                    }
                                }
                                assert forall|a: int, b: int|
                                    0 <= a < b < order@.len() implies order@[a] != order@[b] by {
                                    if b == order@.len() - 1 && order@[a] == order@[b] {
                                        assert(seen_before[before[a].0 as int]);
                                    }
                                }
                                assert forall|k: int| 0 < k < order@.len() implies #[trigger] parent_before(
                                    nodes@,
                                    descend@,
                                    order@,
                                    k,
                                ) by {
                                    if k < before.len() {
                                        assert(parent_before(nodes@, descend@, before, k));
                                        let h = choose|h: int|
                                            0 <= h < k && descend@[(#[trigger] before[h]).0 as int]
                                                && is_child(
                                                nodes@,
                                                before[h].0 as int,
                                                before[k].0 as int,
                                            );
                                        assert(order@[h] == before[h]);
                                    } else {
                                        assert(order@[head as int].0 == id);
                                    }
                                }
                            }
                        } else {
                            proof {
                                assert(before.contains(child));
                            }
                        }
                    },
                    None => {},
                }
                proof {
                    let earlier = fresh_children(nodes@, queue, id as int, i as int);
                    assert(before == queue + earlier);
                    assert(order@ =~= queue + fresh_children(nodes@, queue, id as int, i + 1));
                }
                i += 1;
            }
        }
        proof {
            assert(order@.len() <= n) by {
                lemma_count_bound(seen@);
            }
        }
        head += 1;
    }
    proof {
        lemma_count_bound(seen@);
        assert forall|id: int|
            0 <= id < nodes@.len() && reached(nodes@, descend@, id) implies order@.contains(
            NodeId(id as u32),
        ) by {
            let path = choose|path: Seq<int>|
                is_path(nodes@, descend@, path) && #[trigger] path.last() == id;
            assert forall|v: int, i: int|
                0 <= v < nodes@.len() && 0 <= i < 4 && seen@[v] && descend@[v] implies (
            #[trigger] nodes@[v].children[i] matches Some(child) ==> seen@[child.0 as int]) by {
                assert(order@.contains(NodeId(v as u32)));
                let h = order@.index_of(NodeId(v as u32));
                assert(order@[h].0 as int == v);
            }
            lemma_closed_holds_reached(nodes@, descend@, seen@, path);
        }
    }
    order
}

/// For each node, whether its priority is at least the cutoff.
pub open spec fn above_cutoff(nodes: Seq<Node>) -> Seq<bool> {
    Seq::new(nodes.len(), |id: int| nodes[id].priority.rank() >= CUTOFF_BITS)
}

/// Whether every layer that the node needs holds the node's tile, filled.
pub open spec fn resident(nodes: Seq<Node>, caches: Seq<CacheState>, id: int) -> bool {
    forall|layer: int|
        0 <= layer < 3 ==> (#[trigger] nodes[id].tile_indices[layer] is Some
            ==> caches[layer].ready(id as u64))
}

/// For each node, whether it is tentatively visible: a walk that descends
/// where the priority is at least the cutoff comes to it, its own priority
/// is at least the cutoff, and every layer that it needs is resident.
pub open spec fn tentative(nodes: Seq<Node>, caches: Seq<CacheState>) -> Seq<bool> {
    Seq::new(
        nodes.len(),
        |id: int|
            reached(nodes, above_cutoff(nodes), id) && above_cutoff(nodes)[id] && resident(
                nodes,
                caches,
                id,
            ),
    )
}

/// Whether the node has four children that are all flagged.
pub open spec fn covered(nodes: Seq<Node>, flags: Seq<bool>, id: int) -> bool {
    forall|i: int|
        0 <= i < 4 ==> (#[trigger] nodes[id].children[i] matches Some(child)
            && flags[child.0 as int])
}

/// Whether the node is rendered: a walk through tentatively visible nodes
/// comes to it, it is tentatively visible itself, and its children do not
/// cover it.
pub open spec fn rendered(nodes: Seq<Node>, caches: Seq<CacheState>, id: int) -> bool {
    let flags = tentative(nodes, caches);
    reached(nodes, flags, id) && flags[id] && !covered(nodes, flags, id)
}

/// The flag of a node after the visibility pass. A tentatively visible node
/// that the walk through such nodes comes to keeps its flag unless its
/// children cover it; any other node keeps its tentative flag.
pub open spec fn final_flag(nodes: Seq<Node>, caches: Seq<CacheState>, id: int) -> bool {
    let flags = tentative(nodes, caches);
    if reached(nodes, flags, id) && flags[id] {
        !covered(nodes, flags, id)
    } else {
        flags[id]
    }
}

/// The nodes of `order` that are flagged and not covered, in their order.
pub open spec fn uncovered(nodes: Seq<Node>, flags: Seq<bool>, order: Seq<NodeId>) -> Seq<NodeId>
    decreases order.len(),
{
    if order.len() == 0 {
        Seq::empty()
    } else {
        let earlier = uncovered(nodes, flags, order.drop_last());
        let id = order.last().0 as int;
        if flags[id] && !covered(nodes, flags, id) {
            earlier.push(order.last())
        } else {
            earlier
        }
    }
}

/// The render list: the rendered nodes in the order in which the walk
/// through the tentatively visible nodes visits them.
pub open spec fn render_list(nodes: Seq<Node>, caches: Seq<CacheState>) -> Seq<NodeId> {
    let flags = tentative(nodes, caches);
    uncovered(nodes, flags, visit_order(nodes, flags))
}

/// The nodes with the given flags in place of their own.
pub open spec fn with_flags(nodes: Seq<Node>, flags: Seq<bool>) -> Seq<Node> {
    Seq::new(nodes.len(), |id: int| Node { visible: flags[id], ..nodes[id] })
}

/// The nodes with the given priorities in place of their own.
pub open spec fn with_priorities(nodes: Seq<Node>, priorities: Seq<Priority>) -> Seq<Node> {
    Seq::new(nodes.len(), |id: int| Node { priority: priorities[id], ..nodes[id] })
}

/// Whether the cache pass demands the tile of a node for a layer: the
/// node's priority is at least the cutoff, it needs the layer, and the
/// layer's cache does not hold its tile, filled.
pub open spec fn wanted(nodes: Seq<Node>, cache: CacheState, layer: int, id: int) -> bool {
    above_cutoff(nodes)[id] && nodes[id].tile_indices[layer] is Some && !cache.ready(id as u64)
}

/// The cache of a layer after the cache pass has visited the nodes of
/// `order`: every wanted tile was demanded with the priority of its node.
pub open spec fn after_demands(
    nodes: Seq<Node>,
    cache: CacheState,
    layer: int,
    order: Seq<NodeId>,
) -> CacheState
    decreases order.len(),
{
    if order.len() == 0 {
        cache
    } else {
        let earlier = after_demands(nodes, cache, layer, order.drop_last());
        let id = order.last().0 as int;
        if wanted(nodes, earlier, layer, id) {
            earlier.with_demand(nodes[id].priority, id as u64)
        } else {
            earlier
        }
    }
}

/// The cache of a layer after the cache pass: the wanted tiles of the
/// visited nodes were demanded in the order of the visits, and the demands
/// were served.
pub open spec fn after_cache_pass(nodes: Seq<Node>, cache: CacheState, layer: int) -> CacheState {
    after_demands(nodes, cache, layer, visit_order(nodes, above_cutoff(nodes))).loaded()
}

/// The fills that the cache pass starts in a layer.
pub open spec fn fills_of_pass(nodes: Seq<Node>, cache: CacheState, layer: int) -> Seq<Fill> {
    let demanded = after_demands(nodes, cache, layer, visit_order(nodes, above_cutoff(nodes)));
    demanded.fills_of(demanded.served())
}

/// The fills of a layer, each with the number of the layer.
pub open spec fn tagged(layer: usize, fills: Seq<Fill>) -> Seq<(usize, Fill)> {
    fills.map_values(|fill: Fill| (layer, fill))
}

/// Demands keep a cache consistent, and change neither its slots nor its
/// capacity.
pub proof fn lemma_after_demands(nodes: Seq<Node>, cache: CacheState, layer: int, order: Seq<NodeId>)
    requires
        cache.well_formed(),
    ensures
        after_demands(nodes, cache, layer, order).well_formed(),
        after_demands(nodes, cache, layer, order).capacity == cache.capacity,
        after_demands(nodes, cache, layer, order).slots == cache.slots,
        after_demands(nodes, cache, layer, order).order == cache.order,
        after_demands(nodes, cache, layer, order).token == cache.token,
    decreases order.len(),
{
    if order.len() > 0 {
        lemma_after_demands(nodes, cache, layer, order.drop_last());
    }
}

/// The state of a quadtree.
pub struct QuadTreeState {
    /// The arena of nodes; the root is at place 0.
    pub nodes: Seq<Node>,
    /// The nodes that are rendered.
    pub visible_nodes: Seq<NodeId>,
    /// The cache of each layer.
    pub caches: Seq<CacheState>,
}

impl QuadTreeState {
    /// The tree can be walked, and each of its three caches is consistent.
    pub open spec fn well_formed(self) -> bool {
        &&& arena_ok(self.nodes)
        &&& self.caches.len() == 3
        &&& forall|layer: int| 0 <= layer < 3 ==> (#[trigger] self.caches[layer]).well_formed()
    }
}

/// A render quadtree with the caches that hold the tiles of its nodes.
///
/// Each frame the driver takes the priorities of the nodes, records and
/// serves the demands for the tiles of the urgent nodes, and chooses the
/// nodes to render. The tile of a node is kept under the node's place.
pub struct QuadTree {
    nodes: Vec<Node>,
    visible_nodes: Vec<NodeId>,
    tile_cache_layers: [TileCache; 3],
}

impl View for QuadTree {
    type V = QuadTreeState;

    closed spec fn view(&self) -> QuadTreeState {
        QuadTreeState {
            nodes: self.nodes@,
            visible_nodes: self.visible_nodes@,
            caches: Seq::new(3, |layer: int| self.tile_cache_layers[layer]@),
        }
    }
}

/// Tells whether the arena holds a tree that can be walked.
pub fn check_arena(nodes: &Vec<Node>) -> (ok: bool)
    ensures
        ok == arena_ok(nodes@),
{
    if nodes.len() == 0 || nodes.len() > u32::MAX as usize {
        return false;
    }
    let mut id: usize = 0;
    while id < nodes.len()
        invariant
            id <= nodes.len(),
            forall|v: int, i: int|
                0 <= v < id && 0 <= i < 4 ==> (#[trigger] nodes@[v].children[i] matches Some(
                    child,
                ) ==> child.0 < nodes@.len()),
        decreases nodes.len() - id,
    {
        let mut i: usize = 0;
        while i < 4
            invariant
                i <= 4,
                id < nodes.len(),
                forall|j: int|
                    0 <= j < i ==> (#[trigger] nodes@[id as int].children[j] matches Some(
                        child,
                    ) ==> child.0 < nodes@.len()),
            decreases 4 - i,
        {
            match nodes[id].children[i] {
                Some(child) => {
                    if child.0 as usize >= nodes.len() {
                        assert(nodes@[id as int].children[i as int] matches Some(c) && c.0
                            >= nodes@.len());
                        return false;
                    }
                },
                None => {},
            }
            i += 1;
        }
        id += 1;
    }
    true
}

impl QuadTree {
    /// A quadtree over the given arena, with empty caches for the three
    /// layers: 1024 tiles of heights, 5 pixels wide, 512 tiles of normals and
    /// 96 of splats, 512 pixels wide. An
    /// arena without a root, or with a child that is no place of it, gives
    /// `None`.
    pub fn from_nodes(nodes: Vec<Node>) -> (tree: Option<QuadTree>)
        ensures
            tree is Some <==> arena_ok(nodes@),
            tree is Some ==> tree.unwrap()@ == (QuadTreeState {
                nodes: nodes@,
                visible_nodes: Seq::empty(),
                caches: seq![
                    CacheState::empty(1024, 5),
                    CacheState::empty(512, 512),
                    CacheState::empty(96, 512),
                ],
            }) && tree.unwrap()@.well_formed(),
    {
        if !check_arena(&nodes) {
            return None;
        }
        let tree = QuadTree {
            nodes,
            visible_nodes: Vec::new(),
            tile_cache_layers: [
                TileCache::new(1024, 5),
                TileCache::new(512, 512),
                TileCache::new(96, 512),
            ],
        };
        assert(tree@.caches =~= seq![
            CacheState::empty(1024, 5),
            CacheState::empty(512, 512),
            CacheState::empty(96, 512),
        ]);
        Some(tree)
    }

    /// The nodes of the tree.
    pub fn nodes(&self) -> (nodes: &Vec<Node>)
        ensures
            nodes@ == self@.nodes,
    {
        &self.nodes
    }

    /// The nodes that are rendered, in the order in which the last
    /// visibility pass found them.
    pub fn visible_nodes(&self) -> (list: &Vec<NodeId>)
        ensures
            list@ == self@.visible_nodes,
    {
        &self.visible_nodes
    }

    /// The cache of a layer.
    pub fn cache(&self, layer: usize) -> (cache: &TileCache)
        requires
            layer < 3,
        ensures
            cache@ == self@.caches[layer as int],
    {
        &self.tile_cache_layers[layer]
    }

    /// Reports that a fill of a layer's cache is complete: the slot's fence
    /// becomes ready if it waits for the fill with that token. Any other
    /// report changes nothing.
    pub fn signal(&mut self, layer: usize, slot: usize, token: u64) -> (accepted: bool)
        requires
            old(self)@.well_formed(),
            layer < 3,
        ensures
            accepted == old(self)@.caches[layer as int].awaits(slot, token),
            final(self)@ == (QuadTreeState {
                caches: old(self)@.caches.update(
                    layer as int,
                    old(self)@.caches[layer as int].signalled(slot, token),
                ),
                ..old(self)@
            }),
            final(self)@.well_formed(),
    {
        assert(self@.caches[layer as int].well_formed());
        let accepted = self.tile_cache_layers[layer].signal(slot, token);
        assert(self@.caches =~= old(self)@.caches.update(
            layer as int,
            old(self)@.caches[layer as int].signalled(slot, token),
        ));
        assert forall|l: int| 0 <= l < 3 implies (#[trigger] self@.caches[l]).well_formed() by {
            if l != layer {
                assert(old(self)@.caches[l].well_formed());
            }
        }
        accepted
    }

    /// The priority pass: every node gets its new priority, and every cache
    /// notes the lowest and the highest priority among its resident tiles.
    pub fn update_priorities(&mut self, priorities: &Vec<Priority>)
        requires
            old(self)@.well_formed(),
            priorities@.len() == old(self)@.nodes.len(),
        ensures
            final(self)@ == (QuadTreeState {
                nodes: with_priorities(old(self)@.nodes, priorities@),
                caches: with_ranges(old(self)@.caches, priorities@),
                ..old(self)@
            }),
            final(self)@.well_formed(),
    {
        let mut id: usize = 0;
        while id < self.nodes.len()
            invariant
                id <= self.nodes.len(),
                self.nodes@.len() == old(self).nodes@.len(),
                priorities@.len() == self.nodes@.len(),
                self.visible_nodes == old(self).visible_nodes,
                self.tile_cache_layers == old(self).tile_cache_layers,
                forall|v: int|
                    0 <= v < id ==> #[trigger] self.nodes@[v] == (Node {
                        priority: priorities@[v],
                        ..old(self).nodes@[v]
                    }),
                forall|v: int| id <= v < self.nodes@.len() ==> #[trigger] self.nodes@[v] == old(
                    self,
                ).nodes@[v],
            decreases self.nodes.len() - id,
        {
            let node = self.nodes[id];
            self.nodes.set(id, Node { priority: priorities[id], ..node });
            id += 1;
        }
        let ghost start = old(self)@.caches;
        let mut layer: usize = 0;
        while layer < 3
            invariant
                layer <= 3,
                self.nodes@ =~= with_priorities(old(self)@.nodes, priorities@),
                self.visible_nodes == old(self).visible_nodes,
                start == old(self)@.caches,
                start.len() == 3,
                forall|l: int| 0 <= l < 3 ==> (#[trigger] start[l]).well_formed(),
                forall|l: int|
                    0 <= l < layer ==> (#[trigger] self.tile_cache_layers[l])@ == (CacheState {
                        range: range_of(start[l].slots, priorities@),
                        ..start[l]
                    }),
                forall|l: int| layer <= l < 3 ==> (#[trigger] self.tile_cache_layers[l])@ == start[l],
            decreases 3 - layer,
        {
            let ghost before = self.tile_cache_layers;
            assert(start[layer as int].well_formed());
            self.tile_cache_layers[layer].update_priorities(priorities);
            assert forall|l: int| layer + 1 <= l < 3 implies (
            #[trigger] self.tile_cache_layers[l])@ == start[l] by {
                assert(self.tile_cache_layers[l] == before[l]);
            }
            assert forall|l: int| 0 <= l < layer + 1 implies (
            #[trigger] self.tile_cache_layers[l])@ == (CacheState {
                range: range_of(start[l].slots, priorities@),
                ..start[l]
            }) by {
                if l < layer {
                    assert(self.tile_cache_layers[l] == before[l]);
                }
            }
            layer += 1;
        }
        assert(self@.nodes =~= with_priorities(old(self)@.nodes, priorities@));
        assert(self@.caches =~= with_ranges(old(self)@.caches, priorities@));
        assert(arena_ok(self@.nodes)) by {
            assert forall|v: int, i: int|
                0 <= v < self@.nodes.len() && 0 <= i < 4 implies (
            #[trigger] self@.nodes[v].children[i] matches Some(child) ==> child.0
                < self@.nodes.len()) by {
                assert(old(self)@.nodes[v].children[i] matches Some(child) ==> child.0 < old(
                    self,
                )@.nodes.len());
            }
        }
        assert forall|l: int| 0 <= l < 3 implies (#[trigger] self@.caches[l]).well_formed() by {
            assert(start[l].well_formed());
        }
    }
}

/// The caches after a priority pass: each has noted the lowest and the
/// highest priority among its resident tiles.
pub open spec fn with_ranges(caches: Seq<CacheState>, priorities: Seq<Priority>) -> Seq<
    CacheState,
> {
    Seq::new(
        caches.len(),
        |layer: int|
            CacheState { range: range_of(caches[layer].slots, priorities), ..caches[layer] },
    )
}

/// Whether the node `id` is among the first `upto` nodes of `order`.
pub open spec fn visited(order: Seq<NodeId>, upto: int, id: int) -> bool {
    exists|j: int| 0 <= j < upto && j < order.len() && (#[trigger] order[j]).0 == id
}

/// The flags of all nodes after the visibility pass.
pub open spec fn final_flags(nodes: Seq<Node>, caches: Seq<CacheState>) -> Seq<bool> {
    Seq::new(nodes.len(), |id: int| final_flag(nodes, caches, id))
}

impl QuadTree {
    /// For each node, whether its priority is at least the cutoff.
    fn urgent(&self) -> (flags: Vec<bool>)
        ensures
            flags@ == above_cutoff(self.nodes@),
    {
        let mut flags: Vec<bool> = Vec::new();
        let mut id: usize = 0;
        while id < self.nodes.len()
            invariant
                id <= self.nodes.len(),
                flags@.len() == id,
                forall|v: int| 0 <= v < id ==> flags@[v] == above_cutoff(self.nodes@)[v],
            decreases self.nodes.len() - id,
        {
            flags.push(self.nodes[id].priority.at_least(Priority::cutoff()));
            id += 1;
        }
        assert(flags@ =~= above_cutoff(self.nodes@));
        flags
    }

    /// Whether every layer that the node needs holds the node's tile,
    /// filled.
    fn is_resident(&self, id: usize) -> (r: bool)
        requires
            self@.well_formed(),
            id < self.nodes@.len(),
        ensures
            r == resident(self@.nodes, self@.caches, id as int),
    {
        let mut layer: usize = 0;
        while layer < 3
            invariant
                layer <= 3,
                self@.well_formed(),
                id < self.nodes@.len(),
                forall|l: int|
                    0 <= l < layer ==> (#[trigger] self.nodes@[id as int].tile_indices[l] is Some
                        ==> self@.caches[l].ready(id as u64)),
            decreases 3 - layer,
        {
            assert(self@.caches[layer as int].well_formed());
            if self.nodes[id].tile_indices[layer].is_some() && !self.tile_cache_layers[layer].contains(
                id as u64,
            ) {
                return false;
            }
            layer += 1;
        }
        true
    }

    /// Whether the node has four children that are all flagged.
    fn is_covered(&self, flags: &Vec<bool>, id: usize) -> (r: bool)
        requires
            arena_ok(self.nodes@),
            flags@.len() == self.nodes@.len(),
            id < self.nodes@.len(),
        ensures
            r == covered(self.nodes@, flags@, id as int),
    {
        let mut i: usize = 0;
        while i < 4
            invariant
                i <= 4,
                arena_ok(self.nodes@),
                flags@.len() == self.nodes@.len(),
                id < self.nodes@.len(),
                forall|j: int|
                    0 <= j < i ==> (#[trigger] self.nodes@[id as int].children[j] matches Some(
                        child,
                    ) && flags@[child.0 as int]),
            decreases 4 - i,
        {
            match self.nodes[id].children[i] {
                Some(child) => {
                    assert(self.nodes@[id as int].children[i as int] matches Some(c) ==> c.0
                        < self.nodes@.len());
                    if !flags[child.0 as usize] {
                        return false;
                    }
                },
                None => {
                    return false;
                },
            }
            i += 1;
        }
        true
    }

    /// The cache pass. A breadth-first walk from the root, which descends
    /// where the priority is at least the cutoff, demands for every visited
    /// node of such priority the tiles that it needs and that are not
    /// resident. Then every cache serves its demands. Returns the fills that
    /// have to begin, each with the number of its layer, the layers in their
    /// order.
    pub fn update_cache(&mut self) -> (fills: Vec<(usize, Fill)>)
        requires
            old(self)@.well_formed(),
        ensures
            final(self)@.nodes == old(self)@.nodes,
            final(self)@.visible_nodes == old(self)@.visible_nodes,
            final(self)@.caches.len() == 3,
            forall|layer: int|
                0 <= layer < 3 ==> #[trigger] final(self)@.caches[layer] == after_cache_pass(
                    old(self)@.nodes,
                    old(self)@.caches[layer],
                    layer,
                ),
            fills@ == tagged(0, fills_of_pass(old(self)@.nodes, old(self)@.caches[0], 0)) + tagged(
                1,
                fills_of_pass(old(self)@.nodes, old(self)@.caches[1], 1),
            ) + tagged(2, fills_of_pass(old(self)@.nodes, old(self)@.caches[2], 2)),
            final(self)@.well_formed(),
    {
        let descend = self.urgent();
        let order = breadth_first(&self.nodes, &descend);
        let ghost nodes = self.nodes@;
        let ghost start = self@.caches;
        let mut k: usize = 0;
        assert(order@.take(0) =~= Seq::<NodeId>::empty());
        while k < order.len()
            invariant
                k <= order@.len(),
                self.nodes@ == nodes,
                self.visible_nodes == old(self).visible_nodes,
                arena_ok(nodes),
                descend@ == above_cutoff(nodes),
                start.len() == 3,
                forall|l: int| 0 <= l < 3 ==> (#[trigger] start[l]).well_formed(),
                forall|j: int| 0 <= j < order@.len() ==> (#[trigger] order@[j]).0 < nodes.len(),
                forall|l: int|
                    0 <= l < 3 ==> (#[trigger] self.tile_cache_layers[l])@ == after_demands(
                        nodes,
                        start[l],
                        l,
                        order@.take(k as int),
                    ),
            decreases order@.len() - k,
        {
            let id = order[k].0 as usize;
            let ghost upto = order@.take(k + 1);
            assert(upto.drop_last() =~= order@.take(k as int));
            assert(upto.last() == order@[k as int]);
            let mut layer: usize = 0;
            while layer < 3
                invariant
                    layer <= 3,
                    k < order@.len(),
                    id == order@[k as int].0,
                    id < nodes.len(),
                    upto == order@.take(k + 1),
                    upto.drop_last() == order@.take(k as int),
                    upto.last() == order@[k as int],
                    self.nodes@ == nodes,
                    self.visible_nodes == old(self).visible_nodes,
                    descend@ == above_cutoff(nodes),
                    start.len() == 3,
                    forall|l: int| 0 <= l < 3 ==> (#[trigger] start[l]).well_formed(),
                    forall|l: int|
                        0 <= l < layer ==> (#[trigger] self.tile_cache_layers[l])@ == after_demands(
                            nodes,
                            start[l],
                            l,
                            upto,
                        ),
                    forall|l: int|
                        layer <= l < 3 ==> (#[trigger] self.tile_cache_layers[l])@
                            == after_demands(nodes, start[l], l, order@.take(k as int)),
                decreases 3 - layer,
            {
                proof {
                    lemma_after_demands(nodes, start[layer as int], layer as int, order@.take(k as int));
                }
                let ghost before = self.tile_cache_layers;
                if descend[id] && self.nodes[id].tile_indices[layer].is_some()
                    && !self.tile_cache_layers[layer].contains(id as u64) {
                    let priority = self.nodes[id].priority;
                    self.tile_cache_layers[layer].add_missing(priority, id as u64);
                }
                assert forall|l: int| layer + 1 <= l < 3 implies (
                #[trigger] self.tile_cache_layers[l])@ == after_demands(
                    nodes,
                    start[l],
                    l,
                    order@.take(k as int),
                ) by {
                    assert(self.tile_cache_layers[l] == before[l]);
                }
                assert forall|l: int| 0 <= l < layer + 1 implies (
                #[trigger] self.tile_cache_layers[l])@ == after_demands(nodes, start[l], l, upto) by {
                    if l < layer {
                        assert(self.tile_cache_layers[l] == before[l]);
                    }
                }
                layer += 1;
            }
            k += 1;
        }
        assert(order@.take(k as int) =~= order@);
        let ghost demanded = self.tile_cache_layers;
        let mut fills: Vec<(usize, Fill)> = Vec::new();
        let mut layer: usize = 0;
        assert(fills@ =~= Seq::<(usize, Fill)>::empty());
        while layer < 3
            invariant
                layer <= 3,
                self.nodes@ == nodes,
                self.visible_nodes == old(self).visible_nodes,
                start.len() == 3,
                forall|l: int| 0 <= l < 3 ==> (#[trigger] start[l]).well_formed(),
                forall|l: int|
                    0 <= l < 3 ==> (#[trigger] demanded[l])@ == after_demands(
                        nodes,
                        start[l],
                        l,
                        order@,
                    ),
                order@ == visit_order(nodes, above_cutoff(nodes)),
                forall|l: int|
                    0 <= l < layer ==> (#[trigger] self.tile_cache_layers[l])@ == after_cache_pass(
                        nodes,
                        start[l],
                        l,
                    ),
                forall|l: int| layer <= l < 3 ==> #[trigger] self.tile_cache_layers[l] == demanded[l],
                fills@ == (if layer >= 1 {
                    tagged(0, fills_of_pass(nodes, start[0], 0))
                } else {
                    Seq::<(usize, Fill)>::empty()
                }) + (if layer >= 2 {
                    tagged(1, fills_of_pass(nodes, start[1], 1))
                } else {
                    Seq::<(usize, Fill)>::empty()
                }) + (if layer >= 3 {
                    tagged(2, fills_of_pass(nodes, start[2], 2))
                } else {
                    Seq::<(usize, Fill)>::empty()
                }),
            decreases 3 - layer,
        {
            proof {
                lemma_after_demands(nodes, start[layer as int], layer as int, order@);
                assert(self.tile_cache_layers[layer as int] == demanded[layer as int]);
            }
            let ghost before = self.tile_cache_layers;
            let ghost earlier = fills@;
            let started = self.tile_cache_layers[layer].load_missing();
            assert forall|l: int| layer + 1 <= l < 3 implies #[trigger] self.tile_cache_layers[l]
                == demanded[l] by {
                assert(self.tile_cache_layers[l] == before[l]);
            }
            assert forall|l: int| 0 <= l < layer + 1 implies (
            #[trigger] self.tile_cache_layers[l])@ == after_cache_pass(nodes, start[l], l) by {
                if l < layer {
                    assert(self.tile_cache_layers[l] == before[l]);
                }
            }
            let mut j: usize = 0;
            while j < started.len()
                invariant
                    j <= started@.len(),
                    fills@ == earlier + tagged(layer, started@.take(j as int)),
                decreases started@.len() - j,
            {
                fills.push((layer, started[j]));
                assert(fills@ =~= earlier + tagged(layer, started@.take(j + 1)));
                j += 1;
            }
            assert(started@.take(j as int) =~= started@);
            assert(started@ == fills_of_pass(nodes, start[layer as int], layer as int));
            layer += 1;
        }
        proof {
            assert forall|l: int| 0 <= l < 3 implies #[trigger] self@.caches[l] == after_cache_pass(
                old(self)@.nodes,
                old(self)@.caches[l],
                l,
            ) by {
                assert(self.tile_cache_layers[l]@ == after_cache_pass(nodes, start[l], l));
            }
            assert forall|l: int| 0 <= l < 3 implies (#[trigger] self@.caches[l]).well_formed() by {
                lemma_after_demands(nodes, start[l], l, order@);
                assert(self.tile_cache_layers[l]@ == after_cache_pass(nodes, start[l], l));
                let d = after_demands(nodes, start[l], l, order@);
                crate::tile_cache::lemma_inserted_all_well_formed(d, d.served());
            }
        }
        fills
    }

    /// The visibility pass. First, a walk that descends where the priority
    /// is at least the cutoff flags every visited node whose own priority
    /// is at least the cutoff and whose layers are all resident. Then a walk
    /// that descends at flagged nodes takes the flag from every flagged node
    /// whose four children are all flagged, and puts the nodes that keep
    /// their flag on the render list, in the order of the visits.
    pub fn update_visibility(&mut self)
        requires
            old(self)@.well_formed(),
        ensures
            final(self)@ == (QuadTreeState {
                nodes: with_flags(
                    old(self)@.nodes,
                    final_flags(old(self)@.nodes, old(self)@.caches),
                ),
                visible_nodes: render_list(old(self)@.nodes, old(self)@.caches),
                caches: old(self)@.caches,
            }),
            forall|id: int|
                0 <= id < old(self)@.nodes.len() ==> (final(self)@.visible_nodes.contains(
                    NodeId(id as u32),
                ) <==> #[trigger] rendered(old(self)@.nodes, old(self)@.caches, id)),
            forall|a: int, b: int|
                0 <= a < b < final(self)@.visible_nodes.len() ==> final(self)@.visible_nodes[a]
                    != final(self)@.visible_nodes[b],
            final(self)@.well_formed(),
    {
        let n = self.nodes.len();
        let ghost nodes = self.nodes@;
        let ghost caches = self@.caches;
        let descend = self.urgent();
        let order = breadth_first(&self.nodes, &descend);
        let mut flags: Vec<bool> = Vec::new();
        let mut i: usize = 0;
        while i < n
            invariant
                i <= n,
                flags@.len() == i,
                forall|v: int| 0 <= v < i ==> !flags@[v],
            decreases n - i,
        {
            flags.push(false);
            i += 1;
        }
        let mut k: usize = 0;
        while k < order.len()
            invariant
                k <= order@.len(),
                n == nodes.len(),
                *self == *old(self),
                self@.well_formed(),
                nodes == self.nodes@,
                caches == self@.caches,
                descend@ == above_cutoff(nodes),
                flags@.len() == n,
                forall|j: int| 0 <= j < order@.len() ==> (#[trigger] order@[j]).0 < n,
                forall|a: int, b: int| 0 <= a < b < order@.len() ==> order@[a] != order@[b],
                forall|v: int|
                    0 <= v < n ==> #[trigger] flags@[v] == (visited(order@, k as int, v)
                        && descend@[v] && resident(nodes, caches, v)),
            decreases order@.len() - k,
        {
            let id = order[k].0 as usize;
            let flag = descend[id] && self.is_resident(id);
            let ghost before = flags@;
            flags.set(id, flag);
            proof {
                assert forall|v: int| 0 <= v < n implies #[trigger] flags@[v] == (visited(
                    order@,
                    k + 1,
                    v,
                ) && descend@[v] && resident(nodes, caches, v)) by {
                    if v == id {
                        assert(order@[k as int].0 == id);
                    } else {
                        assert(flags@[v] == before[v]);
                        if visited(order@, k + 1, v) {
                            let j = choose|j: int|
                                0 <= j < k + 1 && j < order@.len() && (#[trigger] order@[j]).0 == v;
                            assert(j < k);
                        }
                        if visited(order@, k as int, v) {
                            let j = choose|j: int|
                                0 <= j < k && j < order@.len() && (#[trigger] order@[j]).0 == v;
                            assert(0 <= j < k + 1);
                        }
                    }
                }
            }
            k += 1;
        }
        proof {
            assert forall|v: int| 0 <= v < n implies flags@[v] == tentative(nodes, caches)[v] by {
                let urgent = above_cutoff(nodes);
                if visited(order@, order@.len() as int, v) {
                    let j = choose|j: int|
                        0 <= j < order@.len() && j < order@.len() && (#[trigger] order@[j]).0 == v;
                    assert(reached(nodes, urgent, order@[j].0 as int));
                }
                if reached(nodes, urgent, v) {
                    assert(order@.contains(NodeId(v as u32)));
                    let j = order@.index_of(NodeId(v as u32));
                    assert(order@[j].0 == v);
                }
            }
            assert(flags@ =~= tentative(nodes, caches));
        }
        let walk = breadth_first(&self.nodes, &flags);
        let mut shown: Vec<bool> = Vec::new();
        let mut i: usize = 0;
        while i < n
            invariant
                i <= n,
                flags@.len() == n,
                shown@.len() == i,
                forall|v: int| 0 <= v < i ==> shown@[v] == flags@[v],
            decreases n - i,
        {
            shown.push(flags[i]);
            i += 1;
        }
        let mut list: Vec<NodeId> = Vec::new();
        let mut k: usize = 0;
        assert(walk@.take(0) =~= Seq::<NodeId>::empty());
        while k < walk.len()
            invariant
                k <= walk@.len(),
                n == nodes.len(),
                *self == *old(self),
                nodes == self.nodes@,
                arena_ok(nodes),
                flags@.len() == n,
                shown@.len() == n,
                forall|j: int| 0 <= j < walk@.len() ==> (#[trigger] walk@[j]).0 < n,
                forall|a: int, b: int| 0 <= a < b < walk@.len() ==> walk@[a] != walk@[b],
                list@ == uncovered(nodes, flags@, walk@.take(k as int)),
                forall|v: int|
                    0 <= v < n ==> #[trigger] shown@[v] == (if visited(walk@, k as int, v)
                        && flags@[v] {
                        !covered(nodes, flags@, v)
                    } else {
                        flags@[v]
                    }),
            decreases walk@.len() - k,
        {
            let id = walk[k].0 as usize;
            let ghost before = shown@;
            let ghost upto = walk@.take(k + 1);
            assert(upto.drop_last() =~= walk@.take(k as int));
            assert(upto.last() == walk@[k as int]);
            if flags[id] {
                let keep = !self.is_covered(&flags, id);
                shown.set(id, keep);
                if keep {
                    list.push(walk[k]);
                }
            }
            proof {
                assert forall|v: int| 0 <= v < n implies #[trigger] shown@[v] == (if visited(
                    walk@,
                    k + 1,
                    v,
                ) && flags@[v] {
                    !covered(nodes, flags@, v)
                } else {
                    flags@[v]
                }) by {
                    if v == id {
                        assert(walk@[k as int].0 == id);
                    } else {
                        assert(shown@[v] == before[v]);
                        if visited(walk@, k + 1, v) {
                            let j = choose|j: int|
                                0 <= j < k + 1 && j < walk@.len() && (#[trigger] walk@[j]).0 == v;
                            assert(j < k);
                        }
                        if visited(walk@, k as int, v) {
                            let j = choose|j: int|
                                0 <= j < k && j < walk@.len() && (#[trigger] walk@[j]).0 == v;
                            assert(0 <= j < k + 1);
                        }
                    }
                }
            }
            k += 1;
        }
        proof {
            assert(walk@.take(k as int) =~= walk@);
            assert forall|v: int| 0 <= v < n implies shown@[v] == final_flags(nodes, caches)[v] by {
                if visited(walk@, walk@.len() as int, v) {
                    let j = choose|j: int|
                        0 <= j < walk@.len() && j < walk@.len() && (#[trigger] walk@[j]).0 == v;
                    assert(reached(nodes, flags@, walk@[j].0 as int));
                }
                if reached(nodes, flags@, v) {
                    assert(walk@.contains(NodeId(v as u32)));
                    let j = walk@.index_of(NodeId(v as u32));
                    assert(walk@[j].0 == v);
                }
            }
            assert(shown@ =~= final_flags(nodes, caches));
            lemma_uncovered(nodes, flags@, walk@);
            assert forall|v: int| 0 <= v < n implies (list@.contains(NodeId(v as u32))
                <==> #[trigger] rendered(nodes, caches, v)) by {
                if walk@.contains(NodeId(v as u32)) {
                    let j = walk@.index_of(NodeId(v as u32));
                    assert(reached(nodes, flags@, walk@[j].0 as int));
                }
            }
        }
        let mut id: usize = 0;
        while id < n
            invariant
                id <= n,
                n == nodes.len(),
                shown@.len() == n,
                self.nodes@.len() == n,
                self.tile_cache_layers == old(self).tile_cache_layers,
                forall|v: int|
                    0 <= v < id ==> #[trigger] self.nodes@[v] == (Node {
                        visible: shown@[v],
                        ..nodes[v]
                    }),
                forall|v: int| id <= v < n ==> #[trigger] self.nodes@[v] == nodes[v],
            decreases n - id,
        {
            let node = self.nodes[id];
            self.nodes.set(id, Node { visible: shown[id], ..node });
            id += 1;
        }
        self.visible_nodes = list;
        proof {
            assert(self@.nodes =~= with_flags(nodes, final_flags(nodes, caches)));
            assert(self@.caches =~= caches);
            assert forall|v: int, i: int|
                0 <= v < self@.nodes.len() && 0 <= i < 4 implies (
            #[trigger] self@.nodes[v].children[i] matches Some(child) ==> child.0
                < self@.nodes.len()) by {
                assert(nodes[v].children[i] matches Some(child) ==> child.0 < nodes.len());
            }
            assert forall|l: int| 0 <= l < 3 implies (#[trigger] self@.caches[l]).well_formed() by {
                assert(old(self)@.caches[l].well_formed());
            }
        }
    }

    /// One frame: the priority pass, the cache pass and the visibility pass.
    /// Returns the fills that have to begin.
    pub fn update(&mut self, priorities: &Vec<Priority>) -> (fills: Vec<(usize, Fill)>)
        requires
            old(self)@.well_formed(),
            priorities@.len() == old(self)@.nodes.len(),
        ensures
            final(self)@.well_formed(),
            ({
                let nodes = with_priorities(old(self)@.nodes, priorities@);
                let ranged = with_ranges(old(self)@.caches, priorities@);
                let caches = Seq::new(
                    3,
                    |layer: int| after_cache_pass(nodes, ranged[layer], layer),
                );
                &&& final(self)@.nodes == with_flags(nodes, final_flags(nodes, caches))
                &&& final(self)@.visible_nodes == render_list(nodes, caches)
                &&& final(self)@.caches == caches
                &&& fills@ == tagged(0, fills_of_pass(nodes, ranged[0], 0)) + tagged(
                    1,
                    fills_of_pass(nodes, ranged[1], 1),
                ) + tagged(2, fills_of_pass(nodes, ranged[2], 2))
            }),
    {
        self.update_priorities(priorities);
        let fills = self.update_cache();
        proof {
            let nodes = with_priorities(old(self)@.nodes, priorities@);
            let ranged = with_ranges(old(self)@.caches, priorities@);
            let caches = Seq::new(3, |layer: int| after_cache_pass(nodes, ranged[layer], layer));
            assert(self@.caches =~= caches);
        }
        self.update_visibility();
        fills
    }
}

/// The flagged and uncovered nodes of an order without repetitions are
/// just those, each once.
pub proof fn lemma_uncovered(nodes: Seq<Node>, flags: Seq<bool>, order: Seq<NodeId>)
    requires
        forall|a: int, b: int| 0 <= a < b < order.len() ==> order[a] != order[b],
    ensures
        forall|id: NodeId|
            #[trigger] uncovered(nodes, flags, order).contains(id) <==> order.contains(id)
                && flags[id.0 as int] && !covered(nodes, flags, id.0 as int),
        forall|a: int, b: int|
            0 <= a < b < uncovered(nodes, flags, order).len() ==> uncovered(nodes, flags, order)[a]
                != uncovered(nodes, flags, order)[b],
    decreases order.len(),
{
    let list = uncovered(nodes, flags, order);
    if order.len() == 0 {
    } else {
        let shorter = order.drop_last();
        let earlier = uncovered(nodes, flags, shorter);
        lemma_uncovered(nodes, flags, shorter);
        let last = order.last();
        let keep = flags[last.0 as int] && !covered(nodes, flags, last.0 as int);
        assert forall|id: NodeId| #[trigger] list.contains(id) <==> order.contains(id)
            && flags[id.0 as int] && !covered(nodes, flags, id.0 as int) by {
            if list.contains(id) {
                let j = list.index_of(id);
                if keep && j == list.len() - 1 {
                    assert(order[order.len() - 1] == id);
                } else {
                    assert(earlier[j] == id);
                    assert(earlier.contains(id));
                    let k = shorter.index_of(id);
                    assert(order[k] == id);
                }
            }
            if order.contains(id) && flags[id.0 as int] && !covered(nodes, flags, id.0 as int) {
                let k = order.index_of(id);
                if k == order.len() - 1 {
                    assert(list[list.len() - 1] == id);
                } else {
                    assert(shorter[k] == id);
                    assert(earlier.contains(id));
                    let j = earlier.index_of(id);
                    assert(list[j] == id);
                }
            }
        }
        assert forall|a: int, b: int| 0 <= a < b < list.len() implies list[a] != list[b] by {
            if keep && b == list.len() - 1 && list[a] == list[b] {
                assert(earlier[a] == last);
                assert(earlier.contains(last));
                let k = shorter.index_of(last);
                assert(order[k] == order[order.len() - 1]);
            }
        }
    }
}

/// A walk that comes to a node at which it descends comes to the children
/// of the node.
pub proof fn lemma_reaches_child(nodes: Seq<Node>, descend: Seq<bool>, parent: int, slot: int)
    requires
        arena_ok(nodes),
        0 <= parent < nodes.len(),
        0 <= slot < 4,
        reached(nodes, descend, parent),
        descend[parent],
        nodes[parent].children[slot] is Some,
    ensures
        reached(nodes, descend, nodes[parent].children[slot].unwrap().0 as int),
{
    let child = nodes[parent].children[slot].unwrap().0 as int;
    let path = choose|path: Seq<int>| is_path(nodes, descend, path) && #[trigger] path.last() == parent;
    let longer = path.push(child);
    assert(is_child(nodes, parent, child)) by {
        assert(nodes[parent].children[slot] == Some(NodeId(child as u32)));
    }
    assert(is_path(nodes, descend, longer)) by {
        assert forall|k: int| 0 <= k < longer.len() - 1 implies descend[#[trigger] longer[k]]
            && is_child(nodes, longer[k], longer[k + 1]) by {
            if k < path.len() - 1 {
                assert(longer[k] == path[k] && longer[k + 1] == path[k + 1]);
            }
        }
        assert forall|k: int| 0 <= k < longer.len() implies 0 <= #[trigger] longer[k]
            < nodes.len() by {
            if k < path.len() {
                assert(longer[k] == path[k]);
            } else {
                assert(nodes[parent].children[slot] matches Some(c) ==> c.0 < nodes.len());
            }
        }
    }
    assert(longer.last() == child);
}

/// The finest representation wins: a tentatively visible node that the
/// visibility walk comes to, with four children that are all tentatively
/// visible, ends up invisible and is not rendered; each of its children that
/// is not covered in turn ends up visible and is rendered.
pub proof fn lemma_children_replace_parent(
    nodes: Seq<Node>,
    caches: Seq<CacheState>,
    parent: int,
    slot: int,
)
    requires
        arena_ok(nodes),
        0 <= parent < nodes.len(),
        0 <= slot < 4,
        tentative(nodes, caches)[parent],
        reached(nodes, tentative(nodes, caches), parent),
        covered(nodes, tentative(nodes, caches), parent),
    ensures
        !final_flag(nodes, caches, parent),
        !rendered(nodes, caches, parent),
        nodes[parent].children[slot] is Some,
        ({
            let child = nodes[parent].children[slot].unwrap().0 as int;
            !covered(nodes, tentative(nodes, caches), child) ==> final_flag(nodes, caches, child)
                && rendered(nodes, caches, child)
        }),
{
    let flags = tentative(nodes, caches);
    assert(nodes[parent].children[slot] matches Some(child) && flags[child.0 as int]);
    lemma_reaches_child(nodes, flags, parent, slot);
}

/// No gaps: a tentatively visible node that the visibility walk comes to,
/// and whose children do not all stand in for it, stays visible and is
/// rendered.
pub proof fn lemma_uncovered_stays_visible(nodes: Seq<Node>, caches: Seq<CacheState>, id: int)
    requires
        0 <= id < nodes.len(),
        tentative(nodes, caches)[id],
        reached(nodes, tentative(nodes, caches), id),
        !covered(nodes, tentative(nodes, caches), id),
    ensures
        final_flag(nodes, caches, id),
        rendered(nodes, caches, id),
{
}

} // verus!
