//! The layer graph: the layers of a dataset, the order in which they can be
//! generated, and the identity of each.

use crate::digest::sha256_digest;
use crate::layer::{
    dataset_encoding, ids_of, layer_encoding, Dataset, DatasetDesc, Layer, LayerDesc, LayerId,
    LayerType, TextureFormat,
};
use crate::tile_cache::{CacheState, TileCache};
use crate::topo::{decodes_location_code, location_code_decodes, topo_order, topo_visit};
use vstd::prelude::*;

verus! {

/// What a generated layer holds.
#[derive(Copy, Clone, Eq, PartialEq, Hash, Debug, Structural)]
pub enum OutputKind {
    HeightMap,
    NormalMap,
    AlbedoMap,
    /// Data that only other layers read.
    Intermediate,
}

/// One layer of a graph description.
pub enum Node {
    /// A layer that comes from an outside source.
    Dataset {
        url: String,
        resolution: u32,
        /// The code of the file format of the source.
        file_format: u32,
        bib: String,
        license: String,
        /// The code of the projection of the source.
        projection: u32,
        cache_size: u16,
    },
    /// A layer that a transform computes from other layers.
    Generated {
        /// The inputs of the transform: the name of each input, and the name
        /// of the layer that it reads.
        inputs: Vec<(String, String)>,
        resolution: u32,
        corner_registration: bool,
        format: TextureFormat,
        /// The name of the transform among the description's shaders.
        shader: String,
        kind: OutputKind,
        cache_size: u16,
    },
}

/// The description of a layer graph.
pub struct GraphFile {
    /// The location code of the dataset's center.
    pub center: String,
    /// The side length of the dataset's grid, in sectors.
    pub side_length_sectors: u32,
    /// The transforms: the name of each, and its source.
    pub shaders: Vec<(String, String)>,
    /// The layers: the name of each, and what it is.
    pub nodes: Vec<(String, Node)>,
}

/// Why a description gives no graph.
#[derive(Copy, Clone, Eq, PartialEq, Debug, Structural)]
pub enum GraphError {
    /// The center is not a location code that decodes.
    InvalidCenter,
    /// The node has the name of an earlier node.
    DuplicateNode { node: usize },
    /// The input of the node names a layer that the description lacks.
    UnknownParent { node: usize, input: usize },
    /// The description has more nodes or inputs than a graph can hold.
    TooLarge,
    /// The layers depend on each other in a circle.
    Cycle,
    /// A sector of the node takes more bytes than 32 bits can count.
    SectorTooLarge { node: usize },
    /// The node names a transform that the description lacks.
    MissingShader { node: usize },
    /// The backing store of the node takes more bytes than 64 bits can count.
    BackingTooLarge { node: usize },
}

/// Whether `at` is the first entry of `entries` with the name `name`.
pub open spec fn is_first<T>(entries: Seq<(String, T)>, name: Seq<char>, at: int) -> bool {
    &&& 0 <= at < entries.len()
    &&& entries[at].0@ == name
    &&& forall|j: int| 0 <= j < at ==> (#[trigger] entries[j]).0@ != name
}

/// Whether an entry of `entries` has the name `name`.
pub open spec fn has_name<T>(entries: Seq<(String, T)>, name: Seq<char>) -> bool {
    exists|at: int| is_first(entries, name, at)
}

/// The place of the first entry of `entries` with the name `name`.
pub open spec fn place_of<T>(entries: Seq<(String, T)>, name: Seq<char>) -> int {
    choose|at: int| is_first(entries, name, at)
}

/// An entry with a given name is the first such entry, or comes after it.
pub proof fn lemma_named_has_first<T>(entries: Seq<(String, T)>, name: Seq<char>, at: int)
    requires
        0 <= at < entries.len(),
        entries[at].0@ == name,
    ensures
        has_name(entries, name),
        place_of(entries, name) <= at,
        is_first(entries, name, place_of(entries, name)),
    decreases at,
{
    if forall|j: int| 0 <= j < at ==> (#[trigger] entries[j]).0@ != name {
        assert(is_first(entries, name, at));
    } else {
        let j = choose|j: int| 0 <= j < at && (#[trigger] entries[j]).0@ == name;
        lemma_named_has_first(entries, name, j);
    }
    let first = place_of(entries, name);
    if first > at {
        assert(entries[at].0@ != name);
    }
}

/// The place of the first entry with the given name, if there is one.
pub fn find<T>(entries: &Vec<(String, T)>, name: &String) -> (place: Option<usize>)
    ensures
        place is Some <==> has_name(entries@, name@),
        place is Some ==> place.unwrap() == place_of(entries@, name@),
        place is Some ==> is_first(entries@, name@, place.unwrap() as int),
{
    let mut i: usize = 0;
    while i < entries.len()
        invariant
            i <= entries.len(),
            forall|j: int| 0 <= j < i ==> (#[trigger] entries@[j]).0@ != name@,
        decreases entries.len() - i,
    {
        if entries[i].0 == *name {
            proof {
                lemma_named_has_first(entries@, name@, i as int);
                let first = place_of(entries@, name@);
                if first < i {
                    assert(entries@[first].0@ != name@);
                }
            }
            return Some(i);
        }
        i += 1;
    }
    proof {
        if has_name(entries@, name@) {
            let first = place_of(entries@, name@);
            assert(entries@[first].0@ != name@);
        }
    }
    None
}

/// The parents of each node as plain sequences.
pub open spec fn view_links(links: Seq<Vec<usize>>) -> Seq<Seq<usize>> {
    links.map_values(|parents: Vec<usize>| parents@)
}

/// Whether the nodes of `order` are all the nodes of a graph, each once,
/// every node behind all of its parents. `links` holds the parents of each
/// node.
pub open spec fn is_topological(order: Seq<usize>, links: Seq<Seq<usize>>) -> bool {
    &&& order.len() == links.len()
    &&& forall|k: int| 0 <= k < order.len() ==> (#[trigger] order[k]) < links.len()
    &&& forall|a: int, b: int| 0 <= a < b < order.len() ==> order[a] != order[b]
    &&& forall|k: int, j: int|
        0 <= k < order.len() && 0 <= j < links[order[k] as int].len() ==> comes_before(
            order,
            #[trigger] links[order[k] as int][j],
            k,
        )
    &&& forall|node: int|
        0 <= node < links.len() ==> #[trigger] comes_before(
            order,
            node as usize,
            order.len() as int,
        )
}

/// Whether `node` stands in `order` at a place before `place`.
pub open spec fn comes_before(order: Seq<usize>, node: usize, place: int) -> bool {
    exists|m: int| 0 <= m < place && m < order.len() && order[m] == node
}

/// Whether every parent in `links` is a node of the graph.
pub open spec fn links_in_range(links: Seq<Seq<usize>>) -> bool {
    forall|node: int, j: int|
        0 <= node < links.len() && 0 <= j < links[node].len() ==> (#[trigger] links[node][j])
            < links.len()
}

/// Tells whether `order` is an order of all the nodes in which every node
/// comes behind its parents.
pub fn check_order(order: &Vec<usize>, links: &Vec<Vec<usize>>) -> (valid: bool)
    requires
        links_in_range(view_links(links@)),
    ensures
        valid == is_topological(order@, view_links(links@)),
{
    let n = links.len();
    let ghost parents_of = view_links(links@);
    if order.len() != n {
        return false;
    }
    let mut placed: Vec<bool> = Vec::new();
    let mut i: usize = 0;
    while i < n
        invariant
            i <= n,
            placed.len() == i,
            forall|v: int| 0 <= v < i ==> !placed[v],
        decreases n - i,
    {
        placed.push(false);
        i += 1;
    }
    let mut k: usize = 0;
    while k < n
        invariant
            k <= n,
            n == links.len(),
            order.len() == n,
            placed.len() == n,
            parents_of == view_links(links@),
            links_in_range(parents_of),
            forall|v: int|
                0 <= v < n ==> (#[trigger] placed[v] <==> comes_before(
                    order@,
                    v as usize,
                    k as int,
                )),
            forall|m: int| 0 <= m < k ==> (#[trigger] order[m]) < n,
            forall|a: int, b: int| 0 <= a < b < k ==> order[a] != order[b],
            forall|m: int, j: int|
                0 <= m < k && 0 <= j < parents_of[order[m] as int].len() ==> comes_before(
                    order@,
                    #[trigger] parents_of[order[m] as int][j],
                    m,
                ),
        decreases n - k,
    {
        let node = order[k];
        if node >= n {
            return false;
        }
        if placed[node] {
            proof {
                let m = choose|m: int| 0 <= m < k && m < order.len() && order[m] == node;
                assert(order[m] == order[k as int]);
            }
            return false;
        }
        let parents = &links[node];
        assert(parents@ == parents_of[node as int]);
        let mut j: usize = 0;
        while j < parents.len()
            invariant
                j <= parents.len(),
                parents_of == view_links(links@),
                parents@ == parents_of[node as int],
                node < n,
                k < n,
                order.len() == n,
                order[k as int] == node,
                n == links.len(),
                placed.len() == n,
                parents_of.len() == n,
                links_in_range(parents_of),
                forall|v: int|
                    0 <= v < n ==> (#[trigger] placed[v] <==> comes_before(
                        order@,
                        v as usize,
                        k as int,
                    )),
                forall|i: int| 0 <= i < j ==> comes_before(order@, #[trigger] parents@[i], k as int),
            decreases parents.len() - j,
        {
            let parent = parents[j];
            assert(parents_of[node as int][j as int] < parents_of.len());
            if !placed[parent] {
                assert(!comes_before(
                    order@,
                    parents_of[order[k as int] as int][j as int],
                    k as int,
                ));
                return false;
            }
            j += 1;
        }
        placed.set(node, true);
        proof {
            assert forall|v: int| 0 <= v < n implies (#[trigger] placed[v] <==> comes_before(
                order@,
                v as usize,
                k + 1,
            )) by {
                if v == node {
                    assert(order[k as int] == node);
                } else {
                    if comes_before(order@, v as usize, k + 1) {
                        let m = choose|m: int| 0 <= m < k + 1 && m < order.len() && order[m] == v;
                        assert(m < k);
                    }
                    if comes_before(order@, v as usize, k as int) {
                        let m = choose|m: int| 0 <= m < k && m < order.len() && order[m] == v;
                        assert(0 <= m < k + 1 && order[m] == v);
                    }
                }
            }
            assert forall|a: int, b: int| 0 <= a < b < k + 1 implies order[a] != order[b] by {
                if b == k && order[a] == order[b] {
                    assert(comes_before(order@, node, k as int));
                }
            }
        }
        k += 1;
    }
    let mut v: usize = 0;
    while v < n
        invariant
            v <= n,
            placed.len() == n,
            order.len() == n,
            parents_of.len() == n,
            forall|u: int|
                0 <= u < n ==> (#[trigger] placed[u] <==> comes_before(
                    order@,
                    u as usize,
                    n as int,
                )),
            forall|u: int| 0 <= u < v ==> #[trigger] comes_before(order@, u as usize, n as int),
        decreases n - v,
    {
        if !placed[v] {
            assert(!comes_before(order@, v as usize, order@.len() as int));
            return false;
        }
        v += 1;
    }
    true
}

/// The edges of the graph, each from a parent to its child: the links of
/// the nodes below `upto`, node by node, in the order of the inputs.
pub open spec fn edge_list(links: Seq<Seq<usize>>, upto: int) -> Seq<(usize, usize)>
    decreases upto,
{
    if upto <= 0 {
        Seq::empty()
    } else {
        edge_list(links, upto - 1) + links[upto - 1].map_values(
            |parent: usize| (parent, (upto - 1) as usize),
        )
    }
}

/// Every edge joins two nodes of the graph.
pub proof fn lemma_edges_in_range(links: Seq<Seq<usize>>, upto: int)
    requires
        links_in_range(links),
        0 <= upto <= links.len() <= usize::MAX,
    ensures
        forall|i: int|
            0 <= i < edge_list(links, upto).len() ==> (#[trigger] edge_list(links, upto)[i]).0
                < links.len() && edge_list(links, upto)[i].1 < links.len(),
    decreases upto,
{
    if upto > 0 {
        lemma_edges_in_range(links, upto - 1);
        let earlier = edge_list(links, upto - 1);
        assert forall|i: int| 0 <= i < edge_list(links, upto).len() implies (#[trigger] edge_list(
            links,
            upto,
        )[i]).0 < links.len() && edge_list(links, upto)[i].1 < links.len() by {
            if i >= earlier.len() {
                assert(links[upto - 1][i - earlier.len()] < links.len());
            }
        }
    }
}

impl GraphFile {
    /// The inputs of a node; a dataset has none.
    pub open spec fn inputs_of(&self, node: int) -> Seq<(String, String)> {
        match self.nodes@[node].1 {
            Node::Generated { inputs, .. } => inputs@,
            Node::Dataset { .. } => Seq::empty(),
        }
    }

    /// Whether the node has the name of an earlier node.
    pub open spec fn is_duplicate(&self, node: int) -> bool {
        exists|earlier: int| 0 <= earlier < node && (#[trigger] self.nodes@[earlier]).0@ == self.nodes@[node].0@
    }

    /// Whether the input of the node names a layer of the description.
    pub open spec fn parent_known(&self, node: int, input: int) -> bool {
        has_name(self.nodes@, self.inputs_of(node)[input].1@)
    }

    /// Whether every input before the given one names a layer of the
    /// description: every input of an earlier node, and every earlier input
    /// of the node itself.
    pub open spec fn parents_known_before(&self, node: int, input: int) -> bool {
        &&& forall|n: int, i: int|
            0 <= n < node && n < self.nodes@.len() && 0 <= i < self.inputs_of(n).len()
                ==> #[trigger] self.parent_known(n, i)
        &&& node < self.nodes@.len() ==> forall|i: int|
            0 <= i < input && i < self.inputs_of(node).len() ==> #[trigger] self.parent_known(
                node,
                i,
            )
    }

    /// Whether every input of every node names a layer of the description.
    pub open spec fn parents_known(&self) -> bool {
        forall|node: int, input: int|
            0 <= node < self.nodes@.len() && 0 <= input < self.inputs_of(node).len()
                ==> #[trigger] self.parent_known(node, input)
    }

    /// The parents of each node: for every input, in the order of the
    /// inputs, the place of the first layer with the name that it gives.
    pub open spec fn links(&self) -> Seq<Seq<usize>> {
        Seq::new(
            self.nodes@.len(),
            |node: int|
                Seq::new(
                    self.inputs_of(node).len(),
                    |input: int| place_of(self.nodes@, self.inputs_of(node)[input].1@) as usize,
                ),
        )
    }

    /// Every parent is a node of the description.
    pub proof fn lemma_links_in_range(&self)
        requires
            self.parents_known(),
        ensures
            links_in_range(self.links()),
    {
        assert forall|node: int, j: int|
            0 <= node < self.links().len() && 0 <= j < self.links()[node].len() implies (
        #[trigger] self.links()[node][j]) < self.links().len() by {
            assert(self.parent_known(node, j));
        }
    }

    /// The first node that has the name of an earlier node, if there is one.
    pub fn first_duplicate(&self) -> (node: Option<usize>)
        ensures
            match node {
                Some(node) => node < self.nodes@.len() && self.is_duplicate(node as int)
                    && forall|m: int| 0 <= m < node ==> !self.is_duplicate(m),
                None => forall|m: int| 0 <= m < self.nodes@.len() ==> !self.is_duplicate(m),
            },
    {
        let mut i: usize = 0;
        while i < self.nodes.len()
            invariant
                i <= self.nodes.len(),
                forall|m: int| 0 <= m < i ==> !self.is_duplicate(m),
            decreases self.nodes.len() - i,
        {
            let first = find(&self.nodes, &self.nodes[i].0);
            proof {
                lemma_named_has_first(self.nodes@, self.nodes@[i as int].0@, i as int);
            }
            if first.unwrap() != i {
                assert(self.nodes@[first.unwrap() as int].0@ == self.nodes@[i as int].0@);
                return Some(i);
            }
            assert(!self.is_duplicate(i as int)) by {
                if self.is_duplicate(i as int) {
                    let earlier = choose|earlier: int|
                        0 <= earlier < i && (#[trigger] self.nodes@[earlier]).0@
                            == self.nodes@[i as int].0@;
                    assert(self.nodes@[earlier].0@ != self.nodes@[i as int].0@);
                }
            }
            i += 1;
        }
        None
    }

    /// The parents of each node, by their places in the description; or the
    /// first input that names a layer which the description lacks.
    pub fn resolve(&self) -> (links: Result<Vec<Vec<usize>>, (usize, usize)>)
        ensures
            match links {
                Ok(links) => self.parents_known() && view_links(links@) == self.links(),
                Err((node, input)) => node < self.nodes@.len() && input < self.inputs_of(
                    node as int,
                ).len() && !self.parent_known(node as int, input as int)
                    && self.parents_known_before(node as int, input as int),
            },
    {
        let mut links: Vec<Vec<usize>> = Vec::new();
        let mut node: usize = 0;
        while node < self.nodes.len()
            invariant
                node <= self.nodes.len(),
                links.len() == node,
                self.parents_known_before(node as int, 0),
                forall|n: int| 0 <= n < node ==> (#[trigger] links[n])@ == self.links()[n],
            decreases self.nodes.len() - node,
        {
            let mut parents: Vec<usize> = Vec::new();
            match &self.nodes[node].1 {
                Node::Generated { inputs, .. } => {
                    let mut input: usize = 0;
                    while input < inputs.len()
                        invariant
                            input <= inputs.len(),
                            node < self.nodes.len(),
                            inputs@ == self.inputs_of(node as int),
                            parents.len() == input,
                            self.parents_known_before(node as int, input as int),
                            forall|j: int|
                                0 <= j < input ==> (#[trigger] parents[j]) == place_of(
                                    self.nodes@,
                                    inputs@[j].1@,
                                ),
                        decreases inputs.len() - input,
                    {
                        match find(&self.nodes, &inputs[input].1) {
                            Some(parent) => {
                                parents.push(parent);
                            },
                            None => {
                                return Err((node, input));
                            },
                        }
                        assert(self.parent_known(node as int, input as int));
                        input += 1;
                    }
                },
                Node::Dataset { .. } => {},
            }
            assert(parents@ =~= self.links()[node as int]);
            links.push(parents);
            assert(self.parents_known_before(node + 1, 0)) by {
                assert forall|n: int, i: int|
                    0 <= n < node + 1 && n < self.nodes@.len() && 0 <= i < self.inputs_of(n).len()
                    implies #[trigger] self.parent_known(n, i) by {
                    if n == node {
                        assert(self.parent_known(node as int, i));
                    } else {
                        assert(self.parent_known(n, i));
                    }
                }
            }
            node += 1;
        }
        assert(view_links(links@) =~= self.links());
        assert forall|n: int, i: int|
            0 <= n < self.nodes@.len() && 0 <= i < self.inputs_of(n).len()
            implies #[trigger] self.parent_known(n, i) by {}
        Ok(links)
    }
}

/// The edges of the graph, each from a parent to its child; `None` where
/// there are more than a graph can hold.
pub fn edges_of(links: &Vec<Vec<usize>>) -> (edges: Option<Vec<(usize, usize)>>)
    ensures
        edges is Some <==> edge_list(view_links(links@), links@.len() as int).len() < u32::MAX,
        edges is Some ==> edges.unwrap()@ == edge_list(view_links(links@), links@.len() as int),
{
    let ghost parents_of = view_links(links@);
    let mut edges: Vec<(usize, usize)> = Vec::new();
    let mut node: usize = 0;
    while node < links.len()
        invariant
            node <= links.len(),
            parents_of == view_links(links@),
            edges@ == edge_list(parents_of, node as int),
            edges.len() < u32::MAX,
        decreases links.len() - node,
    {
        let parents = &links[node];
        let ghost before = edges@;
        let mut j: usize = 0;
        while j < parents.len()
            invariant
                j <= parents.len(),
                node < links.len(),
                parents_of == view_links(links@),
                parents_of.len() == links.len(),
                parents@ == parents_of[node as int],
                before == edge_list(parents_of, node as int),
                edges@ == before + parents@.take(j as int).map_values(
                    |parent: usize| (parent, node),
                ),
                edges.len() < u32::MAX,
            decreases parents.len() - j,
        {
            if edges.len() >= (u32::MAX - 1) as usize {
                proof {
                    lemma_edge_list_grows(parents_of, node + 1, links@.len() as int);
                    assert(edge_list(parents_of, node + 1).len() == before.len() + parents@.len());
                }
                return None;
            }
            edges.push((parents[j], node));
            assert(edges@ =~= before + parents@.take(j + 1).map_values(
                |parent: usize| (parent, node),
            ));
            j += 1;
        }
        assert(parents@.take(j as int) =~= parents@);
        node += 1;
    }
    Some(edges)
}

/// The edges of more nodes are no fewer.
pub proof fn lemma_edge_list_grows(links: Seq<Seq<usize>>, from: int, upto: int)
    requires
        0 <= from <= upto,
    ensures
        edge_list(links, from).len() <= edge_list(links, upto).len(),
    decreases upto - from,
{
    if from < upto {
        lemma_edge_list_grows(links, from, upto - 1);
    }
}

/// The number of bytes that a sector of the given resolution and format
/// takes.
pub open spec fn sector_size(resolution: u32, format: TextureFormat) -> int {
    resolution as int * resolution as int * format.pixel_bytes() as int
}

/// The number of bytes that the backing store of a layer takes: room for
/// every sector of a square grid with the given side length.
pub open spec fn backing_size(resolution: u32, format: TextureFormat, side: u32) -> int {
    sector_size(resolution, format) * side as int * side as int
}

/// The identities of the given nodes, out of the identities of all nodes.
pub open spec fn parent_ids(parents: Seq<usize>, ids: Seq<Seq<u8>>) -> Seq<Seq<u8>> {
    parents.map_values(|parent: usize| ids[parent as int])
}

/// The identities as plain byte sequences.
pub open spec fn view_ids(ids: Seq<LayerId>) -> Seq<Seq<u8>> {
    ids.map_values(|id: LayerId| id@)
}

/// A layer of a graph.
pub enum GraphLayer {
    Dataset(Dataset),
    Generated(Layer),
}

/// The layers that are rendered, by what they hold. Each list runs from the
/// layer that is generated last to the layer that is generated first.
pub struct Priorities {
    pub heightmap: Vec<LayerId>,
    pub normalmap: Vec<LayerId>,
    pub albedo: Vec<LayerId>,
}

/// What the description says of a generated node, worked out.
pub struct Checked {
    /// The number of bytes of a sector.
    pub sector_bytes: u64,
    /// The place of the node's transform among the shaders.
    pub shader: usize,
    /// The number of bytes of the backing store.
    pub backing_bytes: u64,
}

impl GraphFile {
    /// What is wrong with a node of its own, if anything: a generated layer
    /// whose sectors are too large, whose transform is missing, or whose
    /// backing store is too large, in this order.
    pub open spec fn fault(&self, node: int) -> Option<GraphError> {
        match self.nodes@[node].1 {
            Node::Dataset { .. } => None,
            Node::Generated { resolution, format, shader, .. } => {
                if sector_size(resolution, format) > u32::MAX {
                    Some(GraphError::SectorTooLarge { node: node as usize })
                } else if !has_name(self.shaders@, shader@) {
                    Some(GraphError::MissingShader { node: node as usize })
                } else if backing_size(resolution, format, self.side_length_sectors) > u64::MAX {
                    Some(GraphError::BackingTooLarge { node: node as usize })
                } else {
                    None
                }
            },
        }
    }

    /// The source of the transform of a generated node.
    pub open spec fn shader_source(&self, node: int) -> Seq<char> {
        match self.nodes@[node].1 {
            Node::Generated { shader, .. } => self.shaders@[place_of(self.shaders@, shader@)].1@,
            Node::Dataset { .. } => Seq::empty(),
        }
    }

    /// The identity of a node, given the identities of all nodes: the digest
    /// of the node's canonical descriptor. For a generated layer the
    /// descriptor holds the identities of the parents and the layer's own
    /// parameters; for a dataset, the parameters of its source.
    pub open spec fn identity_of(&self, node: int, ids: Seq<Seq<u8>>) -> Seq<u8> {
        match self.nodes@[node].1 {
            Node::Dataset { url, resolution, file_format, projection, .. } => sha256_digest(
                dataset_encoding(url@, projection, resolution, file_format, TextureFormat::R32F),
            ),
            Node::Generated { resolution, corner_registration, format, .. } => sha256_digest(
                layer_encoding(
                    parent_ids(self.links()[node], ids),
                    resolution,
                    corner_registration,
                    format,
                    sector_size(resolution, format) as u64,
                    self.shader_source(node),
                    self.center@,
                ),
            ),
        }
    }

    /// What a node is rendered as, if it is rendered.
    pub open spec fn layer_type_of(&self, node: int) -> Option<LayerType> {
        match self.nodes@[node].1 {
            Node::Generated { kind: OutputKind::HeightMap, .. } => Some(LayerType::Heightmap),
            Node::Generated { kind: OutputKind::NormalMap, .. } => Some(LayerType::Normalmap),
            Node::Generated { kind: OutputKind::AlbedoMap, .. } => Some(LayerType::Albedo),
            _ => None,
        }
    }

    /// The nodes of `sequence` that are rendered as `ty`, the last node of
    /// the sequence first.
    pub open spec fn ranked_nodes(&self, sequence: Seq<usize>, ty: LayerType) -> Seq<usize>
        decreases sequence.len(),
    {
        if sequence.len() == 0 {
            Seq::empty()
        } else {
            let later = self.ranked_nodes(sequence.skip(1), ty);
            if self.layer_type_of(sequence[0] as int) == Some(ty) {
                later.push(sequence[0])
            } else {
                later
            }
        }
    }

    /// Whether `checked` holds what the description says of a generated
    /// node.
    pub open spec fn checked(&self, node: int, checked: Checked) -> bool {
        match self.nodes@[node].1 {
            Node::Dataset { .. } => true,
            Node::Generated { resolution, format, shader, .. } => {
                &&& checked.sector_bytes == sector_size(resolution, format)
                &&& checked.shader == place_of(self.shaders@, shader@)
                &&& is_first(self.shaders@, shader@, checked.shader as int)
                &&& checked.backing_bytes == backing_size(
                    resolution,
                    format,
                    self.side_length_sectors,
                )
            },
        }
    }

    /// Whether `entry` is the layer that the description gives for a node,
    /// with the identities `ids` of all nodes: its descriptor is the node's,
    /// with the names and identities of the parents, and its cache is empty
    /// and has the size that the node asks for.
    pub open spec fn entry_matches(
        &self,
        node: int,
        ids: Seq<(String, LayerId)>,
        entry: GraphLayer,
    ) -> bool {
        match self.nodes@[node].1 {
            Node::Dataset { url, resolution, file_format, bib, license, projection, cache_size } => {
                match entry {
                    GraphLayer::Dataset(dataset) => {
                        &&& dataset.desc.url@ == url@
                        &&& dataset.desc.projection == projection
                        &&& dataset.desc.resolution == resolution
                        &&& dataset.desc.file_format == file_format
                        &&& dataset.desc.texture_format == TextureFormat::R32F
                        &&& dataset.bib@ == bib@
                        &&& dataset.license@ == license@
                        &&& dataset.tile_cache@ == CacheState::empty(
                            cache_size as nat,
                            resolution,
                        )
                    },
                    GraphLayer::Generated(_) => false,
                }
            },
            Node::Generated { resolution, corner_registration, format, cache_size, .. } => {
                match entry {
                    GraphLayer::Generated(layer) => {
                        &&& layer.desc.parents@.len() == self.links()[node].len()
                        &&& forall|j: int|
                            0 <= j < self.links()[node].len() ==> (
                            #[trigger] layer.desc.parents@[j]).0@ == ids[self.links()[node][j] as int].0@
                                && layer.desc.parents@[j].1@ == ids[self.links()[node][j] as int].1@
                        &&& layer.desc.resolution == resolution
                        &&& layer.desc.corner_registration == corner_registration
                        &&& layer.desc.format == format
                        &&& layer.desc.sector_bytes == sector_size(resolution, format)
                        &&& layer.desc.shader@ == self.shader_source(node)
                        &&& layer.desc.center@ == self.center@
                        &&& layer.backing_bytes == backing_size(
                            resolution,
                            format,
                            self.side_length_sectors,
                        )
                        &&& layer.sector_cache@ == CacheState::empty(
                            cache_size as nat,
                            resolution,
                        )
                    },
                    GraphLayer::Dataset(_) => false,
                }
            },
        }
    }

    /// Works out what the description says of a node, or finds the node's
    /// fault.
    fn check_node(&self, node: usize) -> (r: Result<Checked, GraphError>)
        requires
            node < self.nodes@.len(),
        ensures
            match r {
                Ok(checked) => self.fault(node as int) is None && self.checked(
                    node as int,
                    checked,
                ),
                Err(e) => self.fault(node as int) == Some(e),
            },
    {
        match &self.nodes[node].1 {
            Node::Dataset { .. } => Ok(Checked { sector_bytes: 0, shader: 0, backing_bytes: 0 }),
            Node::Generated { resolution, format, shader, .. } => {
                let side: u128 = *resolution as u128;
                let pixel: u128 = format.bytes_per_pixel() as u128;
                assert(side * side <= 0xffff_ffff * 0xffff_ffff) by (nonlinear_arith)
                    requires
                        0 <= side <= 0xffff_ffff,
                ;
                let size: u128 = side * side * pixel;
                if size > u32::MAX as u128 {
                    return Err(GraphError::SectorTooLarge { node });
                }
                let place = match find(&self.shaders, shader) {
                    Some(place) => place,
                    None => {
                        return Err(GraphError::MissingShader { node });
                    },
                };
                let grid: u128 = self.side_length_sectors as u128;
                assert(size * grid <= 0xffff_ffff * 0xffff_ffff) by (nonlinear_arith)
                    requires
                        0 <= size <= 0xffff_ffff,
                        0 <= grid <= 0xffff_ffff,
                ;
                assert(size * grid * grid <= 0xffff_ffff * 0xffff_ffff * 0xffff_ffff)
                    by (nonlinear_arith)
                    requires
                        0 <= size * grid <= 0xffff_ffff * 0xffff_ffff,
                        0 <= grid <= 0xffff_ffff,
                ;
                let backing: u128 = size * grid * grid;
                if backing > u64::MAX as u128 {
                    return Err(GraphError::BackingTooLarge { node });
                }
                Ok(Checked { sector_bytes: size as u64, shader: place, backing_bytes: backing as u64 })
            },
        }
    }

    /// The layer that the description gives for a node, with the identities
    /// `ids` of all nodes.
    fn entry_of(
        &self,
        node: usize,
        parents: &Vec<usize>,
        ids: &Vec<(String, LayerId)>,
        checked: &Checked,
    ) -> (entry: GraphLayer)
        requires
            node < self.nodes@.len(),
            self.parents_known(),
            parents@ == self.links()[node as int],
            ids@.len() == self.nodes@.len(),
            self.fault(node as int) is None,
            self.checked(node as int, *checked),
        ensures
            self.entry_matches(node as int, ids@, entry),
    {
        proof {
            self.lemma_links_in_range();
        }
        match &self.nodes[node].1 {
            Node::Dataset { url, resolution, file_format, bib, license, projection, cache_size } => {
                GraphLayer::Dataset(
                    Dataset {
                        desc: DatasetDesc {
                            url: url.clone(),
                            projection: *projection,
                            resolution: *resolution,
                            file_format: *file_format,
                            texture_format: TextureFormat::R32F,
                        },
                        bib: bib.clone(),
                        license: license.clone(),
                        tile_cache: TileCache::new(*cache_size as usize, *resolution),
                    },
                )
            },
            Node::Generated { resolution, corner_registration, format, cache_size, .. } => {
                let mut named: Vec<(String, LayerId)> = Vec::new();
                let mut j: usize = 0;
                while j < parents.len()
                    invariant
                        j <= parents.len(),
                        node < self.nodes@.len(),
                        parents@ == self.links()[node as int],
                        links_in_range(self.links()),
                        ids@.len() == self.nodes@.len(),
                        named.len() == j,
                        forall|i: int|
                            0 <= i < j ==> (#[trigger] named@[i]).0@ == ids@[parents@[i] as int].0@
                                && named@[i].1@ == ids@[parents@[i] as int].1@,
                    decreases parents.len() - j,
                {
                    let parent = parents[j];
                    assert(self.links()[node as int][j as int] < self.links().len());
                    named.push((ids[parent].0.clone(), ids[parent].1));
                    j += 1;
                }
                GraphLayer::Generated(
                    Layer {
                        desc: LayerDesc {
                            parents: named,
                            resolution: *resolution,
                            corner_registration: *corner_registration,
                            format: *format,
                            sector_bytes: checked.sector_bytes,
                            shader: self.shaders[checked.shader].1.clone(),
                            center: self.center.clone(),
                        },
                        backing_bytes: checked.backing_bytes,
                        sector_cache: TileCache::new(*cache_size as usize, *resolution),
                    },
                )
            },
        }
    }
}

impl GraphLayer {
    /// The identity that the layer's descriptor gives it.
    pub open spec fn identity(&self) -> Seq<u8> {
        match self {
            GraphLayer::Dataset(dataset) => dataset.desc.identity(),
            GraphLayer::Generated(layer) => layer.desc.identity(),
        }
    }

    /// The identity of the layer: the digest of its canonical descriptor.
    pub fn id(&self) -> (id: LayerId)
        ensures
            id@ == self.identity(),
    {
        match self {
            GraphLayer::Dataset(dataset) => dataset.desc.id(),
            GraphLayer::Generated(layer) => layer.desc.id(),
        }
    }
}

/// The layer that a description gives for a node has the identity that the
/// description gives the node.
pub proof fn lemma_entry_identity(
    config: &GraphFile,
    node: int,
    ids: Seq<(String, LayerId)>,
    entry: GraphLayer,
)
    requires
        0 <= node < config.nodes@.len(),
        config.parents_known(),
        ids.len() == config.nodes@.len(),
        config.entry_matches(node, ids, entry),
        config.fault(node) is None,
    ensures
        entry.identity() == config.identity_of(node, ids_of(ids)),
{
    config.lemma_links_in_range();
    match entry {
        GraphLayer::Generated(layer) => {
            let parents = config.links()[node];
            let a = ids_of(layer.desc.parents@);
            let b = parent_ids(parents, ids_of(ids));
            assert forall|j: int| 0 <= j < a.len() implies a[j] == b[j] by {
                assert(parents[j] < config.links().len());
                assert(layer.desc.parents@[j].1@ == ids[parents[j] as int].1@);
            }
            assert(a =~= b);
        },
        GraphLayer::Dataset(_) => {},
    }
}

/// The identity of a node depends on the identities of its parents only.
pub proof fn lemma_identity_frame(config: &GraphFile, node: int, a: Seq<Seq<u8>>, b: Seq<Seq<u8>>)
    requires
        0 <= node < config.nodes@.len(),
        forall|j: int|
            0 <= j < config.links()[node].len() ==> a[(#[trigger] config.links()[node][j]) as int]
                == b[config.links()[node][j] as int],
    ensures
        config.identity_of(node, a) == config.identity_of(node, b),
{
    assert(parent_ids(config.links()[node], a) =~= parent_ids(config.links()[node], b));
}

/// A layer graph: the layers of a description, the identity of each, and the
/// order in which they can be generated.
pub struct Graph {
    /// The description that the graph was built from.
    pub config: GraphFile,
    /// The name and the identity of each node, in the order of the
    /// description.
    pub layer_ids: Vec<(String, LayerId)>,
    /// The layer of each node, in the order of the description.
    pub layers: Vec<GraphLayer>,
    /// The nodes in the order of generation, by their places in the
    /// description.
    pub sequence: Vec<usize>,
    /// The identities of the layers in the order of generation.
    pub order: Vec<LayerId>,
    /// The rendered layers, by what they hold.
    pub priorities: Priorities,
}

impl Graph {
    /// The identity of each node, in the order of the description.
    pub open spec fn ids(&self) -> Seq<Seq<u8>> {
        ids_of(self.layer_ids@)
    }

    /// The graph is what its description says: every input names a layer;
    /// `sequence` holds every node once, behind its parents; no node has a
    /// fault; every node has its name and the identity that its descriptor
    /// gives, which for a generated layer is made of the identities of the
    /// parents; `order` holds the identities along `sequence`; every node
    /// has its layer; and the priority lists hold the identities of the
    /// rendered layers, the layer that is generated last first.
    pub open spec fn well_formed(&self) -> bool {
        let n = self.config.nodes@.len();
        &&& self.config.parents_known()
        &&& is_topological(self.sequence@, self.config.links())
        &&& self.layer_ids@.len() == n
        &&& forall|node: int|
            0 <= node < n ==> (#[trigger] self.layer_ids@[node]).0@ == self.config.nodes@[node].0@
        &&& forall|node: int| 0 <= node < n ==> #[trigger] self.config.fault(node) is None
        &&& forall|node: int|
            0 <= node < n ==> (#[trigger] self.ids()[node]) == self.config.identity_of(
                node,
                self.ids(),
            )
        &&& self.order@.len() == n
        &&& forall|k: int|
            0 <= k < n ==> (#[trigger] self.order@[k])@ == self.ids()[self.sequence@[k] as int]
        &&& self.layers@.len() == n
        &&& forall|node: int|
            0 <= node < n ==> self.config.entry_matches(
                node,
                self.layer_ids@,
                #[trigger] self.layers@[node],
            )
        &&& view_ids(self.priorities.heightmap@) == parent_ids(
            self.config.ranked_nodes(self.sequence@, LayerType::Heightmap),
            self.ids(),
        )
        &&& view_ids(self.priorities.normalmap@) == parent_ids(
            self.config.ranked_nodes(self.sequence@, LayerType::Normalmap),
            self.ids(),
        )
        &&& view_ids(self.priorities.albedo@) == parent_ids(
            self.config.ranked_nodes(self.sequence@, LayerType::Albedo),
            self.ids(),
        )
    }
}

/// Whether `e` is the fault of the first node of `order` that has one.
pub open spec fn first_fault(config: GraphFile, order: Seq<usize>, e: GraphError) -> bool {
    exists|k: int|
        0 <= k < order.len() && config.fault((#[trigger] order[k]) as int) == Some(e) && forall|
            m: int,
        |
            0 <= m < k ==> config.fault((#[trigger] order[m]) as int) is None
}

/// What building a graph gives for a description whose inputs all name
/// layers, once a traversal has put the nodes in an order:
/// - `Cycle`, if the order is not an order of all nodes with every node
///   behind its parents;
/// - else the fault of the first node of the order that has one;
/// - else the graph of the description with its nodes in that order.
pub open spec fn result_for_order(
    config: GraphFile,
    order: Seq<usize>,
    r: Result<Graph, GraphError>,
) -> bool {
    if !is_topological(order, config.links()) {
        r == Err::<Graph, GraphError>(GraphError::Cycle)
    } else {
        match r {
            Ok(graph) => {
                &&& forall|node: int|
                    0 <= node < config.nodes@.len() ==> #[trigger] config.fault(node) is None
                &&& graph.config == config
                &&& graph.sequence@ == order
                &&& graph.well_formed()
            },
            Err(e) => first_fault(config, order, e),
        }
    }
}

/// What building a graph gives for a description:
/// - `InvalidCenter`, if the center is no location code that decodes;
/// - else `DuplicateNode` for the first node with the name of an earlier one;
/// - else `UnknownParent` for the first input that names no layer;
/// - else `TooLarge`, if there are too many nodes or inputs to traverse;
/// - else what `result_for_order` says of the topological traversal of the
///   nodes and their links.
pub open spec fn result_of_file(config: GraphFile, r: Result<Graph, GraphError>) -> bool {
    let n = config.nodes@.len();
    if !location_code_decodes(config.center@) {
        r == Err::<Graph, GraphError>(GraphError::InvalidCenter)
    } else if exists|node: int| 0 <= node < n && config.is_duplicate(node) {
        r matches Err(GraphError::DuplicateNode { node }) && node < n && config.is_duplicate(
            node as int,
        ) && forall|m: int| 0 <= m < node ==> !config.is_duplicate(m)
    } else if !config.parents_known() {
        r matches Err(GraphError::UnknownParent { node, input }) && node < n && input
            < config.inputs_of(node as int).len() && !config.parent_known(
            node as int,
            input as int,
        ) && config.parents_known_before(node as int, input as int)
    } else if n >= u32::MAX || edge_list(config.links(), n as int).len() >= u32::MAX {
        r == Err::<Graph, GraphError>(GraphError::TooLarge)
    } else {
        result_for_order(config, topo_order(n as usize, edge_list(config.links(), n as int)), r)
    }
}

impl GraphFile {
    /// The name and the identity of each node, or the fault of the first
    /// node of the order that has one.
    fn identify(&self, links: &Vec<Vec<usize>>, sequence: &Vec<usize>) -> (r: Result<
        Vec<(String, LayerId)>,
        GraphError,
    >)
        requires
            self.parents_known(),
            view_links(links@) == self.links(),
            is_topological(sequence@, self.links()),
        ensures
            match r {
                Ok(ids) => {
                    &&& ids@.len() == self.nodes@.len()
                    &&& forall|node: int|
                        0 <= node < ids@.len() ==> (#[trigger] ids@[node]).0@
                            == self.nodes@[node].0@
                    &&& forall|node: int|
                        0 <= node < ids@.len() ==> #[trigger] self.fault(node) is None
                    &&& forall|node: int|
                        0 <= node < ids@.len() ==> (#[trigger] ids_of(ids@)[node])
                            == self.identity_of(node, ids_of(ids@))
                },
                Err(e) => first_fault(*self, sequence@, e),
            },
    {
        let n = self.nodes.len();
        let mut ids: Vec<(String, LayerId)> = Vec::new();
        let mut i: usize = 0;
        while i < n
            invariant
                i <= n,
                n == self.nodes@.len(),
                ids@.len() == i,
                forall|node: int| 0 <= node < i ==> (#[trigger] ids@[node]).0@ == self.nodes@[node].0@,
            decreases n - i,
        {
            ids.push((self.nodes[i].0.clone(), LayerId([0u8;32])));
            i += 1;
        }
        proof {
            self.lemma_links_in_range();
        }
        let mut k: usize = 0;
        while k < n
            invariant
                k <= n,
                n == self.nodes@.len(),
                self.parents_known(),
                links_in_range(self.links()),
                view_links(links@) == self.links(),
                is_topological(sequence@, self.links()),
                ids@.len() == n,
                forall|node: int| 0 <= node < n ==> (#[trigger] ids@[node]).0@ == self.nodes@[node].0@,
                forall|m: int| 0 <= m < k ==> self.fault((#[trigger] sequence@[m]) as int) is None,
                forall|m: int|
                    0 <= m < k ==> ids_of(ids@)[(#[trigger] sequence@[m]) as int]
                        == self.identity_of(sequence@[m] as int, ids_of(ids@)),
            decreases n - k,
        {
            let node = sequence[k];
            assert(sequence@[k as int] < self.links().len());
            let checked = match self.check_node(node) {
                Ok(checked) => checked,
                Err(e) => {
                    return Err(e);
                },
            };
            assert(links@[node as int]@ == view_links(links@)[node as int]);
            let entry = self.entry_of(node, &links[node], &ids, &checked);
            let id = entry.id();
            let ghost before = ids@;
            proof {
                lemma_entry_identity(self, node as int, before, entry);
            }
            ids.set(node, (self.nodes[node].0.clone(), id));
            proof {
                let old_ids = ids_of(before);
                let new_ids = ids_of(ids@);
                assert forall|m: int| 0 <= m < k + 1 implies new_ids[(#[trigger] sequence@[m]) as int]
                    == self.identity_of(sequence@[m] as int, new_ids) by {
                    let u = sequence@[m] as int;
                    assert(sequence@[m] < self.links().len());
                    assert forall|j: int| 0 <= j < self.links()[u].len() implies old_ids[(
                    #[trigger] self.links()[u][j]) as int] == new_ids[self.links()[u][j] as int] by {
                        let parent = self.links()[u][j];
                        assert(comes_before(sequence@, parent, m));
                        let at = choose|at: int|
                            0 <= at < m && at < sequence@.len() && sequence@[at] == parent;
                        assert(sequence@[at] != sequence@[k as int]);
                        assert(parent < self.links().len());
                    }
                    lemma_identity_frame(self, u, old_ids, new_ids);
                    if m < k {
                        assert(sequence@[m] != sequence@[k as int]);
                        assert(new_ids[u] == old_ids[u]);
                    }
                }
            }
            k += 1;
        }
        proof {
            assert forall|node: int| 0 <= node < n implies #[trigger] self.fault(node) is None by {
                assert(comes_before(sequence@, node as usize, sequence@.len() as int));
            }
            assert forall|node: int| 0 <= node < n implies (#[trigger] ids_of(ids@)[node])
                == self.identity_of(node, ids_of(ids@)) by {
                assert(comes_before(sequence@, node as usize, sequence@.len() as int));
            }
        }
        Ok(ids)
    }

    /// The priority lists: the identities of the rendered layers, the layer
    /// that is generated last first.
    fn prioritize(&self, sequence: &Vec<usize>, ids: &Vec<(String, LayerId)>) -> (lists: Priorities)
        requires
            ids@.len() == self.nodes@.len(),
            forall|k: int| 0 <= k < sequence@.len() ==> (#[trigger] sequence@[k]) < self.nodes@.len(),
        ensures
            view_ids(lists.heightmap@) == parent_ids(
                self.ranked_nodes(sequence@, LayerType::Heightmap),
                ids_of(ids@),
            ),
            view_ids(lists.normalmap@) == parent_ids(
                self.ranked_nodes(sequence@, LayerType::Normalmap),
                ids_of(ids@),
            ),
            view_ids(lists.albedo@) == parent_ids(
                self.ranked_nodes(sequence@, LayerType::Albedo),
                ids_of(ids@),
            ),
    {
        let mut lists = Priorities {
            heightmap: Vec::new(),
            normalmap: Vec::new(),
            albedo: Vec::new(),
        };
        let mut k: usize = sequence.len();
        assert(sequence@.skip(k as int) =~= Seq::<usize>::empty());
        assert(view_ids(lists.heightmap@) =~= Seq::<Seq<u8>>::empty());
        assert(parent_ids(Seq::<usize>::empty(), ids_of(ids@)) =~= Seq::<Seq<u8>>::empty());
        while k > 0
            invariant
                k <= sequence.len(),
                ids@.len() == self.nodes@.len(),
                forall|k: int|
                    0 <= k < sequence@.len() ==> (#[trigger] sequence@[k]) < self.nodes@.len(),
                view_ids(lists.heightmap@) == parent_ids(
                    self.ranked_nodes(sequence@.skip(k as int), LayerType::Heightmap),
                    ids_of(ids@),
                ),
                view_ids(lists.normalmap@) == parent_ids(
                    self.ranked_nodes(sequence@.skip(k as int), LayerType::Normalmap),
                    ids_of(ids@),
                ),
                view_ids(lists.albedo@) == parent_ids(
                    self.ranked_nodes(sequence@.skip(k as int), LayerType::Albedo),
                    ids_of(ids@),
                ),
            decreases k,
        {
            k -= 1;
            let node = sequence[k];
            let id = ids[node].1;
            let ghost tail = sequence@.skip(k as int);
            let ghost before_h = lists.heightmap@;
            let ghost before_n = lists.normalmap@;
            let ghost before_a = lists.albedo@;
            assert(tail.skip(1) =~= sequence@.skip(k + 1));
            assert(tail[0] == node);
            match &self.nodes[node].1 {
                Node::Generated { kind, .. } => {
                    match kind {
                        OutputKind::HeightMap => {
                            lists.heightmap.push(id);
                        },
                        OutputKind::NormalMap => {
                            lists.normalmap.push(id);
                        },
                        OutputKind::AlbedoMap => {
                            lists.albedo.push(id);
                        },
                        OutputKind::Intermediate => {},
                    }
                },
                Node::Dataset { .. } => {},
            }
            proof {
                let all = ids_of(ids@);
                assert(all[node as int] == id@);
                let h = self.ranked_nodes(tail.skip(1), LayerType::Heightmap);
                let m = self.ranked_nodes(tail.skip(1), LayerType::Normalmap);
                let a = self.ranked_nodes(tail.skip(1), LayerType::Albedo);
                assert(parent_ids(h.push(node), all) =~= parent_ids(h, all).push(id@));
                assert(parent_ids(m.push(node), all) =~= parent_ids(m, all).push(id@));
                assert(parent_ids(a.push(node), all) =~= parent_ids(a, all).push(id@));
                assert(view_ids(before_h.push(id)) =~= view_ids(before_h).push(id@));
                assert(view_ids(before_n.push(id)) =~= view_ids(before_n).push(id@));
                assert(view_ids(before_a.push(id)) =~= view_ids(before_a).push(id@));
            }
        }
        assert(sequence@.skip(0) =~= sequence@);
        lists
    }
}

impl Graph {
    /// Builds the graph of a description from the order that a traversal
    /// has put its nodes in. `links` holds the parents of each node, as
    /// `resolve` gives them.
    pub fn from_order(config: GraphFile, links: Vec<Vec<usize>>, sequence: Vec<usize>) -> (r:
        Result<Graph, GraphError>)
        requires
            config.parents_known(),
            view_links(links@) == config.links(),
        ensures
            result_for_order(config, sequence@, r),
    {
        proof {
            config.lemma_links_in_range();
        }
        if !check_order(&sequence, &links) {
            return Err(GraphError::Cycle);
        }
        let ids = match config.identify(&links, &sequence) {
            Ok(ids) => ids,
            Err(e) => {
                return Err(e);
            },
        };
        let n = config.nodes.len();
        assert(links@.len() == view_links(links@).len());
        let mut layers: Vec<GraphLayer> = Vec::new();
        let mut node: usize = 0;
        while node < n
            invariant
                node <= n,
                n == config.nodes@.len(),
                config.parents_known(),
                view_links(links@) == config.links(),
                links@.len() == n,
                ids@.len() == n,
                forall|v: int| 0 <= v < n ==> #[trigger] config.fault(v) is None,
                layers@.len() == node,
                forall|v: int|
                    0 <= v < node ==> config.entry_matches(v, ids@, #[trigger] layers@[v]),
            decreases n - node,
        {
            let checked = match config.check_node(node) {
                Ok(checked) => checked,
                Err(e) => {
                    return Err(e);
                },
            };
            assert(links@[node as int]@ == view_links(links@)[node as int]);
            let entry = config.entry_of(node, &links[node], &ids, &checked);
            layers.push(entry);
            node += 1;
        }
        let mut order: Vec<LayerId> = Vec::new();
        let mut k: usize = 0;
        while k < n
            invariant
                k <= n,
                n == config.nodes@.len(),
                ids@.len() == n,
                is_topological(sequence@, config.links()),
                order@.len() == k,
                forall|m: int|
                    0 <= m < k ==> (#[trigger] order@[m])@ == ids_of(ids@)[sequence@[m] as int],
            decreases n - k,
        {
            assert(sequence@[k as int] < config.links().len());
            order.push(ids[sequence[k]].1);
            k += 1;
        }
        assert forall|k: int| 0 <= k < sequence@.len() implies (#[trigger] sequence@[k])
            < config.nodes@.len() by {
            assert(sequence@[k] < config.links().len());
        }
        let priorities = config.prioritize(&sequence, &ids);
        Ok(Graph { config, layer_ids: ids, layers, sequence, order, priorities })
    }

    /// Builds the graph of a description: checks the center and the names,
    /// links every input to the layer that it names, puts the layers in an
    /// order in which each comes behind its parents, and gives each layer
    /// its identity, its descriptor and an empty cache.
    pub fn from_file(config: GraphFile) -> (r: Result<Graph, GraphError>)
        ensures
            result_of_file(config, r),
    {
        if !decodes_location_code(config.center.as_str()) {
            return Err(GraphError::InvalidCenter);
        }
        if let Some(node) = config.first_duplicate() {
            return Err(GraphError::DuplicateNode { node });
        }
        let links = match config.resolve() {
            Ok(links) => links,
            Err((node, input)) => {
                return Err(GraphError::UnknownParent { node, input });
            },
        };
        if config.nodes.len() >= u32::MAX as usize {
            return Err(GraphError::TooLarge);
        }
        let edges = match edges_of(&links) {
            Some(edges) => edges,
            None => {
                return Err(GraphError::TooLarge);
            },
        };
        proof {
            config.lemma_links_in_range();
            lemma_edges_in_range(config.links(), config.nodes@.len() as int);
        }
        let sequence = topo_visit(config.nodes.len(), &edges);
        Graph::from_order(config, links, sequence)
    }
}

/// Validity of the order of generation: in a graph, every parent of a layer
/// appears in `order` strictly before the layer itself.
pub proof fn lemma_parents_appear_earlier(graph: &Graph, place: int, input: int)
    requires
        graph.well_formed(),
        0 <= place < graph.order@.len(),
        0 <= input < graph.config.links()[graph.sequence@[place] as int].len(),
    ensures
        exists|earlier: int|
            0 <= earlier < place && (#[trigger] graph.order@[earlier])@
                == graph.ids()[graph.config.links()[graph.sequence@[place] as int][input] as int],
{
    let node = graph.sequence@[place] as int;
    let parent = graph.config.links()[node][input];
    assert(comes_before(graph.sequence@, parent, place));
    let earlier = choose|m: int|
        0 <= m < place && m < graph.sequence@.len() && graph.sequence@[m] == parent;
    assert(graph.order@[earlier]@ == graph.ids()[graph.sequence@[earlier] as int]);
}

/// The identities along the first `upto` nodes of the first graph's order
/// are the same in both graphs.
proof fn lemma_identities_agree_upto(a: &Graph, b: &Graph, upto: int)
    requires
        a.well_formed(),
        b.well_formed(),
        a.config == b.config,
        0 <= upto <= a.sequence@.len(),
    ensures
        forall|m: int|
            0 <= m < upto ==> a.ids()[(#[trigger] a.sequence@[m]) as int] == b.ids()[a.sequence@[m] as int],
    decreases upto,
{
    if upto > 0 {
        lemma_identities_agree_upto(a, b, upto - 1);
        let node = a.sequence@[upto - 1] as int;
        let links = a.config.links();
        assert(a.sequence@[upto - 1] < links.len());
        assert forall|j: int| 0 <= j < links[node].len() implies a.ids()[(
        #[trigger] links[node][j]) as int] == b.ids()[links[node][j] as int] by {
            let parent = links[node][j];
            assert(comes_before(a.sequence@, parent, upto - 1));
            let at = choose|at: int|
                0 <= at < upto - 1 && at < a.sequence@.len() && a.sequence@[at] == parent;
            assert(a.ids()[a.sequence@[at] as int] == b.ids()[a.sequence@[at] as int]);
        }
        lemma_identity_frame(&a.config, node, a.ids(), b.ids());
        assert(a.ids()[node] == a.config.identity_of(node, a.ids()));
        assert(b.ids()[node] == b.config.identity_of(node, b.ids()));
    }
}

/// Identities do not depend on the order of generation: two graphs of one
/// description give every layer the same identity, whichever order each
/// puts the layers in.
pub proof fn lemma_identities_agree(a: &Graph, b: &Graph)
    requires
        a.well_formed(),
        b.well_formed(),
        a.config == b.config,
    ensures
        a.ids() == b.ids(),
{
    lemma_identities_agree_upto(a, b, a.sequence@.len() as int);
    assert(a.config.nodes.len() == a.config.nodes@.len());
    assert(a.config.links().len() == a.config.nodes@.len());
    assert(a.ids().len() == a.config.nodes@.len());
    assert(b.ids().len() == a.config.nodes@.len());
    assert forall|node: int| 0 <= node < a.ids().len() implies a.ids()[node] == b.ids()[node] by {
        assert(comes_before(a.sequence@, node as usize, a.sequence@.len() as int));
        let at = choose|at: int|
            0 <= at < a.sequence@.len() && at < a.sequence@.len() && a.sequence@[at]
                == node as usize;
        assert(a.ids()[a.sequence@[at] as int] == b.ids()[a.sequence@[at] as int]);
    }
    assert(a.ids() =~= b.ids());
}

} // verus!
