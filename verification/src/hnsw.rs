//! The HNSW index: a layered proximity graph over the stored vectors,
//! searched greedily from the top layer down.
//!
//! A node lives on every layer from 0 up to its own top layer; on each of
//! them it keeps a list of links to other nodes that live on that layer.
//! Layer 0 lists hold at most `m_max_zero` links and higher lists at most
//! `m`.
use vstd::prelude::*;
use crate::buffer::{lemma_snapshot_roundtrip, parse_snapshot, snapshot_bytes, BufferView, SnapshotError, SoABuffer};
use crate::codec::{lemma_u64_le_roundtrip, push_u64_le, read_u64_le, u64_from_le, u64_le};
use crate::error::ParsecError;
use crate::graph::{
    check_graph, degree_limit, degrees_ok, layer_links_ok, lemma_graph_ok_is_wf, lemma_push_unlinked,
    lemma_reach_closed, lemma_reach_start, lemma_reach_step, lemma_reachable_set_bounded, lemma_set_list,
    is_walk, layer_connected, lemma_reach_lift, linked, links_ok, list_ok, list_simple, lists_simple, nodes_view, reachable, reachable_set, set_list,
    shapes_ok,
};
use crate::flat::{
    insert_sorted, lemma_top_k_distances_agree, returned_distance, selects_top_k, sorted_by_distance, SearchResult,
};
use crate::types::{distance_key, order_key, DistanceMetric, VectorId};

verus! {

/// The parameters that dictate the shape of the HNSW graph.
#[derive(Debug, Clone, Copy)]
pub struct HnswConfig {
    /// Max connections per layer above layer 0.
    pub m: usize,
    /// Max connections on layer 0.
    pub m_max_zero: usize,
    /// Size of the candidate list during insertion.
    pub ef_construction: usize,
    /// Probability multiplier for layer generation, as the bit pattern of
    /// an `f32`.
    pub m_l: u32,
}

impl Default for HnswConfig {
    /// The defaults: `m = 16`, `m_max_zero = 2 * m`, `ef_construction =
    /// 100`, and `m_l = 1 / ln(m)` (the `f32` nearest to 0.36067376).
    fn default() -> (c: Self)
        ensures
            c.m == 16,
            c.m_max_zero == 32,
            c.ef_construction == 100,
            c.m_l == 0x3EB8_AA3Bu32,
    {
        let m: usize = 16;
        HnswConfig { m, m_max_zero: m * 2, ef_construction: 100, m_l: 0x3EB8_AA3Bu32 }
    }
}

/// Every link of `new_list` leads to the node at position `n` or was
/// already a link of `old_list`.
pub open spec fn only_new_links(old_list: Seq<usize>, new_list: Seq<usize>, n: int) -> bool {
    forall|t: int| 0 <= t < new_list.len() ==> #[trigger] new_list[t] == n || old_list.contains(new_list[t])
}

/// The smaller of two layers.
pub open spec fn lower_of(a: nat, b: nat) -> nat {
    if a < b { a } else { b }
}

/// A node of the flattened graph.
#[derive(Debug)]
pub struct HnswNode {
    /// The external id that the user gave to the vector.
    pub id: VectorId,
    /// The highest layer this node exists on.
    pub max_layer: usize,
    /// Adjacency lists: `connections[layer][neighbour]`, node positions.
    pub connections: Vec<Vec<usize>>,
}

/// The mathematical content of a node.
pub struct NodeView {
    pub id: u64,
    pub max_layer: nat,
    pub connections: Seq<Seq<usize>>,
}

impl View for HnswNode {
    type V = NodeView;

    open spec fn view(&self) -> NodeView {
        NodeView {
            id: self.id,
            max_layer: self.max_layer as nat,
            connections: self.connections@.map_values(|c: Vec<usize>| c@),
        }
    }
}

impl HnswNode {
    /// A node for `id` that lives on layers `0..=max_layer`, with no links.
    pub fn new(id: VectorId, max_layer: usize) -> (node: Self)
        requires
            max_layer < usize::MAX,
        ensures
            node@.id == id,
            node@.max_layer == max_layer,
            node@.connections.len() == max_layer + 1,
            forall|l: int| 0 <= l <= max_layer ==> #[trigger] node@.connections[l].len() == 0,
    {
        let mut connections: Vec<Vec<usize>> = Vec::with_capacity(max_layer + 1);
        let mut l: usize = 0;
        while l <= max_layer
            invariant
                max_layer < usize::MAX,
                l <= max_layer + 1,
                connections@.len() == l,
                forall|t: int| 0 <= t < l ==> #[trigger] connections@[t]@.len() == 0,
            decreases max_layer + 1 - l,
        {
            connections.push(Vec::new());
            l = l + 1;
        }
        HnswNode { id, max_layer, connections }
    }
}

/// The mathematical content of an HNSW index.
pub struct HnswView {
    pub buffer: BufferView,
    pub metric: DistanceMetric,
    pub config: HnswConfig,
    pub nodes: Seq<NodeView>,
    pub max_layer: nat,
    pub entry_point: Option<nat>,
}

impl HnswView {
    /// The graph invariant: one node per stored vector, with its id; links
    /// lead to existing nodes on their layer; link lists respect the degree
    /// limits; the entry point exists exactly when a node does, and lives on
    /// the top layer, which no node exceeds.
    pub open spec fn wf(self) -> bool {
        &&& self.buffer.wf()
        &&& self.nodes.len() == self.buffer.len()
        &&& forall|i: int| 0 <= i < self.nodes.len() ==> #[trigger] self.nodes[i].id == self.buffer.ids[i]
        &&& shapes_ok(self.nodes)
        &&& links_ok(self.nodes)
        &&& lists_simple(self.nodes)
        &&& degrees_ok(self.nodes, self.config)
        &&& forall|i: int| 0 <= i < self.nodes.len() ==> #[trigger] self.nodes[i].max_layer <= self.max_layer
        &&& self.max_layer < usize::MAX
        &&& (self.entry_point is None <==> self.nodes.len() == 0)
        &&& self.entry_point matches Some(e) ==> e < self.nodes.len() && self.nodes[e as int].max_layer
            == self.max_layer
    }
}

/// A navigable small-world graph index over the stored vectors.
pub struct HnswIndex {
    buffer: SoABuffer,
    metric: DistanceMetric,
    config: HnswConfig,
    /// The contiguous array of all graph nodes.
    nodes: Vec<HnswNode>,
    /// The top layer currently existing in the graph.
    max_layer: usize,
    /// The position of the node that serves as the entry point.
    entry_point: Option<usize>,
}

impl View for HnswIndex {
    type V = HnswView;

    closed spec fn view(&self) -> HnswView {
        HnswView {
            buffer: self.buffer@,
            metric: self.metric,
            config: self.config,
            nodes: nodes_view(self.nodes@),
            max_layer: self.max_layer as nat,
            entry_point: match self.entry_point {
                Some(e) => Some(e as nat),
                None => None,
            },
        }
    }
}

impl HnswIndex {
    pub open spec fn wf(&self) -> bool {
        self@.wf()
    }

    /// An empty index for vectors of `dimension` coordinates.
    pub fn new(dimension: usize, capacity: usize, metric: DistanceMetric, config: HnswConfig) -> (idx:
        Self)
        ensures
            idx.wf(),
            idx@.buffer == (BufferView {
                dimension: dimension as nat,
                ids: Seq::empty(),
                vectors: Seq::empty(),
            }),
            idx@.metric == metric,
            idx@.config == config,
            idx@.nodes.len() == 0,
            idx@.max_layer == 0,
            idx@.entry_point is None,
    {
        let idx = HnswIndex {
            buffer: SoABuffer::new(dimension, capacity),
            metric,
            config,
            nodes: Vec::with_capacity(capacity),
            max_layer: 0,
            entry_point: None,
        };
        assert(idx@.nodes =~= Seq::<NodeView>::empty());
        idx
    }

    /// The current node count.
    pub fn len(&self) -> (n: usize)
        ensures
            n == self@.nodes.len(),
    {
        self.nodes.len()
    }

    /// The metric of the index.
    pub fn metric(&self) -> (m: DistanceMetric)
        ensures
            m == self@.metric,
    {
        self.metric
    }
}

/// Every link of node `x` on `layer` leads into `v`.
pub open spec fn expanded(nodes: Seq<NodeView>, layer: int, v: Set<int>, x: int) -> bool {
    forall|u: int| 0 <= u < nodes[x].connections[layer].len() ==> v.contains(#[trigger] nodes[x].connections[layer][u] as int)
}

/// `r` names a node that lives on `layer` and can be reached from `entry`
/// along its links, with a distance that `f` returned for that node's
/// vector.
pub open spec fn reached_node<F: Fn(&[u32], &[u32], DistanceMetric) -> u32>(
    nodes: Seq<NodeView>,
    vectors: Seq<Seq<u32>>,
    metric: DistanceMetric,
    f: F,
    query: &[u32],
    entry: int,
    layer: int,
    r: SearchResult,
) -> bool {
    &&& r.id < nodes.len()
    &&& nodes[r.id as int].max_layer >= layer
    &&& reachable(nodes, layer, entry, r.id as int)
    &&& returned_distance(f, query, vectors[r.id as int], metric, r.distance)
}

/// The search visited the nodes `v` of `layer`, starting at `entry`, and
/// kept the nearest of them in `res`: every visited node can be reached
/// from the entry and has a distance `ds[x]` that `f` returned for it;
/// every kept node was visited and expanded (all its links were visited);
/// and no visited node left out ranks nearer than any kept one.
pub open spec fn kept_nearest<F: Fn(&[u32], &[u32], DistanceMetric) -> u32>(
    nodes: Seq<NodeView>,
    vectors: Seq<Seq<u32>>,
    metric: DistanceMetric,
    f: F,
    query: &[u32],
    entry: int,
    layer: int,
    res: Seq<SearchResult>,
    v: Set<int>,
    ds: Map<int, u32>,
) -> bool {
    &&& v.contains(entry)
    &&& forall|x: int|
        #[trigger] v.contains(x) ==> reachable(nodes, layer, entry, x) && ds.contains_key(x) && returned_distance(
            f,
            query,
            vectors[x],
            metric,
            ds[x],
        )
    &&& forall|t: int|
        0 <= t < res.len() ==> v.contains(#[trigger] res[t].id as int) && expanded(nodes, layer, v, res[t].id as int)
    &&& forall|x: int, t: int|
        v.contains(x) && !names_candidate(res, x) && 0 <= t < res.len() ==> order_key(#[trigger] ds[x]) >= order_key(
            #[trigger] res[t].distance,
        )
}

/// What a greedy search of `layer` from `entry`, with room for `ef` nodes,
/// gives: between one and `max(ef, 1)` distinct nodes, each reachable from
/// the entry, with the distances that `f` returned for them; every
/// reachable node when there are at most `ef` of them, and `max(ef, 1)`
/// nodes otherwise; and a node no farther than the entry itself.
pub open spec fn layer_search<F: Fn(&[u32], &[u32], DistanceMetric) -> u32>(
    nodes: Seq<NodeView>,
    vectors: Seq<Seq<u32>>,
    metric: DistanceMetric,
    f: F,
    query: &[u32],
    entry: int,
    ef: nat,
    layer: int,
    res: Seq<SearchResult>,
) -> bool {
    let r = reachable_set(nodes, layer, entry);
    let cap: nat = if ef < 1 { 1 } else { ef };
    &&& 1 <= res.len() <= cap
    &&& distinct_ids(res)
    &&& forall|t: int| 0 <= t < res.len() ==> #[trigger] reached_node(nodes, vectors, metric, f, query, entry, layer, res[t])
    &&& r.len() <= ef ==> forall|x: int| #[trigger] r.contains(x) <==> names_candidate(res, x)
    &&& r.len() > ef ==> res.len() == cap
    &&& exists|d: u32|
        returned_distance(f, query, vectors[entry], metric, d) && exists|t: int|
            0 <= t < res.len() && order_key(#[trigger] res[t].distance) <= order_key(d)
    &&& exists|v: Set<int>, ds: Map<int, u32>| #[trigger] kept_nearest(nodes, vectors, metric, f, query, entry, layer, res, v, ds)
}

/// The link lists of all nodes on `layer` (empty for a node that does not
/// live on it).
pub open spec fn layer_lists(nodes: Seq<NodeView>, layer: int) -> Seq<Seq<usize>> {
    Seq::new(
        nodes.len(),
        |j: int|
            if 0 <= layer <= nodes[j].max_layer {
                nodes[j].connections[layer]
            } else {
                Seq::empty()
            },
    )
}

/// Replacing one list on layer `lc` leaves the lists of every other layer
/// as they were.
proof fn lemma_layer_lists_set(nodes: Seq<NodeView>, i: int, lc: int, list: Seq<usize>, l: int)
    requires
        0 <= i < nodes.len(),
        0 <= lc <= nodes[i].max_layer,
        nodes[i].connections.len() == nodes[i].max_layer + 1,
        l != lc,
    ensures
        layer_lists(set_list(nodes, i, lc, list), l) == layer_lists(nodes, l),
{
    assert(layer_lists(set_list(nodes, i, lc, list), l) =~= layer_lists(nodes, l));
}

/// Appending a node keeps how the existing nodes were linked on `layer`.
proof fn lemma_linked_on_layer_push<F: Fn(&[u32], &[u32], DistanceMetric) -> u32>(
    old_nodes: Seq<NodeView>,
    nodes: Seq<NodeView>,
    x: NodeView,
    new_list: Seq<usize>,
    vectors: Seq<Seq<u32>>,
    metric: DistanceMetric,
    config: HnswConfig,
    f: F,
    query: &[u32],
    layer: int,
    entry: int,
    c: Seq<SearchResult>,
)
    requires
        nodes.len() == old_nodes.len(),
        linked_on_layer(old_nodes, layer_lists(nodes, layer), new_list, vectors, metric, config, f, query, layer, entry, c),
    ensures
        linked_on_layer(old_nodes, layer_lists(nodes.push(x), layer), new_list, vectors, metric, config, f, query, layer, entry, c),
{
    let a = layer_lists(nodes, layer);
    let b = layer_lists(nodes.push(x), layer);
    let n = old_nodes.len() as int;
    let limit = degree_limit(config, layer);
    assert forall|j: int|
        0 <= j < n && layer <= old_nodes[j].max_layer implies if new_list.contains(j as usize) {
            back_linked(vectors, metric, f, j, n, limit, old_nodes[j].connections[layer], #[trigger] b[j])
        } else {
            b[j] == old_nodes[j].connections[layer]
        } by {
        assert(nodes.push(x)[j] == nodes[j]);
        assert(b[j] == a[j]);
    }
}

/// `cands` pairs each entry of `grown` with a distance that `f` returned
/// between node `j` and that entry.
pub open spec fn pruning_candidates<F: Fn(&[u32], &[u32], DistanceMetric) -> u32>(
    vectors: Seq<Seq<u32>>,
    metric: DistanceMetric,
    f: F,
    j: int,
    grown: Seq<usize>,
    cands: Seq<SearchResult>,
) -> bool {
    &&& cands.len() == grown.len()
    &&& forall|t: int|
        0 <= t < cands.len() ==> cands[t].id == grown[t] as int && #[trigger] returned_pair_distance(
            f,
            vectors[j],
            vectors[grown[t] as int],
            metric,
            cands[t].distance,
        )
}

/// Node `j`, chosen as a neighbour of the new node `n`, links back to it:
/// its list gains `n` when that stays within `limit`, and is otherwise
/// the diversity selection, at most `limit`, of its old links and `n`, by
/// their distances to `j`.
pub open spec fn back_linked<F: Fn(&[u32], &[u32], DistanceMetric) -> u32>(
    vectors: Seq<Seq<u32>>,
    metric: DistanceMetric,
    f: F,
    j: int,
    n: int,
    limit: int,
    old_list: Seq<usize>,
    new_list: Seq<usize>,
) -> bool {
    let grown = old_list.push(n as usize);
    if grown.len() <= limit {
        new_list == grown
    } else {
        exists|cands: Seq<SearchResult>|
            #[trigger] pruning_candidates(vectors, metric, f, j, grown, cands) && diverse_selection(
                vectors,
                metric,
                f,
                cands,
                limit as nat,
                new_list,
            )
    }
}

/// How inserting the node at position `n` (the length of `old_nodes`) with
/// the vector `query` linked it on `layer`: a layer search from `entry`
/// (with room for `ef_construction`) found `c`; the new node's list there,
/// `new_list`, is the diversity selection of `c`; every node it picked
/// links back to it, and every other node keeps its list (`lists` are the
/// lists after the insertion, by position).
pub open spec fn linked_on_layer<F: Fn(&[u32], &[u32], DistanceMetric) -> u32>(
    old_nodes: Seq<NodeView>,
    lists: Seq<Seq<usize>>,
    new_list: Seq<usize>,
    vectors: Seq<Seq<u32>>,
    metric: DistanceMetric,
    config: HnswConfig,
    f: F,
    query: &[u32],
    layer: int,
    entry: int,
    c: Seq<SearchResult>,
) -> bool {
    let n = old_nodes.len() as int;
    let limit = degree_limit(config, layer);
    &&& 0 <= entry < n
    &&& layer_search(old_nodes, vectors, metric, f, query, entry, config.ef_construction as nat, layer, c)
    &&& diverse_selection(vectors, metric, f, c, limit as nat, new_list)
    &&& forall|j: int|
        0 <= j < n && layer <= old_nodes[j].max_layer ==> if new_list.contains(j as usize) {
            back_linked(vectors, metric, f, j, n, limit, old_nodes[j].connections[layer], #[trigger] lists[j])
        } else {
            lists[j] == old_nodes[j].connections[layer]
        }
}

/// The greedy descent from `entries[top]` down to `entries[bottom]`: on
/// each layer `l` with `bottom < l <= top`, a layer search from
/// `entries[l]` with room for one node found `found[l]`, and the descent
/// goes on from the node it found: `entries[l - 1]`.
pub open spec fn greedy_descent<F: Fn(&[u32], &[u32], DistanceMetric) -> u32>(
    nodes: Seq<NodeView>,
    vectors: Seq<Seq<u32>>,
    metric: DistanceMetric,
    f: F,
    query: &[u32],
    entries: Seq<int>,
    found: Seq<Seq<SearchResult>>,
    top: int,
    bottom: int,
) -> bool {
    &&& 0 <= bottom <= top
    &&& top < entries.len()
    &&& top < found.len()
    &&& forall|l: int|
        #![trigger found[l]]
        bottom < l <= top ==> layer_search(nodes, vectors, metric, f, query, entries[l], 1, l, found[l]) && entries[l - 1]
            == found[l][0].id as int
}

/// How inserting `query` with the drawn layer `insert_layer` into the
/// graph `old` gave the nodes `nodes` (the new node at position
/// `old.nodes.len()`): a greedy descent from the entry point over the
/// layers above `insert_layer` (`entries`, `found`); then, on each layer `l`
/// from the lower of `insert_layer` and the top layer down to 0, a layer
/// search from `entries[l]` found `found[l]` and the new node was linked as
/// `linked_on_layer` says; the search of the layer below starts from a
/// nearest node of `found[l]`.
pub open spec fn inserted_links<F: Fn(&[u32], &[u32], DistanceMetric) -> u32>(
    old: HnswView,
    nodes: Seq<NodeView>,
    vectors: Seq<Seq<u32>>,
    f: F,
    query: &[u32],
    insert_layer: nat,
    entries: Seq<int>,
    found: Seq<Seq<SearchResult>>,
) -> bool {
    let n = old.nodes.len() as int;
    let low = lower_of(old.max_layer, insert_layer) as int;
    &&& old.entry_point == Some(entries[old.max_layer as int] as nat)
    &&& greedy_descent(old.nodes, vectors, old.metric, f, query, entries, found, old.max_layer as int, low)
    &&& forall|l: int|
        #![trigger found[l]]
        0 <= l <= low ==> linked_on_layer(
            old.nodes,
            layer_lists(nodes, l),
            nodes[n].connections[l],
            vectors,
            old.metric,
            old.config,
            f,
            query,
            l,
            entries[l],
            found[l],
        )
    &&& forall|l: int|
        #![trigger found[l]]
        0 < l <= low ==> continues_from_nearest(found[l], entries[l - 1])
}

/// `next` is the node of a nearest entry of `c`.
pub open spec fn continues_from_nearest(c: Seq<SearchResult>, next: int) -> bool {
    exists|p: int| 0 <= p < c.len() && nearest_of(c, #[trigger] c[p]) && next == c[p].id as int
}

/// Two graphs that agree on the nodes' layers and on the lists of `layer`
/// give the same layer searches.
proof fn lemma_layer_search_same<F: Fn(&[u32], &[u32], DistanceMetric) -> u32>(
    n1: Seq<NodeView>,
    n2: Seq<NodeView>,
    vectors: Seq<Seq<u32>>,
    metric: DistanceMetric,
    f: F,
    query: &[u32],
    entry: int,
    ef: nat,
    layer: int,
    res: Seq<SearchResult>,
)
    requires
        n1.len() == n2.len(),
        forall|j: int| 0 <= j < n1.len() ==> #[trigger] n1[j].max_layer == n2[j].max_layer,
        forall|j: int| 0 <= j < n1.len() && layer <= n1[j].max_layer ==> #[trigger] n1[j].connections[layer] == n2[j].connections[layer],
        layer_search(n1, vectors, metric, f, query, entry, ef, layer, res),
    ensures
        layer_search(n2, vectors, metric, f, query, entry, ef, layer, res),
{
    assert forall|a: int, b: int| #[trigger] linked(n1, layer, a, b) <==> linked(n2, layer, a, b) by {
        if 0 <= a < n1.len() {
            assert(n1[a].max_layer == n2[a].max_layer);
        }
    }
    assert forall|p: Seq<int>| #[trigger] is_walk(n1, layer, p) <==> is_walk(n2, layer, p) by {
        if is_walk(n1, layer, p) {
            assert forall|i: int| 0 <= i < p.len() - 1 implies #[trigger] linked(n2, layer, p[i], p[i + 1]) by {
                assert(linked(n1, layer, p[i], p[i + 1]));
            }
        }
        if is_walk(n2, layer, p) {
            assert forall|i: int| 0 <= i < p.len() - 1 implies #[trigger] linked(n1, layer, p[i], p[i + 1]) by {
                assert(linked(n2, layer, p[i], p[i + 1]));
            }
        }
    }
    assert forall|x: int| #[trigger] reachable(n1, layer, entry, x) <==> reachable(n2, layer, entry, x) by {
        if reachable(n1, layer, entry, x) {
            let p = choose|p: Seq<int>| #[trigger] is_walk(n1, layer, p) && p[0] == entry && p.last() == x;
            assert(is_walk(n2, layer, p));
        }
        if reachable(n2, layer, entry, x) {
            let p = choose|p: Seq<int>| #[trigger] is_walk(n2, layer, p) && p[0] == entry && p.last() == x;
            assert(is_walk(n1, layer, p));
        }
    }
    assert(reachable_set(n1, layer, entry) =~= reachable_set(n2, layer, entry));
    assert forall|t: int| 0 <= t < res.len() implies #[trigger] reached_node(n2, vectors, metric, f, query, entry, layer, res[t]) by {
        assert(reached_node(n1, vectors, metric, f, query, entry, layer, res[t]));
        assert(n1[res[t].id as int].max_layer == n2[res[t].id as int].max_layer);
    }
    let (v, ds) = choose|v: Set<int>, ds: Map<int, u32>| #[trigger] kept_nearest(n1, vectors, metric, f, query, entry, layer, res, v, ds);
    assert forall|t: int| 0 <= t < res.len() implies v.contains(#[trigger] res[t].id as int) && expanded(n2, layer, v, res[t].id as int) by {
        assert(reached_node(n1, vectors, metric, f, query, entry, layer, res[t]));
        assert(v.contains(res[t].id as int) && expanded(n1, layer, v, res[t].id as int));
        assert(n1[res[t].id as int].connections[layer] == n2[res[t].id as int].connections[layer]);
    }
    assert(kept_nearest(n2, vectors, metric, f, query, entry, layer, res, v, ds));
}

/// Law: on a layer where every node reaches every other, a layer search
/// with room for all nodes is exhaustive: it returns each node exactly
/// once.
pub proof fn lemma_connected_layer_search_is_exhaustive<F: Fn(&[u32], &[u32], DistanceMetric) -> u32>(
    nodes: Seq<NodeView>,
    vectors: Seq<Seq<u32>>,
    metric: DistanceMetric,
    f: F,
    query: &[u32],
    entry: int,
    ef: nat,
    layer: int,
    c: Seq<SearchResult>,
)
    requires
        layer_connected(nodes, layer),
        nodes.len() <= ef,
        layer_search(nodes, vectors, metric, f, query, entry, ef, layer, c),
    ensures
        c.len() == nodes.len(),
        distinct_ids(c),
        forall|x: int| #[trigger] names_candidate(c, x) <==> 0 <= x < nodes.len(),
{
    let r = reachable_set(nodes, layer, entry);
    assert(reached_node(nodes, vectors, metric, f, query, entry, layer, c[0]));
    let p0 = choose|p: Seq<int>| #[trigger] is_walk(nodes, layer, p) && p[0] == entry && p.last() == c[0].id as int;
    assert(0 <= entry < nodes.len());
    let all = vstd::set_lib::set_int_range(0, nodes.len() as int);
    assert(r =~= all) by {
        assert forall|x: int| 0 <= x < nodes.len() implies r.contains(x) by {
            assert(reachable(nodes, layer, entry, x));
        }
    }
    vstd::set_lib::lemma_int_range(0, nodes.len() as int);
    assert(r.len() == nodes.len());
    lemma_ids_set(c);
    assert forall|x: int| #[trigger] names_candidate(c, x) <==> 0 <= x < nodes.len() by {
        assert(r.contains(x) <==> names_candidate(c, x));
        assert(all.contains(x) <==> 0 <= x < nodes.len());
    }
    assert(ids_set(c) =~= all) by {
        assert forall|x: int| ids_set(c).contains(x) <==> all.contains(x) by {
            assert(r.contains(x) <==> names_candidate(c, x));
        }
    }
}

/// Law: while no list on layer 0 is full, inserting a node keeps every
/// node reachable from every other on layer 0. `old_nodes` is the graph
/// before the insertion and `nodes` after it, linked as `linked_on_layer`
/// says.
pub proof fn lemma_insert_keeps_layer_zero_connected<F: Fn(&[u32], &[u32], DistanceMetric) -> u32>(
    old_nodes: Seq<NodeView>,
    nodes: Seq<NodeView>,
    vectors: Seq<Seq<u32>>,
    metric: DistanceMetric,
    config: HnswConfig,
    f: F,
    query: &[u32],
    entry: int,
    c: Seq<SearchResult>,
)
    requires
        old_nodes.len() >= 1,
        nodes.len() == old_nodes.len() + 1,
        linked_on_layer(
            old_nodes,
            layer_lists(nodes, 0),
            nodes[old_nodes.len() as int].connections[0],
            vectors,
            metric,
            config,
            f,
            query,
            0,
            entry,
            c,
        ),
        layer_connected(old_nodes, 0),
        config.m_max_zero >= 1,
        forall|j: int| 0 <= j < old_nodes.len() ==> #[trigger] old_nodes[j].connections[0].len() < config.m_max_zero,
    ensures
        layer_connected(nodes, 0),
{
    let n = old_nodes.len() as int;
    let nl = nodes[n].connections[0];
    let lists = layer_lists(nodes, 0);
    let limit = degree_limit(config, 0);
    lemma_diverse_selection_facts(vectors, metric, f, c, limit as nat, nl);
    let j0 = nl[0] as int;
    assert(names_candidate(c, j0));
    let w = choose|w: int| 0 <= w < c.len() && c[w].id == j0;
    assert(reached_node(old_nodes, vectors, metric, f, query, entry, 0, c[w]));
    assert(0 <= j0 < n);
    // every old link stays, and the new node and `j0` link to each other
    assert forall|x: int, y: int| #[trigger] linked(old_nodes, 0, x, y) implies linked(nodes, 0, x, y) by {
        assert(lists[x] == nodes[x].connections[0]);
        let ol = old_nodes[x].connections[0];
        if nl.contains(x as usize) {
            assert(back_linked(vectors, metric, f, x, n, limit, ol, lists[x]));
            assert(lists[x] == ol.push(n as usize));
            let t = choose|t: int| 0 <= t < ol.len() && ol[t] == y as usize;
            assert(lists[x][t] == y as usize);
        } else {
            assert(lists[x] == ol);
        }
    }
    assert(linked(nodes, 0, n, j0)) by {
        assert(nl[0] == j0 as usize);
    }
    assert(linked(nodes, 0, j0, n)) by {
        assert(nl.contains(j0 as usize));
        assert(lists[j0] == nodes[j0].connections[0]);
        let ol = old_nodes[j0].connections[0];
        assert(back_linked(vectors, metric, f, j0, n, limit, ol, lists[j0]));
        assert(lists[j0] == ol.push(n as usize));
        assert(lists[j0][ol.len() as int] == n as usize);
    }
    let from_new = Set::new(|x: int| reachable(nodes, 0, n, x));
    assert(from_new.contains(j0)) by {
        lemma_reach_start(nodes, 0, n);
        lemma_reach_step(nodes, 0, n, n, j0);
    }
    assert forall|a: int, b: int| from_new.contains(a) && #[trigger] linked(nodes, 0, a, b) implies from_new.contains(b) by {
        lemma_reach_step(nodes, 0, n, a, b);
    }
    assert forall|a: int, b: int| 0 <= a < nodes.len() && 0 <= b < nodes.len() implies #[trigger] reachable(nodes, 0, a, b) by {
        if a < n && b < n {
            assert(reachable(old_nodes, 0, a, b));
            lemma_reach_lift(old_nodes, nodes, 0, a, b);
        } else if a < n {
            assert(reachable(old_nodes, 0, a, j0));
            lemma_reach_lift(old_nodes, nodes, 0, a, j0);
            lemma_reach_step(nodes, 0, a, j0, n);
        } else if b < n {
            assert(reachable(old_nodes, 0, j0, b));
            lemma_reach_lift(old_nodes, nodes, 0, j0, b);
            lemma_reach_closed(nodes, 0, j0, from_new, b);
        } else {
            lemma_reach_start(nodes, 0, n);
        }
    }
}

/// Law: on a graph of at most `m_max_zero` nodes that keeps the graph
/// invariant, no layer-0 list is full, so an insertion into a graph of one
/// node, or one whose layer 0 is connected, leaves layer 0 connected: as
/// long as the index holds no more than `m_max_zero + 1` nodes, every node
/// can reach every other on layer 0.
pub proof fn lemma_small_graph_insert_keeps_layer_zero_connected<F: Fn(&[u32], &[u32], DistanceMetric) -> u32>(
    old_nodes: Seq<NodeView>,
    nodes: Seq<NodeView>,
    vectors: Seq<Seq<u32>>,
    metric: DistanceMetric,
    config: HnswConfig,
    f: F,
    query: &[u32],
    entry: int,
    c: Seq<SearchResult>,
)
    requires
        old_nodes.len() >= 1,
        old_nodes.len() <= config.m_max_zero,
        shapes_ok(old_nodes),
        links_ok(old_nodes),
        lists_simple(old_nodes),
        nodes.len() == old_nodes.len() + 1,
        linked_on_layer(
            old_nodes,
            layer_lists(nodes, 0),
            nodes[old_nodes.len() as int].connections[0],
            vectors,
            metric,
            config,
            f,
            query,
            0,
            entry,
            c,
        ),
        old_nodes.len() == 1 || layer_connected(old_nodes, 0),
    ensures
        layer_connected(nodes, 0),
{
    let n = old_nodes.len() as int;
    if n == 1 {
        assert forall|a: int, b: int| 0 <= a < n && 0 <= b < n implies #[trigger] reachable(old_nodes, 0, a, b) by {
            lemma_reach_start(old_nodes, 0, a);
        }
    }
    assert forall|j: int| 0 <= j < n implies #[trigger] old_nodes[j].connections[0].len() < config.m_max_zero by {
        let list = old_nodes[j].connections[0];
        let ints = list.map_values(|x: usize| x as int);
        assert(layer_links_ok(old_nodes, 0));
        assert(list_simple(list, j));
        assert(ints.no_duplicates()) by {
            assert forall|a: int, b: int| 0 <= a < ints.len() && 0 <= b < ints.len() && a != b implies ints[a] != ints[b] by {
                assert(list[a] != list[b]);
            }
        }
        ints.unique_seq_to_set();
        let others = vstd::set_lib::set_int_range(0, n).remove(j);
        vstd::set_lib::lemma_int_range(0, n);
        assert(ints.to_set().subset_of(others)) by {
            assert forall|x: int| ints.to_set().contains(x) implies others.contains(x) by {
                let t = choose|t: int| 0 <= t < ints.len() && ints[t] == x;
                assert(ints[t] == list[t] as int);
                assert(old_nodes[j].connections[0][t] == list[t]);
            }
        }
        vstd::set_lib::lemma_len_subset(ints.to_set(), others);
    }
    lemma_insert_keeps_layer_zero_connected(old_nodes, nodes, vectors, metric, config, f, query, entry, c);
}

/// Law: in an index that keeps the graph invariant (which `new` sets up
/// and `insert` keeps), no node links to more than `config.m` nodes on a
/// layer above 0, nor to more than `config.m_max_zero` nodes on layer 0.
pub proof fn lemma_link_lists_within_config(v: HnswView)
    requires
        v.wf(),
    ensures
        forall|j: int, l: int|
            0 <= j < v.nodes.len() && 1 <= l <= v.nodes[j].max_layer ==> #[trigger] v.nodes[j].connections[l].len() <= v.config.m,
        forall|j: int| 0 <= j < v.nodes.len() ==> #[trigger] v.nodes[j].connections[0].len() <= v.config.m_max_zero,
{
    assert forall|j: int, l: int| 0 <= j < v.nodes.len() && 1 <= l <= v.nodes[j].max_layer implies #[trigger] v.nodes[j].connections[l].len()
        <= v.config.m by {
        assert(v.nodes[j].connections[l].len() <= degree_limit(v.config, l));
    }
    assert forall|j: int| 0 <= j < v.nodes.len() implies #[trigger] v.nodes[j].connections[0].len() <= v.config.m_max_zero by {
        assert(v.nodes[j].connections[0].len() <= degree_limit(v.config, 0));
    }
}

/// Law: on each layer `l` where an insertion linked the new node, if the
/// nodes reachable from where that layer's search started number at most
/// `config.ef_construction`, the search found every one of them, each
/// once, and the new node's list there is the diversity selection of all
/// of them, at most `config.m` (on layer 0, `config.m_max_zero`) long.
pub proof fn lemma_insert_links_among_all_reachable<F: Fn(&[u32], &[u32], DistanceMetric) -> u32>(
    old: HnswView,
    nodes: Seq<NodeView>,
    vectors: Seq<Seq<u32>>,
    f: F,
    query: &[u32],
    insert_layer: nat,
    entries: Seq<int>,
    found: Seq<Seq<SearchResult>>,
    l: int,
)
    requires
        inserted_links(old, nodes, vectors, f, query, insert_layer, entries, found),
        0 <= l <= lower_of(old.max_layer, insert_layer),
        reachable_set(old.nodes, l, entries[l]).len() <= old.config.ef_construction,
    ensures
        distinct_ids(found[l]),
        forall|x: int| #[trigger] names_candidate(found[l], x) <==> reachable_set(old.nodes, l, entries[l]).contains(x),
        diverse_selection(
            vectors,
            old.metric,
            f,
            found[l],
            (if l == 0 { old.config.m_max_zero } else { old.config.m }) as nat,
            nodes[old.nodes.len() as int].connections[l],
        ),
        nodes[old.nodes.len() as int].connections[l].len() <= if l == 0 { old.config.m_max_zero } else { old.config.m },
{
    let n = old.nodes.len() as int;
    assert(linked_on_layer(
        old.nodes,
        layer_lists(nodes, l),
        nodes[n].connections[l],
        vectors,
        old.metric,
        old.config,
        f,
        query,
        l,
        entries[l],
        found[l],
    ));
    let limit = degree_limit(old.config, l);
    assert(limit == if l == 0 { old.config.m_max_zero as int } else { old.config.m as int });
    lemma_diverse_selection_facts(vectors, old.metric, f, found[l], limit as nat, nodes[n].connections[l]);
}

/// The nodes named by `rs`.
pub open spec fn ids_set(rs: Seq<SearchResult>) -> Set<int> {
    rs.map_values(|r: SearchResult| r.id as int).to_set()
}

proof fn lemma_ids_set(rs: Seq<SearchResult>)
    ensures
        ids_set(rs).finite(),
        forall|x: int| #[trigger] ids_set(rs).contains(x) <==> names_candidate(rs, x),
        distinct_ids(rs) ==> ids_set(rs).len() == rs.len(),
{
    let m = rs.map_values(|r: SearchResult| r.id as int);
    vstd::seq_lib::seq_to_set_is_finite(m);
    assert forall|x: int| #[trigger] ids_set(rs).contains(x) <==> names_candidate(rs, x) by {
        if names_candidate(rs, x) {
            let w = choose|w: int| 0 <= w < rs.len() && rs[w].id == x;
            assert(m[w] == x);
        }
        if ids_set(rs).contains(x) {
            let w = choose|w: int| 0 <= w < m.len() && m[w] == x;
            assert(rs[w].id == x);
        }
    }
    if distinct_ids(rs) {
        assert(m.no_duplicates()) by {
            assert forall|a: int, b: int| 0 <= a < m.len() && 0 <= b < m.len() && a != b implies m[a] != m[b] by {
                if a < b {
                    assert(rs[a].id != rs[b].id);
                } else {
                    assert(rs[b].id != rs[a].id);
                }
            }
        }
        m.unique_seq_to_set();
    }
}

/// A subset of a finite set that is at least as large is the whole set.
proof fn lemma_subset_full(a: Set<int>, b: Set<int>)
    requires
        b.finite(),
        a.subset_of(b),
        a.len() >= b.len(),
    ensures
        a =~= b,
{
    if !(a =~= b) {
        let x = choose|x: int| b.contains(x) && !a.contains(x);
        vstd::set_lib::lemma_len_subset(a, b.remove(x));
    }
}

/// The position of a nearest entry of the non-empty `v`.
fn position_of_nearest(v: &Vec<SearchResult>) -> (p: usize)
    requires
        v@.len() > 0,
    ensures
        p < v@.len(),
        forall|t: int| 0 <= t < v@.len() ==> order_key(v@[p as int].distance) <= order_key(#[trigger] v@[t].distance),
{
    let mut p: usize = 0;
    let mut t: usize = 1;
    while t < v.len()
        invariant
            0 < t <= v@.len(),
            p < t,
            forall|u: int| 0 <= u < t ==> order_key(v@[p as int].distance) <= order_key(#[trigger] v@[u].distance),
        decreases v@.len() - t,
    {
        if distance_key(v[t].distance) < distance_key(v[p].distance) {
            p = t;
        }
        t = t + 1;
    }
    p
}

/// The position of a farthest entry of the non-empty `v`.
fn position_of_farthest(v: &Vec<SearchResult>) -> (p: usize)
    requires
        v@.len() > 0,
    ensures
        p < v@.len(),
        forall|t: int| 0 <= t < v@.len() ==> order_key(#[trigger] v@[t].distance) <= order_key(v@[p as int].distance),
{
    let mut p: usize = 0;
    let mut t: usize = 1;
    while t < v.len()
        invariant
            0 < t <= v@.len(),
            p < t,
            forall|u: int| 0 <= u < t ==> order_key(#[trigger] v@[u].distance) <= order_key(v@[p as int].distance),
        decreases v@.len() - t,
    {
        if distance_key(v[t].distance) > distance_key(v[p].distance) {
            p = t;
        }
        t = t + 1;
    }
    p
}

impl HnswIndex {
    /// `r` names a node (by position) that lives on `layer`, with a distance
    /// that `f` returned for it.
    spec fn found<F: Fn(&[u32], &[u32], DistanceMetric) -> u32>(
        &self,
        f: F,
        query: &[u32],
        layer: int,
        r: SearchResult,
    ) -> bool {
        &&& r.id < self.nodes@.len()
        &&& self.nodes@[r.id as int]@.max_layer >= layer
        &&& returned_distance(f, query, self.buffer@.vectors[r.id as int], self.metric, r.distance)
    }

    /// Explores one layer greedily from `entry_point`, keeping the `ef`
    /// nearest nodes found (at least one). Results name nodes by position.
    fn search_layer<F: Fn(&[u32], &[u32], DistanceMetric) -> u32>(
        &self,
        query: &[u32],
        entry_point: usize,
        ef: usize,
        layer: usize,
        distance: &F,
    ) -> (res: Vec<SearchResult>)
        requires
            self.buffer.wf(),
            self.nodes@.len() <= self.buffer@.len(),
            shapes_ok(nodes_view(self.nodes@)),
            layer_links_ok(nodes_view(self.nodes@), layer as int),
            entry_point < self.nodes@.len(),
            self.nodes@[entry_point as int]@.max_layer >= layer,
            forall|a: &[u32], b: &[u32], m: DistanceMetric| #[trigger] distance.requires((a, b, m)),
        ensures
            1 <= res@.len(),
            res@.len() <= if ef < 1 { 1 } else { ef },
            forall|t: int| 0 <= t < res@.len() ==> #[trigger] self.found(*distance, query, layer as int, res@[t]),
            forall|a: int, b: int| 0 <= a < b < res@.len() ==> #[trigger] res@[a].id != #[trigger] res@[b].id,
            layer_search(
                nodes_view(self.nodes@),
                self.buffer@.vectors,
                self.metric,
                *distance,
                query,
                entry_point as int,
                ef as nat,
                layer as int,
                res@,
            ),
    {
        let n = self.nodes.len();
        let ghost nv = nodes_view(self.nodes@);
        let ghost lay = layer as int;
        let ghost ent = entry_point as int;
        let ghost vectors = self.buffer@.vectors;
        let mut visited: Vec<bool> = Vec::new();
        let mut i: usize = 0;
        while i < n
            invariant
                i <= n,
                visited@.len() == i,
                forall|u: int| 0 <= u < i ==> !#[trigger] visited@[u],
            decreases n - i,
        {
            visited.push(false);
            i = i + 1;
        }
        visited.set(entry_point, true);
        let ghost mut vset: Set<int> = set![entry_point as int];
        let entry_vec = self.buffer.get_vector(entry_point).unwrap();
        let entry_dist = distance(query, entry_vec, self.metric);
        let initial = SearchResult { id: entry_point as u64, distance: entry_dist };
        let mut candidates: Vec<SearchResult> = Vec::new();
        candidates.push(initial);
        let mut top: Vec<SearchResult> = Vec::new();
        top.push(initial);
        let ghost mut dmap: Map<int, u32> = map![entry_point as int => entry_dist];
        proof {
            vstd::set_lib::lemma_int_range(0, n as int);
            vstd::set_lib::lemma_len_subset(vset, vstd::set_lib::set_int_range(0, n as int));
            lemma_reach_start(nv, lay, ent);
            assert(returned_distance(*distance, query, vectors[ent], self.metric, entry_dist));
            assert(top@[0] == initial);
            assert(candidates@[0] == initial);
            assert(names_candidate(top@, ent));
            assert(names_candidate(candidates@, ent));
            assert(order_key(top@[0].distance) <= order_key(entry_dist));
        }
        loop
            invariant
                self.buffer.wf(),
                self.nodes@.len() <= self.buffer@.len(),
                nv == nodes_view(self.nodes@),
                vectors == self.buffer@.vectors,
                lay == layer,
                ent == entry_point,
                entry_point < n,
                shapes_ok(nodes_view(self.nodes@)),
                layer_links_ok(nodes_view(self.nodes@), layer as int),
                forall|a: &[u32], b: &[u32], m: DistanceMetric| #[trigger] distance.requires((a, b, m)),
                n == self.nodes@.len(),
                visited@.len() == n,
                vset.finite(),
                vset.subset_of(vstd::set_lib::set_int_range(0, n as int)),
                vset.len() <= n,
                vset.contains(ent),
                forall|u: int| 0 <= u < n ==> (#[trigger] visited@[u] <==> vset.contains(u)),
                forall|x: int| vset.contains(x) ==> #[trigger] reachable(nv, lay, ent, x),
                1 <= top@.len() <= if ef < 1 { 1 } else { ef },
                forall|t: int| 0 <= t < top@.len() ==> #[trigger] self.found(*distance, query, layer as int, top@[t]),
                forall|t: int| 0 <= t < top@.len() ==> vset.contains(#[trigger] top@[t].id as int),
                forall|a: int, b: int| 0 <= a < b < top@.len() ==> #[trigger] top@[a].id != #[trigger] top@[b].id,
                forall|t: int| 0 <= t < candidates@.len() ==> #[trigger] self.found(*distance, query, layer as int, candidates@[t]),
                forall|t: int| 0 <= t < candidates@.len() ==> vset.contains(#[trigger] candidates@[t].id as int),
                returned_distance(*distance, query, vectors[ent], self.metric, entry_dist),
                exists|t: int| 0 <= t < top@.len() && order_key(#[trigger] top@[t].distance) <= order_key(entry_dist),
                top@.len() < ef ==> forall|x: int| vset.contains(x) ==> #[trigger] names_candidate(top@, x),
                top@.len() < ef ==> forall|x: int|
                    #![trigger expanded(nv, lay, vset, x)]
                    vset.contains(x) ==> names_candidate(candidates@, x) || expanded(nv, lay, vset, x),
                forall|x: int|
                    #[trigger] vset.contains(x) ==> dmap.contains_key(x) && returned_distance(
                        *distance,
                        query,
                        vectors[x],
                        self.metric,
                        dmap[x],
                    ),
                forall|u: int| #![trigger top@[u]] 0 <= u < top@.len() ==> top@[u].distance == dmap[top@[u].id as int],
                forall|u: int|
                    #![trigger candidates@[u]]
                    0 <= u < candidates@.len() ==> candidates@[u].distance == dmap[candidates@[u].id as int],
                forall|x: int, u: int|
                    vset.contains(x) && !names_candidate(top@, x) && 0 <= u < top@.len() ==> order_key(#[trigger] dmap[x])
                        >= order_key(#[trigger] top@[u].distance),
                forall|u: int|
                    #![trigger top@[u]]
                    0 <= u < top@.len() ==> names_candidate(candidates@, top@[u].id as int) || expanded(
                        nv,
                        lay,
                        vset,
                        top@[u].id as int,
                    ),
            ensures
                candidates@.len() == 0 || top@.len() == ef,
                forall|u: int| #![trigger top@[u]] 0 <= u < top@.len() ==> expanded(nv, lay, vset, top@[u].id as int),
            decreases (n - vset.len()) + candidates@.len(),
        {
            if candidates.len() == 0 {
                break;
            }
            let ci = position_of_nearest(&candidates);
            let ghost before = candidates@;
            let current = candidates.swap_remove(ci);
            proof {
                assert forall|t: int| 0 <= t < candidates@.len() implies #[trigger] self.found(*distance, query, layer as int, candidates@[t])
                    && vset.contains(candidates@[t].id as int) && candidates@[t].distance == dmap[candidates@[t].id as int] by {
                    if t == ci {
                        assert(candidates@[t] == before[before.len() - 1]);
                    } else {
                        assert(candidates@[t] == before[t]);
                    }
                }
                assert forall|x: int| names_candidate(before, x) && x != current.id implies names_candidate(candidates@, x) by {
                    let w = choose|w: int| 0 <= w < before.len() && before[w].id == x;
                    if w == before.len() - 1 {
                        assert(candidates@[ci as int] == before[w]);
                    } else {
                        assert(candidates@[w] == before[w]);
                    }
                }
            }
            let ghost measure = (n - vset.len()) + candidates@.len();
            let wi = position_of_farthest(&top);
            if distance_key(current.distance) > distance_key(top[wi].distance) && top.len() == ef {
                proof {
                    assert forall|u: int| #![trigger top@[u]] 0 <= u < top@.len() implies expanded(nv, lay, vset, top@[u].id as int) by {
                        if !expanded(nv, lay, vset, top@[u].id as int) {
                            assert(names_candidate(before, top@[u].id as int));
                            let w = choose|w: int| 0 <= w < before.len() && before[w].id == top@[u].id;
                            assert(before[w].distance == dmap[before[w].id as int]);
                            assert(order_key(before[ci as int].distance) <= order_key(before[w].distance));
                            assert(order_key(top@[u].distance) <= order_key(top@[wi as int].distance));
                        }
                    }
                }
                break;
            }
            let cur = current.id as usize;
            proof {
                assert(self.found(*distance, query, layer as int, before[ci as int]));
                assert(nv[cur as int] == self.nodes@[cur as int]@);
                assert(nv[cur as int].connections.len() == nv[cur as int].max_layer + 1);
                assert(vset.contains(cur as int));
                if top@.len() < ef {
                    assert forall|x: int|
                        #![trigger expanded(nv, lay, vset, x)]
                        vset.contains(x) implies names_candidate(candidates@, x) || expanded(nv, lay, vset, x) || (x
                            == cur && forall|u: int| 0 <= u < 0 ==> vset.contains(#[trigger] nv[x].connections[lay][u] as int)) by {
                        if names_candidate(before, x) && x != current.id {
                        }
                    }
                }
            }
            proof {
                assert forall|u: int|
                    #![trigger top@[u]]
                    0 <= u < top@.len() implies names_candidate(candidates@, top@[u].id as int) || expanded(
                        nv,
                        lay,
                        vset,
                        top@[u].id as int,
                    ) || (top@[u].id == cur && forall|w: int| 0 <= w < 0 ==> vset.contains(#[trigger] nv[cur as int].connections[lay][w] as int)) by {
                    if names_candidate(before, top@[u].id as int) && top@[u].id != current.id {
                    }
                }
            }
            let nbrs_len = self.nodes[cur].connections[layer].len();
            let mut t: usize = 0;
            while t < nbrs_len
                invariant
                    self.buffer.wf(),
                    self.nodes@.len() <= self.buffer@.len(),
                    nv == nodes_view(self.nodes@),
                    vectors == self.buffer@.vectors,
                    lay == layer,
                    ent == entry_point,
                    shapes_ok(nodes_view(self.nodes@)),
                    layer_links_ok(nodes_view(self.nodes@), layer as int),
                    forall|a: &[u32], b: &[u32], m: DistanceMetric| #[trigger] distance.requires((a, b, m)),
                    n == self.nodes@.len(),
                    cur < n,
                    cur == current.id,
                    self.nodes@[cur as int]@.max_layer >= layer,
                    layer < self.nodes@[cur as int].connections@.len(),
                    nbrs_len == self.nodes@[cur as int].connections@[layer as int]@.len(),
                    t <= nbrs_len,
                    visited@.len() == n,
                    vset.finite(),
                    vset.subset_of(vstd::set_lib::set_int_range(0, n as int)),
                    vset.len() <= n,
                    vset.contains(ent),
                    vset.contains(cur as int),
                    forall|u: int| 0 <= u < n ==> (#[trigger] visited@[u] <==> vset.contains(u)),
                    forall|x: int| vset.contains(x) ==> #[trigger] reachable(nv, lay, ent, x),
                    1 <= top@.len() <= if ef < 1 { 1 } else { ef },
                    forall|u: int| 0 <= u < top@.len() ==> #[trigger] self.found(*distance, query, layer as int, top@[u]),
                    forall|u: int| 0 <= u < top@.len() ==> vset.contains(#[trigger] top@[u].id as int),
                    forall|a: int, b: int| 0 <= a < b < top@.len() ==> #[trigger] top@[a].id != #[trigger] top@[b].id,
                    forall|u: int| 0 <= u < candidates@.len() ==> #[trigger] self.found(*distance, query, layer as int, candidates@[u]),
                    forall|u: int| 0 <= u < candidates@.len() ==> vset.contains(#[trigger] candidates@[u].id as int),
                    (n - vset.len()) + candidates@.len() <= measure,
                    returned_distance(*distance, query, vectors[ent], self.metric, entry_dist),
                    exists|u: int| 0 <= u < top@.len() && order_key(#[trigger] top@[u].distance) <= order_key(entry_dist),
                    top@.len() < ef ==> forall|x: int| vset.contains(x) ==> #[trigger] names_candidate(top@, x),
                    top@.len() < ef ==> forall|x: int|
                        #![trigger expanded(nv, lay, vset, x)]
                        vset.contains(x) ==> names_candidate(candidates@, x) || expanded(nv, lay, vset, x) || (x
                            == cur && forall|u: int| 0 <= u < t ==> vset.contains(#[trigger] nv[x].connections[lay][u] as int)),
                    forall|x: int|
                        #[trigger] vset.contains(x) ==> dmap.contains_key(x) && returned_distance(
                            *distance,
                            query,
                            vectors[x],
                            self.metric,
                            dmap[x],
                        ),
                    forall|u: int| #![trigger top@[u]] 0 <= u < top@.len() ==> top@[u].distance == dmap[top@[u].id as int],
                    forall|u: int|
                        #![trigger candidates@[u]]
                        0 <= u < candidates@.len() ==> candidates@[u].distance == dmap[candidates@[u].id as int],
                    forall|x: int, u: int|
                        vset.contains(x) && !names_candidate(top@, x) && 0 <= u < top@.len() ==> order_key(#[trigger] dmap[x])
                            >= order_key(#[trigger] top@[u].distance),
                    forall|u: int|
                        #![trigger top@[u]]
                        0 <= u < top@.len() ==> names_candidate(candidates@, top@[u].id as int) || expanded(
                            nv,
                            lay,
                            vset,
                            top@[u].id as int,
                        ) || (top@[u].id == cur && forall|w: int|
                            0 <= w < t ==> vset.contains(#[trigger] nv[cur as int].connections[lay][w] as int)),
                decreases nbrs_len - t,
            {
                let nb = self.nodes[cur].connections[layer][t];
                proof {
                    assert(nv[cur as int] == self.nodes@[cur as int]@);
                    assert(nv[cur as int].connections[layer as int][t as int] == nb);
                }
                let ghost old_v = vset;
                let ghost old_top = top@;
                let ghost old_cands = candidates@;
                let ghost old_d = dmap;
                if !visited[nb] {
                    visited.set(nb, true);
                    proof {
                        assert(!vset.contains(nb as int));
                        vset = vset.insert(nb as int);
                        vstd::set_lib::lemma_int_range(0, n as int);
                        vstd::set_lib::lemma_len_subset(vset, vstd::set_lib::set_int_range(0, n as int));
                        assert(nv[cur as int].connections[lay].contains(nb));
                        assert(linked(nv, lay, cur as int, nb as int));
                        lemma_reach_step(nv, lay, ent, cur as int, nb as int);
                    }
                    let v = self.buffer.get_vector(nb).unwrap();
                    let d = distance(query, v, self.metric);
                    let r = SearchResult { id: nb as u64, distance: d };
                    assert(self.found(*distance, query, layer as int, r));
                    proof {
                        dmap = dmap.insert(nb as int, d);
                        assert forall|x: int| #[trigger] vset.contains(x) implies dmap.contains_key(x) && returned_distance(
                            *distance,
                            query,
                            vectors[x],
                            self.metric,
                            dmap[x],
                        ) by {
                            if x != nb as int {
                                assert(old_v.contains(x));
                            }
                        }
                        assert forall|u: int| 0 <= u < old_top.len() implies #[trigger] old_top[u].id != nb by {
                            assert(old_v.contains(old_top[u].id as int));
                        }
                        assert forall|u: int| 0 <= u < old_cands.len() implies #[trigger] old_cands[u].id != nb by {
                            assert(old_v.contains(old_cands[u].id as int));
                        }
                    }
                    if top.len() < ef {
                        top.push(r);
                        candidates.push(r);
                        proof {
                            assert forall|a: int, b: int| 0 <= a < b < top@.len() implies #[trigger] top@[a].id != #[trigger] top@[b].id by {
                                if b == top@.len() - 1 {
                                    assert(vset.contains(top@[a].id as int));
                                }
                            }
                            assert(names_candidate(top@, nb as int)) by {
                                assert(top@[top@.len() - 1] == r);
                            }
                            assert(names_candidate(candidates@, nb as int)) by {
                                assert(candidates@[candidates@.len() - 1] == r);
                            }
                            assert forall|x: int| names_candidate(old_top, x) implies names_candidate(top@, x) by {
                                let w = choose|w: int| 0 <= w < old_top.len() && old_top[w].id == x;
                                assert(top@[w] == old_top[w]);
                            }
                            assert forall|x: int| names_candidate(old_cands, x) implies names_candidate(candidates@, x) by {
                                let w = choose|w: int| 0 <= w < old_cands.len() && old_cands[w].id == x;
                                assert(candidates@[w] == old_cands[w]);
                            }
                            let tw = choose|u: int| 0 <= u < old_top.len() && order_key(#[trigger] old_top[u].distance) <= order_key(entry_dist);
                            assert(top@[tw] == old_top[tw]);
                            assert forall|u: int| #![trigger top@[u]] 0 <= u < top@.len() implies top@[u].distance == dmap[top@[u].id as int] by {
                                if u < old_top.len() {
                                    assert(top@[u] == old_top[u]);
                                    assert(old_top[u].id != nb);
                                }
                            }
                            assert forall|u: int|
                                #![trigger candidates@[u]]
                                0 <= u < candidates@.len() implies candidates@[u].distance == dmap[candidates@[u].id as int] by {
                                if u < old_cands.len() {
                                    assert(candidates@[u] == old_cands[u]);
                                    assert(old_cands[u].id != nb);
                                }
                            }
                            assert forall|x: int| vset.contains(x) implies #[trigger] names_candidate(top@, x) by {
                                if x != nb as int {
                                    assert(old_v.contains(x));
                                    assert(names_candidate(old_top, x));
                                }
                            }
                            assert forall|u: int| #![trigger top@[u]] 0 <= u < top@.len() implies (u < old_top.len() && top@[u]
                                == old_top[u]) || names_candidate(candidates@, top@[u].id as int) by {
                                if u < old_top.len() {
                                    assert(top@[u] == old_top[u]);
                                }
                            }
                        }
                    } else {
                        let wj = position_of_farthest(&top);
                        if distance_key(d) < distance_key(top[wj].distance) {
                            top.set(wj, r);
                            candidates.push(r);
                            proof {
                                assert forall|a: int, b: int| 0 <= a < b < top@.len() implies #[trigger] top@[a].id != #[trigger] top@[b].id by {
                                    if a == wj {
                                        assert(top@[b] == old_top[b]);
                                    } else if b == wj {
                                        assert(top@[a] == old_top[a]);
                                    } else {
                                        assert(top@[a] == old_top[a] && top@[b] == old_top[b]);
                                    }
                                }
                                assert forall|u: int| 0 <= u < top@.len() implies vset.contains(#[trigger] top@[u].id as int) by {
                                    if u != wj {
                                        assert(top@[u] == old_top[u]);
                                    }
                                }
                                let tw = choose|u: int| 0 <= u < old_top.len() && order_key(#[trigger] old_top[u].distance) <= order_key(entry_dist);
                                if tw == wj {
                                    assert(order_key(top@[tw].distance) <= order_key(entry_dist));
                                } else {
                                    assert(top@[tw] == old_top[tw]);
                                }
                                assert forall|u: int| #![trigger top@[u]] 0 <= u < top@.len() implies top@[u].distance == dmap[top@[u].id as int] by {
                                    if u != wj {
                                        assert(top@[u] == old_top[u]);
                                        assert(old_top[u].id != nb);
                                    }
                                }
                                assert forall|u: int|
                                    #![trigger candidates@[u]]
                                    0 <= u < candidates@.len() implies candidates@[u].distance == dmap[candidates@[u].id as int] by {
                                    if u < old_cands.len() {
                                        assert(candidates@[u] == old_cands[u]);
                                        assert(old_cands[u].id != nb);
                                    }
                                }
                                let e = old_top[wj as int].id as int;
                                assert(old_top[wj as int].distance == old_d[e]);
                                assert(order_key(d) < order_key(old_top[wj as int].distance));
                                assert forall|x: int, u: int|
                                    vset.contains(x) && !names_candidate(top@, x) && 0 <= u < top@.len() implies order_key(#[trigger] dmap[x])
                                        >= order_key(#[trigger] top@[u].distance) by {
                                    assert(names_candidate(top@, nb as int)) by {
                                        assert(top@[wj as int].id == nb);
                                    }
                                    assert(x != nb as int);
                                    assert(old_v.contains(x));
                                    assert(dmap[x] == old_d[x]);
                                    assert(order_key(old_top[u].distance) <= order_key(old_top[wj as int].distance));
                                    if u != wj {
                                        assert(top@[u] == old_top[u]);
                                    }
                                    if x != e {
                                        if names_candidate(old_top, x) {
                                            let w = choose|w: int| 0 <= w < old_top.len() && old_top[w].id == x;
                                            assert(w != wj);
                                            assert(top@[w] == old_top[w]);
                                            assert(names_candidate(top@, x));
                                        }
                                        assert(order_key(old_d[x]) >= order_key(old_top[wj as int].distance));
                                        assert(order_key(old_d[x]) >= order_key(old_top[u].distance));
                                    }
                                }
                                assert forall|u: int| #![trigger top@[u]] 0 <= u < top@.len() implies (u < old_top.len() && top@[u]
                                    == old_top[u]) || names_candidate(candidates@, top@[u].id as int) by {
                                    if u != wj {
                                        assert(top@[u] == old_top[u]);
                                    } else {
                                        assert(candidates@[candidates@.len() - 1] == r);
                                    }
                                }
                            }
                        } else {
                            proof {
                                let tw = choose|u: int| 0 <= u < old_top.len() && order_key(#[trigger] old_top[u].distance) <= order_key(entry_dist);
                                assert(top@[tw] == old_top[tw]);
                                assert forall|u: int| #![trigger top@[u]] 0 <= u < top@.len() implies top@[u].distance == dmap[top@[u].id as int] by {
                                    assert(old_top[u].id != nb);
                                }
                                assert forall|u: int|
                                    #![trigger candidates@[u]]
                                    0 <= u < candidates@.len() implies candidates@[u].distance == dmap[candidates@[u].id as int] by {
                                    assert(old_cands[u].id != nb);
                                }
                                assert forall|x: int, u: int|
                                    vset.contains(x) && !names_candidate(top@, x) && 0 <= u < top@.len() implies order_key(#[trigger] dmap[x])
                                        >= order_key(#[trigger] top@[u].distance) by {
                                    assert(order_key(top@[u].distance) <= order_key(top@[wj as int].distance));
                                    if x != nb as int {
                                        assert(old_v.contains(x));
                                        assert(dmap[x] == old_d[x]);
                                    }
                                }
                            }
                        }
                    }
                    proof {
                        assert forall|x: int| #[trigger] expanded(nv, lay, old_v, x) implies expanded(nv, lay, vset, x) by {
                            assert forall|u: int| 0 <= u < nv[x].connections[lay].len() implies vset.contains(#[trigger] nv[x].connections[lay][u] as int) by {
                                assert(old_v.contains(nv[x].connections[lay][u] as int));
                            }
                        }
                    }
                } else {
                    proof {
                        let tw = choose|u: int| 0 <= u < old_top.len() && order_key(#[trigger] old_top[u].distance) <= order_key(entry_dist);
                        assert(top@[tw] == old_top[tw]);
                    }
                }
                proof {
                    if top@.len() < ef {
                        assert(old_top.len() < ef);
                        assert forall|x: int|
                            #![trigger expanded(nv, lay, vset, x)]
                            vset.contains(x) implies names_candidate(candidates@, x) || expanded(nv, lay, vset, x) || (x
                                == cur && forall|u: int| 0 <= u < t + 1 ==> vset.contains(#[trigger] nv[x].connections[lay][u] as int)) by {
                            if x == nb {
                                if !old_v.contains(x) {
                                    assert(names_candidate(candidates@, x));
                                }
                            }
                            if old_v.contains(x) {
                                if names_candidate(old_cands, x) {
                                    let w = choose|w: int| 0 <= w < old_cands.len() && old_cands[w].id == x;
                                    assert(candidates@[w] == old_cands[w]);
                                } else if expanded(nv, lay, old_v, x) {
                                } else {
                                    assert(x == cur);
                                    assert forall|u: int| 0 <= u < t + 1 implies vset.contains(#[trigger] nv[x].connections[lay][u] as int) by {
                                        if u < t {
                                            assert(old_v.contains(nv[x].connections[lay][u] as int));
                                        } else {
                                            assert(nv[x].connections[lay][u] == nb);
                                        }
                                    }
                                }
                            }
                        }
                        assert forall|x: int| vset.contains(x) implies #[trigger] names_candidate(top@, x) by {
                            if old_v.contains(x) {
                                assert(names_candidate(old_top, x));
                                let w = choose|w: int| 0 <= w < old_top.len() && old_top[w].id == x;
                                assert(top@[w] == old_top[w]);
                            }
                        }
                    }
                }
                proof {
                    assert(vset.contains(nb as int));
                    assert forall|u: int|
                        #![trigger top@[u]]
                        0 <= u < top@.len() implies names_candidate(candidates@, top@[u].id as int) || expanded(
                            nv,
                            lay,
                            vset,
                            top@[u].id as int,
                        ) || (top@[u].id == cur && forall|w: int|
                            0 <= w < t + 1 ==> vset.contains(#[trigger] nv[cur as int].connections[lay][w] as int)) by {
                        if old_v.contains(nb as int) {
                            assert(top@ == old_top);
                            assert(candidates@ == old_cands);
                            assert(vset == old_v);
                        }
                        if u < old_top.len() && top@[u] == old_top[u] {
                            let id = old_top[u].id as int;
                            if names_candidate(old_cands, id) {
                                let w = choose|w: int| 0 <= w < old_cands.len() && old_cands[w].id == id;
                                assert(candidates@[w] == old_cands[w]);
                            } else if expanded(nv, lay, old_v, id) {
                                assert(expanded(nv, lay, vset, id));
                            } else {
                                assert forall|w: int| 0 <= w < t + 1 implies vset.contains(#[trigger] nv[cur as int].connections[lay][w] as int) by {
                                    if w < t {
                                        assert(old_v.contains(nv[cur as int].connections[lay][w] as int));
                                    } else {
                                        assert(nv[cur as int].connections[lay][w] == nb);
                                    }
                                }
                            }
                        }
                    }
                }
                t = t + 1;
            }
            proof {
                if top@.len() < ef {
                    assert forall|x: int|
                        #![trigger expanded(nv, lay, vset, x)]
                        vset.contains(x) implies names_candidate(candidates@, x) || expanded(nv, lay, vset, x) by {
                        if !names_candidate(candidates@, x) && !expanded(nv, lay, vset, x) {
                            assert(x == cur);
                            assert(nv[x].connections[lay].len() == nbrs_len);
                        }
                    }
                }
                assert forall|u: int|
                    #![trigger top@[u]]
                    0 <= u < top@.len() implies names_candidate(candidates@, top@[u].id as int) || expanded(
                        nv,
                        lay,
                        vset,
                        top@[u].id as int,
                    ) by {
                    if !names_candidate(candidates@, top@[u].id as int) && !expanded(nv, lay, vset, top@[u].id as int) {
                        assert(top@[u].id == cur);
                        assert(nv[cur as int].connections[lay].len() == nbrs_len);
                    }
                }
            }
        }
        proof {
            self.lemma_layer_search_outcome(
                *distance, query, entry_point, ef, layer, top@, candidates@, vset, entry_dist, dmap,
            );
        }
        top
    }

}

impl HnswIndex {
    /// The outcome of the layer search, from the state in which its loop
    /// ends.
    proof fn lemma_layer_search_outcome<F: Fn(&[u32], &[u32], DistanceMetric) -> u32>(
        &self,
        f: F,
        query: &[u32],
        entry_point: usize,
        ef: usize,
        layer: usize,
        top: Seq<SearchResult>,
        cands: Seq<SearchResult>,
        vset: Set<int>,
        entry_dist: u32,
        dmap: Map<int, u32>,
    )
        requires
            entry_point < self.nodes@.len(),
            vset.finite(),
            vset.subset_of(vstd::set_lib::set_int_range(0, self.nodes@.len() as int)),
            vset.contains(entry_point as int),
            forall|x: int| vset.contains(x) ==> #[trigger] reachable(nodes_view(self.nodes@), layer as int, entry_point as int, x),
            1 <= top.len() <= if ef < 1 { 1 } else { ef },
            forall|t: int| 0 <= t < top.len() ==> #[trigger] self.found(f, query, layer as int, top[t]),
            forall|t: int| 0 <= t < top.len() ==> vset.contains(#[trigger] top[t].id as int),
            forall|a: int, b: int| 0 <= a < b < top.len() ==> #[trigger] top[a].id != #[trigger] top[b].id,
            returned_distance(f, query, self.buffer@.vectors[entry_point as int], self.metric, entry_dist),
            exists|t: int| 0 <= t < top.len() && order_key(#[trigger] top[t].distance) <= order_key(entry_dist),
            cands.len() == 0 || top.len() == ef,
            top.len() < ef ==> forall|x: int| vset.contains(x) ==> #[trigger] names_candidate(top, x),
            top.len() < ef ==> forall|x: int|
                #![trigger expanded(nodes_view(self.nodes@), layer as int, vset, x)]
                vset.contains(x) ==> names_candidate(cands, x) || expanded(nodes_view(self.nodes@), layer as int, vset, x),
            forall|x: int|
                #[trigger] vset.contains(x) ==> dmap.contains_key(x) && returned_distance(
                    f,
                    query,
                    self.buffer@.vectors[x],
                    self.metric,
                    dmap[x],
                ),
            forall|x: int, u: int|
                vset.contains(x) && !names_candidate(top, x) && 0 <= u < top.len() ==> order_key(#[trigger] dmap[x])
                    >= order_key(#[trigger] top[u].distance),
            forall|u: int| #![trigger top[u]] 0 <= u < top.len() ==> expanded(nodes_view(self.nodes@), layer as int, vset, top[u].id as int),
        ensures
            layer_search(
                nodes_view(self.nodes@),
                self.buffer@.vectors,
                self.metric,
                f,
                query,
                entry_point as int,
                ef as nat,
                layer as int,
                top,
            ),
    {
        let nv = nodes_view(self.nodes@);
        let lay = layer as int;
        let ent = entry_point as int;
        let r = reachable_set(nv, lay, ent);
        lemma_reachable_set_bounded(nv, lay, ent);
        assert(kept_nearest(nv, self.buffer@.vectors, self.metric, f, query, ent, lay, top, vset, dmap)) by {
            assert forall|x: int| #[trigger] vset.contains(x) implies reachable(nv, lay, ent, x) by {
            }
        }
        lemma_ids_set(top);
        let ids = ids_set(top);
        assert(distinct_ids(top));
        assert forall|t: int| 0 <= t < top.len() implies #[trigger] reached_node(nv, self.buffer@.vectors, self.metric, f, query, ent, lay, top[t]) by {
            assert(self.found(f, query, lay, top[t]));
            assert(vset.contains(top[t].id as int));
            assert(nv[top[t].id as int] == self.nodes@[top[t].id as int]@);
        }
        assert(vset.subset_of(r)) by {
            assert forall|x: int| vset.contains(x) implies r.contains(x) by {
                assert(reachable(nv, lay, ent, x));
            }
        }
        assert(ids.subset_of(vset)) by {
            assert forall|x: int| ids.contains(x) implies vset.contains(x) by {
                assert(names_candidate(top, x));
                let w = choose|w: int| 0 <= w < top.len() && top[w].id == x;
            }
        }
        if top.len() < ef {
            assert(cands.len() == 0);
            assert forall|a: int, b: int| vset.contains(a) && #[trigger] linked(nv, lay, a, b) implies vset.contains(b) by {
                assert(!names_candidate(cands, a));
                assert(expanded(nv, lay, vset, a));
                assert(self.nodes@.len() == self.nodes.len());
                assert(nv[a].connections[lay].contains(b as usize));
                let u = choose|u: int| 0 <= u < nv[a].connections[lay].len() && nv[a].connections[lay][u] == b as usize;
                assert(vset.contains(nv[a].connections[lay][u] as int));
            }
            assert forall|x: int| r.contains(x) implies vset.contains(x) by {
                lemma_reach_closed(nv, lay, ent, vset, x);
            }
            assert(vset =~= r);
            assert(ids =~= r) by {
                assert forall|x: int| r.contains(x) implies ids.contains(x) by {
                    assert(names_candidate(top, x));
                }
            }
        } else {
            if r.len() <= ef {
                assert(r.contains(ent)) by {
                    lemma_reach_start(nv, lay, ent);
                }
                assert(r.len() >= 1) by {
                    vstd::set_lib::lemma_len_subset(set![ent], r);
                }
                assert(ids.subset_of(r));
                lemma_subset_full(ids, r);
            }
        }
    }
}

/// The entries of `v` in nondecreasing order of distance.
fn sort_by_distance(v: Vec<SearchResult>) -> (out: Vec<SearchResult>)
    ensures
        out@.to_multiset() == v@.to_multiset(),
        sorted_by_distance(out@),
        v@.no_duplicates() ==> out@.no_duplicates(),
{
    let mut out: Vec<SearchResult> = Vec::new();
    let mut i: usize = 0;
    proof {
        assert(v@.take(0) =~= Seq::<SearchResult>::empty());
        assert(out@ =~= Seq::<SearchResult>::empty());
    }
    while i < v.len()
        invariant
            i <= v@.len(),
            out@.to_multiset() == v@.take(i as int).to_multiset(),
            sorted_by_distance(out@),
        decreases v@.len() - i,
    {
        let ghost before = out@;
        let p = insert_sorted(&mut out, v[i]);
        proof {
            assert(v@.take(i + 1) =~= v@.take(i as int).push(v@[i as int]));
            vstd::seq_lib::to_multiset_build(v@.take(i as int), v@[i as int]);
            vstd::seq_lib::to_multiset_insert(before, p as int, v@[i as int]);
        }
        i = i + 1;
    }
    assert(v@.take(i as int) =~= v@);
    proof {
        if v@.no_duplicates() {
            v@.lemma_multiset_has_no_duplicates();
            out@.lemma_multiset_has_no_duplicates_conv();
        }
    }
    out
}

/// `x` is the position of the node of one of the candidates.
pub open spec fn names_candidate(cands: Seq<SearchResult>, x: int) -> bool {
    exists|t: int| 0 <= t < cands.len() && cands[t].id == x
}

/// The entry `r` is nearest among the candidates.
pub open spec fn nearest_of(cands: Seq<SearchResult>, r: SearchResult) -> bool {
    forall|u: int| 0 <= u < cands.len() ==> order_key(r.distance) <= order_key(#[trigger] cands[u].distance)
}

/// `d` is a value that `f` returned for two vectors whose coordinates are
/// `a` and `b`, under `metric`.
pub open spec fn returned_pair_distance<F: Fn(&[u32], &[u32], DistanceMetric) -> u32>(
    f: F,
    a: Seq<u32>,
    b: Seq<u32>,
    metric: DistanceMetric,
    d: u32,
) -> bool {
    exists|x: &[u32], y: &[u32]| x@ == a && y@ == b && #[trigger] f.ensures((x, y, metric), d)
}

/// `f` returned, for `a` and `b`, a distance that ranks no nearer than
/// `bound`.
pub open spec fn not_nearer<F: Fn(&[u32], &[u32], DistanceMetric) -> u32>(
    f: F,
    a: Seq<u32>,
    b: Seq<u32>,
    metric: DistanceMetric,
    bound: u32,
) -> bool {
    exists|d: u32| returned_pair_distance(f, a, b, metric, d) && order_key(d) >= order_key(bound)
}

/// `f` returned, for `a` and `b`, a distance that ranks nearer than `bound`.
pub open spec fn nearer<F: Fn(&[u32], &[u32], DistanceMetric) -> u32>(
    f: F,
    a: Seq<u32>,
    b: Seq<u32>,
    metric: DistanceMetric,
    bound: u32,
) -> bool {
    exists|d: u32| returned_pair_distance(f, a, b, metric, d) && order_key(d) < order_key(bound)
}

/// The diversity rule walked over `sorted` (candidates nearest first, by
/// their distance to a base point): the first `stop` candidates are
/// examined, and the one at position `q` is kept (its position in `kept`,
/// its node in `s`) exactly when no node kept before it is nearer to it
/// than the base point is. The walk stops once `m` are kept.
pub open spec fn diverse_walk<F: Fn(&[u32], &[u32], DistanceMetric) -> u32>(
    vectors: Seq<Seq<u32>>,
    metric: DistanceMetric,
    f: F,
    sorted: Seq<SearchResult>,
    m: nat,
    s: Seq<usize>,
    kept: Seq<int>,
    stop: int,
) -> bool {
    &&& 0 <= stop <= sorted.len()
    &&& s.len() <= m
    &&& kept.len() == s.len()
    &&& stop < sorted.len() ==> s.len() == m
    &&& s.len() == m ==> (m == 0 && stop == 0) || (m > 0 && stop == kept.last() + 1)
    &&& forall|u: int| 0 <= u < kept.len() ==> 0 <= #[trigger] kept[u] < stop && s[u] == sorted[kept[u]].id
    &&& forall|a: int, b: int| 0 <= a < b < kept.len() ==> #[trigger] kept[a] < #[trigger] kept[b]
    &&& forall|q: int, u: int|
        0 <= q < stop && kept.contains(q) && 0 <= u < kept.len() && kept[u] < q ==> #[trigger] not_nearer(
            f,
            vectors[sorted[q].id as int],
            vectors[s[u] as int],
            metric,
            sorted[q].distance,
        )
    &&& forall|q: int| 0 <= q < stop && !kept.contains(q) ==> #[trigger] dropped_by(vectors, metric, f, sorted, s, kept, q)
}

/// Some node kept before position `q` is nearer to the candidate there than
/// the base point is.
pub open spec fn dropped_by<F: Fn(&[u32], &[u32], DistanceMetric) -> u32>(
    vectors: Seq<Seq<u32>>,
    metric: DistanceMetric,
    f: F,
    sorted: Seq<SearchResult>,
    s: Seq<usize>,
    kept: Seq<int>,
    q: int,
) -> bool {
    exists|u: int|
        0 <= u < kept.len() && kept[u] < q && #[trigger] nearer(
            f,
            vectors[sorted[q].id as int],
            vectors[s[u] as int],
            metric,
            sorted[q].distance,
        )
}

/// `s` is what the diversity rule keeps of the candidates `cands`, at most
/// `m` of them: the candidates are walked nearest first, and one is kept
/// when no node kept before it is nearer to it than the base point is.
pub open spec fn diverse_selection<F: Fn(&[u32], &[u32], DistanceMetric) -> u32>(
    vectors: Seq<Seq<u32>>,
    metric: DistanceMetric,
    f: F,
    cands: Seq<SearchResult>,
    m: nat,
    s: Seq<usize>,
) -> bool {
    exists|sorted: Seq<SearchResult>, kept: Seq<int>, stop: int|
        {
            &&& sorted.to_multiset() == cands.to_multiset()
            &&& sorted_by_distance(sorted)
            &&& #[trigger] diverse_walk(vectors, metric, f, sorted, m, s, kept, stop)
        }
}

/// No two entries of `cands` name the same node.
pub open spec fn distinct_ids(cands: Seq<SearchResult>) -> bool {
    forall|a: int, b: int| 0 <= a < b < cands.len() ==> #[trigger] cands[a].id != #[trigger] cands[b].id
}

/// A reordering of entries with distinct nodes names distinct nodes.
proof fn lemma_permutation_distinct_ids(sorted: Seq<SearchResult>, cands: Seq<SearchResult>)
    requires
        sorted.to_multiset() == cands.to_multiset(),
        distinct_ids(cands),
    ensures
        distinct_ids(sorted),
        forall|u: int| 0 <= u < sorted.len() ==> #[trigger] cands.contains(sorted[u]),
        sorted.len() == cands.len(),
{
    vstd::seq_lib::to_multiset_len(sorted);
    vstd::seq_lib::to_multiset_len(cands);
    assert forall|u: int| 0 <= u < sorted.len() implies #[trigger] cands.contains(sorted[u]) by {
        vstd::seq_lib::to_multiset_contains(sorted, sorted[u]);
        vstd::seq_lib::to_multiset_contains(cands, sorted[u]);
    }
    assert(cands.no_duplicates()) by {
        assert forall|a: int, b: int| 0 <= a < cands.len() && 0 <= b < cands.len() && a != b implies cands[a] != cands[b] by {
            if a < b {
                assert(cands[a].id != cands[b].id);
            } else {
                assert(cands[b].id != cands[a].id);
            }
        }
    }
    cands.lemma_multiset_has_no_duplicates();
    sorted.lemma_multiset_has_no_duplicates_conv();
    assert forall|a: int, b: int| 0 <= a < b < sorted.len() implies #[trigger] sorted[a].id != #[trigger] sorted[b].id by {
        assert(cands.contains(sorted[a]));
        assert(cands.contains(sorted[b]));
        let x = choose|x: int| 0 <= x < cands.len() && cands[x] == sorted[a];
        let y = choose|y: int| 0 <= y < cands.len() && cands[y] == sorted[b];
        if x != y {
            if x < y {
                assert(cands[x].id != cands[y].id);
            } else {
                assert(cands[y].id != cands[x].id);
            }
        }
    }
}

/// What a diversity selection gives: candidate nodes, each once when the
/// candidates name distinct nodes, and at least the nearest candidate when
/// `m > 0`.
proof fn lemma_diverse_selection_facts<F: Fn(&[u32], &[u32], DistanceMetric) -> u32>(
    vectors: Seq<Seq<u32>>,
    metric: DistanceMetric,
    f: F,
    cands: Seq<SearchResult>,
    m: nat,
    s: Seq<usize>,
)
    requires
        diverse_selection(vectors, metric, f, cands, m, s),
    ensures
        s.len() <= m,
        forall|u: int| 0 <= u < s.len() ==> #[trigger] names_candidate(cands, s[u] as int),
        distinct_ids(cands) ==> s.no_duplicates(),
        m > 0 && cands.len() > 0 ==> s.len() >= 1,
{
    let (sorted, kept, stop) = choose|sorted: Seq<SearchResult>, kept: Seq<int>, stop: int|
        {
            &&& sorted.to_multiset() == cands.to_multiset()
            &&& sorted_by_distance(sorted)
            &&& #[trigger] diverse_walk(vectors, metric, f, sorted, m, s, kept, stop)
        };
    vstd::seq_lib::to_multiset_len(sorted);
    vstd::seq_lib::to_multiset_len(cands);
    assert forall|u: int| 0 <= u < s.len() implies #[trigger] names_candidate(cands, s[u] as int) by {
        let e = sorted[kept[u]];
        vstd::seq_lib::to_multiset_contains(sorted, e);
        vstd::seq_lib::to_multiset_contains(cands, e);
        assert(sorted.contains(e));
        let x = choose|x: int| 0 <= x < cands.len() && cands[x] == e;
        assert(cands[x].id == s[u] as int);
    }
    if distinct_ids(cands) {
        lemma_permutation_distinct_ids(sorted, cands);
        assert forall|a: int, b: int| 0 <= a < s.len() && 0 <= b < s.len() && a != b implies s[a] != s[b] by {
            if a < b {
                assert(kept[a] < kept[b]);
                assert(sorted[kept[a]].id != sorted[kept[b]].id);
            } else {
                assert(kept[b] < kept[a]);
                assert(sorted[kept[b]].id != sorted[kept[a]].id);
            }
        }
    }
    if m > 0 && cands.len() > 0 {
        if s.len() == 0 {
            assert(stop == sorted.len());
            assert(!kept.contains(0));
            assert(dropped_by(vectors, metric, f, sorted, s, kept, 0));
            let u = choose|u: int|
                0 <= u < kept.len() && kept[u] < 0 && #[trigger] nearer(
                    f,
                    vectors[sorted[0].id as int],
                    vectors[s[u] as int],
                    metric,
                    sorted[0].distance,
                );
            assert(false);
        }
    }
}

impl HnswIndex {
    /// Picks at most `m` of the candidates (nodes by position, with their
    /// distances to a base point), nearest first, keeping a candidate only
    /// when no node already kept is nearer to it than the base point is.
    fn select_neighbors<F: Fn(&[u32], &[u32], DistanceMetric) -> u32>(
        &self,
        candidates: Vec<SearchResult>,
        m: usize,
        distance: &F,
    ) -> (selected: Vec<usize>)
        requires
            self.buffer.wf(),
            forall|t: int| 0 <= t < candidates@.len() ==> #[trigger] candidates@[t].id < self.buffer@.len(),
            forall|a: &[u32], b: &[u32], mt: DistanceMetric| #[trigger] distance.requires((a, b, mt)),
        ensures
            diverse_selection(self.buffer@.vectors, self.metric, *distance, candidates@, m as nat, selected@),
            forall|u: int| 0 <= u < selected@.len() ==> #[trigger] selected@[u] < self.buffer@.len(),
    {
        let ghost cands = candidates@;
        let ghost vectors = self.buffer@.vectors;
        let sorted = sort_by_distance(candidates);
        proof {
            vstd::seq_lib::to_multiset_len(sorted@);
            vstd::seq_lib::to_multiset_len(cands);
            assert forall|u: int| 0 <= u < sorted@.len() implies #[trigger] cands.contains(sorted@[u]) by {
                vstd::seq_lib::to_multiset_contains(sorted@, sorted@[u]);
                vstd::seq_lib::to_multiset_contains(cands, sorted@[u]);
            }
        }
        let mut selected: Vec<usize> = Vec::new();
        let ghost mut kept: Seq<int> = Seq::empty();
        let mut i: usize = 0;
        let mut full = false;
        while i < sorted.len() && !full
            invariant
                self.buffer.wf(),
                vectors == self.buffer@.vectors,
                forall|a: &[u32], b: &[u32], mt: DistanceMetric| #[trigger] distance.requires((a, b, mt)),
                forall|t: int| 0 <= t < cands.len() ==> #[trigger] cands[t].id < self.buffer@.len(),
                forall|u: int| 0 <= u < sorted@.len() ==> #[trigger] cands.contains(sorted@[u]),
                i <= sorted@.len(),
                sorted@.len() == cands.len(),
                selected@.len() <= m,
                kept.len() == selected@.len(),
                full ==> selected@.len() == m,
                forall|u: int| 0 <= u < selected@.len() ==> #[trigger] selected@[u] < self.buffer@.len(),
                forall|u: int| 0 <= u < kept.len() ==> 0 <= #[trigger] kept[u] < i && selected@[u] == sorted@[kept[u]].id,
                forall|a: int, b: int| 0 <= a < b < kept.len() ==> #[trigger] kept[a] < #[trigger] kept[b],
                selected@.len() == m ==> (m == 0 && i == 0) || (m > 0 && i == kept.last() + 1),
                forall|q: int, u: int|
                    0 <= q < i && kept.contains(q) && 0 <= u < kept.len() && kept[u] < q ==> #[trigger] not_nearer(
                        *distance,
                        vectors[sorted@[q].id as int],
                        vectors[selected@[u] as int],
                        self.metric,
                        sorted@[q].distance,
                    ),
                forall|q: int|
                    0 <= q < i && !kept.contains(q) ==> #[trigger] dropped_by(vectors, self.metric, *distance, sorted@, selected@, kept, q),
            decreases sorted@.len() - i + if full { 0int } else { 1int },
        {
            if selected.len() >= m {
                full = true;
            } else {
                let candidate = sorted[i];
                let ghost t = choose|t: int| 0 <= t < cands.len() && cands[t] == sorted@[i as int];
                proof {
                    assert(cands.contains(sorted@[i as int]));
                    assert(cands[t].id < self.buffer@.len());
                    self.buffer.lemma_len_bounded();
                }
                let candidate_id = candidate.id as usize;
                let candidate_vec = self.buffer.get_vector(candidate_id).unwrap();
                let mut is_good = true;
                let mut s: usize = 0;
                while s < selected.len() && is_good
                    invariant
                        self.buffer.wf(),
                        vectors == self.buffer@.vectors,
                        forall|a: &[u32], b: &[u32], mt: DistanceMetric| #[trigger] distance.requires((a, b, mt)),
                        forall|u: int| 0 <= u < selected@.len() ==> #[trigger] selected@[u] < self.buffer@.len(),
                        candidate_id < self.buffer@.len(),
                        candidate_vec@ == vectors[candidate_id as int],
                        s <= selected@.len(),
                        s == 0 ==> is_good,
                        is_good ==> forall|u: int| 0 <= u < s ==> #[trigger] not_nearer(
                            *distance,
                            vectors[candidate_id as int],
                            vectors[selected@[u] as int],
                            self.metric,
                            candidate.distance,
                        ),
                        !is_good ==> exists|u: int| 0 <= u < s && #[trigger] nearer(
                            *distance,
                            vectors[candidate_id as int],
                            vectors[selected@[u] as int],
                            self.metric,
                            candidate.distance,
                        ),
                    decreases selected@.len() - s,
                {
                    let selected_vec = self.buffer.get_vector(selected[s]).unwrap();
                    let dist_to_selected = distance(candidate_vec, selected_vec, self.metric);
                    proof {
                        assert(returned_pair_distance(
                            *distance,
                            vectors[candidate_id as int],
                            vectors[selected@[s as int] as int],
                            self.metric,
                            dist_to_selected,
                        ));
                    }
                    if distance_key(dist_to_selected) < distance_key(candidate.distance) {
                        is_good = false;
                        proof {
                            assert(nearer(
                                *distance,
                                vectors[candidate_id as int],
                                vectors[selected@[s as int] as int],
                                self.metric,
                                candidate.distance,
                            ));
                        }
                    } else {
                        proof {
                            assert(not_nearer(
                                *distance,
                                vectors[candidate_id as int],
                                vectors[selected@[s as int] as int],
                                self.metric,
                                candidate.distance,
                            ));
                        }
                    }
                    s = s + 1;
                }
                let ghost old_kept = kept;
                let ghost old_sel = selected@;
                if is_good {
                    selected.push(candidate_id);
                    proof {
                        kept = kept.push(i as int);
                        assert(candidate_id == sorted@[i as int].id);
                    }
                }
                proof {
                    assert(s == old_sel.len() || !is_good);
                    assert forall|q: int, u: int|
                        0 <= q < i + 1 && kept.contains(q) && 0 <= u < kept.len() && kept[u] < q implies #[trigger] not_nearer(
                            *distance,
                            vectors[sorted@[q].id as int],
                            vectors[selected@[u] as int],
                            self.metric,
                            sorted@[q].distance,
                        ) by {
                        if q == i {
                            assert(u < old_kept.len());
                            assert(selected@[u] == old_sel[u]);
                        } else {
                            assert(old_kept.contains(q)) by {
                                let w = choose|w: int| 0 <= w < kept.len() && kept[w] == q;
                                if w == old_kept.len() {
                                    assert(kept[w] == i);
                                }
                                assert(old_kept[w] == q);
                            }
                            if u < old_kept.len() {
                                assert(selected@[u] == old_sel[u]);
                            } else {
                                assert(kept[u] == i);
                            }
                        }
                    }
                    assert forall|q: int|
                        0 <= q < i + 1 && !kept.contains(q) implies #[trigger] dropped_by(vectors, self.metric, *distance, sorted@, selected@, kept, q) by {
                        if q == i {
                            if is_good {
                                assert(kept[old_kept.len() as int] == i);
                                assert(false);
                            }
                            let u = choose|u: int| 0 <= u < s && #[trigger] nearer(
                                *distance,
                                vectors[candidate_id as int],
                                vectors[selected@[u] as int],
                                self.metric,
                                candidate.distance,
                            );
                            assert(kept[u] < q);
                        } else {
                            assert(!old_kept.contains(q)) by {
                                if old_kept.contains(q) {
                                    let w = choose|w: int| 0 <= w < old_kept.len() && old_kept[w] == q;
                                    assert(kept[w] == q);
                                }
                            }
                            assert(dropped_by(vectors, self.metric, *distance, sorted@, old_sel, old_kept, q));
                            let u = choose|u: int|
                                0 <= u < old_kept.len() && old_kept[u] < q && #[trigger] nearer(
                                    *distance,
                                    vectors[sorted@[q].id as int],
                                    vectors[old_sel[u] as int],
                                    self.metric,
                                    sorted@[q].distance,
                                );
                            assert(kept[u] == old_kept[u]);
                            assert(selected@[u] == old_sel[u]);
                        }
                    }
                }
                i = i + 1;
            }
        }
        proof {
            let stop = i as int;
            assert(diverse_walk(vectors, self.metric, *distance, sorted@, m as nat, selected@, kept, stop));
        }
        selected
    }
}


/// Replaces the link list of `node` on layer `l`.
fn set_own_list(node: &mut HnswNode, l: usize, list: Vec<usize>)
    requires
        l < old(node).connections@.len(),
    ensures
        final(node)@ == (NodeView {
            id: old(node)@.id,
            max_layer: old(node)@.max_layer,
            connections: old(node)@.connections.update(l as int, list@),
        }),
{
    node.connections.set(l, list);
    assert(node@.connections =~= old(node)@.connections.update(l as int, list@));
}

/// Replaces the link list of node `i` on layer `l`.
fn set_node_list(nodes: &mut Vec<HnswNode>, i: usize, l: usize, list: Vec<usize>)
    requires
        i < old(nodes)@.len(),
        l < old(nodes)@[i as int].connections@.len(),
    ensures
        nodes_view(final(nodes)@) == set_list(nodes_view(old(nodes)@), i as int, l as int, list@),
{
    let ghost l_view = list@;
    set_own_list(&mut nodes[i], l, list);
    proof {
        let nv = nodes_view(old(nodes)@);
        assert(nv[i as int] == old(nodes)@[i as int]@);
        assert(nodes_view(nodes@) =~= set_list(nv, i as int, l as int, l_view));
    }
}

impl HnswIndex {
    /// Stores `vector` under `external_id` and links it into the graph on
    /// layers `0..=insert_layer` (the layer that the caller drew at random).
    /// On each layer it shares with the graph, the new node links to the
    /// diversity selection of what a layer search found, and each node it
    /// picked links back to it (pruning its own list by the same rule when
    /// it grows past the degree limit); see `linked_on_layer`.
    /// `distance` computes the distance between two vectors under a metric.
    /// A vector of another dimension is refused and leaves the index
    /// unchanged.
    pub fn insert<F: Fn(&[u32], &[u32], DistanceMetric) -> u32>(
        &mut self,
        external_id: VectorId,
        vector: &[u32],
        insert_layer: usize,
        distance: &F,
    ) -> (r: Result<(), ParsecError>)
        requires
            old(self).wf(),
            insert_layer < usize::MAX,
            forall|a: &[u32], b: &[u32], m: DistanceMetric| #[trigger] distance.requires((a, b, m)),
        ensures
            final(self).wf(),
            final(self)@.metric == old(self)@.metric,
            final(self)@.config == old(self)@.config,
            vector@.len() != old(self)@.buffer.dimension ==> {
                &&& r == Err::<(), ParsecError>(
                    ParsecError::DimensionMismatch {
                        expected: old(self)@.buffer.dimension as usize,
                        found: vector@.len() as usize,
                    },
                )
                &&& final(self)@ == old(self)@
            },
            vector@.len() == old(self)@.buffer.dimension ==> {
                let n = old(self)@.nodes.len();
                &&& r is Ok
                &&& final(self)@.buffer == old(self)@.buffer.inserted(external_id, vector@)
                &&& final(self)@.nodes.len() == n + 1
                &&& forall|j: int| #![trigger final(self)@.nodes[j]] 0 <= j < n ==> final(self)@.nodes[j].id == old(self)@.nodes[j].id
                    && final(self)@.nodes[j].max_layer == old(self)@.nodes[j].max_layer
                &&& final(self)@.nodes[n as int].id == external_id
                &&& final(self)@.nodes[n as int].max_layer == insert_layer
                &&& forall|j: int, l: int|
                    0 <= j < n && l > lower_of(old(self)@.max_layer, insert_layer as nat) && l
                        <= old(self)@.nodes[j].max_layer ==> #[trigger] final(self)@.nodes[j].connections[l]
                        == old(self)@.nodes[j].connections[l]
                &&& forall|j: int, l: int|
                    0 <= j < n && 0 <= l <= old(self)@.nodes[j].max_layer ==> only_new_links(
                        old(self)@.nodes[j].connections[l],
                        #[trigger] final(self)@.nodes[j].connections[l],
                        n as int,
                    )
                &&& forall|l: int|
                    (n == 0 || l > lower_of(old(self)@.max_layer, insert_layer as nat)) && 0 <= l <= insert_layer
                        ==> #[trigger] final(self)@.nodes[n as int].connections[l].len() == 0
                &&& n > 0 ==> exists|entries: Seq<int>, found: Seq<Seq<SearchResult>>|
                    #[trigger] inserted_links(
                        old(self)@,
                        final(self)@.nodes,
                        final(self)@.buffer.vectors,
                        *distance,
                        vector,
                        insert_layer as nat,
                        entries,
                        found,
                    )
                &&& if n == 0 || insert_layer > old(self)@.max_layer {
                    &&& final(self)@.max_layer == insert_layer
                    &&& final(self)@.entry_point == Some(n)
                } else {
                    &&& final(self)@.max_layer == old(self)@.max_layer
                    &&& final(self)@.entry_point == old(self)@.entry_point
                }
            },
    {
        match self.buffer.insert(external_id, vector) {
            Ok(()) => {},
            Err(e) => {
                return Err(e);
            },
        }
        let internal_idx = self.nodes.len();
        let ghost n = internal_idx as int;
        let ghost old_nv = nodes_view(self.nodes@);
        let ghost buf_after = self.buffer@;
        let mut new_node = HnswNode::new(external_id, insert_layer);
        proof {
            lemma_push_unlinked(old_nv, new_node@, self.config);
        }
        if self.entry_point.is_none() {
            self.entry_point = Some(internal_idx);
            self.max_layer = insert_layer;
            self.nodes.push(new_node);
            proof {
                assert(nodes_view(self.nodes@) =~= old_nv.push(new_node@));
            }
            return Ok(());
        }
        let mut curr_obj = self.entry_point.unwrap();
        let mut curr_layer = self.max_layer;
        let ghost top0 = self.max_layer as int;
        let ghost ep0 = curr_obj as int;
        let ghost mut entries: Seq<int> = Seq::new((top0 + 1) as nat, |l: int| ep0);
        let ghost mut found: Seq<Seq<SearchResult>> = Seq::new((top0 + 1) as nat, |l: int| Seq::empty());
        while curr_layer > insert_layer
            invariant
                top0 == self.max_layer,
                self.metric == old(self).metric,
                entries.len() == top0 + 1,
                found.len() == top0 + 1,
                entries[top0] == ep0,
                self.entry_point == Some(ep0 as usize),
                entries[curr_layer as int] == curr_obj,
                greedy_descent(old_nv, buf_after.vectors, self.metric, *distance, vector, entries, found, top0, curr_layer as int),
                self.buffer.wf(),
                self.buffer@ == buf_after,
                self.buffer@.len() == n + 1,
                self.nodes@.len() == n,
                nodes_view(self.nodes@) == old_nv,
                shapes_ok(old_nv),
                links_ok(old_nv),
                old_nv.len() == n,
                curr_obj < n,
                old_nv[curr_obj as int].max_layer >= curr_layer,
                curr_layer <= self.max_layer,
                curr_layer >= if insert_layer < self.max_layer { insert_layer } else { self.max_layer },
                forall|a: &[u32], b: &[u32], m: DistanceMetric| #[trigger] distance.requires((a, b, m)),
            decreases curr_layer,
        {
            proof {
                assert(layer_links_ok(old_nv, curr_layer as int));
                assert(old_nv[curr_obj as int] == self.nodes@[curr_obj as int]@);
            }
            let candidates = self.search_layer(vector, curr_obj, 1, curr_layer, distance);
            proof {
                assert(self.nodes@.len() == self.nodes.len());
                assert(self.found(*distance, vector, curr_layer as int, candidates@[0]));
                assert(old_nv[candidates@[0].id as int] == self.nodes@[candidates@[0].id as int]@);
                let cl = curr_layer as int;
                let old_entries = entries;
                let old_found = found;
                found = found.update(cl, candidates@);
                entries = entries.update(cl - 1, candidates@[0].id as int);
                assert forall|l: int| #![trigger found[l]] cl - 1 < l <= top0 implies layer_search(
                    old_nv,
                    buf_after.vectors,
                    self.metric,
                    *distance,
                    vector,
                    entries[l],
                    1,
                    l,
                    found[l],
                ) && entries[l - 1] == found[l][0].id as int by {
                    if l > cl {
                        assert(old_found[l] == found[l]);
                        assert(old_entries[l] == entries[l]);
                        assert(old_entries[l - 1] == entries[l - 1]);
                    }
                }
            }
            curr_obj = candidates[0].id as usize;
            curr_layer = curr_layer - 1;
        }
        let max_level_to_process = if insert_layer < self.max_layer { insert_layer } else { self.max_layer };
        let config = self.config;
        let ghost old_max = self.max_layer;
        let ghost old_entry = self.entry_point;
        let ghost metric = self.metric;
        let mut remaining = max_level_to_process + 1;
        while remaining > 0
            invariant
                self.buffer.wf(),
                self.buffer@ == buf_after,
                self.buffer@.len() == n + 1,
                self.nodes@.len() == n,
                self.config == config,
                self.max_layer == old_max,
                self.entry_point == old_entry,
                self.metric == metric,
                old_nv.len() == n,
                internal_idx == n,
                new_node@.connections.len() == insert_layer + 1,
                max_level_to_process <= insert_layer,
                max_level_to_process == lower_of(old_max as nat, insert_layer as nat),
                remaining <= max_level_to_process + 1,
                forall|j: int, l: int|
                    0 <= j < n && max_level_to_process < l <= old_nv[j].max_layer ==> #[trigger] nodes_view(self.nodes@)[j].connections[l]
                        == old_nv[j].connections[l],
                forall|l: int| max_level_to_process < l <= insert_layer ==> #[trigger] new_node@.connections[l].len() == 0,
                forall|j: int, l: int|
                    0 <= j < n && 0 <= l <= old_nv[j].max_layer ==> only_new_links(
                        old_nv[j].connections[l],
                        #[trigger] nodes_view(self.nodes@)[j].connections[l],
                        n,
                    ),
                forall|j: int| #![trigger nodes_view(self.nodes@)[j]] 0 <= j < n ==> nodes_view(self.nodes@)[j].id == old_nv[j].id
                    && nodes_view(self.nodes@)[j].max_layer == old_nv[j].max_layer,
                new_node@.id == external_id,
                new_node@.max_layer == insert_layer,
                shapes_ok(nodes_view(self.nodes@)),
                shapes_ok(nodes_view(self.nodes@).push(new_node@)),
                links_ok(nodes_view(self.nodes@).push(new_node@)),
                lists_simple(nodes_view(self.nodes@).push(new_node@)),
                degrees_ok(nodes_view(self.nodes@).push(new_node@), config),
                forall|l: int| 0 <= l < remaining ==> #[trigger] layer_links_ok(nodes_view(self.nodes@), l),
                remaining > 0 ==> curr_obj < n && nodes_view(self.nodes@)[curr_obj as int].max_layer >= remaining - 1,
                remaining > 0 ==> entries[remaining - 1] == curr_obj,
                entries.len() == top0 + 1,
                found.len() == top0 + 1,
                entries[top0] == ep0,
                old_max == top0,
                old_entry == Some(ep0 as usize),
                greedy_descent(old_nv, buf_after.vectors, metric, *distance, vector, entries, found, top0, max_level_to_process as int),
                forall|l: int|
                    #![trigger found[l]]
                    remaining <= l <= max_level_to_process && 0 < l ==> continues_from_nearest(found[l], entries[l - 1]),
                forall|j: int, l: int|
                    0 <= j < n && 0 <= l < remaining && l <= old_nv[j].max_layer ==> #[trigger] nodes_view(self.nodes@)[j].connections[l]
                        == old_nv[j].connections[l],
                forall|l: int| remaining <= l <= max_level_to_process ==> #[trigger] linked_on_layer(
                    old_nv,
                    layer_lists(nodes_view(self.nodes@), l),
                    new_node@.connections[l],
                    buf_after.vectors,
                    metric,
                    config,
                    *distance,
                    vector,
                    l,
                    entries[l],
                    found[l],
                ),
                forall|a: &[u32], b: &[u32], m: DistanceMetric| #[trigger] distance.requires((a, b, m)),
            decreases remaining,
        {
            let lc = remaining - 1;
            proof {
                assert(layer_links_ok(nodes_view(self.nodes@), lc as int));
                assert(nodes_view(self.nodes@)[curr_obj as int] == self.nodes@[curr_obj as int]@);
            }
            let ghost entry_lc = curr_obj as int;
            let ghost nv_s = nodes_view(self.nodes@);
            let candidates = self.search_layer(vector, curr_obj, self.config.ef_construction, lc, distance);
            proof {
                assert forall|j: int| 0 <= j < nv_s.len() implies #[trigger] nv_s[j].max_layer == old_nv[j].max_layer by {
                    assert(nodes_view(self.nodes@)[j].max_layer == old_nv[j].max_layer);
                }
                assert forall|j: int| 0 <= j < nv_s.len() && lc <= nv_s[j].max_layer implies #[trigger] nv_s[j].connections[lc as int]
                    == old_nv[j].connections[lc as int] by {
                    assert(nodes_view(self.nodes@)[j].connections[lc as int] == old_nv[j].connections[lc as int]);
                }
                lemma_layer_search_same(
                    nv_s,
                    old_nv,
                    buf_after.vectors,
                    metric,
                    *distance,
                    vector,
                    entry_lc,
                    config.ef_construction as nat,
                    lc as int,
                    candidates@,
                );
            }
            let nearest = position_of_nearest(&candidates);
            proof {
                assert(self.found(*distance, vector, lc as int, candidates@[nearest as int]));
                let c = candidates@[nearest as int].id as int;
                assert(nodes_view(self.nodes@)[c] == self.nodes@[c]@);
            }
            curr_obj = candidates[nearest].id as usize;
            let m_limit = if lc == 0 { self.config.m_max_zero } else { self.config.m };
            let ghost cands = candidates@;
            proof {
                let old_entries = entries;
                let old_found = found;
                found = found.update(lc as int, cands);
                if lc > 0 {
                    entries = entries.update(lc - 1, curr_obj as int);
                }
                assert forall|l: int|
                    #![trigger found[l]]
                    max_level_to_process < l <= top0 implies layer_search(
                        old_nv,
                        buf_after.vectors,
                        metric,
                        *distance,
                        vector,
                        entries[l],
                        1,
                        l,
                        found[l],
                    ) && entries[l - 1] == found[l][0].id as int by {
                    assert(old_found[l] == found[l]);
                    assert(old_entries[l] == entries[l]);
                    assert(old_entries[l - 1] == entries[l - 1]);
                }
                assert forall|l: int|
                    #![trigger found[l]]
                    lc <= l <= max_level_to_process && 0 < l implies continues_from_nearest(found[l], entries[l - 1]) by {
                    if l == lc {
                        assert(nearest_of(found[l], found[l][nearest as int]));
                    } else {
                        assert(old_found[l] == found[l]);
                        assert(old_entries[l - 1] == entries[l - 1]);
                    }
                }
                assert forall|l: int| lc < l <= max_level_to_process implies #[trigger] linked_on_layer(
                    old_nv,
                    layer_lists(nodes_view(self.nodes@), l),
                    new_node@.connections[l],
                    buf_after.vectors,
                    metric,
                    config,
                    *distance,
                    vector,
                    l,
                    entries[l],
                    found[l],
                ) by {
                    assert(old_found[l] == found[l]);
                    assert(old_entries[l] == entries[l]);
                    assert(linked_on_layer(
                        old_nv,
                        layer_lists(nodes_view(self.nodes@), l),
                        new_node@.connections[l],
                        buf_after.vectors,
                        metric,
                        config,
                        *distance,
                        vector,
                        l,
                        old_entries[l],
                        old_found[l],
                    ));
                }
            }
            proof {
                assert forall|t: int| 0 <= t < cands.len() implies #[trigger] cands[t].id < self.buffer@.len() by {
                    assert(self.found(*distance, vector, lc as int, cands[t]));
                }
            }
            let neighbors = self.select_neighbors(candidates, m_limit, distance);
            proof {
                lemma_diverse_selection_facts(self.buffer@.vectors, self.metric, *distance, cands, m_limit as nat, neighbors@);
            }
            let ghost nv0 = nodes_view(self.nodes@);
            let ghost ext0 = nv0.push(new_node@);
            proof {
                assert forall|j: int| #![trigger nv0[j]] 0 <= j < n implies nv0[j].id == old_nv[j].id
                    && nv0[j].max_layer == old_nv[j].max_layer by {
                    assert(nodes_view(self.nodes@)[j].id == old_nv[j].id);
                }
                assert forall|u: int| 0 <= u < neighbors@.len() implies {
                    let c = #[trigger] neighbors@[u] as int;
                    0 <= c < n && nv0[c].max_layer >= lc
                } by {
                    assert(names_candidate(cands, neighbors@[u] as int));
                    let t = choose|t: int| 0 <= t < cands.len() && cands[t].id == neighbors@[u] as int;
                    assert(self.found(*distance, vector, lc as int, cands[t]));
                    assert(nv0[cands[t].id as int] == self.nodes@[cands[t].id as int]@);
                    assert(nv0[cands[t].id as int].max_layer == old_nv[cands[t].id as int].max_layer);
                }
                assert(list_ok(ext0, lc as int, neighbors@)) by {
                    assert forall|t: int| 0 <= t < neighbors@.len() implies {
                        let c = #[trigger] neighbors@[t] as int;
                        0 <= c < ext0.len() && ext0[c].max_layer >= lc
                    } by {
                        let c = neighbors@[t] as int;
                        assert(ext0[c] == nv0[c]);
                    }
                }
                assert(m_limit == degree_limit(config, lc as int));
                assert(ext0[n] == new_node@);
                assert(distinct_ids(cands));
                assert(neighbors@.no_duplicates());
                assert(list_simple(neighbors@, n));
                lemma_set_list(ext0, n, lc as int, neighbors@, config);
            }
            let ghost nb_list = neighbors@;
            let own = neighbors.clone();
            proof {
                assert(own@ =~= nb_list);
            }
            let ghost nn0 = new_node@;
            set_own_list(&mut new_node, lc, own);
            proof {
                assert(nodes_view(self.nodes@).push(new_node@) =~= set_list(ext0, n, lc as int, nb_list));
                assert forall|l: int| lc < l <= max_level_to_process implies #[trigger] linked_on_layer(
                    old_nv,
                    layer_lists(nodes_view(self.nodes@), l),
                    new_node@.connections[l],
                    buf_after.vectors,
                    metric,
                    config,
                    *distance,
                    vector,
                    l,
                    entries[l],
                    found[l],
                ) by {
                    assert(new_node@.connections[l] == nn0.connections[l]);
                    assert(linked_on_layer(
                        old_nv,
                        layer_lists(nodes_view(self.nodes@), l),
                        nn0.connections[l],
                        buf_after.vectors,
                        metric,
                        config,
                        *distance,
                        vector,
                        l,
                        entries[l],
                        found[l],
                    ));
                }
            }
            let mut q: usize = 0;
            while q < neighbors.len()
                invariant
                    self.buffer.wf(),
                    self.buffer@ == buf_after,
                    self.buffer@.len() == n + 1,
                    self.nodes@.len() == n,
                    self.config == config,
                    self.max_layer == old_max,
                    self.entry_point == old_entry,
                    self.metric == metric,
                    old_nv.len() == n,
                    internal_idx == n,
                    new_node@.connections.len() == insert_layer + 1,
                    lc < remaining,
                    remaining <= max_level_to_process + 1,
                    max_level_to_process <= insert_layer,
                    max_level_to_process == lower_of(old_max as nat, insert_layer as nat),
                    forall|j: int, l: int|
                        0 <= j < n && max_level_to_process < l <= old_nv[j].max_layer ==> #[trigger] nodes_view(self.nodes@)[j].connections[l]
                            == old_nv[j].connections[l],
                    forall|l: int| max_level_to_process < l <= insert_layer ==> #[trigger] new_node@.connections[l].len() == 0,
                    forall|j: int, l: int|
                        0 <= j < n && 0 <= l <= old_nv[j].max_layer ==> only_new_links(
                            old_nv[j].connections[l],
                            #[trigger] nodes_view(self.nodes@)[j].connections[l],
                            n,
                        ),
                    m_limit == degree_limit(config, lc as int),
                    forall|j: int| #![trigger nodes_view(self.nodes@)[j]] 0 <= j < n ==> nodes_view(self.nodes@)[j].id == old_nv[j].id
                        && nodes_view(self.nodes@)[j].max_layer == old_nv[j].max_layer,
                    new_node@.id == external_id,
                    new_node@.max_layer == insert_layer,
                    shapes_ok(nodes_view(self.nodes@)),
                    shapes_ok(nodes_view(self.nodes@).push(new_node@)),
                    links_ok(nodes_view(self.nodes@).push(new_node@)),
                    lists_simple(nodes_view(self.nodes@).push(new_node@)),
                    neighbors@.no_duplicates(),
                    forall|j: int|
                        0 <= j < n && lc <= old_nv[j].max_layer && #[trigger] nodes_view(self.nodes@)[j].connections[lc as int].contains(internal_idx)
                            ==> exists|u: int| 0 <= u < q && neighbors@[u] == j,
                    degrees_ok(nodes_view(self.nodes@).push(new_node@), config),
                    forall|l: int| 0 <= l < lc ==> #[trigger] layer_links_ok(nodes_view(self.nodes@), l),
                    forall|u: int| 0 <= u < neighbors@.len() ==> {
                        let c = #[trigger] neighbors@[u] as int;
                        0 <= c < n && old_nv[c].max_layer >= lc
                    },
                    lc > 0 ==> curr_obj < n && old_nv[curr_obj as int].max_layer >= lc - 1,
                    forall|a: &[u32], b: &[u32], m: DistanceMetric| #[trigger] distance.requires((a, b, m)),
                    lc + 1 == remaining,
                    entries[lc as int] == entry_lc,
                    found[lc as int] == cands,
                    lc > 0 ==> entries[lc - 1] == curr_obj,
                    entries.len() == top0 + 1,
                    found.len() == top0 + 1,
                    entries[top0] == ep0,
                    old_max == top0,
                    old_entry == Some(ep0 as usize),
                    greedy_descent(old_nv, buf_after.vectors, metric, *distance, vector, entries, found, top0, max_level_to_process as int),
                    forall|l: int|
                        #![trigger found[l]]
                        lc <= l <= max_level_to_process && 0 < l ==> continues_from_nearest(found[l], entries[l - 1]),
                    new_node@.connections[lc as int] == neighbors@,
                    forall|j: int, l: int|
                        0 <= j < n && 0 <= l < lc && l <= old_nv[j].max_layer ==> #[trigger] nodes_view(self.nodes@)[j].connections[l]
                            == old_nv[j].connections[l],
                    forall|l: int| lc < l <= max_level_to_process ==> #[trigger] linked_on_layer(
                        old_nv,
                        layer_lists(nodes_view(self.nodes@), l),
                        new_node@.connections[l],
                        buf_after.vectors,
                        metric,
                        config,
                        *distance,
                        vector,
                        l,
                        entries[l],
                        found[l],
                    ),
                    forall|u: int| q <= u < neighbors@.len() ==> #[trigger] nodes_view(self.nodes@)[neighbors@[u] as int].connections[lc as int]
                        == old_nv[neighbors@[u] as int].connections[lc as int],
                    forall|j: int|
                        0 <= j < n && lc <= old_nv[j].max_layer && !neighbors@.contains(j as usize) ==> #[trigger] nodes_view(self.nodes@)[j].connections[lc as int]
                            == old_nv[j].connections[lc as int],
                    forall|u: int| 0 <= u < q ==> #[trigger] back_linked(
                        buf_after.vectors,
                        metric,
                        *distance,
                        neighbors@[u] as int,
                        n,
                        m_limit as int,
                        old_nv[neighbors@[u] as int].connections[lc as int],
                        nodes_view(self.nodes@)[neighbors@[u] as int].connections[lc as int],
                    ),
                decreases neighbors@.len() - q,
            {
                let nb = neighbors[q];
                let ghost nv1 = nodes_view(self.nodes@);
                let ghost ext1 = nv1.push(new_node@);
                proof {
                    assert(nv1[nb as int] == self.nodes@[nb as int]@);
                    assert(nv1[nb as int].max_layer == old_nv[nb as int].max_layer);
                    assert(nv1[nb as int].connections.len() == nv1[nb as int].max_layer + 1);
                }
                let mut conns = self.nodes[nb].connections[lc].clone();
                let ghost before_list = nv1[nb as int].connections[lc as int];
                proof {
                    assert(lists_simple(ext1));
                    assert(list_simple(ext1[nb as int].connections[lc as int], nb as int));
                    assert(!before_list.contains(internal_idx)) by {
                        if before_list.contains(internal_idx) {
                            assert(nv1[nb as int].connections[lc as int].contains(internal_idx));
                            let u = choose|u: int| 0 <= u < q && neighbors@[u] == nb as int;
                            assert(neighbors@[u] == neighbors@[q as int]);
                        }
                    }
                    assert(conns@ =~= before_list);
                    assert(before_list == old_nv[nb as int].connections[lc as int]);
                    assert(ext1[nb as int] == nv1[nb as int]);
                    assert(ext1[n] == new_node@);
                    assert(layer_links_ok(ext1, lc as int));
                    assert(list_ok(ext1, lc as int, before_list)) by {
                        assert forall|t: int| 0 <= t < before_list.len() implies {
                            let c = #[trigger] before_list[t] as int;
                            0 <= c < ext1.len() && ext1[c].max_layer >= lc
                        } by {
                            assert(ext1[nb as int].connections[lc as int][t] == before_list[t]);
                        }
                    }
                }
                conns.push(internal_idx);
                let ghost grown = conns@;
                proof {
                    assert(grown == before_list.push(n as usize));
                    assert(list_simple(conns@, nb as int)) by {
                        assert forall|a: int, b: int| 0 <= a < conns@.len() && 0 <= b < conns@.len() && a != b implies conns@[a] != conns@[b] by {
                            if a < before_list.len() && b < before_list.len() {
                                assert(conns@[a] == before_list[a] && conns@[b] == before_list[b]);
                            } else if a < before_list.len() {
                                assert(conns@[a] == before_list[a]);
                            } else if b < before_list.len() {
                                assert(conns@[b] == before_list[b]);
                            }
                        }
                        assert forall|t: int| 0 <= t < conns@.len() implies #[trigger] conns@[t] as int != nb as int by {
                            if t < before_list.len() {
                                assert(conns@[t] == before_list[t]);
                            }
                        }
                    }
                    assert(only_new_links(before_list, conns@, n)) by {
                        assert forall|t: int| 0 <= t < conns@.len() implies #[trigger] conns@[t] == n || before_list.contains(conns@[t]) by {
                            if t < before_list.len() {
                                assert(conns@[t] == before_list[t]);
                            }
                        }
                    }
                    assert(list_ok(ext1, lc as int, conns@)) by {
                        assert forall|t: int| 0 <= t < conns@.len() implies {
                            let c = #[trigger] conns@[t] as int;
                            0 <= c < ext1.len() && ext1[c].max_layer >= lc
                        } by {
                            if t < before_list.len() {
                                assert(conns@[t] == before_list[t]);
                            }
                        }
                    }
                }
                if conns.len() > m_limit {
                    let neighbor_vec = self.buffer.get_vector(nb).unwrap();
                    let mut neighbor_candidates: Vec<SearchResult> = Vec::new();
                    let mut c: usize = 0;
                    while c < conns.len()
                        invariant
                            self.buffer.wf(),
                            self.buffer@.len() == n + 1,
                            ext1.len() == n + 1,
                            list_ok(ext1, lc as int, conns@),
                            c <= conns@.len(),
                            neighbor_candidates@.len() == c,
                            forall|u: int| 0 <= u < c ==> #[trigger] neighbor_candidates@[u].id == conns@[u] as int,
                            forall|a: &[u32], b: &[u32], m: DistanceMetric| #[trigger] distance.requires((a, b, m)),
                            self.buffer@ == buf_after,
                            self.metric == metric,
                            neighbor_vec@ == buf_after.vectors[nb as int],
                            forall|u: int| 0 <= u < c ==> returned_pair_distance(
                                *distance,
                                buf_after.vectors[nb as int],
                                buf_after.vectors[conns@[u] as int],
                                metric,
                                #[trigger] neighbor_candidates@[u].distance,
                            ),
                        decreases conns@.len() - c,
                    {
                        let n_idx = conns[c];
                        assert(n_idx < n + 1);
                        let n_vec = self.buffer.get_vector(n_idx).unwrap();
                        let dist = distance(neighbor_vec, n_vec, self.metric);
                        proof {
                            assert(returned_pair_distance(
                                *distance,
                                buf_after.vectors[nb as int],
                                buf_after.vectors[n_idx as int],
                                metric,
                                dist,
                            ));
                        }
                        neighbor_candidates.push(SearchResult { id: n_idx as u64, distance: dist });
                        c = c + 1;
                    }
                    let ghost nc = neighbor_candidates@;
                    let ghost pushed = conns@;
                    proof {
                        assert forall|t: int| 0 <= t < nc.len() implies #[trigger] nc[t].id < self.buffer@.len() by {
                            assert(nc[t].id == pushed[t] as int);
                        }
                    }
                    proof {
                        assert(distinct_ids(nc)) by {
                            assert forall|a: int, b: int| 0 <= a < b < nc.len() implies #[trigger] nc[a].id != #[trigger] nc[b].id by {
                                assert(nc[a].id == pushed[a] as int);
                                assert(nc[b].id == pushed[b] as int);
                            }
                        }
                    }
                    conns = self.select_neighbors(neighbor_candidates, m_limit, distance);
                    proof {
                        lemma_diverse_selection_facts(self.buffer@.vectors, self.metric, *distance, nc, m_limit as nat, conns@);
                        assert(list_simple(conns@, nb as int)) by {
                            assert forall|t: int| 0 <= t < conns@.len() implies #[trigger] conns@[t] as int != nb as int by {
                                assert(names_candidate(nc, conns@[t] as int));
                                let w = choose|w: int| 0 <= w < nc.len() && nc[w].id == conns@[t] as int;
                                assert(nc[w].id == pushed[w] as int);
                            }
                        }
                    }
                    proof {
                        assert(list_ok(ext1, lc as int, conns@)) by {
                            assert forall|t: int| 0 <= t < conns@.len() implies {
                                let c = #[trigger] conns@[t] as int;
                                0 <= c < ext1.len() && ext1[c].max_layer >= lc
                            } by {
                                assert(names_candidate(nc, conns@[t] as int));
                                let w = choose|w: int| 0 <= w < nc.len() && nc[w].id == conns@[t] as int;
                                assert(nc[w].id == pushed[w] as int);
                            }
                        }
                        assert(only_new_links(before_list, conns@, n)) by {
                            assert forall|t: int| 0 <= t < conns@.len() implies #[trigger] conns@[t] == n || before_list.contains(conns@[t]) by {
                                assert(names_candidate(nc, conns@[t] as int));
                                let w = choose|w: int| 0 <= w < nc.len() && nc[w].id == conns@[t] as int;
                                assert(nc[w].id == pushed[w] as int);
                                assert(pushed[w] == n || before_list.contains(pushed[w]));
                            }
                        }
                        assert(pruning_candidates(buf_after.vectors, metric, *distance, nb as int, grown, nc)) by {
                            assert forall|t: int| 0 <= t < nc.len() implies nc[t].id == grown[t] as int && #[trigger] returned_pair_distance(
                                *distance,
                                buf_after.vectors[nb as int],
                                buf_after.vectors[grown[t] as int],
                                metric,
                                nc[t].distance,
                            ) by {
                                assert(nc[t].id == pushed[t] as int);
                            }
                        }
                        assert(back_linked(
                            buf_after.vectors,
                            metric,
                            *distance,
                            nb as int,
                            n,
                            m_limit as int,
                            before_list,
                            conns@,
                        ));
                    }
                } else {
                    proof {
                        assert(back_linked(
                            buf_after.vectors,
                            metric,
                            *distance,
                            nb as int,
                            n,
                            m_limit as int,
                            before_list,
                            conns@,
                        ));
                    }
                }
                let ghost new_list = conns@;
                proof {
                    lemma_set_list(ext1, nb as int, lc as int, new_list, config);
                    lemma_set_list(nv1, nb as int, lc as int, new_list, config);
                }
                set_node_list(&mut self.nodes, nb, lc, conns);
                proof {
                    assert forall|j: int|
                        0 <= j < n && lc <= old_nv[j].max_layer && #[trigger] nodes_view(self.nodes@)[j].connections[lc as int].contains(internal_idx)
                            implies exists|u: int| 0 <= u < q + 1 && neighbors@[u] == j by {
                        if j == nb {
                            assert(neighbors@[q as int] == j);
                        } else {
                            assert(nodes_view(self.nodes@)[j].connections[lc as int] == nv1[j].connections[lc as int]);
                            assert(nv1[j].connections[lc as int].contains(internal_idx));
                            let u = choose|u: int| 0 <= u < q && neighbors@[u] == j;
                            assert(u < q + 1);
                        }
                    }
                    assert forall|j: int, l: int| 0 <= j < n && 0 <= l <= old_nv[j].max_layer implies only_new_links(
                        old_nv[j].connections[l],
                        #[trigger] nodes_view(self.nodes@)[j].connections[l],
                        n,
                    ) by {
                        if j == nb && l == lc {
                            let ol = old_nv[j].connections[l];
                            assert(nodes_view(self.nodes@)[j].connections[l] == new_list);
                            assert(only_new_links(ol, before_list, n));
                            assert forall|t: int| 0 <= t < new_list.len() implies #[trigger] new_list[t] == n || ol.contains(new_list[t]) by {
                                if new_list[t] != n {
                                    assert(before_list.contains(new_list[t]));
                                    let u = choose|u: int| 0 <= u < before_list.len() && before_list[u] == new_list[t];
                                    assert(before_list[u] == n || ol.contains(before_list[u]));
                                }
                            }
                        } else {
                            assert(nodes_view(self.nodes@)[j].connections[l] == nv1[j].connections[l]);
                        }
                    }
                    assert(nodes_view(self.nodes@).push(new_node@) =~= set_list(ext1, nb as int, lc as int, new_list));
                    let nvq = nodes_view(self.nodes@);
                    assert(nvq == set_list(nv1, nb as int, lc as int, new_list));
                    assert forall|j: int, l: int|
                        0 <= j < n && 0 <= l < lc && l <= old_nv[j].max_layer implies #[trigger] nvq[j].connections[l]
                            == old_nv[j].connections[l] by {
                        assert(nvq[j].connections[l] == nv1[j].connections[l]);
                    }
                    assert forall|l: int| lc < l <= max_level_to_process implies #[trigger] linked_on_layer(
                        old_nv,
                        layer_lists(nvq, l),
                        new_node@.connections[l],
                        buf_after.vectors,
                        metric,
                        config,
                        *distance,
                        vector,
                        l,
                        entries[l],
                        found[l],
                    ) by {
                        lemma_layer_lists_set(nv1, nb as int, lc as int, new_list, l);
                        assert(linked_on_layer(
                            old_nv,
                            layer_lists(nv1, l),
                            new_node@.connections[l],
                            buf_after.vectors,
                            metric,
                            config,
                            *distance,
                            vector,
                            l,
                            entries[l],
                            found[l],
                        ));
                    }
                    assert forall|u: int| q + 1 <= u < neighbors@.len() implies #[trigger] nvq[neighbors@[u] as int].connections[lc as int]
                        == old_nv[neighbors@[u] as int].connections[lc as int] by {
                        assert(neighbors@[u] != neighbors@[q as int]);
                        assert(nvq[neighbors@[u] as int] == nv1[neighbors@[u] as int]);
                    }
                    assert forall|j: int|
                        0 <= j < n && lc <= old_nv[j].max_layer && !neighbors@.contains(j as usize) implies #[trigger] nvq[j].connections[lc as int]
                            == old_nv[j].connections[lc as int] by {
                        assert(j != nb);
                        assert(nvq[j] == nv1[j]);
                    }
                    assert forall|u: int| 0 <= u < q + 1 implies #[trigger] back_linked(
                        buf_after.vectors,
                        metric,
                        *distance,
                        neighbors@[u] as int,
                        n,
                        m_limit as int,
                        old_nv[neighbors@[u] as int].connections[lc as int],
                        nvq[neighbors@[u] as int].connections[lc as int],
                    ) by {
                        if u < q {
                            assert(neighbors@[u] != neighbors@[q as int]);
                            assert(nvq[neighbors@[u] as int] == nv1[neighbors@[u] as int]);
                        } else {
                            assert(nvq[nb as int].connections[lc as int] == new_list);
                        }
                    }
                    assert forall|l: int| 0 <= l < lc implies #[trigger] layer_links_ok(nodes_view(self.nodes@), l) by {
                        assert(layer_links_ok(nv1, l));
                    }
                    assert forall|j: int| #![trigger nodes_view(self.nodes@)[j]] 0 <= j < n implies nodes_view(self.nodes@)[j].id == old_nv[j].id
                        && nodes_view(self.nodes@)[j].max_layer == old_nv[j].max_layer by {
                        assert(nodes_view(self.nodes@)[j].id == nv1[j].id);
                        assert(nv1[j].id == old_nv[j].id);
                    }
                }
                q = q + 1;
            }
            proof {
                if lc > 0 {
                    assert(nodes_view(self.nodes@)[curr_obj as int].max_layer == old_nv[curr_obj as int].max_layer);
                }
                let nvq = nodes_view(self.nodes@);
                let lists = layer_lists(nvq, lc as int);
                let limit = degree_limit(config, lc as int);
                assert forall|j: int|
                    0 <= j < n && lc <= old_nv[j].max_layer implies if neighbors@.contains(j as usize) {
                        back_linked(buf_after.vectors, metric, *distance, j, n, limit, old_nv[j].connections[lc as int], #[trigger] lists[j])
                    } else {
                        lists[j] == old_nv[j].connections[lc as int]
                    } by {
                    assert(nvq[j].max_layer == old_nv[j].max_layer);
                    assert(lists[j] == nvq[j].connections[lc as int]);
                    if neighbors@.contains(j as usize) {
                        let u = choose|u: int| 0 <= u < neighbors@.len() && neighbors@[u] == j as usize;
                        assert(back_linked(
                            buf_after.vectors,
                            metric,
                            *distance,
                            neighbors@[u] as int,
                            n,
                            m_limit as int,
                            old_nv[neighbors@[u] as int].connections[lc as int],
                            nvq[neighbors@[u] as int].connections[lc as int],
                        ));
                    }
                }
                assert(layer_search(
                    old_nv,
                    buf_after.vectors,
                    metric,
                    *distance,
                    vector,
                    entry_lc,
                    config.ef_construction as nat,
                    lc as int,
                    cands,
                ) && diverse_selection(buf_after.vectors, metric, *distance, cands, limit as nat, new_node@.connections[lc as int]));
                assert(linked_on_layer(
                    old_nv,
                    lists,
                    new_node@.connections[lc as int],
                    buf_after.vectors,
                    metric,
                    config,
                    *distance,
                    vector,
                    lc as int,
                    entries[lc as int],
                    found[lc as int],
                ));
            }
            remaining = lc;
        }
        let ghost final_new = new_node@;
        let ghost nv_end = nodes_view(self.nodes@);
        self.nodes.push(new_node);
        proof {
            assert(nodes_view(self.nodes@) =~= nv_end.push(final_new));
        }
        if insert_layer > self.max_layer {
            self.max_layer = insert_layer;
            self.entry_point = Some(internal_idx);
        }
        proof {
            let v = self@;
            assert(v.nodes[n] == final_new);
            assert forall|i: int| 0 <= i < v.nodes.len() implies #[trigger] v.nodes[i].id == v.buffer.ids[i] by {
                if i < n {
                    assert(v.nodes[i] == nv_end[i]);
                    assert(nv_end[i].id == old_nv[i].id);
                    assert(old_nv[i] == old(self)@.nodes[i]);
                }
            }
            assert forall|i: int| 0 <= i < v.nodes.len() implies #[trigger] v.nodes[i].max_layer <= v.max_layer by {
                if i < n {
                    assert(v.nodes[i] == nv_end[i]);
                    assert(nv_end[i].max_layer == old_nv[i].max_layer);
                    assert(old_nv[i] == old(self)@.nodes[i]);
                }
            }
            match v.entry_point {
                Some(e) => {
                    if e < n {
                        assert(v.nodes[e as int] == nv_end[e as int]);
                        assert(nv_end[e as int].max_layer == old_nv[e as int].max_layer);
                        assert(old_nv[e as int] == old(self)@.nodes[e as int]);
                    }
                },
                None => {},
            }
            assert forall|j: int| #![trigger v.nodes[j]] 0 <= j < n implies v.nodes[j].id == old(self)@.nodes[j].id
                && v.nodes[j].max_layer == old(self)@.nodes[j].max_layer by {
                assert(v.nodes[j] == nv_end[j]);
            }
            assert(old(self)@.nodes =~= old_nv);
            assert forall|l: int|
                #![trigger found[l]]
                0 <= l <= lower_of(old(self)@.max_layer, insert_layer as nat) implies linked_on_layer(
                old(self)@.nodes,
                layer_lists(v.nodes, l),
                v.nodes[n].connections[l],
                v.buffer.vectors,
                old(self)@.metric,
                old(self)@.config,
                *distance,
                vector,
                l,
                entries[l],
                found[l],
            ) by {
                lemma_linked_on_layer_push(
                    old_nv,
                    nv_end,
                    final_new,
                    final_new.connections[l],
                    buf_after.vectors,
                    metric,
                    config,
                    *distance,
                    vector,
                    l,
                    entries[l],
                    found[l],
                );
            }
            assert(inserted_links(old(self)@, v.nodes, v.buffer.vectors, *distance, vector, insert_layer as nat, entries, found));
        }
        Ok(())
    }
}

/// `r` carries the id of the node at position `j` and a distance that `f`
/// returned for that node's vector.
pub open spec fn reports_node<F: Fn(&[u32], &[u32], DistanceMetric) -> u32>(
    v: HnswView,
    f: F,
    query: &[u32],
    r: SearchResult,
    j: int,
) -> bool {
    &&& 0 <= j < v.nodes.len()
    &&& r.id == v.nodes[j].id
    &&& returned_distance(f, query, v.buffer.vectors[j], v.metric, r.distance)
}

impl HnswIndex {
    /// Searches the graph for the `k` vectors nearest to `query`, nearest
    /// first: a greedy descent from the entry point to layer 0, then a
    /// search of layer 0 that keeps `max(k, 50)` candidates. `distance`
    /// computes the distance between two vectors under a metric.
    pub fn search<F: Fn(&[u32], &[u32], DistanceMetric) -> u32>(
        &self,
        query: &[u32],
        k: usize,
        distance: &F,
    ) -> (res: Vec<SearchResult>)
        requires
            self.wf(),
            forall|a: &[u32], b: &[u32], m: DistanceMetric| #[trigger] distance.requires((a, b, m)),
        ensures
            res@.len() <= k,
            self@.nodes.len() == 0 ==> res@.len() == 0,
            k > 0 && self@.nodes.len() > 0 ==> res@.len() >= 1,
            sorted_by_distance(res@),
            exists|pos: Seq<int>|
                {
                    &&& pos.len() == res@.len()
                    &&& pos.no_duplicates()
                    &&& forall|t: int| 0 <= t < res@.len() ==> #[trigger] reports_node(self@, *distance, query, res@[t], pos[t])
                },
            k > 0 && self@.nodes.len() > 0 ==> exists|
                entries: Seq<int>,
                found: Seq<Seq<SearchResult>>,
                c: Seq<SearchResult>,
                sel: Seq<int>,
            |
                {
                    &&& self@.entry_point == Some(entries[self@.max_layer as int] as nat)
                    &&& #[trigger] greedy_descent(
                        self@.nodes,
                        self@.buffer.vectors,
                        self@.metric,
                        *distance,
                        query,
                        entries,
                        found,
                        self@.max_layer as int,
                        0,
                    )
                    &&& layer_search(
                        self@.nodes,
                        self@.buffer.vectors,
                        self@.metric,
                        *distance,
                        query,
                        entries[0],
                        search_width(k as nat),
                        0,
                        c,
                    )
                    &&& #[trigger] selects_top_k(res@, external_ids(self@, c), distances_of(c), k as nat, sel)
                },
            k > 0 && self@.nodes.len() > 0 ==> search_found(self@, *distance, query, k as nat, res@),
    {
        if self.entry_point.is_none() || k == 0 {
            proof {
                let e: Seq<int> = Seq::empty();
                assert(e.no_duplicates());
            }
            return Vec::new();
        }
        let ghost nv = nodes_view(self.nodes@);
        let mut curr_obj = self.entry_point.unwrap();
        let mut curr_layer = self.max_layer;
        let ghost top0 = self.max_layer as int;
        let ghost ep0 = curr_obj as int;
        let ghost mut entries: Seq<int> = Seq::new((top0 + 1) as nat, |l: int| ep0);
        let ghost mut found: Seq<Seq<SearchResult>> = Seq::new((top0 + 1) as nat, |l: int| Seq::empty());
        proof {
            assert(nv[curr_obj as int] == self.nodes@[curr_obj as int]@);
        }
        while curr_layer > 0
            invariant
                top0 == self.max_layer,
                curr_layer <= top0,
                entries.len() == top0 + 1,
                found.len() == top0 + 1,
                entries[top0] == ep0,
                self.entry_point == Some(ep0 as usize),
                entries[curr_layer as int] == curr_obj,
                greedy_descent(nv, self.buffer@.vectors, self.metric, *distance, query, entries, found, top0, curr_layer as int),
                self.wf(),
                nv == nodes_view(self.nodes@),
                curr_obj < self.nodes@.len(),
                self.nodes@[curr_obj as int]@.max_layer >= curr_layer,
                forall|a: &[u32], b: &[u32], m: DistanceMetric| #[trigger] distance.requires((a, b, m)),
            decreases curr_layer,
        {
            proof {
                assert(layer_links_ok(nv, curr_layer as int));
                assert(self.nodes@.len() == self.nodes.len());
            }
            let candidates = self.search_layer(query, curr_obj, 1, curr_layer, distance);
            proof {
                assert(self.found(*distance, query, curr_layer as int, candidates@[0]));
                let cl = curr_layer as int;
                let old_entries = entries;
                let old_found = found;
                found = found.update(cl, candidates@);
                entries = entries.update(cl - 1, candidates@[0].id as int);
                assert forall|l: int| #![trigger found[l]] cl - 1 < l <= top0 implies layer_search(
                    nv,
                    self.buffer@.vectors,
                    self.metric,
                    *distance,
                    query,
                    entries[l],
                    1,
                    l,
                    found[l],
                ) && entries[l - 1] == found[l][0].id as int by {
                    if l > cl {
                        assert(old_found[l] == found[l]);
                        assert(old_entries[l] == entries[l]);
                        assert(old_entries[l - 1] == entries[l - 1]);
                    }
                }
            }
            curr_obj = candidates[0].id as usize;
            curr_layer = curr_layer - 1;
        }
        let ef_search = if k > 50 { k } else { 50 };
        proof {
            assert(layer_links_ok(nv, 0));
            assert(self.nodes@.len() == self.nodes.len());
        }
        let candidates = self.search_layer(query, curr_obj, ef_search, 0, distance);
        let ghost search_entry = curr_obj;
        let ghost cands = candidates@;
        proof {
            assert(cands.no_duplicates()) by {
                assert forall|a: int, b: int| 0 <= a < cands.len() && 0 <= b < cands.len() && a != b implies cands[a] != cands[b] by {
                    if a < b {
                        assert(cands[a].id != cands[b].id);
                    } else {
                        assert(cands[b].id != cands[a].id);
                    }
                }
            }
        }
        let sorted = sort_by_distance(candidates);
        proof {
            lemma_permutation_distinct_ids(sorted@, cands);
        }
        let ghost mut pos: Seq<int> = Seq::empty();
        let ghost mut sel: Seq<int> = Seq::empty();
        let mut final_results: Vec<SearchResult> = Vec::new();
        let mut i: usize = 0;
        while i < sorted.len() && i < k
            invariant
                self.wf(),
                i <= sorted@.len(),
                i <= k,
                k > 0,
                sorted@.len() == cands.len(),
                cands.len() >= 1,
                final_results@.len() == i,
                forall|u: int| 0 <= u < sorted@.len() ==> #[trigger] cands.contains(sorted@[u]),
                forall|t: int| 0 <= t < cands.len() ==> #[trigger] self.found(*distance, query, 0, cands[t]),
                sorted_by_distance(sorted@),
                forall|u: int| 0 <= u < i ==> #[trigger] final_results@[u].distance == sorted@[u].distance,
                forall|a: int, b: int| 0 <= a < b < sorted@.len() ==> #[trigger] sorted@[a].id != #[trigger] sorted@[b].id,
                pos.len() == i,
                forall|u: int| 0 <= u < i ==> #[trigger] pos[u] == sorted@[u].id,
                forall|u: int| 0 <= u < i ==> #[trigger] reports_node(self@, *distance, query, final_results@[u], pos[u]),
                sel.len() == i,
                forall|u: int| 0 <= u < i ==> 0 <= #[trigger] sel[u] < cands.len() && cands[sel[u]] == sorted@[u],
                forall|u: int| 0 <= u < i ==> #[trigger] final_results@[u].id == self@.nodes[sorted@[u].id as int].id,
            decreases sorted@.len() - i,
        {
            let candidate = sorted[i];
            let internal_idx = candidate.id as usize;
            let ghost t = choose|t: int| 0 <= t < cands.len() && cands[t] == sorted@[i as int];
            proof {
                assert(cands.contains(sorted@[i as int]));
                assert(self.found(*distance, query, 0, cands[t]));
                assert(self.nodes@.len() == self.nodes.len());
            }
            let external_id = self.nodes[internal_idx].id;
            let r = SearchResult { id: external_id, distance: candidate.distance };
            proof {
                assert(nodes_view(self.nodes@)[internal_idx as int] == self.nodes@[internal_idx as int]@);
                assert(reports_node(self@, *distance, query, r, internal_idx as int));
                pos = pos.push(internal_idx as int);
                sel = sel.push(t);
            }
            final_results.push(r);
            i = i + 1;
        }
        proof {
            assert(pos.no_duplicates()) by {
                assert forall|a: int, b: int| 0 <= a < pos.len() && 0 <= b < pos.len() && a != b implies pos[a] != pos[b] by {
                    if a < b {
                        assert(sorted@[a].id != sorted@[b].id);
                    } else {
                        assert(sorted@[b].id != sorted@[a].id);
                    }
                }
            }
            assert(sorted_by_distance(final_results@)) by {
                assert forall|a: int, b: int| 0 <= a < b < final_results@.len() implies order_key(
                    #[trigger] final_results@[a].distance,
                ) <= order_key(#[trigger] final_results@[b].distance) by {
                    assert(order_key(sorted@[a].distance) <= order_key(sorted@[b].distance));
                }
            }
            let ids = external_ids(self@, cands);
            let ds = distances_of(cands);
            let res = final_results@;
            assert(sel.no_duplicates()) by {
                assert forall|a: int, b: int| 0 <= a < sel.len() && 0 <= b < sel.len() && a != b implies sel[a] != sel[b] by {
                    if a < b {
                        assert(sorted@[a].id != sorted@[b].id);
                    } else {
                        assert(sorted@[b].id != sorted@[a].id);
                    }
                }
            }
            assert forall|t: int| 0 <= t < sel.len() implies 0 <= #[trigger] sel[t] < ids.len() && res[t] == (SearchResult {
                id: ids[sel[t]],
                distance: ds[sel[t]],
            }) by {
                assert(cands[sel[t]] == sorted@[t]);
                assert(ids[sel[t]] == self@.nodes[cands[sel[t]].id as int].id);
                assert(ds[sel[t]] == cands[sel[t]].distance);
                assert(res[t].id == ids[sel[t]]);
                assert(res[t].distance == ds[sel[t]]);
            }
            assert forall|j: int| 0 <= j < ids.len() && !sel.contains(j) implies order_key(#[trigger] ds[j]) >= order_key(
                res.last().distance,
            ) by {
                vstd::seq_lib::to_multiset_contains(sorted@, cands[j]);
                vstd::seq_lib::to_multiset_contains(cands, cands[j]);
                assert(cands.contains(cands[j]));
                let w = choose|w: int| 0 <= w < sorted@.len() && sorted@[w] == cands[j];
                if w < i {
                    assert(cands[sel[w]] == cands[j]);
                    if sel[w] != j {
                        if sel[w] < j {
                            assert(cands[sel[w]].id != cands[j].id);
                        } else {
                            assert(cands[j].id != cands[sel[w]].id);
                        }
                    }
                    assert(sel.contains(j));
                }
                if w > i - 1 {
                    assert(order_key(sorted@[i - 1].distance) <= order_key(sorted@[w].distance));
                }
            }
            assert(selects_top_k(res, ids, ds, k as nat, sel));
            assert(self@.nodes == nodes_view(self.nodes@));
            assert(search_width(k as nat) == ef_search as nat);
            assert(layer_search(self@.nodes, self@.buffer.vectors, self@.metric, *distance, query, search_entry as int, search_width(k as nat), 0, cands));
            assert(entries[0] == search_entry as int);
            assert(self@.entry_point == Some(entries[self@.max_layer as int] as nat));
            assert(greedy_descent(self@.nodes, self@.buffer.vectors, self@.metric, *distance, query, entries, found, self@.max_layer as int, 0));
        }
        final_results
    }
}

/// `f` gives one distance for each pair of vectors (by their coordinates)
/// under `metric`.
pub open spec fn gives_one_distance<F: Fn(&[u32], &[u32], DistanceMetric) -> u32>(f: F, metric: DistanceMetric) -> bool {
    forall|x1: &[u32], y1: &[u32], x2: &[u32], y2: &[u32], d1: u32, d2: u32|
        x1@ == x2@ && y1@ == y2@ && #[trigger] f.ensures((x1, y1, metric), d1) && #[trigger] f.ensures((x2, y2, metric), d2)
            ==> d1 == d2
}

/// Law: on a graph whose layer 0 is connected and that holds at most
/// `search_width(k)` nodes, with a distance function that gives one result
/// for each pair of vectors, the top-`k` that a search draws from its
/// layer-0 candidates (`c`, `res`) has the same length and the same
/// distances, position by position, as a top-`k` over all stored vectors
/// (`ds`, `res2`: what a flat index's search gives for the same vectors).
pub proof fn lemma_small_graph_search_is_exact<F: Fn(&[u32], &[u32], DistanceMetric) -> u32>(
    v: HnswView,
    f: F,
    query: &[u32],
    k: nat,
    entry: int,
    c: Seq<SearchResult>,
    res: Seq<SearchResult>,
    sel: Seq<int>,
    ids2: Seq<u64>,
    ds: Seq<u32>,
    res2: Seq<SearchResult>,
    sel2: Seq<int>,
)
    requires
        gives_one_distance(f, v.metric),
        layer_connected(v.nodes, 0),
        v.nodes.len() <= search_width(k),
        layer_search(v.nodes, v.buffer.vectors, v.metric, f, query, entry, search_width(k), 0, c),
        selects_top_k(res, external_ids(v, c), distances_of(c), k, sel),
        ds.len() == v.nodes.len(),
        forall|j: int| 0 <= j < ds.len() ==> returned_distance(f, query, v.buffer.vectors[j], v.metric, #[trigger] ds[j]),
        selects_top_k(res2, ids2, ds, k, sel2),
    ensures
        res.len() == res2.len(),
        forall|i: int| 0 <= i < res.len() ==> #[trigger] res[i].distance == res2[i].distance,
{
    let n = v.nodes.len() as int;
    lemma_connected_layer_search_is_exhaustive(v.nodes, v.buffer.vectors, v.metric, f, query, entry, search_width(k), 0, c);
    let ds1 = distances_of(c);
    let perm = Seq::new(c.len(), |t: int| c[t].id as int);
    assert forall|t: int| 0 <= t < ds1.len() implies 0 <= #[trigger] perm[t] < ds.len() && ds[perm[t]] == ds1[t] by {
        assert(names_candidate(c, c[t].id as int));
        assert(reached_node(v.nodes, v.buffer.vectors, v.metric, f, query, entry, 0, c[t]));
        let j = c[t].id as int;
        assert(returned_distance(f, query, v.buffer.vectors[j], v.metric, ds[j]));
        let s1 = choose|s: &[u32]| s@ == v.buffer.vectors[j] && #[trigger] f.ensures((query, s, v.metric), c[t].distance);
        let s2 = choose|s: &[u32]| s@ == v.buffer.vectors[j] && #[trigger] f.ensures((query, s, v.metric), ds[j]);
        assert(f.ensures((query, s1, v.metric), c[t].distance));
        assert(f.ensures((query, s2, v.metric), ds[j]));
    }
    assert forall|a: int, b: int| 0 <= a < ds1.len() && 0 <= b < ds1.len() && a != b implies #[trigger] perm[a] != #[trigger] perm[b] by {
        if a < b {
            assert(c[a].id != c[b].id);
        } else {
            assert(c[b].id != c[a].id);
        }
    }
    lemma_top_k_distances_agree(res, external_ids(v, c), ds1, sel, res2, ids2, ds, sel2, k, perm);
}

/// How a search for the `k` nearest to `query` found `res`: a greedy
/// descent from the entry point (`entries`, `found`) to layer 0, a search
/// of layer 0 from where it ended with room for `search_width(k)` nodes,
/// which found `c`, and the top `k` of `c`, nearest first.
pub open spec fn search_found<F: Fn(&[u32], &[u32], DistanceMetric) -> u32>(
    v: HnswView,
    f: F,
    query: &[u32],
    k: nat,
    res: Seq<SearchResult>,
) -> bool {
    exists|entries: Seq<int>, found: Seq<Seq<SearchResult>>, c: Seq<SearchResult>, sel: Seq<int>|
        {
            &&& v.entry_point == Some(entries[v.max_layer as int] as nat)
            &&& #[trigger] greedy_descent(v.nodes, v.buffer.vectors, v.metric, f, query, entries, found, v.max_layer as int, 0)
            &&& layer_search(v.nodes, v.buffer.vectors, v.metric, f, query, entries[0], search_width(k), 0, c)
            &&& #[trigger] selects_top_k(res, external_ids(v, c), distances_of(c), k, sel)
        }
}

/// Every node of a layer where each reaches every other is reachable
/// from any of them.
proof fn lemma_connected_reaches_all(nodes: Seq<NodeView>, layer: int, entry: int)
    requires
        layer_connected(nodes, layer),
        0 <= entry < nodes.len(),
    ensures
        reachable_set(nodes, layer, entry) == vstd::set_lib::set_int_range(0, nodes.len() as int),
        reachable_set(nodes, layer, entry).len() == nodes.len(),
{
    let all = vstd::set_lib::set_int_range(0, nodes.len() as int);
    assert(reachable_set(nodes, layer, entry) =~= all) by {
        assert forall|x: int| 0 <= x < nodes.len() implies reachable_set(nodes, layer, entry).contains(x) by {
            assert(reachable(nodes, layer, entry, x));
        }
    }
    vstd::set_lib::lemma_int_range(0, nodes.len() as int);
}

/// Law: on an index whose layer 0 is connected, a search for `k` results
/// returns `min(k, n)` of them, `n` being the number of stored vectors;
/// a request for more than 50 is not cut short, and one for fewer is
/// filled from every reachable node.
pub proof fn lemma_search_returns_min_of_k_and_len<F: Fn(&[u32], &[u32], DistanceMetric) -> u32>(
    v: HnswView,
    f: F,
    query: &[u32],
    k: nat,
    res: Seq<SearchResult>,
)
    requires
        layer_connected(v.nodes, 0),
        res.len() <= k,
        v.nodes.len() == 0 ==> res.len() == 0,
        k > 0 && v.nodes.len() > 0 ==> search_found(v, f, query, k, res),
    ensures
        res.len() == if k < v.nodes.len() { k } else { v.nodes.len() },
{
    let n = v.nodes.len();
    if k > 0 && n > 0 {
        let (entries, found, c, sel) = choose|
            entries: Seq<int>,
            found: Seq<Seq<SearchResult>>,
            c: Seq<SearchResult>,
            sel: Seq<int>,
        |
            {
                &&& v.entry_point == Some(entries[v.max_layer as int] as nat)
                &&& #[trigger] greedy_descent(v.nodes, v.buffer.vectors, v.metric, f, query, entries, found, v.max_layer as int, 0)
                &&& layer_search(v.nodes, v.buffer.vectors, v.metric, f, query, entries[0], search_width(k), 0, c)
                &&& #[trigger] selects_top_k(res, external_ids(v, c), distances_of(c), k, sel)
            };
        let w = search_width(k);
        assert(w >= k && w >= 50);
        if n <= w {
            lemma_connected_layer_search_is_exhaustive(v.nodes, v.buffer.vectors, v.metric, f, query, entries[0], w, 0, c);
        } else {
            assert(reached_node(v.nodes, v.buffer.vectors, v.metric, f, query, entries[0], 0, c[0]));
            let p = choose|p: Seq<int>| #[trigger] is_walk(v.nodes, 0, p) && p[0] == entries[0] && p.last() == c[0].id as int;
            lemma_connected_reaches_all(v.nodes, 0, entries[0]);
            assert(c.len() == w);
        }
    }
}

/// Law: on an index of at most 50 vectors whose layer 0 is connected, with
/// a distance function that gives one result for each pair of vectors, a
/// search for `k > 0` results is exact: it has the length and the
/// distances, position by position, of a top-`k` over all stored vectors
/// (`ds`, `res2`: what a flat index's search gives for the same vectors).
pub proof fn lemma_search_is_exact_up_to_fifty<F: Fn(&[u32], &[u32], DistanceMetric) -> u32>(
    v: HnswView,
    f: F,
    query: &[u32],
    k: nat,
    res: Seq<SearchResult>,
    ids2: Seq<u64>,
    ds: Seq<u32>,
    res2: Seq<SearchResult>,
    sel2: Seq<int>,
)
    requires
        gives_one_distance(f, v.metric),
        layer_connected(v.nodes, 0),
        0 < v.nodes.len() <= 50,
        k > 0,
        search_found(v, f, query, k, res),
        ds.len() == v.nodes.len(),
        forall|j: int| 0 <= j < ds.len() ==> returned_distance(f, query, v.buffer.vectors[j], v.metric, #[trigger] ds[j]),
        selects_top_k(res2, ids2, ds, k, sel2),
    ensures
        res.len() == res2.len(),
        forall|i: int| 0 <= i < res.len() ==> #[trigger] res[i].distance == res2[i].distance,
{
    let (entries, found, c, sel) = choose|
        entries: Seq<int>,
        found: Seq<Seq<SearchResult>>,
        c: Seq<SearchResult>,
        sel: Seq<int>,
    |
        {
            &&& v.entry_point == Some(entries[v.max_layer as int] as nat)
            &&& #[trigger] greedy_descent(v.nodes, v.buffer.vectors, v.metric, f, query, entries, found, v.max_layer as int, 0)
            &&& layer_search(v.nodes, v.buffer.vectors, v.metric, f, query, entries[0], search_width(k), 0, c)
            &&& #[trigger] selects_top_k(res, external_ids(v, c), distances_of(c), k, sel)
        };
    assert(search_width(k) >= 50);
    lemma_small_graph_search_is_exact(v, f, query, k, entries[0], c, res, sel, ids2, ds, res2, sel2);
}

/// The number of candidates that the search keeps on layer 0 for `k`
/// results: `max(k, 50)`.
pub open spec fn search_width(k: nat) -> nat {
    if k > 50 { k } else { 50 }
}

/// The external ids of the nodes named by `c`.
pub open spec fn external_ids(v: HnswView, c: Seq<SearchResult>) -> Seq<u64> {
    c.map_values(|r: SearchResult| v.nodes[r.id as int].id)
}

/// The distances carried by `c`.
pub open spec fn distances_of(c: Seq<SearchResult>) -> Seq<u32> {
    c.map_values(|r: SearchResult| r.distance)
}

/// The view of an optional node position.
pub open spec fn entry_view(e: Option<usize>) -> Option<nat> {
    match e {
        Some(x) => Some(x as nat),
        None => None,
    }
}

/// The bytes of a saved index: the length of the encoded graph as a
/// little-endian `u64`, the encoded graph, then the buffer snapshot.
pub open spec fn index_snapshot_bytes(graph: Seq<u8>, buffer: BufferView) -> Seq<u8> {
    u64_le(graph.len() as u64) + graph + snapshot_bytes(buffer)
}

/// What reading a saved index from `b` gives: the encoded graph and the
/// buffer's content.
pub open spec fn parse_index_snapshot(b: Seq<u8>) -> Result<(Seq<u8>, BufferView), SnapshotError> {
    if b.len() < 8 {
        Err(SnapshotError::UnexpectedEof)
    } else {
        let gl = u64_from_le(b.take(8));
        if b.len() - 8 < gl {
            Err(SnapshotError::UnexpectedEof)
        } else {
            match parse_snapshot(b.skip(8 + gl)) {
                Ok((buffer, _)) => Ok((b.subrange(8, 8 + gl), buffer)),
                Err(e) => Err(e),
            }
        }
    }
}

impl HnswIndex {
    /// Rebuilds an index from its saved parts, when they satisfy the graph
    /// invariant.
    pub fn from_parts(
        buffer: SoABuffer,
        metric: DistanceMetric,
        config: HnswConfig,
        nodes: Vec<HnswNode>,
        max_layer: usize,
        entry_point: Option<usize>,
    ) -> (r: Option<HnswIndex>)
        requires
            buffer.wf(),
        ensures
            r is Some <==> (HnswView {
                buffer: buffer@,
                metric,
                config,
                nodes: nodes_view(nodes@),
                max_layer: max_layer as nat,
                entry_point: entry_view(entry_point),
            }).wf(),
            r matches Some(idx) ==> idx@ == (HnswView {
                buffer: buffer@,
                metric,
                config,
                nodes: nodes_view(nodes@),
                max_layer: max_layer as nat,
                entry_point: entry_view(entry_point),
            }),
    {
        let ghost v = HnswView {
            buffer: buffer@,
            metric,
            config,
            nodes: nodes_view(nodes@),
            max_layer: max_layer as nat,
            entry_point: entry_view(entry_point),
        };
        proof {
            lemma_graph_ok_is_wf(v);
        }
        if check_graph(&buffer, config, &nodes, max_layer, entry_point) {
            let idx = HnswIndex { buffer, metric, config, nodes, max_layer, entry_point };
            assert(idx@ == v);
            Some(idx)
        } else {
            None
        }
    }

    /// The stored vectors.
    pub fn buffer(&self) -> (b: &SoABuffer)
        ensures
            b@ == self@.buffer,
    {
        &self.buffer
    }

    /// The graph configuration.
    pub fn config(&self) -> (c: HnswConfig)
        ensures
            c == self@.config,
    {
        self.config
    }

    /// The graph nodes, by position.
    pub fn nodes(&self) -> (ns: &Vec<HnswNode>)
        ensures
            nodes_view(ns@) == self@.nodes,
    {
        &self.nodes
    }

    /// The top layer of the graph.
    pub fn max_layer(&self) -> (l: usize)
        ensures
            l == self@.max_layer,
    {
        self.max_layer
    }

    /// The position of the entry node, if the graph has a node.
    pub fn entry_point(&self) -> (e: Option<usize>)
        ensures
            entry_view(e) == self@.entry_point,
    {
        self.entry_point
    }

    /// The bytes of a saved index, given the encoding of its graph.
    pub fn encode_snapshot(&self, graph: &[u8]) -> (bytes: Vec<u8>)
        requires
            self.wf(),
        ensures
            bytes@ == index_snapshot_bytes(graph@, self@.buffer),
    {
        let mut bytes: Vec<u8> = Vec::new();
        push_u64_le(&mut bytes, graph.len() as u64);
        let mut i: usize = 0;
        while i < graph.len()
            invariant
                i <= graph@.len(),
                bytes@ == u64_le(graph@.len() as u64) + graph@.take(i as int),
            decreases graph@.len() - i,
        {
            bytes.push(graph[i]);
            assert(graph@.take(i + 1) =~= graph@.take(i as int).push(graph@[i as int]));
            i = i + 1;
        }
        assert(graph@.take(i as int) =~= graph@);
        let tail = self.buffer.encode();
        let mut j: usize = 0;
        let ghost head = bytes@;
        while j < tail.len()
            invariant
                j <= tail@.len(),
                bytes@ == head + tail@.take(j as int),
            decreases tail@.len() - j,
        {
            bytes.push(tail[j]);
            assert(tail@.take(j + 1) =~= tail@.take(j as int).push(tail@[j as int]));
            j = j + 1;
        }
        assert(tail@.take(j as int) =~= tail@);
        assert(bytes@ =~= index_snapshot_bytes(graph@, self@.buffer));
        bytes
    }

    /// Reads a saved index: the encoding of its graph, and its buffer.
    pub fn decode_snapshot(bytes: &[u8]) -> (r: Result<(Vec<u8>, SoABuffer), SnapshotError>)
        ensures
            match r {
                Ok((graph, buffer)) => buffer.wf() && parse_index_snapshot(bytes@) == Ok::<(Seq<u8>, BufferView), SnapshotError>(
                    (graph@, buffer@),
                ),
                Err(e) => parse_index_snapshot(bytes@) == Err::<(Seq<u8>, BufferView), SnapshotError>(e),
            },
    {
        let len = bytes.len();
        if len < 8 {
            return Err(SnapshotError::UnexpectedEof);
        }
        let gl64 = read_u64_le(bytes, 0);
        assert(bytes@.subrange(0, 8) =~= bytes@.take(8));
        if ((len - 8) as u64) < gl64 {
            return Err(SnapshotError::UnexpectedEof);
        }
        let gl = gl64 as usize;
        let mut graph: Vec<u8> = Vec::new();
        let mut i: usize = 0;
        while i < gl
            invariant
                len == bytes@.len(),
                8 + gl <= len,
                i <= gl,
                graph@ == bytes@.subrange(8, 8 + i),
            decreases gl - i,
        {
            graph.push(bytes[8 + i]);
            assert(bytes@.subrange(8, 8 + i + 1) =~= bytes@.subrange(8, 8 + i).push(bytes@[8 + i]));
            i = i + 1;
        }
        let rest = vstd::slice::slice_subrange(bytes, 8 + gl, len);
        assert(rest@ =~= bytes@.skip(8 + gl));
        match SoABuffer::decode(rest) {
            Ok((buffer, _)) => Ok((graph, buffer)),
            Err(e) => Err(e),
        }
    }
}

/// Reading back a saved index gives the graph encoding and the buffer that
/// were saved.
#[verifier::spinoff_prover]
pub proof fn lemma_index_snapshot_roundtrip(graph: Seq<u8>, buffer: BufferView)
    requires
        buffer.wf(),
        graph.len() <= u64::MAX,
        buffer.dimension <= usize::MAX,
        buffer.ids.len() <= usize::MAX,
        16 + 8 * buffer.ids.len() <= u64::MAX,
    ensures
        parse_index_snapshot(index_snapshot_bytes(graph, buffer)) == Ok::<(Seq<u8>, BufferView), SnapshotError>(
            (graph, buffer),
        ),
{
    let b = index_snapshot_bytes(graph, buffer);
    let gl = graph.len() as u64;
    let sb = snapshot_bytes(buffer);
    lemma_u64_le_roundtrip(gl);
    lemma_snapshot_roundtrip(buffer, Seq::empty());
    assert(sb + Seq::<u8>::empty() =~= sb);
    assert(b =~= u64_le(gl) + graph + sb);
    assert(b.take(8) =~= u64_le(gl));
    assert(u64_from_le(b.take(8)) == graph.len());
    assert(b.subrange(8, 8 + graph.len() as int) =~= graph);
    assert(b.skip(8 + graph.len() as int) =~= sb);
    assert(parse_snapshot(sb) == Ok::<(BufferView, nat), SnapshotError>((buffer, sb.len())));
}

} // verus!
