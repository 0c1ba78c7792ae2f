//! The shape of the HNSW graph: the invariant that every index keeps, the
//! lemmas that show which updates keep it, and its check on loaded parts.
use vstd::prelude::*;
use crate::buffer::{BufferView, SoABuffer};
use crate::hnsw::{HnswConfig, HnswNode, HnswView, NodeView};

verus! {

/// The most links a node may keep on `layer`.
pub open spec fn degree_limit(config: HnswConfig, layer: int) -> int {
    if layer == 0 {
        config.m_max_zero as int
    } else {
        config.m as int
    }
}

/// The views of the nodes, in order.
pub open spec fn nodes_view(nodes: Seq<HnswNode>) -> Seq<NodeView> {
    nodes.map_values(|n: HnswNode| n@)
}

/// Every node has one link list per layer it lives on.
pub open spec fn shapes_ok(nodes: Seq<NodeView>) -> bool {
    forall|i: int| 0 <= i < nodes.len() ==> #[trigger] nodes[i].connections.len() == nodes[i].max_layer + 1
}

/// On `layer`, every link of a node that lives there leads to a node that
/// also lives there.
pub open spec fn layer_links_ok(nodes: Seq<NodeView>, layer: int) -> bool {
    forall|i: int, t: int|
        0 <= i < nodes.len() && 0 <= layer <= nodes[i].max_layer && 0 <= t
            < nodes[i].connections[layer].len() ==> {
            let c = #[trigger] nodes[i].connections[layer][t] as int;
            0 <= c < nodes.len() && nodes[c].max_layer >= layer
        }
}

/// Every link on every layer leads to a node that lives on that layer.
pub open spec fn links_ok(nodes: Seq<NodeView>) -> bool {
    forall|layer: int| 0 <= layer ==> #[trigger] layer_links_ok(nodes, layer)
}

/// No link list is longer than the configuration allows on its layer.
pub open spec fn degrees_ok(nodes: Seq<NodeView>, config: HnswConfig) -> bool {
    forall|i: int, l: int|
        0 <= i < nodes.len() && 0 <= l <= nodes[i].max_layer ==> #[trigger] nodes[i].connections[l].len()
            <= degree_limit(config, l)
}

/// The list of node `owner` names no node twice and never `owner` itself.
pub open spec fn list_simple(list: Seq<usize>, owner: int) -> bool {
    &&& list.no_duplicates()
    &&& forall|t: int| 0 <= t < list.len() ==> #[trigger] list[t] as int != owner
}

/// No node links to itself, and no link list names a node twice.
pub open spec fn lists_simple(nodes: Seq<NodeView>) -> bool {
    forall|i: int, l: int|
        0 <= i < nodes.len() && 0 <= l <= nodes[i].max_layer ==> #[trigger] list_simple(nodes[i].connections[l], i)
}

/// `nodes` with the link list of node `i` on layer `l` replaced by `list`.
pub open spec fn set_list(nodes: Seq<NodeView>, i: int, l: int, list: Seq<usize>) -> Seq<NodeView> {
    nodes.update(
        i,
        NodeView {
            id: nodes[i].id,
            max_layer: nodes[i].max_layer,
            connections: nodes[i].connections.update(l, list),
        },
    )
}

/// Every entry of `list` names a node of `nodes` that lives on `l`.
pub open spec fn list_ok(nodes: Seq<NodeView>, l: int, list: Seq<usize>) -> bool {
    forall|t: int| 0 <= t < list.len() ==> {
        let c = #[trigger] list[t] as int;
        0 <= c < nodes.len() && nodes[c].max_layer >= l
    }
}

/// Adding a node without links keeps the graph invariants.
pub proof fn lemma_push_unlinked(nodes: Seq<NodeView>, x: NodeView, config: HnswConfig)
    requires
        shapes_ok(nodes),
        links_ok(nodes),
        degrees_ok(nodes, config),
        x.connections.len() == x.max_layer + 1,
        forall|l: int| 0 <= l <= x.max_layer ==> #[trigger] x.connections[l].len() == 0,
    ensures
        shapes_ok(nodes.push(x)),
        links_ok(nodes.push(x)),
        degrees_ok(nodes.push(x), config),
        lists_simple(nodes) ==> lists_simple(nodes.push(x)),
{
    let n2 = nodes.push(x);
    if lists_simple(nodes) {
        assert forall|i: int, l: int| 0 <= i < n2.len() && 0 <= l <= n2[i].max_layer implies #[trigger] list_simple(n2[i].connections[l], i) by {
            if i < nodes.len() {
                assert(n2[i] == nodes[i]);
            } else {
                assert(n2[i] == x);
                assert(x.connections[l].len() == 0);
            }
        }
    }
    assert forall|i: int| 0 <= i < n2.len() implies #[trigger] n2[i].connections.len() == n2[i].max_layer + 1 by {
        if i < nodes.len() {
            assert(n2[i] == nodes[i]);
        }
    }
    assert forall|layer: int| 0 <= layer implies #[trigger] layer_links_ok(n2, layer) by {
        assert(layer_links_ok(nodes, layer));
        assert forall|i: int, t: int|
            0 <= i < n2.len() && 0 <= layer <= n2[i].max_layer && 0 <= t < n2[i].connections[layer].len() implies {
                let c = #[trigger] n2[i].connections[layer][t] as int;
                0 <= c < n2.len() && n2[c].max_layer >= layer
            } by {
            if i < nodes.len() {
                assert(n2[i] == nodes[i]);
                let c = nodes[i].connections[layer][t] as int;
                assert(n2[c] == nodes[c]);
            } else {
                assert(n2[i] == x);
            }
        }
    }
    assert forall|i: int, l: int| 0 <= i < n2.len() && 0 <= l <= n2[i].max_layer implies #[trigger] n2[i].connections[l].len()
        <= degree_limit(config, l) by {
        if i < nodes.len() {
            assert(n2[i] == nodes[i]);
        }
    }
}

/// Replacing one link list by a valid, short enough list keeps the graph
/// invariants, and changes no other layer.
pub proof fn lemma_set_list(nodes: Seq<NodeView>, i: int, l: int, list: Seq<usize>, config: HnswConfig)
    requires
        shapes_ok(nodes),
        0 <= i < nodes.len(),
        0 <= l <= nodes[i].max_layer,
    ensures
        set_list(nodes, i, l, list).len() == nodes.len(),
        shapes_ok(set_list(nodes, i, l, list)),
        forall|j: int| 0 <= j < nodes.len() ==> #[trigger] set_list(nodes, i, l, list)[j].max_layer == nodes[j].max_layer
            && set_list(nodes, i, l, list)[j].id == nodes[j].id,
        forall|l2: int| l2 != l && #[trigger] layer_links_ok(nodes, l2) ==> layer_links_ok(set_list(nodes, i, l, list), l2),
        links_ok(nodes) && list_ok(nodes, l, list) ==> links_ok(set_list(nodes, i, l, list)),
        degrees_ok(nodes, config) && list.len() <= degree_limit(config, l) ==> degrees_ok(set_list(nodes, i, l, list), config),
        lists_simple(nodes) && list_simple(list, i) ==> lists_simple(set_list(nodes, i, l, list)),
{
    let n2 = set_list(nodes, i, l, list);
    if lists_simple(nodes) && list_simple(list, i) {
        assert forall|a: int, l2: int| 0 <= a < n2.len() && 0 <= l2 <= n2[a].max_layer implies #[trigger] list_simple(n2[a].connections[l2], a) by {
            if a != i {
                assert(n2[a] == nodes[a]);
            } else if l2 != l {
                assert(n2[a].connections[l2] == nodes[a].connections[l2]);
            }
        }
    }
    assert forall|j: int| 0 <= j < n2.len() implies #[trigger] n2[j].connections.len() == n2[j].max_layer + 1 by {
        if j != i {
            assert(n2[j] == nodes[j]);
        }
    }
    assert forall|l2: int| l2 != l && #[trigger] layer_links_ok(nodes, l2) implies layer_links_ok(n2, l2) by {
        assert forall|a: int, t: int|
            0 <= a < n2.len() && 0 <= l2 <= n2[a].max_layer && 0 <= t < n2[a].connections[l2].len() implies {
                let c = #[trigger] n2[a].connections[l2][t] as int;
                0 <= c < n2.len() && n2[c].max_layer >= l2
            } by {
            if a != i {
                assert(n2[a] == nodes[a]);
            } else {
                assert(n2[a].connections[l2] == nodes[a].connections[l2]);
            }
            let c = nodes[a].connections[l2][t] as int;
            assert(n2[a].connections[l2][t] == nodes[a].connections[l2][t]);
            assert(n2[c].max_layer == nodes[c].max_layer);
        }
    }
    if links_ok(nodes) && list_ok(nodes, l, list) {
        assert forall|l2: int| 0 <= l2 implies #[trigger] layer_links_ok(n2, l2) by {
            assert(layer_links_ok(nodes, l2));
            assert forall|a: int, t: int|
                0 <= a < n2.len() && 0 <= l2 <= n2[a].max_layer && 0 <= t < n2[a].connections[l2].len() implies {
                    let c = #[trigger] n2[a].connections[l2][t] as int;
                    0 <= c < n2.len() && n2[c].max_layer >= l2
                } by {
                if a == i && l2 == l {
                    assert(n2[a].connections[l2] == list);
                    let c = list[t] as int;
                    assert(n2[c].max_layer == nodes[c].max_layer);
                } else {
                    if a != i {
                        assert(n2[a] == nodes[a]);
                    } else {
                        assert(n2[a].connections[l2] == nodes[a].connections[l2]);
                    }
                    let c = nodes[a].connections[l2][t] as int;
                    assert(n2[a].connections[l2][t] == nodes[a].connections[l2][t]);
                    assert(n2[c].max_layer == nodes[c].max_layer);
                }
            }
        }
    }
    if degrees_ok(nodes, config) && list.len() <= degree_limit(config, l) {
        assert forall|a: int, l2: int| 0 <= a < n2.len() && 0 <= l2 <= n2[a].max_layer implies #[trigger] n2[a].connections[l2].len()
            <= degree_limit(config, l2) by {
            if a != i {
                assert(n2[a] == nodes[a]);
            } else if l2 != l {
                assert(n2[a].connections[l2] == nodes[a].connections[l2]);
            }
        }
    }
}

/// The link `t` of node `i` on layer `l` leads to a node that lives there.
pub open spec fn link_at_ok(nodes: Seq<NodeView>, i: int, l: int, t: int) -> bool {
    let c = nodes[i].connections[l][t] as int;
    0 <= c < nodes.len() && nodes[c].max_layer >= l
}

/// The link list of node `i` on layer `l` is short enough and all its
/// links are sound.
pub open spec fn list_at_ok(nodes: Seq<NodeView>, i: int, l: int, config: HnswConfig) -> bool {
    &&& nodes[i].connections[l].len() <= degree_limit(config, l)
    &&& list_simple(nodes[i].connections[l], i)
    &&& forall|t: int| 0 <= t < nodes[i].connections[l].len() ==> #[trigger] link_at_ok(nodes, i, l, t)
}

/// Node `i` is sound: it carries the id stored at its position, does not
/// exceed the top layer, and has a sound link list on each of its layers.
pub open spec fn node_ok(nodes: Seq<NodeView>, i: int, config: HnswConfig, ids: Seq<u64>, max_layer: nat) -> bool {
    &&& nodes[i].id == ids[i]
    &&& nodes[i].max_layer <= max_layer
    &&& nodes[i].connections.len() == nodes[i].max_layer + 1
    &&& forall|l: int| 0 <= l <= nodes[i].max_layer ==> #[trigger] list_at_ok(nodes, i, l, config)
}

/// The graph invariant, node by node.
pub open spec fn graph_ok(
    buffer: BufferView,
    config: HnswConfig,
    nodes: Seq<NodeView>,
    max_layer: nat,
    entry_point: Option<nat>,
) -> bool {
    &&& buffer.wf()
    &&& nodes.len() == buffer.len()
    &&& max_layer < usize::MAX
    &&& forall|i: int| 0 <= i < nodes.len() ==> #[trigger] node_ok(nodes, i, config, buffer.ids, max_layer)
    &&& (entry_point is None <==> nodes.len() == 0)
    &&& entry_point matches Some(e) ==> e < nodes.len() && nodes[e as int].max_layer == max_layer
}

/// The node-by-node statement of the graph invariant is the invariant.
pub proof fn lemma_graph_ok_is_wf(v: HnswView)
    ensures
        graph_ok(v.buffer, v.config, v.nodes, v.max_layer, v.entry_point) <==> v.wf(),
{
    let nodes = v.nodes;
    if graph_ok(v.buffer, v.config, v.nodes, v.max_layer, v.entry_point) {
        assert forall|i: int| 0 <= i < nodes.len() implies #[trigger] nodes[i].id == v.buffer.ids[i] by {
            assert(node_ok(nodes, i, v.config, v.buffer.ids, v.max_layer));
        }
        assert forall|i: int| 0 <= i < nodes.len() implies #[trigger] nodes[i].max_layer <= v.max_layer by {
            assert(node_ok(nodes, i, v.config, v.buffer.ids, v.max_layer));
        }
        assert forall|i: int| 0 <= i < nodes.len() implies #[trigger] nodes[i].connections.len() == nodes[i].max_layer + 1 by {
            assert(node_ok(nodes, i, v.config, v.buffer.ids, v.max_layer));
        }
        assert forall|layer: int| 0 <= layer implies #[trigger] layer_links_ok(nodes, layer) by {
            assert forall|i: int, t: int|
                0 <= i < nodes.len() && 0 <= layer <= nodes[i].max_layer && 0 <= t < nodes[i].connections[layer].len() implies {
                    let c = #[trigger] nodes[i].connections[layer][t] as int;
                    0 <= c < nodes.len() && nodes[c].max_layer >= layer
                } by {
                assert(node_ok(nodes, i, v.config, v.buffer.ids, v.max_layer));
                assert(list_at_ok(nodes, i, layer, v.config));
                assert(link_at_ok(nodes, i, layer, t));
            }
        }
        assert forall|i: int, l: int| 0 <= i < nodes.len() && 0 <= l <= nodes[i].max_layer implies #[trigger] nodes[i].connections[l].len()
            <= degree_limit(v.config, l) by {
            assert(node_ok(nodes, i, v.config, v.buffer.ids, v.max_layer));
            assert(list_at_ok(nodes, i, l, v.config));
        }
        assert forall|i: int, l: int| 0 <= i < nodes.len() && 0 <= l <= nodes[i].max_layer implies #[trigger] list_simple(nodes[i].connections[l], i) by {
            assert(node_ok(nodes, i, v.config, v.buffer.ids, v.max_layer));
            assert(list_at_ok(nodes, i, l, v.config));
        }
    }
    if v.wf() {
        assert forall|i: int| 0 <= i < nodes.len() implies #[trigger] node_ok(nodes, i, v.config, v.buffer.ids, v.max_layer) by {
            assert(nodes[i].id == v.buffer.ids[i]);
            assert(nodes[i].max_layer <= v.max_layer);
            assert(nodes[i].connections.len() == nodes[i].max_layer + 1);
            assert forall|l: int| 0 <= l <= nodes[i].max_layer implies #[trigger] list_at_ok(nodes, i, l, v.config) by {
                assert(layer_links_ok(nodes, l));
                assert(list_simple(nodes[i].connections[l], i));
                assert forall|t: int| 0 <= t < nodes[i].connections[l].len() implies #[trigger] link_at_ok(nodes, i, l, t) by {
                    let c = nodes[i].connections[l][t] as int;
                }
            }
        }
    }
}

/// Checks the graph invariant on the parts of an index.
pub(crate) fn check_graph(
    buffer: &SoABuffer,
    config: HnswConfig,
    nodes: &Vec<HnswNode>,
    max_layer: usize,
    entry_point: Option<usize>,
) -> (ok: bool)
    requires
        buffer.wf(),
    ensures
        ok == graph_ok(
            buffer@,
            config,
            nodes_view(nodes@),
            max_layer as nat,
            match entry_point {
                Some(e) => Some(e as nat),
                None => None,
            },
        ),
{
    let ghost nv = nodes_view(nodes@);
    let ghost entry = match entry_point {
        Some(e) => Some(e as nat),
        None => None::<nat>,
    };
    let ghost ids = buffer@.ids;
    let n = nodes.len();
    if n != buffer.len() {
        return false;
    }
    if max_layer == usize::MAX {
        return false;
    }
    match entry_point {
        None => {
            if n != 0 {
                return false;
            }
        },
        Some(e) => {
            if e >= n {
                return false;
            }
            if nodes[e].max_layer != max_layer {
                assert(nv[e as int] == nodes@[e as int]@);
                return false;
            }
            assert(nv[e as int] == nodes@[e as int]@);
        },
    }
    let mut i: usize = 0;
    while i < n
        invariant
            buffer.wf(),
            nv == nodes_view(nodes@),
            ids == buffer@.ids,
            n == nodes@.len(),
            n == buffer@.len(),
            i <= n,
            max_layer < usize::MAX,
            forall|j: int| 0 <= j < i ==> #[trigger] node_ok(nv, j, config, ids, max_layer as nat),
        decreases n - i,
    {
        let node = &nodes[i];
        proof {
            assert(nv[i as int] == nodes@[i as int]@);
        }
        let id = buffer.get_id(i).unwrap();
        if node.id != id {
            proof {
                assert(!node_ok(nv, i as int, config, ids, max_layer as nat));
            }
            return false;
        }
        if node.max_layer > max_layer {
            proof {
                assert(!node_ok(nv, i as int, config, ids, max_layer as nat));
            }
            return false;
        }
        if node.connections.len() != node.max_layer + 1 {
            proof {
                assert(!node_ok(nv, i as int, config, ids, max_layer as nat));
            }
            return false;
        }
        let mut l: usize = 0;
        while l <= node.max_layer
            invariant
                nv == nodes_view(nodes@),
                n == nodes@.len(),
                i < n,
                node == nodes@[i as int],
                nv[i as int] == node@,
                node.connections@.len() == node.max_layer + 1,
                node.max_layer <= max_layer,
                max_layer < usize::MAX,
                l <= node.max_layer + 1,
                ids == buffer@.ids,
                n == buffer@.len(),
                forall|l2: int| 0 <= l2 < l ==> #[trigger] list_at_ok(nv, i as int, l2, config),
            decreases node.max_layer + 1 - l,
        {
            let list = &node.connections[l];
            let limit = if l == 0 { config.m_max_zero } else { config.m };
            proof {
                assert(nv[i as int].connections[l as int] == list@);
            }
            if list.len() > limit {
                proof {
                    assert(!list_at_ok(nv, i as int, l as int, config));
                    assert(!node_ok(nv, i as int, config, ids, max_layer as nat));
                }
                return false;
            }
            let mut t: usize = 0;
            while t < list.len()
                invariant
                    nv == nodes_view(nodes@),
                    n == nodes@.len(),
                    i < n,
                    nv[i as int].connections[l as int] == list@,
                    t <= list@.len(),
                    ids == buffer@.ids,
                    n == buffer@.len(),
                    nv[i as int].max_layer >= l,
                    nv[i as int].connections.len() == nv[i as int].max_layer + 1,
                    forall|t2: int| 0 <= t2 < t ==> #[trigger] link_at_ok(nv, i as int, l as int, t2),
                    forall|t2: int| 0 <= t2 < t ==> #[trigger] list@[t2] as int != i,
                    forall|a: int, b: int| 0 <= a < b < t ==> #[trigger] list@[a] != #[trigger] list@[b],
                decreases list@.len() - t,
            {
                let c = list[t];
                if c == i {
                    proof {
                        assert(!list_simple(list@, i as int));
                        assert(!list_at_ok(nv, i as int, l as int, config));
                        assert(!node_ok(nv, i as int, config, ids, max_layer as nat));
                    }
                    return false;
                }
                let mut t2: usize = 0;
                while t2 < t
                    invariant
                        t < list@.len(),
                        t2 <= t,
                        nv[i as int].connections[l as int] == list@,
                        nv[i as int].max_layer >= l,
                        i < n,
                        n == nodes@.len(),
                        nv == nodes_view(nodes@),
                        ids == buffer@.ids,
                        n == buffer@.len(),
                        c == list@[t as int],
                        forall|u: int| 0 <= u < t2 ==> #[trigger] list@[u] != c,
                    decreases t - t2,
                {
                    if list[t2] == c {
                        proof {
                            assert(!list@.no_duplicates());
                            assert(!list_simple(list@, i as int));
                            assert(!list_at_ok(nv, i as int, l as int, config));
                            assert(!node_ok(nv, i as int, config, ids, max_layer as nat));
                        }
                        return false;
                    }
                    t2 = t2 + 1;
                }
                if c >= n {
                    proof {
                        assert(!link_at_ok(nv, i as int, l as int, t as int));
                        assert(!list_at_ok(nv, i as int, l as int, config));
                        assert(!node_ok(nv, i as int, config, ids, max_layer as nat));
                    }
                    return false;
                }
                proof {
                    assert(nv[c as int] == nodes@[c as int]@);
                }
                if nodes[c].max_layer < l {
                    proof {
                        assert(!link_at_ok(nv, i as int, l as int, t as int));
                        assert(!list_at_ok(nv, i as int, l as int, config));
                        assert(!node_ok(nv, i as int, config, ids, max_layer as nat));
                    }
                    return false;
                }
                t = t + 1;
            }
            l = l + 1;
        }
        i = i + 1;
    }
    true
}

/// A link on `layer` leads from node `a`, which lives there, to node `b`.
pub open spec fn linked(nodes: Seq<NodeView>, layer: int, a: int, b: int) -> bool {
    &&& 0 <= a < nodes.len()
    &&& nodes[a].max_layer >= layer
    &&& 0 <= b < nodes.len()
    &&& nodes[a].connections[layer].contains(b as usize)
}

/// `p` is a walk along the links of `layer`.
pub open spec fn is_walk(nodes: Seq<NodeView>, layer: int, p: Seq<int>) -> bool {
    &&& p.len() >= 1
    &&& 0 <= p[0] < nodes.len()
    &&& forall|i: int| 0 <= i < p.len() - 1 ==> #[trigger] linked(nodes, layer, p[i], p[i + 1])
}

/// Node `to` can be reached from node `from` along the links of `layer`.
pub open spec fn reachable(nodes: Seq<NodeView>, layer: int, from: int, to: int) -> bool {
    exists|p: Seq<int>| #[trigger] is_walk(nodes, layer, p) && p[0] == from && p.last() == to
}

/// The nodes that can be reached from `from` along the links of `layer`.
pub open spec fn reachable_set(nodes: Seq<NodeView>, layer: int, from: int) -> Set<int> {
    Set::new(|x: int| 0 <= x < nodes.len() && reachable(nodes, layer, from, x))
}

pub proof fn lemma_reach_start(nodes: Seq<NodeView>, layer: int, e: int)
    requires
        0 <= e < nodes.len(),
    ensures
        reachable(nodes, layer, e, e),
{
    let p = seq![e];
    assert(is_walk(nodes, layer, p));
}

pub proof fn lemma_reach_step(nodes: Seq<NodeView>, layer: int, e: int, a: int, b: int)
    requires
        reachable(nodes, layer, e, a),
        linked(nodes, layer, a, b),
    ensures
        reachable(nodes, layer, e, b),
{
    let p = choose|p: Seq<int>| #[trigger] is_walk(nodes, layer, p) && p[0] == e && p.last() == a;
    let q = p.push(b);
    assert forall|i: int| 0 <= i < q.len() - 1 implies #[trigger] linked(nodes, layer, q[i], q[i + 1]) by {
        if i < p.len() - 1 {
            assert(q[i] == p[i] && q[i + 1] == p[i + 1]);
            assert(linked(nodes, layer, p[i], p[i + 1]));
        } else {
            assert(q[i] == a && q[i + 1] == b);
        }
    }
    assert(is_walk(nodes, layer, q));
}

/// A set of nodes that holds `e` and every link target of its members holds
/// every node reachable from `e`.
pub proof fn lemma_reach_closed(nodes: Seq<NodeView>, layer: int, e: int, v: Set<int>, x: int)
    requires
        v.contains(e),
        forall|a: int, b: int| v.contains(a) && #[trigger] linked(nodes, layer, a, b) ==> v.contains(b),
        reachable(nodes, layer, e, x),
    ensures
        v.contains(x),
{
    let p = choose|p: Seq<int>| #[trigger] is_walk(nodes, layer, p) && p[0] == e && p.last() == x;
    lemma_walk_in_closed(nodes, layer, v, p, p.len() - 1);
}

proof fn lemma_walk_in_closed(nodes: Seq<NodeView>, layer: int, v: Set<int>, p: Seq<int>, i: int)
    requires
        is_walk(nodes, layer, p),
        v.contains(p[0]),
        forall|a: int, b: int| v.contains(a) && #[trigger] linked(nodes, layer, a, b) ==> v.contains(b),
        0 <= i < p.len(),
    ensures
        v.contains(p[i]),
    decreases i,
{
    if i > 0 {
        lemma_walk_in_closed(nodes, layer, v, p, i - 1);
        assert(linked(nodes, layer, p[i - 1], p[(i - 1) + 1]));
    }
}

/// The reachable nodes are finitely many, at most the number of nodes.
/// Every node can be reached from every other along the links of `layer`.
pub open spec fn layer_connected(nodes: Seq<NodeView>, layer: int) -> bool {
    forall|a: int, b: int| 0 <= a < nodes.len() && 0 <= b < nodes.len() ==> #[trigger] reachable(nodes, layer, a, b)
}

/// A graph that keeps every link of another (and may add nodes) keeps
/// every path of it.
pub proof fn lemma_reach_lift(old_nodes: Seq<NodeView>, nodes: Seq<NodeView>, layer: int, a: int, b: int)
    requires
        old_nodes.len() <= nodes.len(),
        forall|x: int, y: int| #[trigger] linked(old_nodes, layer, x, y) ==> linked(nodes, layer, x, y),
        reachable(old_nodes, layer, a, b),
    ensures
        reachable(nodes, layer, a, b),
{
    let p = choose|p: Seq<int>| #[trigger] is_walk(old_nodes, layer, p) && p[0] == a && p.last() == b;
    assert forall|i: int| 0 <= i < p.len() - 1 implies #[trigger] linked(nodes, layer, p[i], p[i + 1]) by {
        assert(linked(old_nodes, layer, p[i], p[i + 1]));
    }
    assert(is_walk(nodes, layer, p));
}

pub proof fn lemma_reachable_set_bounded(nodes: Seq<NodeView>, layer: int, e: int)
    ensures
        reachable_set(nodes, layer, e).finite(),
        reachable_set(nodes, layer, e).len() <= nodes.len(),
{
    let r = reachable_set(nodes, layer, e);
    vstd::set_lib::lemma_int_range(0, nodes.len() as int);
    assert(r.subset_of(vstd::set_lib::set_int_range(0, nodes.len() as int)));
    vstd::set_lib::lemma_len_subset(r, vstd::set_lib::set_int_range(0, nodes.len() as int));
}

} // verus!
