//! The graph, as a mathematical object.
//!
//! Every node lives on the layers from zero up to its level, and has on each
//! of them a list of the nodes that it links to. Searches start at the entry
//! point, a node of the highest level.

use vstd::prelude::*;

verus! {

/// The links of every node on every one of its layers, and the entry point
/// with its level.
#[verifier::ext_equal]
pub ghost struct Graph {
    pub nodes: Seq<Seq<Seq<u64>>>,
    pub entry: Option<(u64, nat)>,
}

/// The links of a node on a layer. There are none on a layer that the node is
/// not on.
pub open spec fn links(g: Graph, id: u64, layer: nat) -> Seq<u64> {
    if id < g.nodes.len() && layer < g.nodes[id as int].len() {
        g.nodes[id as int][layer as int]
    } else {
        Seq::empty()
    }
}

/// The node is on this layer.
pub open spec fn on_layer(g: Graph, id: u64, layer: nat) -> bool {
    id < g.nodes.len() && layer < g.nodes[id as int].len()
}

/// Links lead to nodes, and the entry point is one, with its own level.
pub open spec fn valid(g: Graph) -> bool {
    &&& forall|i: int| 0 <= i < g.nodes.len() ==> (#[trigger] g.nodes[i]).len() >= 1
    &&& forall|i: int, layer: int, j: int|
        0 <= i < g.nodes.len() && 0 <= layer < g.nodes[i].len() && 0 <= j
            < g.nodes[i][layer].len() ==> #[trigger] g.nodes[i][layer][j] < g.nodes.len()
    &&& g.entry matches Some((id, level)) ==> id < g.nodes.len() && level
        == g.nodes[id as int].len() - 1
}

/// The most links that a node may have on a layer.
pub open spec fn degree_bound(m: nat, layer: nat) -> nat {
    if layer == 0 {
        2 * m
    } else {
        m
    }
}

/// A well-built graph: no node links to itself, links lead to nodes that are
/// on the same layer, and no node has too many of them.
pub open spec fn sound(g: Graph, m: nat) -> bool {
    &&& valid(g)
    &&& forall|i: int, layer: int|
        0 <= i < g.nodes.len() && 0 <= layer < g.nodes[i].len() ==> (#[trigger] g.nodes[i][layer]).len()
            <= degree_bound(m, layer as nat)
    &&& forall|i: int, layer: int, j: int|
        0 <= i < g.nodes.len() && 0 <= layer < g.nodes[i].len() && 0 <= j
            < g.nodes[i][layer].len() ==> (#[trigger] g.nodes[i][layer][j]) != i && on_layer(
            g,
            g.nodes[i][layer][j],
            layer as nat,
        )
}

/// The graph with a node's links on a layer replaced. Nothing happens on a
/// layer that the node is not on.
pub open spec fn relinked(g: Graph, id: u64, layer: nat, list: Seq<u64>) -> Graph {
    if on_layer(g, id, layer) {
        Graph {
            nodes: g.nodes.update(
                id as int,
                g.nodes[id as int].update(layer as int, list),
            ),
            entry: g.entry,
        }
    } else {
        g
    }
}

/// A node without links.
pub open spec fn bare_node(level: nat) -> Seq<Seq<u64>> {
    Seq::new(level + 1, |layer: int| Seq::<u64>::empty())
}

/// The graph with nodes added on the lowest layer until there are `n`.
pub open spec fn padded(g: Graph, n: nat) -> Graph {
    Graph {
        nodes: Seq::new(
            n,
            |i: int|
                if i < g.nodes.len() {
                    g.nodes[i]
                } else {
                    bare_node(0)
                },
        ),
        entry: g.entry,
    }
}

/// The graph with a new node. Ids that were skipped become nodes on the
/// lowest layer that nothing leads to.
pub open spec fn with_node(g: Graph, id: u64, level: nat) -> Graph {
    Graph { nodes: padded(g, id as nat).nodes.push(bare_node(level)), entry: g.entry }
}

/// Replacing links by links to nodes keeps a graph valid.
pub proof fn lemma_relinked_valid(g: Graph, id: u64, layer: nat, list: Seq<u64>)
    requires
        valid(g),
        forall|j: int| 0 <= j < list.len() ==> #[trigger] list[j] < g.nodes.len(),
    ensures
        valid(relinked(g, id, layer, list)),
        relinked(g, id, layer, list).nodes.len() == g.nodes.len(),
        relinked(g, id, layer, list).entry == g.entry,
        forall|x: u64, l: nat|
            #![trigger on_layer(g, x, l)]
            #![trigger on_layer(relinked(g, id, layer, list), x, l)]
            on_layer(relinked(g, id, layer, list), x, l) <==> on_layer(g, x, l),
{
    let h = relinked(g, id, layer, list);
    if on_layer(g, id, layer) {
        assert forall|i: int, l: int, j: int|
            0 <= i < h.nodes.len() && 0 <= l < h.nodes[i].len() && 0 <= j
                < h.nodes[i][l].len() implies #[trigger] h.nodes[i][l][j] < h.nodes.len() by {
            if i == id && l == layer {
                assert(h.nodes[i][l] == list);
                assert(list[j] < g.nodes.len());
            } else {
                assert(h.nodes[i][l] == g.nodes[i][l]);
                assert(g.nodes[i][l][j] < g.nodes.len());
            }
        }
    }
}

/// Adding a node keeps a graph valid.
pub proof fn lemma_with_node_valid(g: Graph, id: u64, level: nat)
    requires
        valid(g),
        g.nodes.len() <= id,
    ensures
        valid(with_node(g, id, level)),
{
    let h = with_node(g, id, level);
    assert forall|i: int, l: int, j: int|
        0 <= i < h.nodes.len() && 0 <= l < h.nodes[i].len() && 0 <= j
            < h.nodes[i][l].len() implies #[trigger] h.nodes[i][l][j] < h.nodes.len() by {
        if i < g.nodes.len() {
            assert(g.nodes[i][l][j] < g.nodes.len());
        }
    }
}

} // verus!
