//! The health of the graph: whether it is well-built, and which nodes nothing
//! leads to.

use crate::hnsw::graph::{degree_bound, links, on_layer, sound, valid, Graph};
use crate::hnsw::index::{Hnsw, Node};
use vstd::prelude::*;

verus! {

/// Some node links to `id` on this layer.
pub open spec fn linked_to(g: Graph, id: u64, layer: nat) -> bool {
    exists|from: u64| from < g.nodes.len() && #[trigger] links(g, from, layer).contains(id)
}

/// No node links to `id` on the lowest layer, and it is not the entry point.
pub open spec fn orphan(g: Graph, id: u64) -> bool {
    &&& !linked_to(g, id, 0)
    &&& !(g.entry matches Some((entry, _)) && entry == id)
}

/// The orphans among the first `n` nodes, in order.
pub open spec fn orphans(g: Graph, n: nat) -> Seq<u64>
    decreases n,
{
    if n == 0 {
        Seq::empty()
    } else {
        let front = orphans(g, (n - 1) as nat);
        if orphan(g, (n - 1) as u64) {
            front.push((n - 1) as u64)
        } else {
            front
        }
    }
}

/// The links of a node on a layer are as they should be: not too many, none to
/// the node itself, and all to nodes that are on the layer.
pub open spec fn layer_sound(g: Graph, m: nat, id: int, layer: int) -> bool {
    let list = g.nodes[id][layer];
    &&& list.len() <= degree_bound(m, layer as nat)
    &&& forall|j: int|
        0 <= j < list.len() ==> (#[trigger] list[j]) != id && on_layer(g, list[j], layer as nat)
}

/// The links of a node are as they should be on all layers.
pub open spec fn node_sound(g: Graph, m: nat, id: int) -> bool {
    forall|layer: int| 0 <= layer < g.nodes[id].len() ==> #[trigger] layer_sound(g, m, id, layer)
}

proof fn lemma_sound_node(g: Graph, m: nat, id: int)
    requires
        0 <= id < g.nodes.len(),
    ensures
        sound(g, m) ==> node_sound(g, m, id),
{
    if sound(g, m) {
        assert forall|layer: int| 0 <= layer < g.nodes[id].len() implies #[trigger] layer_sound(
            g,
            m,
            id,
            layer,
        ) by {
            let list = g.nodes[id][layer];
            assert forall|j: int| 0 <= j < list.len() implies (#[trigger] list[j]) != id
                && on_layer(g, list[j], layer as nat) by {
                assert(g.nodes[id][layer][j] != id);
            }
        }
    }
}

proof fn lemma_sound_nodes(g: Graph, m: nat)
    requires
        valid(g),
        forall|id: int| 0 <= id < g.nodes.len() ==> #[trigger] node_sound(g, m, id),
    ensures
        sound(g, m),
{
    assert forall|i: int, layer: int|
        0 <= i < g.nodes.len() && 0 <= layer < g.nodes[i].len() implies (
    #[trigger] g.nodes[i][layer]).len() <= degree_bound(m, layer as nat) by {
        assert(node_sound(g, m, i));
        assert(layer_sound(g, m, i, layer));
    }
    assert forall|i: int, layer: int, j: int|
        0 <= i < g.nodes.len() && 0 <= layer < g.nodes[i].len() && 0 <= j
            < g.nodes[i][layer].len() implies (#[trigger] g.nodes[i][layer][j]) != i && on_layer(
        g,
        g.nodes[i][layer][j],
        layer as nat,
    ) by {
        assert(node_sound(g, m, i));
        assert(layer_sound(g, m, i, layer));
    }
}

impl Hnsw {
    /// Whether the links of a node on a layer are as they should be.
    fn check_layer(&self, id: u64, layer: usize) -> (r: bool)
        requires
            self.wf(),
            id < self.graph().nodes.len(),
            layer < self.graph().nodes[id as int].len(),
        ensures
            r == layer_sound(
                self.graph(),
                self.spec_config().m as nat,
                id as int,
                layer as int,
            ),
    {
        let node: &Node = self.node(id);
        let list: &Vec<u64> = node.layer(layer);
        let ghost g = self.graph();
        proof {
            self.lemma_sizes();
            self.lemma_links_valid(id, layer as nat);
            assert(list@ == links(g, id, layer as nat));
        }
        if list.len() > self.max_degree(layer) {
            return false;
        }
        let mut j: usize = 0;
        while j < list.len()
            invariant
                self.wf(),
                g == self.graph(),
                id < g.nodes.len(),
                layer < g.nodes[id as int].len(),
                list@ == g.nodes[id as int][layer as int],
                j <= list@.len(),
                forall|k: int| 0 <= k < g.nodes.len() ==> (#[trigger] g.nodes[k]).len() >= 1,
                forall|k: int| 0 <= k < list@.len() ==> #[trigger] list@[k] < g.nodes.len(),
                forall|k: int|
                    0 <= k < j ==> (#[trigger] list@[k]) != id && on_layer(
                        g,
                        list@[k],
                        layer as nat,
                    ),
            decreases list@.len() - j,
        {
            let to: u64 = list[j];
            assert(g.nodes[to as int].len() >= 1);
            if to == id || self.node(to).level() < layer {
                assert(!(list@[j as int] != id && on_layer(g, list@[j as int], layer as nat)));
                return false;
            }
            j = j + 1;
        }
        true
    }

    /// Whether the links of a node are as they should be.
    fn check_node(&self, id: u64) -> (r: bool)
        requires
            self.wf(),
            id < self.graph().nodes.len(),
        ensures
            r == node_sound(self.graph(), self.spec_config().m as nat, id as int),
    {
        let ghost (g, m) = (self.graph(), self.spec_config().m as nat);
        proof {
            self.lemma_sizes();
            assert(g.nodes[id as int].len() >= 1);
        }
        let top: usize = self.node(id).level();
        let mut layer: usize = 0;
        while layer <= top
            invariant
                self.wf(),
                g == self.graph(),
                m == self.spec_config().m,
                id < g.nodes.len(),
                g.nodes[id as int].len() == top + 1,
                top < usize::MAX,
                layer <= top + 1,
                forall|k: int| 0 <= k < layer ==> #[trigger] layer_sound(g, m, id as int, k),
            decreases top + 1 - layer,
        {
            if !self.check_layer(id, layer) {
                assert(!layer_sound(g, m, id as int, layer as int));
                return false;
            }
            layer = layer + 1;
        }
        true
    }

    /// Whether the graph is well-built: no node links to itself, links lead to
    /// nodes that are on the same layer, and no node has too many of them.
    pub fn check_invariants(&self) -> (r: bool)
        requires
            self.wf(),
        ensures
            r == sound(self.graph(), self.spec_config().m as nat),
    {
        let n: u64 = self.len() as u64;
        let ghost (g, m) = (self.graph(), self.spec_config().m as nat);
        proof {
            self.lemma_sizes();
        }
        let mut i: u64 = 0;
        while i < n
            invariant
                self.wf(),
                g == self.graph(),
                m == self.spec_config().m,
                n == g.nodes.len(),
                i <= n,
                forall|k: int| 0 <= k < i ==> #[trigger] node_sound(g, m, k),
            decreases n - i,
        {
            if !self.check_node(i) {
                proof {
                    lemma_sound_node(g, m, i as int);
                }
                return false;
            }
            i = i + 1;
        }
        proof {
            lemma_sound_nodes(g, m);
        }
        true
    }

    /// Marks the nodes that the links of one node lead to.
    fn mark_targets(&self, from: u64, linked: &mut Vec<bool>)
        requires
            self.wf(),
            from < self.graph().nodes.len(),
            old(linked)@.len() == self.graph().nodes.len(),
        ensures
            final(linked)@.len() == old(linked)@.len(),
            forall|i: int|
                0 <= i < final(linked)@.len() ==> (#[trigger] final(linked)@[i] <==> old(
                    linked,
                )@[i] || links(self.graph(), from, 0).contains(i as u64)),
    {
        proof {
            self.lemma_links_valid(from, 0);
        }
        match self.links_of(from, 0) {
            None => {},
            Some(list) => {
                let n: usize = linked.len();
                let mut j: usize = 0;
                while j < list.len()
                    invariant
                        j <= list@.len(),
                        linked@.len() == n,
                        old(linked)@.len() == n,
                        forall|k: int| 0 <= k < list@.len() ==> #[trigger] list@[k] < n,
                        forall|i: int|
                            0 <= i < n ==> (#[trigger] linked@[i] <==> old(linked)@[i]
                                || list@.take(j as int).contains(i as u64)),
                    decreases list@.len() - j,
                {
                    let ghost before = linked@;
                    let to: u64 = list[j];
                    linked.set(to as usize, true);
                    proof {
                        let (s, t) = (list@.take(j as int), list@.take(j + 1));
                        assert(t =~= s.push(to));
                        assert(t[j as int] == to);
                        assert forall|i: int| 0 <= i < n implies (#[trigger] linked@[i] <==> old(
                            linked,
                        )@[i] || t.contains(i as u64)) by {
                            if s.contains(i as u64) {
                                assert(t[s.index_of(i as u64)] == i as u64);
                            }
                            if t.contains(i as u64) && i != to {
                                assert(s[t.index_of(i as u64)] == i as u64);
                            }
                            if i != to {
                                assert(before[i] == linked@[i]);
                            }
                        }
                    }
                    j = j + 1;
                }
                assert(list@.take(j as int) =~= list@);
            },
        }
    }

    /// For every node, whether another one links to it on the lowest layer.
    fn linked_nodes(&self) -> (linked: Vec<bool>)
        requires
            self.wf(),
        ensures
            linked@.len() == self.graph().nodes.len(),
            forall|i: int|
                0 <= i < linked@.len() ==> (#[trigger] linked@[i] <==> linked_to(
                    self.graph(),
                    i as u64,
                    0,
                )),
    {
        let n: usize = self.len();
        let ghost g = self.graph();
        let mut linked: Vec<bool> = vec![false; n];
        let mut from: u64 = 0;
        while from < n as u64
            invariant
                self.wf(),
                g == self.graph(),
                n == g.nodes.len(),
                linked@.len() == n,
                from <= n,
                forall|i: int|
                    0 <= i < n ==> (#[trigger] linked@[i] <==> exists|k: u64|
                        k < from && #[trigger] links(g, k, 0).contains(i as u64)),
            decreases n - from,
        {
            let ghost before = linked@;
            self.mark_targets(from, &mut linked);
            proof {
                assert forall|i: int| 0 <= i < n implies (#[trigger] linked@[i] <==> exists|k: u64|
                    k < from + 1 && #[trigger] links(g, k, 0).contains(i as u64)) by {
                    let was = before[i];
                    if was {
                        let k = choose|k: u64|
                            k < from && #[trigger] links(g, k, 0).contains(i as u64);
                        assert(k < from + 1 && links(g, k, 0).contains(i as u64));
                    }
                    if linked@[i] && !was {
                        assert(links(g, from, 0).contains(i as u64));
                    }
                }
            }
            from = from + 1;
        }
        linked
    }

    /// The nodes that no other node links to on the lowest layer, but for the
    /// entry point.
    pub fn zero_indegree_nodes(&self) -> (list: Vec<u64>)
        requires
            self.wf(),
        ensures
            list@ == orphans(self.graph(), self.graph().nodes.len()),
    {
        let linked: Vec<bool> = self.linked_nodes();
        let entry: Option<(u64, usize)> = self.entry_point();
        let ghost g = self.graph();
        let mut list: Vec<u64> = Vec::new();
        let mut i: usize = 0;
        while i < linked.len()
            invariant
                i <= linked@.len(),
                linked@.len() == g.nodes.len(),
                forall|j: int|
                    0 <= j < linked@.len() ==> (#[trigger] linked@[j] <==> linked_to(
                        g,
                        j as u64,
                        0,
                    )),
                match entry {
                    None => g.entry is None,
                    Some((id, level)) => g.entry == Some((id, level as nat)),
                },
                list@ == orphans(g, i as nat),
            decreases linked@.len() - i,
        {
            let id: u64 = i as u64;
            let is_entry: bool = match entry {
                None => false,
                Some((e, _)) => e == id,
            };
            if !linked[i] && !is_entry {
                list.push(id);
            }
            i = i + 1;
        }
        list
    }

    /// The number of nodes that no other node links to on the lowest layer,
    /// but for the entry point.
    pub fn zero_indegree_count(&self) -> (count: usize)
        requires
            self.wf(),
        ensures
            count == orphans(self.graph(), self.graph().nodes.len()).len(),
    {
        self.zero_indegree_nodes().len()
    }
}

} // verus!
