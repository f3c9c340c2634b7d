//! Inserting a node.

use crate::doubling::{segment_of, MAX_SEGMENTS};
use crate::hnsw::graph::{
    degree_bound, lemma_relinked_valid, links, on_layer, relinked, with_node, Graph,
};
use crate::hnsw::index::{Hnsw, MAX_ID, MAX_LEVEL};
use crate::hnsw::scratch::VisitedSet;
use crate::hnsw::select::{chosen, has_id, select_neighbors};
use crate::hnsw::traverse::{beam_search, zoomed};
use crate::oracle::{answers, answers_pairs, between, computes, scores_dim, scores_pairs};
use crate::storage::neighbor::{arrange, arranged, lemma_arranged_members, Neighbor};
use crate::storage::store::VectorStore;
use vstd::prelude::*;

verus! {

/// A list without the members that repeat the one before them.
pub open spec fn deduped(list: Seq<u64>) -> Seq<u64>
    decreases list.len(),
{
    if list.len() < 2 {
        list
    } else {
        let front = deduped(list.drop_last());
        if list[list.len() - 2] == list.last() {
            front
        } else {
            front.push(list.last())
        }
    }
}

/// The members of a list, scored by their distance from `base`.
pub open spec fn scored_from(
    base: u64,
    list: Seq<u64>,
    pair: spec_fn(u64, u64) -> u32,
) -> Seq<Neighbor> {
    list.map_values(|x: u64| Neighbor { id: x, distance: pair(base, x) })
}

/// The links of `base` once it links to `id` too. If that is one too many,
/// they are chosen anew among all of them.
pub open spec fn linked_too(
    base: u64,
    list: Seq<u64>,
    id: u64,
    max: nat,
    pair: spec_fn(u64, u64) -> u32,
) -> Seq<u64> {
    if list.contains(id) {
        list
    } else if list.len() + 1 <= max {
        list.push(id)
    } else {
        chosen(arranged(scored_from(base, list.push(id), pair)), max, pair)
    }
}

/// The graph once every node of a list links to `id` on this layer.
pub open spec fn linked_back(
    g: Graph,
    layer: nat,
    list: Seq<u64>,
    id: u64,
    max: nat,
    pair: spec_fn(u64, u64) -> u32,
) -> Graph
    decreases list.len(),
{
    if list.len() == 0 {
        g
    } else {
        let h = linked_back(g, layer, list.drop_last(), id, max, pair);
        let nb = list.last();
        relinked(h, nb, layer, linked_too(nb, links(h, nb, layer), id, max, pair))
    }
}

/// The distances from one node.
pub open spec fn from_node(id: u64, pair: spec_fn(u64, u64) -> u32) -> spec_fn(u64) -> u32 {
    |x: u64| pair(id, x)
}

/// The candidates but for `id`.
pub open spec fn others(list: Seq<Neighbor>, id: u64) -> Seq<Neighbor>
    decreases list.len(),
{
    if list.len() == 0 {
        list
    } else {
        let front = others(list.drop_last(), id);
        if list.last().id == id {
            front
        } else {
            front.push(list.last())
        }
    }
}

/// The graph once `id` is connected on a layer, with the beam search starting
/// at `at`, and the closest node that it found.
pub open spec fn connected(
    g: Graph,
    layer: nat,
    id: u64,
    at: u64,
    m: nat,
    ef: nat,
    pair: spec_fn(u64, u64) -> u32,
) -> (Graph, u64) {
    let near = beam_search(g, layer, at, ef, from_node(id, pair));
    let list = chosen(others(near, id), m, pair);
    let h = relinked(g, id, layer, deduped(links(g, id, layer) + list));
    (linked_back(h, layer, list, id, degree_bound(m, layer), pair), near[0].id)
}

/// The graph once `id` is connected on the lowest `layers` layers, from the
/// highest of them down.
pub open spec fn connected_down(
    g: Graph,
    layers: nat,
    id: u64,
    at: u64,
    m: nat,
    ef: nat,
    pair: spec_fn(u64, u64) -> u32,
) -> Graph
    decreases layers,
{
    if layers == 0 {
        g
    } else {
        let layer = (layers - 1) as nat;
        let (h, next) = connected(g, layer, id, at, m, ef, pair);
        connected_down(h, layer, id, next, m, ef, pair)
    }
}

/// The graph once a node is inserted: the walk down from the entry point finds
/// where the new node belongs, it is connected on all of its layers that are
/// in use, and becomes the entry point if its level is the highest.
pub open spec fn inserted_into(
    g: Graph,
    id: u64,
    level: nat,
    m: nat,
    ef: nat,
    pair: spec_fn(u64, u64) -> u32,
) -> Graph {
    let h = with_node(g, id, level);
    match g.entry {
        None => Graph { nodes: h.nodes, entry: Some((id, level)) },
        Some((entry, top)) => {
            let at = zoomed(
                h,
                top,
                level + 1,
                from_node(id, pair),
                (entry, pair(id, entry)),
            ).0;
            let low = if level < top {
                level
            } else {
                top
            };
            let c = connected_down(h, low + 1, id, at, m, ef, pair);
            if level > top {
                Graph { nodes: c.nodes, entry: Some((id, level)) }
            } else {
                c
            }
        },
    }
}

/// Making nodes link back adds none.
proof fn lemma_linked_back_len(
    g: Graph,
    layer: nat,
    list: Seq<u64>,
    id: u64,
    max: nat,
    pair: spec_fn(u64, u64) -> u32,
)
    ensures
        linked_back(g, layer, list, id, max, pair).nodes.len() == g.nodes.len(),
    decreases list.len(),
{
    if list.len() > 0 {
        lemma_linked_back_len(g, layer, list.drop_last(), id, max, pair);
    }
}

proof fn lemma_connected_down_len(
    g: Graph,
    layers: nat,
    id: u64,
    at: u64,
    m: nat,
    ef: nat,
    pair: spec_fn(u64, u64) -> u32,
)
    ensures
        connected_down(g, layers, id, at, m, ef, pair).nodes.len() == g.nodes.len(),
    decreases layers,
{
    if layers > 0 {
        let layer = (layers - 1) as nat;
        let near = beam_search(g, layer, at, ef, from_node(id, pair));
        let list = chosen(others(near, id), m, pair);
        let h = relinked(g, id, layer, deduped(links(g, id, layer) + list));
        lemma_linked_back_len(h, layer, list, id, degree_bound(m, layer), pair);
        let (c, next) = connected(g, layer, id, at, m, ef, pair);
        lemma_connected_down_len(c, layer, id, next, m, ef, pair);
    }
}

/// Inserting a node adds that node, and nodes for the ids that were skipped.
pub proof fn lemma_inserted_len(
    g: Graph,
    id: u64,
    level: nat,
    m: nat,
    ef: nat,
    pair: spec_fn(u64, u64) -> u32,
)
    ensures
        inserted_into(g, id, level, m, ef, pair).nodes.len() == id + 1,
{
    let h = with_node(g, id, level);
    match g.entry {
        None => {},
        Some((entry, top)) => {
            let at = zoomed(
                h,
                top,
                level + 1,
                from_node(id, pair),
                (entry, pair(id, entry)),
            ).0;
            let low = if level < top {
                level
            } else {
                top
            };
            lemma_connected_down_len(h, low + 1, id, at, m, ef, pair);
        },
    }
}

/// Drops the members that repeat the one before them.
fn dedup(list: &Vec<u64>) -> (r: Vec<u64>)
    ensures
        r@ == deduped(list@),
        forall|i: int| 0 <= i < r@.len() ==> list@.contains(#[trigger] r@[i]),
{
    let mut r: Vec<u64> = Vec::new();
    let mut i: usize = 0;
    assert(list@.take(0) =~= Seq::empty());
    while i < list.len()
        invariant
            i <= list@.len(),
            r@ == deduped(list@.take(i as int)),
            forall|j: int| 0 <= j < r@.len() ==> list@.contains(#[trigger] r@[j]),
        decreases list@.len() - i,
    {
        let ghost part = list@.take(i + 1);
        proof {
            assert(part.drop_last() =~= list@.take(i as int));
            assert(list@.contains(list@[i as int]));
            if i == 0 {
                assert(part =~= Seq::empty().push(list@[0]));
                assert(list@.take(0) =~= Seq::empty());
            }
        }
        if i == 0 || list[i - 1] != list[i] {
            r.push(list[i]);
        }
        i = i + 1;
    }
    assert(list@.take(i as int) =~= list@);
    r
}

/// The candidates but for `id`.
fn without(list: &Vec<Neighbor>, id: u64) -> (r: Vec<Neighbor>)
    ensures
        r@ == others(list@, id),
        forall|i: int|
            0 <= i < r@.len() ==> list@.contains(#[trigger] r@[i]) && r@[i].id != id,
{
    let mut r: Vec<Neighbor> = Vec::new();
    let mut i: usize = 0;
    assert(list@.take(0) =~= Seq::empty());
    while i < list.len()
        invariant
            i <= list@.len(),
            r@ == others(list@.take(i as int), id),
            forall|j: int|
                0 <= j < r@.len() ==> list@.contains(#[trigger] r@[j]) && r@[j].id != id,
        decreases list@.len() - i,
    {
        proof {
            assert(list@.take(i + 1).drop_last() =~= list@.take(i as int));
            assert(list@.contains(list@[i as int]));
        }
        if list[i].id != id {
            r.push(list[i]);
        }
        i = i + 1;
    }
    assert(list@.take(i as int) =~= list@);
    r
}

/// Scores the members of a list by their distance from `base`.
fn score_from<P: Fn(u64, u64) -> u32>(base: u64, list: &Vec<u64>, pair: &P, n: u64) -> (r: Vec<
    Neighbor,
>)
    requires
        scores_pairs(*pair, n as nat),
        base < n,
        forall|i: int| 0 <= i < list@.len() ==> #[trigger] list@[i] < n,
    ensures
        r@.len() == list@.len(),
        forall|i: int| 0 <= i < r@.len() ==> (#[trigger] r@[i]).id == list@[i],
        forall|f: spec_fn(u64, u64) -> u32| #[trigger]
            answers_pairs(*pair, f) ==> r@ == scored_from(base, list@, f),
{
    let mut r: Vec<Neighbor> = Vec::new();
    let mut i: usize = 0;
    while i < list.len()
        invariant
            i <= list@.len(),
            r@.len() == i,
            scores_pairs(*pair, n as nat),
            base < n,
            forall|j: int| 0 <= j < list@.len() ==> #[trigger] list@[j] < n,
            forall|j: int| 0 <= j < r@.len() ==> (#[trigger] r@[j]).id == list@[j],
            forall|f: spec_fn(u64, u64) -> u32, j: int|
                #![trigger answers_pairs(*pair, f), r@[j]]
                answers_pairs(*pair, f) && 0 <= j < i ==> r@[j].distance == f(base, list@[j]),
        decreases list@.len() - i,
    {
        let id: u64 = list[i];
        let distance: u32 = pair(base, id);
        r.push(Neighbor { id, distance });
        i = i + 1;
    }
    proof {
        assert forall|f: spec_fn(u64, u64) -> u32| #[trigger] answers_pairs(*pair, f) implies r@
            == scored_from(base, list@, f) by {
            assert(r@ =~= scored_from(base, list@, f));
        }
    }
    r
}

/// The links of `base` once it links to `id` too.
fn link_too<P: Fn(u64, u64) -> u32>(
    base: u64,
    list: &Vec<u64>,
    id: u64,
    max: usize,
    pair: &P,
    n: u64,
) -> (r: Vec<u64>)
    requires
        scores_pairs(*pair, n as nat),
        base < n,
        id < n,
        forall|i: int| 0 <= i < list@.len() ==> #[trigger] list@[i] < n,
    ensures
        forall|i: int|
            0 <= i < r@.len() ==> list@.contains(#[trigger] r@[i]) || r@[i] == id,
        forall|f: spec_fn(u64, u64) -> u32| #[trigger]
            answers_pairs(*pair, f) ==> r@ == linked_too(base, list@, id, max as nat, f),
{
    let mut longer: Vec<u64> = Vec::new();
    let mut i: usize = 0;
    while i < list.len()
        invariant
            i <= list@.len(),
            longer@ == list@.take(i as int),
            forall|j: int| 0 <= j < i ==> list@[j] != id,
        decreases list@.len() - i,
    {
        if list[i] == id {
            assert(list@.contains(list@[i as int]));
            let mut same: Vec<u64> = Vec::new();
            same.extend_from_slice(list.as_slice());
            assert(same@ =~= list@);
            return same;
        }
        longer.push(list[i]);
        i = i + 1;
        assert(longer@ =~= list@.take(i as int));
    }
    assert(!list@.contains(id));
    longer.push(id);
    assert(longer@ =~= list@.push(id));
    assert forall|j: int| 0 <= j < longer@.len() implies list@.contains(#[trigger] longer@[j])
        || longer@[j] == id by {
        if j < list@.len() {
            assert(list@[j] == longer@[j]);
        }
    }
    if longer.len() <= max {
        return longer;
    }
    let scored: Vec<Neighbor> = score_from(base, &longer, pair, n);
    let cands: Vec<Neighbor> = arrange(&scored);
    proof {
        lemma_arranged_members(scored@);
        assert forall|j: int| 0 <= j < cands@.len() implies (#[trigger] cands@[j]).id < n
            && longer@.contains(cands@[j].id) by {
            assert(cands@.contains(cands@[j]));
            let k = scored@.index_of(cands@[j]);
            assert(scored@.contains(cands@[j]));
            assert(longer@[k] == cands@[j].id);
        }
    }
    let r: Vec<u64> = select_neighbors(&cands, max, pair, n);
    proof {
        assert forall|j: int| 0 <= j < r@.len() implies list@.contains(#[trigger] r@[j]) || r@[j]
            == id by {
            assert(has_id(cands@, r@[j]));
            let x = choose|x: Neighbor| #[trigger] cands@.contains(x) && x.id == r@[j];
            let k = cands@.index_of(x);
            assert(longer@.contains(cands@[k].id));
            let l = longer@.index_of(r@[j]);
            assert(longer@[l] == r@[j]);
        }
    }
    r
}

impl Hnsw {
    /// The most links that a node may have on a layer.
    pub fn max_degree(&self, layer: usize) -> (max: usize)
        requires
            self.wf(),
        ensures
            max == degree_bound(self.spec_config().m as nat, layer as nat),
    {
        proof {
            self.lemma_sizes();
        }
        if layer == 0 {
            self.config().m * 2
        } else {
            self.config().m
        }
    }

    /// A copy of the links of a node on a layer.
    fn copy_links(&self, id: u64, layer: usize) -> (list: Vec<u64>)
        requires
            self.wf(),
            id < self.graph().nodes.len(),
        ensures
            list@ == links(self.graph(), id, layer as nat),
            forall|i: int| 0 <= i < list@.len() ==> #[trigger] list@[i] < self.graph().nodes.len(),
    {
        let mut copy: Vec<u64> = Vec::new();
        match self.links_of(id, layer) {
            Some(list) => {
                copy.extend_from_slice(list.as_slice());
                assert(copy@ =~= list@);
            },
            None => {},
        }
        proof {
            self.lemma_links_valid(id, layer as nat);
        }
        copy
    }

    /// Makes every node of a list link to `id` on a layer.
    fn link_back<P: Fn(u64, u64) -> u32>(
        &mut self,
        pair: &P,
        layer: usize,
        list: &Vec<u64>,
        id: u64,
    )
        requires
            old(self).wf(),
            id < old(self).graph().nodes.len(),
            forall|i: int|
                0 <= i < list@.len() ==> #[trigger] list@[i] < old(self).graph().nodes.len(),
            scores_pairs(*pair, old(self).graph().nodes.len()),
        ensures
            final(self).wf(),
            final(self).spec_config() == old(self).spec_config(),
            final(self).graph().nodes.len() == old(self).graph().nodes.len(),
            final(self).graph().entry == old(self).graph().entry,
            forall|x: u64, l: nat| #[trigger]
                on_layer(final(self).graph(), x, l) <==> on_layer(old(self).graph(), x, l),
            forall|f: spec_fn(u64, u64) -> u32| #[trigger]
                answers_pairs(*pair, f) ==> final(self).graph() == linked_back(
                    old(self).graph(),
                    layer as nat,
                    list@,
                    id,
                    degree_bound(old(self).spec_config().m as nat, layer as nat),
                    f,
                ),
    {
        let ghost g = self.graph();
        let ghost config = self.spec_config();
        let n: u64 = self.len() as u64;
        let max: usize = self.max_degree(layer);
        let mut i: usize = 0;
        assert(list@.take(0) =~= Seq::empty());
        while i < list.len()
            invariant
                i <= list@.len(),
                self.wf(),
                self.spec_config() == config,
                max == degree_bound(config.m as nat, layer as nat),
                self.graph().nodes.len() == n,
                self.graph().entry == g.entry,
                id < n,
                forall|x: u64, l: nat| #[trigger]
                    on_layer(self.graph(), x, l) <==> on_layer(g, x, l),
                forall|j: int| 0 <= j < list@.len() ==> #[trigger] list@[j] < n,
                scores_pairs(*pair, n as nat),
                forall|f: spec_fn(u64, u64) -> u32| #[trigger]
                    answers_pairs(*pair, f) ==> self.graph() == linked_back(
                        g,
                        layer as nat,
                        list@.take(i as int),
                        id,
                        max as nat,
                        f,
                    ),
            decreases list@.len() - i,
        {
            let nb: u64 = list[i];
            let ghost h = self.graph();
            let cur: Vec<u64> = self.copy_links(nb, layer);
            let next: Vec<u64> = link_too(nb, &cur, id, max, pair, n);
            proof {
                assert forall|j: int| 0 <= j < next@.len() implies #[trigger] next@[j] < n by {
                    if next@[j] != id {
                        let k = cur@.index_of(next@[j]);
                        assert(cur@.contains(next@[j]));
                        assert(cur@[k] < n);
                    }
                }
                self.lemma_sizes();
                lemma_relinked_valid(h, nb, layer as nat, next@);
                assert(list@.take(i + 1).drop_last() =~= list@.take(i as int));
            }
            self.set_links(nb, layer, next);
            i = i + 1;
        }
        assert(list@.take(i as int) =~= list@);
    }

    /// Connects `id` on a layer. Returns the closest node found.
    fn connect<P: Fn(u64, u64) -> u32>(
        &mut self,
        pair: &P,
        layer: usize,
        id: u64,
        at: u64,
        visited: &mut VisitedSet,
    ) -> (next: u64)
        requires
            old(self).wf(),
            old(visited).wf(),
            id < old(self).graph().nodes.len(),
            at < old(self).graph().nodes.len(),
            scores_pairs(*pair, old(self).graph().nodes.len()),
        ensures
            final(self).wf(),
            final(visited).wf(),
            final(self).spec_config() == old(self).spec_config(),
            final(self).graph().nodes.len() == old(self).graph().nodes.len(),
            final(self).graph().entry == old(self).graph().entry,
            forall|x: u64, l: nat| #[trigger]
                on_layer(final(self).graph(), x, l) <==> on_layer(old(self).graph(), x, l),
            next < old(self).graph().nodes.len(),
            forall|f: spec_fn(u64, u64) -> u32| #[trigger]
                answers_pairs(*pair, f) ==> (final(self).graph(), next) == connected(
                    old(self).graph(),
                    layer as nat,
                    id,
                    at,
                    old(self).spec_config().m as nat,
                    old(self).spec_config().ef_construction as nat,
                    f,
                ),
    {
        let ghost g = self.graph();
        let n: u64 = self.len() as u64;
        let m: usize = self.config().m;
        let ef: usize = self.config().ef_construction;
        let dist = |x: u64| -> (d: u32)
            requires
                x < n,
            ensures
                forall|f: spec_fn(u64, u64) -> u32| #[trigger]
                    answers_pairs(*pair, f) ==> d == f(id, x),
            { pair(id, x) };
        proof {
            assert forall|f: spec_fn(u64, u64) -> u32| #[trigger]
                answers_pairs(*pair, f) implies answers(dist, from_node(id, f)) by {}
        }
        let near: Vec<Neighbor> = self.search_layer(&dist, visited, at, ef, layer);
        let next: u64 = near[0].id;
        assert(near@.contains(near@[0]));
        let cands: Vec<Neighbor> = without(&near, id);
        let list: Vec<u64> = select_neighbors(&cands, m, pair, n);
        proof {
            assert forall|i: int| 0 <= i < list@.len() implies #[trigger] list@[i] < n by {
                assert(has_id(cands@, list@[i]));
                let x = choose|x: Neighbor| #[trigger] cands@.contains(x) && x.id == list@[i];
                let k = cands@.index_of(x);
                assert(near@.contains(cands@[k]));
            }
        }
        let mut joined: Vec<u64> = self.copy_links(id, layer);
        joined.extend_from_slice(list.as_slice());
        let own: Vec<u64> = dedup(&joined);
        proof {
            let before = links(g, id, layer as nat);
            assert(joined@ =~= before + list@);
            self.lemma_links_valid(id, layer as nat);
            assert forall|i: int| 0 <= i < own@.len() implies #[trigger] own@[i] < n by {
                let k = joined@.index_of(own@[i]);
                assert(joined@.contains(own@[i]));
                if k < before.len() {
                    assert(before[k] < n);
                } else {
                    assert(list@[k - before.len()] < n);
                }
            }
            self.lemma_sizes();
            lemma_relinked_valid(g, id, layer as nat, own@);
        }
        self.set_links(id, layer, own);
        self.link_back(pair, layer, &list, id);
        next
    }

    /// Inserts a node with the distances that `pair` gives.
    fn insert_by<P: Fn(u64, u64) -> u32>(
        &mut self,
        pair: &P,
        id: u64,
        level: usize,
        visited: &mut VisitedSet,
    )
        requires
            old(self).wf(),
            old(visited).wf(),
            old(self).graph().nodes.len() <= id < MAX_ID,
            segment_of(id as nat) < MAX_SEGMENTS,
            id < usize::MAX - 1024,
            level <= MAX_LEVEL,
            scores_pairs(*pair, (id + 1) as nat),
        ensures
            final(self).wf(),
            final(visited).wf(),
            final(self).spec_config() == old(self).spec_config(),
            final(self).graph().nodes.len() == id + 1,
            final(self).graph().entry is Some,
            forall|f: spec_fn(u64, u64) -> u32| #[trigger]
                answers_pairs(*pair, f) ==> final(self).graph() == inserted_into(
                    old(self).graph(),
                    id,
                    level as nat,
                    old(self).spec_config().m as nat,
                    old(self).spec_config().ef_construction as nat,
                    f,
                ),
    {
        let ghost g = self.graph();
        let ghost config = self.spec_config();
        self.add_node(id, level);
        let ghost h = self.graph();
        match self.entry_point() {
            None => {
                self.set_entry(id, level);
            },
            Some((entry, top)) => {
                let dist = |x: u64| -> (d: u32)
                    requires
                        x <= id,
                    ensures
                        forall|f: spec_fn(u64, u64) -> u32| #[trigger]
                            answers_pairs(*pair, f) ==> d == f(id, x),
                    { pair(id, x) };
                proof {
                    assert forall|f: spec_fn(u64, u64) -> u32| #[trigger]
                        answers_pairs(*pair, f) implies answers(dist, from_node(id, f)) by {}
                }
                let start: (u64, u32) = (entry, dist(entry));
                let (first, _) = self.zoom(&dist, start, top, level + 1);
                let mut at: u64 = first;
                let mut layers: usize = if level < top {
                    level + 1
                } else {
                    top + 1
                };
                let ghost all = layers;
                while layers > 0
                    invariant
                        self.wf(),
                        visited.wf(),
                        self.spec_config() == config,
                        self.graph().nodes.len() == id + 1,
                        self.graph().entry == h.entry,
                        forall|x: u64, l: nat| #[trigger]
                            on_layer(self.graph(), x, l) <==> on_layer(h, x, l),
                        at <= id,
                        scores_pairs(*pair, (id + 1) as nat),
                        forall|f: spec_fn(u64, u64) -> u32| #[trigger]
                            answers_pairs(*pair, f) ==> connected_down(
                                h,
                                all as nat,
                                id,
                                first,
                                config.m as nat,
                                config.ef_construction as nat,
                                f,
                            ) == connected_down(
                                self.graph(),
                                layers as nat,
                                id,
                                at,
                                config.m as nat,
                                config.ef_construction as nat,
                                f,
                            ),
                    decreases layers,
                {
                    at = self.connect(pair, layers - 1, id, at, visited);
                    layers = layers - 1;
                }
                if level > top {
                    proof {
                        assert(h.nodes[id as int].len() == level + 1);
                        assert(on_layer(h, id, level as nat));
                        assert(on_layer(self.graph(), id, level as nat));
                        assert(!on_layer(h, id, (level + 1) as nat));
                        assert(!on_layer(self.graph(), id, (level + 1) as nat));
                    }
                    self.set_entry(id, level);
                }
            },
        }
    }

    /// Inserts a node. Its vector must be in the store, and no node may have
    /// been inserted with this id or a higher one. Vectors that were stored
    /// later make no difference.
    pub fn insert<K: Fn(&[u32], &[u32]) -> u32>(
        &mut self,
        store: &VectorStore,
        id: u64,
        level: usize,
        kernel: &K,
        visited: &mut VisitedSet,
    )
        requires
            old(self).wf(),
            store.wf(),
            old(visited).wf(),
            old(self).graph().nodes.len() <= id < store.rows().len(),
            level <= MAX_LEVEL,
            scores_dim(*kernel, store.spec_dim()),
        ensures
            final(self).wf(),
            final(visited).wf(),
            final(self).spec_config() == old(self).spec_config(),
            final(self).graph().nodes.len() == id + 1,
            final(self).graph().entry is Some,
            forall|f: spec_fn(Seq<u32>, Seq<u32>) -> u32| #[trigger]
                computes(*kernel, f) ==> final(self).graph() == inserted_into(
                    old(self).graph(),
                    id,
                    level as nat,
                    old(self).spec_config().m as nat,
                    old(self).spec_config().ef_construction as nat,
                    between(f, store.rows().take(id + 1)),
                ),
    {
        let pair = |a: u64, b: u64| -> (d: u32)
            requires
                a <= id,
                b <= id,
            ensures
                forall|f: spec_fn(Seq<u32>, Seq<u32>) -> u32| #[trigger]
                    computes(*kernel, f) ==> d == f(
                        store.rows().take(id + 1)[a as int],
                        store.rows().take(id + 1)[b as int],
                    ),
            { kernel(store.get_unchecked(a), store.get_unchecked(b)) };
        proof {
            assert forall|f: spec_fn(Seq<u32>, Seq<u32>) -> u32| #[trigger]
                computes(*kernel, f) implies answers_pairs(
                pair,
                between(f, store.rows().take(id + 1)),
            ) by {}
            store.lemma_id_fits(id);
        }
        self.insert_by(&pair, id, level, visited);
    }
}

} // verus!
