//! The index itself.

use crate::distance::Metric;
use crate::float32::{less, lt, signed, INFINITY};
use crate::doubling::{lemma_segment_of_grows, segment_of, MAX_SEGMENTS};
use crate::hnsw::graph::{
    bare_node, lemma_relinked_valid, links, padded, relinked, valid, with_node, Graph,
};
use crate::hnsw::scratch::VisitedSet;
use crate::hnsw::segvec::{slot_set, SegVec};
use crate::hnsw::traverse::{
    beam_ok, beam_search, closest, descended, expanded, finished, ids_differ, improved, knn,
    lemma_closest, lemma_expanded_one_more, lemma_few_ids, lemma_offered, lemma_started,
    offered, run, started, stepped, worst, zoomed, Beam,
};
use crate::oracle::{answers, computes, from_query, scores_dim, scores_ids};
use crate::storage::neighbor::{
    ascending, descending, first, insert_descending, lemma_ascending_in_order, precedes,
    push_bounded, Neighbor,
};
use crate::storage::store::VectorStore;
use vstd::prelude::*;

verus! {

/// How an index is built.
#[derive(Debug, Clone, Copy, PartialEq, Eq, Structural)]
pub struct HnswConfig {
    /// The most links of a node on the layers above the lowest, which has
    /// twice as many.
    pub m: usize,
    /// The width of the beam when links are chosen.
    pub ef_construction: usize,
    pub metric: Metric,
}

impl Default for HnswConfig {
    fn default() -> (config: HnswConfig)
        ensures
            config.m == 16,
            config.ef_construction == 200,
            config.metric == Metric::L2,
    {
        HnswConfig { m: 16, ef_construction: 200, metric: Metric::L2 }
    }
}

/// There is no entry point.
pub const ENTRY_NONE: u64 = u64::MAX;

/// The highest level that an entry point can have.
pub const MAX_LEVEL: usize = 255;

/// Ids stay below this.
pub const MAX_ID: u64 = 0xFF_FFFF_FFFF_FFFF;

/// An entry point in one word: the level above the low 56 bits, the id in
/// them.
pub open spec fn packed(id: u64, level: nat) -> u64 {
    (level * 0x100_0000_0000_0000 + id) as u64
}

/// The entry point that a word stands for.
pub open spec fn unpacked(word: u64) -> Option<(u64, nat)> {
    if word == ENTRY_NONE {
        None
    } else {
        Some((word % 0x100_0000_0000_0000, (word / 0x100_0000_0000_0000) as nat))
    }
}

/// Packs an entry point into a word: the level in the top byte, the id below.
/// One pair, the largest id on the highest level, looks like no entry point.
pub fn pack_entry(id: u64, level: usize) -> (word: u64)
    requires
        id <= MAX_ID,
        level <= MAX_LEVEL,
    ensures
        word == packed(id, level as nat),
        word % 0x100_0000_0000_0000 == id,
        word / 0x100_0000_0000_0000 == level,
        word == ENTRY_NONE <==> id == MAX_ID && level == MAX_LEVEL,
        word != ENTRY_NONE ==> unpacked(word) == Some((id, level as nat)),
{
    let high: u64 = level as u64;
    assert((high << 56) | id == high * 0x100_0000_0000_0000 + id && high * 0x100_0000_0000_0000
        + id <= 0xFFFF_FFFF_FFFF_FFFF) by (bit_vector)
        requires
            id <= 0xFF_FFFF_FFFF_FFFF,
            high <= 255,
    ;
    (high << 56) | id
}

/// The id and the level that a word holds.
pub fn unpack_entry(word: u64) -> (entry: (u64, usize))
    ensures
        entry.0 <= MAX_ID,
        packed(entry.0, entry.1 as nat) == word,
        entry.0 == word % 0x100_0000_0000_0000,
        entry.1 == word / 0x100_0000_0000_0000,
        entry.1 <= MAX_LEVEL,
{
    assert(word & 0xFF_FFFF_FFFF_FFFF == word % 0x100_0000_0000_0000 && word >> 56 == word
        / 0x100_0000_0000_0000) by (bit_vector);
    (word & 0xFF_FFFF_FFFF_FFFF, (word >> 56) as usize)
}

/// A node: its links on every layer from zero up to its level.
pub struct Node {
    links: Vec<Vec<u64>>,
}

impl View for Node {
    type V = Seq<Seq<u64>>;

    closed spec fn view(&self) -> Seq<Seq<u64>> {
        self.links@.map_values(|list: Vec<u64>| list@)
    }
}

/// The index.
pub struct Hnsw {
    config: HnswConfig,
    nodes: SegVec<Node>,
    entry: u64,
}

impl Hnsw {
    pub closed spec fn spec_config(&self) -> HnswConfig {
        self.config
    }

    /// The graph.
    #[verifier::opaque]
    pub closed spec fn graph(&self) -> Graph {
        Graph {
            nodes: Seq::new(self.nodes@.len(), |i: int| self.nodes@[i]->0@),
            entry: unpacked(self.entry),
        }
    }

    /// The graph is valid and fits.
    #[verifier::opaque]
    pub closed spec fn wf(&self) -> bool {
        &&& 2 <= self.config.m <= usize::MAX / 2
        &&& self.nodes.wf()
        &&& forall|i: int| 0 <= i < self.nodes@.len() ==> #[trigger] self.nodes@[i] is Some
        &&& self.nodes@.len() <= MAX_ID
        &&& forall|i: int|
            0 <= i < self.nodes@.len() ==> (#[trigger] self.nodes@[i])->0@.len() <= MAX_LEVEL + 1
        &&& valid(self.graph())
    }

    /// An empty index. `m` must be at least two.
    pub fn new(config: HnswConfig) -> (index: Hnsw)
        requires
            2 <= config.m <= usize::MAX / 2,
        ensures
            index.wf(),
            index.spec_config() == config,
            index.graph() == (Graph { nodes: Seq::empty(), entry: None }),
    {
        let index = Hnsw { config, nodes: SegVec::new(), entry: ENTRY_NONE };
        proof {
            reveal(Hnsw::wf);
            reveal(Hnsw::graph);
            assert(index.graph() =~= (Graph { nodes: Seq::empty(), entry: None }));
        }
        index
    }

    pub fn config(&self) -> (config: &HnswConfig)
        ensures
            *config == self.spec_config(),
    {
        &self.config
    }

    /// The number of nodes.
    pub fn len(&self) -> (n: usize)
        ensures
            n == self.graph().nodes.len(),
    {
        proof {
            reveal(Hnsw::graph);
        }
        self.nodes.len()
    }

    pub fn is_empty(&self) -> (r: bool)
        ensures
            r <==> self.graph().nodes.len() == 0,
    {
        self.len() == 0
    }

    /// A node.
    #[inline]
    pub(crate) fn node(&self, id: u64) -> (node: &Node)
        requires
            self.wf(),
            id < self.graph().nodes.len(),
        ensures
            node@ == self.graph().nodes[id as int],
    {
        proof {
            reveal(Hnsw::wf);
            reveal(Hnsw::graph);
        }
        let n: usize = self.nodes.len();
        assert(id < n);
        self.nodes.get_unchecked(id as usize)
    }

    /// The links of a node on a layer.
    #[inline]
    pub(crate) fn links_of(&self, id: u64, layer: usize) -> (list: Option<&Vec<u64>>)
        requires
            self.wf(),
            id < self.graph().nodes.len(),
        ensures
            list matches Some(list) ==> list@ == links(self.graph(), id, layer as nat),
            list is None ==> links(self.graph(), id, layer as nat) == Seq::<u64>::empty(),
    {
        let node: &Node = self.node(id);
        if layer < node.links.len() {
            Some(&node.links[layer])
        } else {
            None
        }
    }
}

/// The state of a beam search.
spec fn beam_of(visited: VisitedSet, open: Seq<Neighbor>, best: Seq<Neighbor>) -> Beam {
    Beam { visited: Set::new(|id: u64| visited.marked(id)), open: open.to_set(), best }
}

/// The distance of the last member, which a candidate has to beat.
fn worst_of(best: &Vec<Neighbor>) -> (d: u32)
    ensures
        d == worst(best@),
{
    let len: usize = best.len();
    if len == 0 {
        INFINITY
    } else {
        best[len - 1].distance
    }
}

/// Follows the links of a node.
fn expand<D: Fn(u64) -> u32>(
    dist: &D,
    visited: &mut VisitedSet,
    open: &mut Vec<Neighbor>,
    best: &mut Vec<Neighbor>,
    list: &Vec<u64>,
    ef: usize,
    n: usize,
)
    requires
        old(visited).wf(),
        descending(old(open)@),
        beam_ok(beam_of(*old(visited), old(open)@, old(best)@), n as nat, ef as nat),
        forall|i: int| 0 <= i < list@.len() ==> #[trigger] list@[i] < n,
        scores_ids(*dist, n as nat),
    ensures
        final(visited).wf(),
        descending(final(open)@),
        beam_ok(beam_of(*final(visited), final(open)@, final(best)@), n as nat, ef as nat),
        final(open)@.len() + beam_of(*old(visited), old(open)@, old(best)@).visited.len() <= old(
            open,
        )@.len() + beam_of(*final(visited), final(open)@, final(best)@).visited.len(),
        forall|f: spec_fn(u64) -> u32| #[trigger]
            answers(*dist, f) ==> beam_of(*final(visited), final(open)@, final(best)@) == expanded(
                beam_of(*old(visited), old(open)@, old(best)@),
                ef as nat,
                f,
                list@,
            ),
{
    let ghost b0 = beam_of(*visited, open@, best@);
    let mut i: usize = 0;
    proof {
        assert(list@.take(0) =~= Seq::empty());
    }
    while i < list.len()
        invariant
            i <= list@.len(),
            visited.wf(),
            descending(open@),
            beam_ok(beam_of(*visited, open@, best@), n as nat, ef as nat),
            forall|j: int| 0 <= j < list@.len() ==> #[trigger] list@[j] < n,
            scores_ids(*dist, n as nat),
            open@.len() + b0.visited.len() <= old(open)@.len() + beam_of(
                *visited,
                open@,
                best@,
            ).visited.len(),
            forall|f: spec_fn(u64) -> u32| #[trigger]
                answers(*dist, f) ==> beam_of(*visited, open@, best@) == expanded(
                    b0,
                    ef as nat,
                    f,
                    list@.take(i as int),
                ),
        decreases list@.len() - i,
    {
        let ghost b = beam_of(*visited, open@, best@);
        let next: u64 = list[i];
        let seen: bool = visited.mark(next);
        if !seen {
            let distance: u32 = dist(next);
            let x = Neighbor { id: next, distance };
            proof {
                lemma_offered(b, n as nat, ef as nat, x);
                lemma_ascending_in_order(best@);
                assert(!open@.contains(x)) by {
                    if open@.contains(x) {
                        assert(open@.to_set().contains(x));
                        assert(b.visited.contains(x.id));
                    }
                }
            }
            if best.len() < ef || less(distance, worst_of(best)) {
                insert_descending(open, x);
                push_bounded(best, x, ef);
            }
            assert(beam_of(*visited, open@, best@) =~= offered(b, ef as nat, x));
        } else {
            assert(beam_of(*visited, open@, best@) =~= b);
        }
        proof {
            assert forall|f: spec_fn(u64) -> u32| #[trigger] answers(*dist, f) implies beam_of(
                *visited,
                open@,
                best@,
            ) == expanded(b0, ef as nat, f, list@.take(i + 1)) by {
                lemma_expanded_one_more(b0, ef as nat, f, list@, i as int);
            }
        }
        i = i + 1;
    }
    assert(list@.take(i as int) =~= list@);
}

/// What every beam search returns, whatever the distances are: nodes in order,
/// none twice, at least one and no more than `ef` of them (or one).
pub open spec fn found(list: Seq<Neighbor>, n: nat, ef: nat) -> bool {
    &&& ascending(list)
    &&& ids_differ(list)
    &&& forall|x: Neighbor| #[trigger] list.contains(x) ==> x.id < n
    &&& 1 <= list.len()
    &&& list.len() <= ef || list.len() == 1
}

impl Hnsw {
    /// Links lead to nodes.
    pub proof fn lemma_links_valid(&self, id: u64, layer: nat)
        requires
            self.wf(),
        ensures
            forall|i: int|
                0 <= i < links(self.graph(), id, layer).len() ==> #[trigger] links(
                    self.graph(),
                    id,
                    layer,
                )[i] < self.graph().nodes.len(),
    {
        reveal(Hnsw::wf);
        let g = self.graph();
        let list = links(g, id, layer);
        assert forall|i: int| 0 <= i < list.len() implies #[trigger] list[i] < g.nodes.len() by {
            assert(g.nodes[id as int][layer as int][i] < g.nodes.len());
        }
    }

    /// One step of a beam search: closes the closest open node and follows its
    /// links, unless the search is over.
    fn advance<D: Fn(u64) -> u32>(
        &self,
        dist: &D,
        visited: &mut VisitedSet,
        open: &mut Vec<Neighbor>,
        best: &mut Vec<Neighbor>,
        ef: usize,
        layer: usize,
    ) -> (over: bool)
        requires
            self.wf(),
            old(visited).wf(),
            descending(old(open)@),
            beam_ok(
                beam_of(*old(visited), old(open)@, old(best)@),
                self.graph().nodes.len(),
                ef as nat,
            ),
            scores_ids(*dist, self.graph().nodes.len()),
        ensures
            final(visited).wf(),
            descending(final(open)@),
            beam_ok(
                beam_of(*final(visited), final(open)@, final(best)@),
                self.graph().nodes.len(),
                ef as nat,
            ),
            over == finished(beam_of(*old(visited), old(open)@, old(best)@), ef as nat),
            over ==> final(best)@ == old(best)@ && final(open)@ == old(open)@ && *final(visited)
                == *old(visited),
            !over ==> old(open)@.len() > 0 && final(open)@.len() + 1 + beam_of(
                *old(visited),
                old(open)@,
                old(best)@,
            ).visited.len() <= old(open)@.len() + beam_of(
                *final(visited),
                final(open)@,
                final(best)@,
            ).visited.len(),
            !over ==> forall|f: spec_fn(u64) -> u32| #[trigger]
                answers(*dist, f) ==> beam_of(*final(visited), final(open)@, final(best)@)
                    == stepped(
                    self.graph(),
                    layer as nat,
                    beam_of(*old(visited), old(open)@, old(best)@),
                    ef as nat,
                    f,
                ),
    {
        let ghost b = beam_of(*visited, open@, best@);
        let n: usize = self.len();
        if open.len() == 0 {
            assert(b.open =~= Set::empty());
            return true;
        }
        let at: usize = open.len() - 1;
        let current: Neighbor = open[at];
        proof {
            lemma_last_is_closest(open@);
            assert(b.open.contains(current));
            self.lemma_links_valid(current.id, layer as nat);
        }
        if less(worst_of(best), current.distance) && best.len() >= ef {
            return true;
        }
        let ghost all = open@;
        open.truncate(at);
        proof {
            lemma_without_last(*visited, all, open@, best@, n as nat, ef as nat);
        }
        match self.links_of(current.id, layer) {
            Some(list) => {
                expand(dist, visited, open, best, list, ef, n);
            },
            None => {},
        }
        false
    }

    /// Beam search on one layer: the `ef` closest nodes found, in order.
    pub(crate) fn search_layer<D: Fn(u64) -> u32>(
        &self,
        dist: &D,
        visited: &mut VisitedSet,
        entry: u64,
        ef: usize,
        layer: usize,
    ) -> (best: Vec<Neighbor>)
        requires
            self.wf(),
            old(visited).wf(),
            entry < self.graph().nodes.len(),
            scores_ids(*dist, self.graph().nodes.len()),
        ensures
            final(visited).wf(),
            found(best@, self.graph().nodes.len(), ef as nat),
            forall|f: spec_fn(u64) -> u32| #[trigger]
                answers(*dist, f) ==> best@ == beam_search(
                    self.graph(),
                    layer as nat,
                    entry,
                    ef as nat,
                    f,
                ),
    {
        let n: usize = self.len();
        visited.begin_pass(n);
        visited.mark(entry);
        let distance: u32 = dist(entry);
        let x = Neighbor { id: entry, distance };
        let mut open: Vec<Neighbor> = Vec::new();
        open.push(x);
        let mut best: Vec<Neighbor> = Vec::new();
        best.push(x);
        let ghost g = self.graph();
        let ghost mut steps: nat = 0;
        proof {
            lemma_start(*visited, open@, best@, x);
            lemma_started(entry, distance, n as nat, ef as nat);
        }
        let mut over: bool = false;
        while !over
            invariant
                self.wf(),
                g == self.graph(),
                n == g.nodes.len(),
                visited.wf(),
                descending(open@),
                beam_ok(beam_of(*visited, open@, best@), n as nat, ef as nat),
                scores_ids(*dist, n as nat),
                steps + open@.len() <= beam_of(*visited, open@, best@).visited.len(),
                steps <= n,
                !over ==> forall|f: spec_fn(u64) -> u32| #[trigger]
                    answers(*dist, f) ==> beam_search(g, layer as nat, entry, ef as nat, f) == run(
                        g,
                        layer as nat,
                        beam_of(*visited, open@, best@),
                        ef as nat,
                        f,
                        (n - steps) as nat,
                    ).best,
                over ==> forall|f: spec_fn(u64) -> u32| #[trigger]
                    answers(*dist, f) ==> beam_search(g, layer as nat, entry, ef as nat, f)
                        == best@,
            decreases n - steps + (if over {
                    0int
                } else {
                    1int
                }),
        {
            let ghost b = beam_of(*visited, open@, best@);
            proof {
                lemma_few_ids(b.visited, n as nat);
            }
            over = self.advance(dist, visited, &mut open, &mut best, ef, layer);
            proof {
                if !over {
                    steps = steps + 1;
                }
            }
        }
        best
    }
}

/// The state that a search starts in.
proof fn lemma_start(
    visited: VisitedSet,
    open: Seq<Neighbor>,
    best: Seq<Neighbor>,
    x: Neighbor,
)
    requires
        forall|id: u64| #[trigger] visited.marked(id) <==> id == x.id,
        open.len() == 1,
        open[0] == x,
        best.len() == 1,
        best[0] == x,
    ensures
        beam_of(visited, open, best) == started(x.id, x.distance),
{
    assert(best =~= seq![x]);
    assert(open.to_set() =~= Set::empty().insert(x));
    assert(beam_of(visited, open, best) =~= started(x.id, x.distance));
}

/// In a list in reverse order the last one is the closest.
proof fn lemma_last_is_closest(open: Seq<Neighbor>)
    requires
        descending(open),
        open.len() > 0,
    ensures
        closest(open.to_set()) == open.last(),
        open.to_set().contains(open.last()),
        !(open.to_set() =~= Set::empty()),
{
    let x = open.last();
    assert(open.contains(open[open.len() - 1]));
    assert forall|y: Neighbor| #[trigger] open.to_set().contains(y) && y != x implies precedes(
        x,
        y,
    ) by {
        let i = open.index_of(y);
        assert(open.contains(y));
        assert(precedes(open[open.len() - 1], open[i]));
    }
    lemma_closest(open.to_set(), x);
}

/// Closing the last node of the list.
proof fn lemma_without_last(
    visited: VisitedSet,
    open: Seq<Neighbor>,
    rest: Seq<Neighbor>,
    best: Seq<Neighbor>,
    n: nat,
    ef: nat,
)
    requires
        descending(open),
        open.len() > 0,
        rest == open.subrange(0, open.len() - 1),
        beam_ok(beam_of(visited, open, best), n, ef),
    ensures
        descending(rest),
        beam_of(visited, rest, best) == (Beam {
            visited: beam_of(visited, open, best).visited,
            open: open.to_set().remove(open.last()),
            best,
        }),
        beam_ok(beam_of(visited, rest, best), n, ef),
{
    let x = open.last();
    assert forall|y: Neighbor| #[trigger] rest.contains(y) <==> open.contains(y) && y != x by {
        if rest.contains(y) {
            let i = rest.index_of(y);
            assert(open[i] == y);
            assert(precedes(open[open.len() - 1], open[i]));
        }
        if open.contains(y) && y != x {
            assert(rest[open.index_of(y)] == y);
        }
    }
    assert(rest.to_set() =~= open.to_set().remove(x));
    let (b, c) = (beam_of(visited, open, best), beam_of(visited, rest, best));
    assert forall|y: Neighbor| #[trigger] c.open.contains(y) implies c.visited.contains(y.id) by {
        assert(b.open.contains(y));
    }
}

/// One round of the greedy walk. Also says whether it got anywhere.
fn improve<D: Fn(u64) -> u32>(dist: &D, at: (u64, u32), list: &Vec<u64>, n: usize) -> (next: (
    (u64, u32),
    bool,
))
    requires
        at.0 < n,
        forall|i: int| 0 <= i < list@.len() ==> #[trigger] list@[i] < n,
        scores_ids(*dist, n as nat),
    ensures
        next.0.0 < n,
        next.1 == lt(next.0.1, at.1),
        !next.1 ==> next.0 == at,
        forall|f: spec_fn(u64) -> u32| #[trigger]
            answers(*dist, f) ==> next.0 == improved(f, at, list@),
{
    let mut now: (u64, u32) = at;
    let mut better: bool = false;
    let mut i: usize = 0;
    assert(list@.take(0) =~= Seq::empty());
    while i < list.len()
        invariant
            i <= list@.len(),
            now.0 < n,
            forall|j: int| 0 <= j < list@.len() ==> #[trigger] list@[j] < n,
            scores_ids(*dist, n as nat),
            better == lt(now.1, at.1),
            !better ==> now == at,
            forall|f: spec_fn(u64) -> u32| #[trigger]
                answers(*dist, f) ==> now == improved(f, at, list@.take(i as int)),
        decreases list@.len() - i,
    {
        let next: u64 = list[i];
        let d: u32 = dist(next);
        assert(list@.take(i + 1).drop_last() =~= list@.take(i as int));
        if less(d, now.1) {
            now = (next, d);
            better = true;
        }
        i = i + 1;
    }
    assert(list@.take(i as int) =~= list@);
    (now, better)
}

/// What every search for `k` neighbours returns, whatever the distances are.
pub open spec fn hits(list: Seq<Neighbor>, n: nat, k: nat) -> bool {
    &&& ascending(list)
    &&& ids_differ(list)
    &&& forall|x: Neighbor| #[trigger] list.contains(x) ==> x.id < n
    &&& list.len() <= k
}

impl Hnsw {
    /// The greedy walk on one layer.
    fn greedy_descend<D: Fn(u64) -> u32>(&self, dist: &D, at: (u64, u32), layer: usize) -> (end: (
        u64,
        u32,
    ))
        requires
            self.wf(),
            at.0 < self.graph().nodes.len(),
            scores_ids(*dist, self.graph().nodes.len()),
        ensures
            end.0 < self.graph().nodes.len(),
            forall|f: spec_fn(u64) -> u32| #[trigger]
                answers(*dist, f) ==> end == descended(self.graph(), layer as nat, f, at),
    {
        let n: usize = self.len();
        let ghost g = self.graph();
        let mut now: (u64, u32) = at;
        let mut better: bool = true;
        while better
            invariant
                self.wf(),
                g == self.graph(),
                n == g.nodes.len(),
                now.0 < n,
                scores_ids(*dist, n as nat),
                better ==> forall|f: spec_fn(u64) -> u32| #[trigger]
                    answers(*dist, f) ==> descended(g, layer as nat, f, at) == descended(
                        g,
                        layer as nat,
                        f,
                        now,
                    ),
                !better ==> forall|f: spec_fn(u64) -> u32| #[trigger]
                    answers(*dist, f) ==> descended(g, layer as nat, f, at) == now,
            decreases
                    signed(now.1) + 0x8000_0000,
                    if better {
                        1int
                    } else {
                        0int
                    },
        {
            proof {
                self.lemma_links_valid(now.0, layer as nat);
            }
            match self.links_of(now.0, layer) {
                Some(list) => {
                    let (next, got) = improve(dist, now, list, n);
                    now = next;
                    better = got;
                },
                None => {
                    better = false;
                },
            }
        }
        now
    }

    /// The greedy walk on every layer from `top` down to `bottom`.
    pub(crate) fn zoom<D: Fn(u64) -> u32>(&self, dist: &D, at: (u64, u32), top: usize, bottom: usize) -> (end:
        (u64, u32))
        requires
            self.wf(),
            bottom >= 1,
            at.0 < self.graph().nodes.len(),
            scores_ids(*dist, self.graph().nodes.len()),
        ensures
            end.0 < self.graph().nodes.len(),
            forall|f: spec_fn(u64) -> u32| #[trigger]
                answers(*dist, f) ==> end == zoomed(
                    self.graph(),
                    top as nat,
                    bottom as nat,
                    f,
                    at,
                ),
    {
        let ghost g = self.graph();
        let mut now: (u64, u32) = at;
        let mut layer: usize = top;
        while layer >= bottom
            invariant
                self.wf(),
                g == self.graph(),
                bottom >= 1,
                now.0 < g.nodes.len(),
                scores_ids(*dist, g.nodes.len()),
                forall|f: spec_fn(u64) -> u32| #[trigger]
                    answers(*dist, f) ==> zoomed(g, top as nat, bottom as nat, f, at) == zoomed(
                        g,
                        layer as nat,
                        bottom as nat,
                        f,
                        now,
                    ),
            decreases layer,
        {
            now = self.greedy_descend(dist, now, layer);
            layer = layer - 1;
        }
        now
    }

    /// The `k` nearest neighbours by an arbitrary oracle, in order.
    pub fn search_with_oracle<D: Fn(u64) -> u32>(
        &self,
        dist: &D,
        k: usize,
        ef: usize,
        visited: &mut VisitedSet,
    ) -> (list: Vec<Neighbor>)
        requires
            self.wf(),
            old(visited).wf(),
            scores_ids(*dist, self.graph().nodes.len()),
        ensures
            final(visited).wf(),
            hits(list@, self.graph().nodes.len(), k as nat),
            self.graph().entry is None ==> list@.len() == 0,
            self.graph().entry is Some && k > 0 ==> list@.len() > 0,
            forall|f: spec_fn(u64) -> u32| #[trigger]
                answers(*dist, f) ==> list@ == knn(self.graph(), f, k as nat, ef as nat),
    {
        match self.entry_point() {
            None => Vec::new(),
            Some((id, top)) => {
                let ef: usize = if ef < k {
                    k
                } else {
                    ef
                };
                let at: (u64, u32) = (id, dist(id));
                let (ep, _) = self.zoom(dist, at, top, 1);
                let mut list: Vec<Neighbor> = self.search_layer(dist, visited, ep, ef, 0);
                let ghost all = list@;
                list.truncate(k);
                proof {
                    assert(list@ =~= first(all, k as nat));
                    assert forall|x: Neighbor| #[trigger] list@.contains(x) implies all.contains(
                        x,
                    ) by {
                        assert(all[list@.index_of(x)] == x);
                    }
                }
                list
            },
        }
    }

    /// The `k` nearest neighbours of `query`, in order.
    pub fn search<K: Fn(&[u32], &[u32]) -> u32>(
        &self,
        store: &VectorStore,
        query: &[u32],
        k: usize,
        ef: usize,
        kernel: &K,
        visited: &mut VisitedSet,
    ) -> (list: Vec<Neighbor>)
        requires
            self.wf(),
            store.wf(),
            old(visited).wf(),
            query@.len() == store.spec_dim(),
            self.graph().nodes.len() <= store.rows().len(),
            scores_dim(*kernel, store.spec_dim()),
        ensures
            final(visited).wf(),
            hits(list@, self.graph().nodes.len(), k as nat),
            self.graph().entry is None ==> list@.len() == 0,
            self.graph().entry is Some && k > 0 ==> list@.len() > 0,
            forall|f: spec_fn(Seq<u32>, Seq<u32>) -> u32| #[trigger]
                computes(*kernel, f) ==> list@ == knn(
                    self.graph(),
                    from_query(f, query@, store.rows()),
                    k as nat,
                    ef as nat,
                ),
    {
        let dist = |id: u64| -> (d: u32)
            requires
                id < store.rows().len(),
            ensures
                forall|f: spec_fn(Seq<u32>, Seq<u32>) -> u32| #[trigger]
                    computes(*kernel, f) ==> d == f(query@, store.rows()[id as int]),
            { kernel(query, store.get_unchecked(id)) };
        proof {
            assert forall|f: spec_fn(Seq<u32>, Seq<u32>) -> u32| #[trigger]
                computes(*kernel, f) implies answers(
                dist,
                from_query(f, query@, store.rows()),
            ) by {}
        }
        self.search_with_oracle(&dist, k, ef, visited)
    }

    /// The entry point and its level.
    pub(crate) fn entry_point(&self) -> (entry: Option<(u64, usize)>)
        requires
            self.wf(),
        ensures
            match entry {
                None => self.graph().entry is None,
                Some((id, level)) => self.graph().entry == Some((id, level as nat)) && id
                    < self.graph().nodes.len() && level <= MAX_LEVEL,
            },
    {
        proof {
            reveal(Hnsw::wf);
            reveal(Hnsw::graph);
        }
        if self.entry == ENTRY_NONE {
            None
        } else {
            Some(unpack_entry(self.entry))
        }
    }
}

impl Node {
    /// A node without links.
    fn new(level: usize) -> (node: Node)
        requires
            level < usize::MAX,
        ensures
            node@ == bare_node(level as nat),
    {
        let mut links: Vec<Vec<u64>> = Vec::new();
        while links.len() <= level
            invariant
                links@.len() <= level + 1,
                level < usize::MAX,
                forall|i: int| 0 <= i < links@.len() ==> (#[trigger] links@[i])@.len() == 0,
            decreases level + 1 - links@.len(),
        {
            links.push(Vec::new());
        }
        let node = Node { links };
        proof {
            assert forall|i: int| 0 <= i < node@.len() implies node@[i] == bare_node(
                level as nat,
            )[i] by {
                assert(links@[i]@ =~= Seq::<u64>::empty());
            }
            assert(node@ =~= bare_node(level as nat));
        }
        node
    }

    /// A node with these links.
    pub(crate) fn with_links(links: Vec<Vec<u64>>) -> (node: Node)
        ensures
            node@ == links@.map_values(|list: Vec<u64>| list@),
    {
        Node { links }
    }

    /// The links on a layer.
    pub(crate) fn layer(&self, layer: usize) -> (list: &Vec<u64>)
        requires
            layer < self@.len(),
        ensures
            list@ == self@[layer as int],
    {
        &self.links[layer]
    }

    /// The highest layer that the node is on.
    pub(crate) fn level(&self) -> (level: usize)
        requires
            self@.len() >= 1,
        ensures
            level == self@.len() - 1,
    {
        self.links.len() - 1
    }
}

impl Hnsw {
    /// The index is not too large for its graph.
    pub proof fn lemma_sizes(&self)
        requires
            self.wf(),
        ensures
            valid(self.graph()),
            self.graph().nodes.len() <= MAX_ID,
            2 <= self.spec_config().m <= usize::MAX / 2,
            forall|i: int|
                0 <= i < self.graph().nodes.len() ==> (#[trigger] self.graph().nodes[i]).len()
                    <= MAX_LEVEL + 1,
    {
        reveal(Hnsw::wf);
        reveal(Hnsw::graph);
        assert forall|i: int| 0 <= i < self.graph().nodes.len() implies (
        #[trigger] self.graph().nodes[i]).len() <= MAX_LEVEL + 1 by {
            assert(self.nodes@[i]->0@.len() <= MAX_LEVEL + 1);
        }
    }

    /// Adds a node. Ids that were skipped get a node each.
    pub(crate) fn add_node(&mut self, id: u64, level: usize)
        requires
            old(self).wf(),
            old(self).graph().nodes.len() <= id < MAX_ID,
            segment_of(id as nat) < MAX_SEGMENTS,
            id < usize::MAX - 1024,
            level <= MAX_LEVEL,
        ensures
            final(self).wf(),
            final(self).spec_config() == old(self).spec_config(),
            final(self).graph() == with_node(old(self).graph(), id, level as nat),
    {
        let ghost g = self.graph();
        let at: usize = id as usize;
        while self.len() < at
            invariant
                self.wf(),
                self.spec_config() == old(self).spec_config(),
                at == id,
                id < MAX_ID,
                segment_of(id as nat) < MAX_SEGMENTS,
                id < usize::MAX - 1024,
                g.nodes.len() <= self.graph().nodes.len() <= id,
                self.graph() == padded(g, self.graph().nodes.len()),
            decreases id - self.graph().nodes.len(),
        {
            let n: usize = self.len();
            proof {
                lemma_segment_of_grows(n as nat, id as nat);
            }
            self.push_node(0);
            assert(self.graph() =~= padded(g, (n + 1) as nat));
        }
        self.push_node(level);
        proof {
            assert(self.graph() =~= with_node(g, id, level as nat));
        }
    }

    fn push_node(&mut self, level: usize)
        requires
            old(self).wf(),
            old(self).graph().nodes.len() < MAX_ID,
            segment_of(old(self).graph().nodes.len()) < MAX_SEGMENTS,
            old(self).graph().nodes.len() < usize::MAX - 1024,
            level <= MAX_LEVEL,
        ensures
            final(self).wf(),
            final(self).spec_config() == old(self).spec_config(),
            final(self).graph() == (Graph {
                nodes: old(self).graph().nodes.push(bare_node(level as nat)),
                entry: old(self).graph().entry,
            }),
    {
        proof {
            reveal(Hnsw::wf);
            reveal(Hnsw::graph);
        }
        let ghost g = self.graph();
        let n: usize = self.nodes.len();
        let ghost slots = self.nodes@;
        let node: Node = Node::new(level);
        self.nodes.set(n, node);
        proof {
            let after = self.graph();
            assert(self.nodes@ == slot_set(slots, n as int, node));
            assert(after.nodes =~= g.nodes.push(bare_node(level as nat)));
            assert forall|i: int| 0 <= i < self.nodes@.len() implies (
            #[trigger] self.nodes@[i]) is Some && self.nodes@[i]->0@.len() <= MAX_LEVEL + 1 by {
                if i < n {
                    assert(self.nodes@[i] == slots[i]);
                }
            }
            assert(valid(after)) by {
                assert forall|i: int, l: int, j: int|
                    0 <= i < after.nodes.len() && 0 <= l < after.nodes[i].len() && 0 <= j
                        < after.nodes[i][l].len() implies #[trigger] after.nodes[i][l][j]
                    < after.nodes.len() by {
                    if i < g.nodes.len() {
                        assert(g.nodes[i][l][j] < g.nodes.len());
                    }
                }
            }
        }
    }

    /// Replaces the links of a node on a layer. Nothing happens on a layer
    /// that the node is not on.
    pub(crate) fn set_links(&mut self, id: u64, layer: usize, list: Vec<u64>)
        requires
            old(self).wf(),
            id < old(self).graph().nodes.len(),
            forall|j: int|
                0 <= j < list@.len() ==> #[trigger] list@[j] < old(self).graph().nodes.len(),
        ensures
            final(self).wf(),
            final(self).spec_config() == old(self).spec_config(),
            final(self).graph() == relinked(old(self).graph(), id, layer as nat, list@),
    {
        proof {
            reveal(Hnsw::wf);
            reveal(Hnsw::graph);
            lemma_relinked_valid(self.graph(), id, layer as nat, list@);
        }
        let ghost g = self.graph();
        let ghost slots = self.nodes@;
        let n: usize = self.nodes.len();
        assert(id < n);
        let ghost was = self.nodes@[id as int]->0;
        let node: &mut Node = self.nodes.get_mut(id as usize);
        if layer < node.links.len() {
            node.links[layer] = list;
        }
        proof {
            let now = self.nodes@[id as int]->0;
            if layer < was@.len() {
                assert(now@ =~= was@.update(layer as int, list@));
            }
            assert forall|i: int| 0 <= i < n implies (#[trigger] self.nodes@[i]) is Some
                && self.nodes@[i]->0@.len() <= MAX_LEVEL + 1 by {
                if i != id {
                    assert(self.nodes@[i] == slots[i]);
                }
            }
            assert(self.graph().nodes =~= relinked(g, id, layer as nat, list@).nodes);
        }
    }

    /// Moves the entry point.
    pub(crate) fn set_entry(&mut self, id: u64, level: usize)
        requires
            old(self).wf(),
            id < old(self).graph().nodes.len(),
            id < MAX_ID,
            level == old(self).graph().nodes[id as int].len() - 1,
        ensures
            final(self).wf(),
            final(self).spec_config() == old(self).spec_config(),
            final(self).graph() == (Graph {
                nodes: old(self).graph().nodes,
                entry: Some((id, level as nat)),
            }),
    {
        proof {
            reveal(Hnsw::wf);
            reveal(Hnsw::graph);
            assert(self.nodes@[id as int]->0@.len() <= MAX_LEVEL + 1);
        }
        self.entry = pack_entry(id, level);
        assert(self.graph().nodes =~= old(self).graph().nodes);
    }
}

impl Hnsw {
    /// An index made of its parts.
    pub(crate) fn assemble(config: HnswConfig, nodes: SegVec<Node>, entry: u64) -> (index: Hnsw)
        requires
            2 <= config.m <= usize::MAX / 2,
            nodes.wf(),
            nodes@.len() <= MAX_ID,
            forall|i: int|
                0 <= i < nodes@.len() ==> (#[trigger] nodes@[i]) is Some && nodes@[i]->0@.len()
                    <= MAX_LEVEL + 1,
            valid(
                (Graph {
                    nodes: Seq::new(nodes@.len(), |i: int| nodes@[i]->0@),
                    entry: unpacked(entry),
                }),
            ),
        ensures
            index.wf(),
            index.spec_config() == config,
            index.graph() == (Graph {
                nodes: Seq::new(nodes@.len(), |i: int| nodes@[i]->0@),
                entry: unpacked(entry),
            }),
    {
        proof {
            reveal(Hnsw::wf);
            reveal(Hnsw::graph);
        }
        Hnsw { config, nodes, entry }
    }

    /// The entry point in one word.
    pub(crate) fn entry_in_a_word(&self) -> (word: u64)
        requires
            self.wf(),
        ensures
            unpacked(word) == self.graph().entry,
    {
        proof {
            reveal(Hnsw::graph);
        }
        self.entry
    }
}

} // verus!
