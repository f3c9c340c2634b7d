//! When a search misses nothing.

use crate::float32::{lt, signed};
use crate::hnsw::beam::scored_node;
use crate::hnsw::graph::{links, valid, Graph};
use crate::hnsw::laws::lemma_closest_exists;
use crate::hnsw::traverse::{
    beam_ok, beam_search, closest, descended, expanded, finished, improved, knn, landing,
    lemma_few_ids, lemma_improved, lemma_offered, lemma_started, offered, run, started, stepped,
    visited_by, zoomed, Beam,
};
use crate::oracle::from_query;
use crate::storage::exact::{law_least_is_unique, least, scored};
use crate::storage::neighbor::{ascending, first, lemma_inserted_members, precedes, Neighbor};
use vstd::prelude::*;

verus! {

/// A walk over links of the lowest layer.
pub open spec fn walk(g: Graph, path: Seq<u64>) -> bool {
    &&& path.len() >= 1
    &&& forall|i: int|
        0 <= i < path.len() - 1 ==> links(g, #[trigger] path[i], 0).contains(path[i + 1])
}

/// Some walk leads from one node to another.
pub open spec fn reaches(g: Graph, from: u64, to: u64) -> bool {
    exists|path: Seq<u64>| #[trigger] walk(g, path) && path[0] == from && path.last() == to
}

/// On the lowest layer every node can be reached from every other.
pub open spec fn connected_graph(g: Graph) -> bool {
    forall|from: u64, to: u64|
        from < g.nodes.len() && to < g.nodes.len() ==> #[trigger] reaches(g, from, to)
}

/// The state of a search whose beam is wide enough for all nodes: all nodes
/// that were seen are in the beam.
spec fn wide(b: Beam, n: nat, ef: nat, f: spec_fn(u64) -> u32) -> bool {
    &&& beam_ok(b, n, ef)
    &&& b.best.len() == b.visited.len()
    &&& forall|id: u64| #[trigger]
        b.visited.contains(id) ==> b.best.contains(scored_node(f, id))
    &&& forall|x: Neighbor| #[trigger] b.best.contains(x) ==> x == scored_node(f, x.id)
    &&& forall|x: Neighbor| #[trigger] b.open.contains(x) ==> x == scored_node(f, x.id)
}

/// The links of all nodes that were seen were followed, or are still to be.
spec fn followed(g: Graph, b: Beam, f: spec_fn(u64) -> u32) -> bool {
    forall|id: u64, to: u64|
        b.visited.contains(id) && #[trigger] links(g, id, 0).contains(to) ==> b.open.contains(
            scored_node(f, id),
        ) || b.visited.contains(to)
}

proof fn lemma_wide_offered(b: Beam, n: nat, ef: nat, f: spec_fn(u64) -> u32, id: u64)
    requires
        wide(b, n, ef, f),
        n <= ef,
        id < n,
        !b.visited.contains(id),
    ensures
        wide(offered(b, ef, scored_node(f, id)), n, ef, f),
        offered(b, ef, scored_node(f, id)).visited == b.visited.insert(id),
        offered(b, ef, scored_node(f, id)).open == b.open.insert(scored_node(f, id)),
        offered(b, ef, scored_node(f, id)).open.len() <= b.open.len() + 1,
{
    let x = scored_node(f, id);
    let r = offered(b, ef, x);
    let more = b.visited.insert(id);
    lemma_few_ids(more, n);
    lemma_offered(b, n, ef, x);
    lemma_inserted_members(b.best, x);
}

/// Following links in a wide beam.
proof fn lemma_wide_expanded(
    b: Beam,
    n: nat,
    ef: nat,
    f: spec_fn(u64) -> u32,
    list: Seq<u64>,
)
    requires
        wide(b, n, ef, f),
        n <= ef,
        forall|i: int| 0 <= i < list.len() ==> #[trigger] list[i] < n,
    ensures
        ({
            let r = expanded(b, ef, f, list);
            &&& wide(r, n, ef, f)
            &&& forall|id: u64| #[trigger] b.visited.contains(id) ==> r.visited.contains(id)
            &&& forall|x: Neighbor| #[trigger] b.open.contains(x) ==> r.open.contains(x)
            &&& forall|id: u64| #[trigger]
                r.visited.contains(id) ==> b.visited.contains(id) || r.open.contains(
                    scored_node(f, id),
                )
            &&& forall|i: int| 0 <= i < list.len() ==> r.visited.contains(#[trigger] list[i])
            &&& r.open.len() + b.visited.len() <= b.open.len() + r.visited.len()
        }),
    decreases list.len(),
{
    if list.len() > 0 {
        let front = list.drop_last();
        assert forall|i: int| 0 <= i < front.len() implies #[trigger] front[i] < n by {
            assert(front[i] == list[i]);
        }
        lemma_wide_expanded(b, n, ef, f, front);
        let m = expanded(b, ef, f, front);
        let next = list.last();
        assert(list[list.len() - 1] < n);
        let r = expanded(b, ef, f, list);
        assert(r == visited_by(m, ef, f, next));
        if !m.visited.contains(next) {
            lemma_wide_offered(m, n, ef, f, next);
            assert(r == offered(m, ef, scored_node(f, next)));
        }
        assert forall|i: int| 0 <= i < list.len() implies r.visited.contains(
            #[trigger] list[i],
        ) by {
            if i < front.len() {
                assert(front[i] == list[i]);
                assert(m.visited.contains(front[i]));
            }
        }
    }
}

/// One step of a search with a wide beam.
proof fn lemma_wide_step(g: Graph, b: Beam, ef: nat, f: spec_fn(u64) -> u32)
    requires
        valid(g),
        wide(b, g.nodes.len(), ef, f),
        followed(g, b, f),
        g.nodes.len() <= ef,
        !finished(b, ef),
    ensures
        ({
            let r = stepped(g, 0, b, ef, f);
            &&& wide(r, g.nodes.len(), ef, f)
            &&& followed(g, r, f)
            &&& r.open.len() + 1 + b.visited.len() <= b.open.len() + r.visited.len()
            &&& forall|id: u64| #[trigger] b.visited.contains(id) ==> r.visited.contains(id)
        }),
{
    let n = g.nodes.len();
    lemma_closest_exists(b.open);
    let x = closest(b.open);
    let rest = Beam { visited: b.visited, open: b.open.remove(x), best: b.best };
    let list = links(g, x.id, 0);
    assert forall|y: Neighbor| #[trigger] rest.open.contains(y) implies b.visited.contains(
        y.id,
    ) by {
        assert(b.open.contains(y));
    }
    assert(beam_ok(rest, n, ef));
    assert forall|y: Neighbor| #[trigger] rest.open.contains(y) implies y == scored_node(
        f,
        y.id,
    ) by {
        assert(b.open.contains(y));
    }
    assert(wide(rest, n, ef, f));
    assert forall|i: int| 0 <= i < list.len() implies #[trigger] list[i] < n by {
        assert(g.nodes[x.id as int][0][i] < n);
    }
    lemma_wide_expanded(rest, n, ef, f, list);
    let r = stepped(g, 0, b, ef, f);
    assert(r == expanded(rest, ef, f, list));
    assert(x == scored_node(f, x.id));
    assert forall|id: u64, to: u64|
        r.visited.contains(id) && #[trigger] links(g, id, 0).contains(to) implies r.open.contains(
        scored_node(f, id),
    ) || r.visited.contains(to) by {
        if rest.visited.contains(id) {
            if id == x.id {
                let i = list.index_of(to);
                assert(r.visited.contains(list[i]));
            } else if b.open.contains(scored_node(f, id)) {
                assert(rest.open.contains(scored_node(f, id)));
            } else {
                assert(b.visited.contains(to));
            }
        }
    }
}

/// A search with a wide beam goes on until everything was followed or seen.
proof fn lemma_wide_run(g: Graph, b: Beam, ef: nat, f: spec_fn(u64) -> u32, steps: nat)
    requires
        valid(g),
        wide(b, g.nodes.len(), ef, f),
        followed(g, b, f),
        g.nodes.len() <= ef,
        b.open.len() + g.nodes.len() <= b.visited.len() + steps,
    ensures
        ({
            let r = run(g, 0, b, ef, f, steps);
            &&& wide(r, g.nodes.len(), ef, f)
            &&& followed(g, r, f)
            &&& r.open =~= Set::empty() || r.visited.len() >= g.nodes.len()
            &&& forall|id: u64| #[trigger] b.visited.contains(id) ==> r.visited.contains(id)
        }),
    decreases steps,
{
    lemma_few_ids(b.visited, g.nodes.len());
    if steps == 0 {
        assert(b.open.len() == 0);
        assert(b.open =~= Set::empty());
    } else if !finished(b, ef) {
        lemma_wide_step(g, b, ef, f);
        lemma_wide_run(g, stepped(g, 0, b, ef, f), ef, f, (steps - 1) as nat);
    }
}

/// Everything that a walk from a node that was seen leads to was seen.
proof fn lemma_walk_is_seen(g: Graph, b: Beam, f: spec_fn(u64) -> u32, path: Seq<u64>, i: int)
    requires
        followed(g, b, f),
        b.open =~= Set::empty(),
        walk(g, path),
        b.visited.contains(path[0]),
        0 <= i < path.len(),
    ensures
        b.visited.contains(path[i]),
    decreases i,
{
    if i > 0 {
        lemma_walk_is_seen(g, b, f, path, i - 1);
        assert(links(g, path[i - 1], 0).contains(path[i - 1 + 1]));
    }
}

/// The walk down leads to a node.
pub proof fn lemma_zoomed_is_a_node(
    g: Graph,
    top: nat,
    bottom: nat,
    f: spec_fn(u64) -> u32,
    at: (u64, u32),
)
    requires
        valid(g),
        at.0 < g.nodes.len(),
    ensures
        zoomed(g, top, bottom, f, at).0 < g.nodes.len(),
    decreases top,
{
    if top >= bottom {
        lemma_descended_is_a_node(g, top, f, at);
        if top > 0 {
            lemma_zoomed_is_a_node(g, (top - 1) as nat, bottom, f, descended(g, top, f, at));
        }
    }
}

proof fn lemma_descended_is_a_node(
    g: Graph,
    layer: nat,
    f: spec_fn(u64) -> u32,
    at: (u64, u32),
)
    requires
        valid(g),
        at.0 < g.nodes.len(),
    ensures
        descended(g, layer, f, at).0 < g.nodes.len(),
    decreases signed(at.1) + 0x8000_0000,
{
    let list = links(g, at.0, layer);
    lemma_improved(f, at, list);
    let next = improved(f, at, list);
    if lt(next.1, at.1) {
        let i = list.index_of(next.0);
        assert(g.nodes[at.0 as int][layer as int][i] < g.nodes.len());
        lemma_descended_is_a_node(g, layer, f, next);
    }
}

/// All nodes are in the beam when a search with a wide beam ends.
proof fn lemma_all_found(g: Graph, entry: u64, ef: nat, f: spec_fn(u64) -> u32)
    requires
        valid(g),
        entry < g.nodes.len() <= ef,
        connected_graph(g),
    ensures
        ascending(beam_search(g, 0, entry, ef, f)),
        forall|id: u64|
            id < g.nodes.len() ==> beam_search(g, 0, entry, ef, f).contains(
                #[trigger] scored_node(f, id),
            ),
        forall|x: Neighbor| #[trigger]
            beam_search(g, 0, entry, ef, f).contains(x) ==> x.id < g.nodes.len() && x
                == scored_node(f, x.id),
{
    let n = g.nodes.len();
    let b = started(entry, f(entry));
    lemma_started(entry, f(entry), n, ef);
    assert(b.best[0] == scored_node(f, entry));
    assert(b.best.contains(b.best[0]));
    assert forall|x: Neighbor| #[trigger] b.best.contains(x) implies x == scored_node(f, x.id) by {
        assert(b.best[0] == x);
    }
    lemma_wide_run(g, b, ef, f, n);
    let r = run(g, 0, b, ef, f, n);
    assert(b.visited.contains(entry));
    assert forall|id: u64| id < n implies r.best.contains(#[trigger] scored_node(f, id)) by {
        if !r.visited.contains(id) {
            if r.open =~= Set::empty() {
                assert(reaches(g, entry, id));
                let path = choose|path: Seq<u64>| #[trigger]
                    walk(g, path) && path[0] == entry && path.last() == id;
                lemma_walk_is_seen(g, r, f, path, path.len() - 1);
            } else {
                lemma_few_ids(r.visited.insert(id), n);
            }
        }
        assert(r.visited.contains(id));
    }
}

/// A search misses nothing if its beam is as wide as the graph, and the graph is
/// such that on the lowest layer every node can be reached from every other:
/// it gives the exact answer.
pub proof fn law_a_wide_beam_is_exact(
    g: Graph,
    f: spec_fn(Seq<u32>, Seq<u32>) -> u32,
    query: Seq<u32>,
    rows: Seq<Seq<u32>>,
    k: nat,
    ef: nat,
)
    requires
        valid(g),
        g.nodes.len() == rows.len(),
        g.entry is Some || rows.len() == 0,
        connected_graph(g),
        ef >= rows.len() || k >= rows.len(),
    ensures
        least(
            knn(g, from_query(f, query, rows), k, ef),
            scored(f, query, rows, 0, rows.len() as int),
            k,
        ),
        forall|exact: Seq<Neighbor>| #[trigger]
            least(exact, scored(f, query, rows, 0, rows.len() as int), k) ==> knn(
                g,
                from_query(f, query, rows),
                k,
                ef,
            ) == exact,
{
    let d = from_query(f, query, rows);
    let pool = scored(f, query, rows, 0, rows.len() as int);
    let list = knn(g, d, k, ef);
    if let Some((entry, top)) = g.entry {
        let width = if ef < k {
            k
        } else {
            ef
        };
        let at = landing(g, d);
        lemma_zoomed_is_a_node(g, top, 1, d, (entry, d(entry)));
        lemma_all_found(g, at, width, d);
        let all = beam_search(g, 0, at, width, d);
        assert(list == first(all, k));
        assert forall|x: Neighbor| #[trigger] list.contains(x) implies all.contains(x) by {
            assert(all[list.index_of(x)] == x);
        }
        assert forall|x: Neighbor| #[trigger] pool.contains(x) implies all.contains(x) by {
            assert(x == scored_node(d, x.id));
        }
        assert forall|x: Neighbor| #[trigger] list.contains(x) implies pool.contains(x) by {
            assert(all.contains(x));
            assert(x == scored_node(d, x.id));
        }
        assert forall|x: Neighbor, y: Neighbor| #[trigger]
            pool.contains(x) && !list.contains(x) && #[trigger] list.contains(y) implies precedes(
            y,
            x,
        ) by {
            let i = list.index_of(y);
            let j = all.index_of(x);
            if j < list.len() {
                assert(list[j] == x);
            }
            assert(precedes(all[i], all[j]));
        }
        assert(ascending(list));
    }
    assert forall|exact: Seq<Neighbor>| #[trigger] least(exact, pool, k) implies list == exact by {
        law_least_is_unique(list, exact, pool, k);
    }
}

} // verus!
