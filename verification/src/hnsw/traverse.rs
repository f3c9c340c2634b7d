//! Walking the graph: the beam search on one layer, and the greedy walk that
//! leads down to it.

use crate::float32::{lt, signed, INFINITY};
use crate::hnsw::graph::{links, Graph};
use crate::storage::neighbor::{
    ascending, bounded, first, lemma_ascending_in_order, lemma_inserted_in_order,
    lemma_inserted_members, precedes, Neighbor,
};
use vstd::prelude::*;

verus! {

/// The state of a beam search: the nodes seen so far, those of them whose
/// links are still to be followed, and the best so far, in order.
#[verifier::ext_equal]
pub ghost struct Beam {
    pub visited: Set<u64>,
    pub open: Set<Neighbor>,
    pub best: Seq<Neighbor>,
}

/// The distance that a candidate has to beat once the beam is full.
pub open spec fn worst(best: Seq<Neighbor>) -> u32 {
    if best.len() == 0 {
        INFINITY
    } else {
        best.last().distance
    }
}

/// The member that comes before all others.
pub open spec fn closest(open: Set<Neighbor>) -> Neighbor {
    choose|x: Neighbor|
        open.contains(x) && forall|y: Neighbor| #[trigger]
            open.contains(y) && y != x ==> precedes(x, y)
}

/// A node that is seen for the first time: it stays if the beam is not full
/// or it beats the worst.
pub open spec fn offered(b: Beam, ef: nat, x: Neighbor) -> Beam {
    if b.best.len() < ef || lt(x.distance, worst(b.best)) {
        Beam {
            visited: b.visited.insert(x.id),
            open: b.open.insert(x),
            best: bounded(b.best, x, ef),
        }
    } else {
        Beam { visited: b.visited.insert(x.id), open: b.open, best: b.best }
    }
}

/// A link is followed: nodes that were seen before are passed over.
pub open spec fn visited_by(b: Beam, ef: nat, f: spec_fn(u64) -> u32, next: u64) -> Beam {
    if b.visited.contains(next) {
        b
    } else {
        offered(b, ef, Neighbor { id: next, distance: f(next) })
    }
}

/// The links are followed one after the other.
pub open spec fn expanded(b: Beam, ef: nat, f: spec_fn(u64) -> u32, list: Seq<u64>) -> Beam
    decreases list.len(),
{
    if list.len() == 0 {
        b
    } else {
        visited_by(expanded(b, ef, f, list.drop_last()), ef, f, list.last())
    }
}

/// The search is over: nothing is open, or the closest open node is farther
/// away than the worst of a full beam.
pub open spec fn finished(b: Beam, ef: nat) -> bool {
    ||| b.open =~= Set::empty()
    ||| b.best.len() >= ef && lt(worst(b.best), closest(b.open).distance)
}

/// The closest open node is closed and its links are followed.
pub open spec fn stepped(g: Graph, layer: nat, b: Beam, ef: nat, f: spec_fn(u64) -> u32) -> Beam {
    let x = closest(b.open);
    expanded(
        Beam { visited: b.visited, open: b.open.remove(x), best: b.best },
        ef,
        f,
        links(g, x.id, layer),
    )
}

/// At most this many steps.
pub open spec fn run(
    g: Graph,
    layer: nat,
    b: Beam,
    ef: nat,
    f: spec_fn(u64) -> u32,
    steps: nat,
) -> Beam
    decreases steps,
{
    if steps == 0 || finished(b, ef) {
        b
    } else {
        run(g, layer, stepped(g, layer, b, ef, f), ef, f, (steps - 1) as nat)
    }
}

/// Where a search starts.
pub open spec fn started(entry: u64, distance: u32) -> Beam {
    let x = Neighbor { id: entry, distance };
    Beam { visited: Set::empty().insert(entry), open: Set::empty().insert(x), best: seq![x] }
}

/// The `ef` closest nodes that a beam search finds on a layer, in order. Every
/// node is closed at most once, so there are no more steps than nodes.
pub open spec fn beam_search(
    g: Graph,
    layer: nat,
    entry: u64,
    ef: nat,
    f: spec_fn(u64) -> u32,
) -> Seq<Neighbor> {
    run(g, layer, started(entry, f(entry)), ef, f, g.nodes.len()).best
}

/// One round of the greedy walk: the links are tried one after the other, and
/// each one that is closer than the best so far is taken.
pub open spec fn improved(f: spec_fn(u64) -> u32, at: (u64, u32), list: Seq<u64>) -> (u64, u32)
    decreases list.len(),
{
    if list.len() == 0 {
        at
    } else {
        let so_far = improved(f, at, list.drop_last());
        let next = list.last();
        if lt(f(next), so_far.1) {
            (next, f(next))
        } else {
            so_far
        }
    }
}

/// A round of the greedy walk never makes things worse.
pub proof fn lemma_improved(f: spec_fn(u64) -> u32, at: (u64, u32), list: Seq<u64>)
    ensures
        improved(f, at, list) == at || (lt(improved(f, at, list).1, at.1) && list.contains(
            improved(f, at, list).0,
        ) && improved(f, at, list).1 == f(improved(f, at, list).0)),
    decreases list.len(),
{
    if list.len() > 0 {
        let front = list.drop_last();
        lemma_improved(f, at, front);
        let so_far = improved(f, at, front);
        assert(list.contains(list[list.len() - 1]));
        if so_far != at {
            let i = front.index_of(so_far.0);
            assert(front.contains(so_far.0));
            assert(list[i] == so_far.0);
        }
    }
}

/// The greedy walk on one layer, to a node that none of its links improves
/// on.
pub open spec fn descended(g: Graph, layer: nat, f: spec_fn(u64) -> u32, at: (u64, u32)) -> (
    u64,
    u32,
)
    decreases signed(at.1) + 0x8000_0000,
    via descended_decreases
{
    let next = improved(f, at, links(g, at.0, layer));
    if lt(next.1, at.1) {
        descended(g, layer, f, next)
    } else {
        at
    }
}

#[via_fn]
proof fn descended_decreases(g: Graph, layer: nat, f: spec_fn(u64) -> u32, at: (u64, u32)) {
}

/// The greedy walk on every layer from `top` down to `bottom`.
pub open spec fn zoomed(
    g: Graph,
    top: nat,
    bottom: nat,
    f: spec_fn(u64) -> u32,
    at: (u64, u32),
) -> (u64, u32)
    decreases top,
{
    if top < bottom || bottom == 0 {
        at
    } else {
        zoomed(g, (top - 1) as nat, bottom, f, descended(g, top, f, at))
    }
}

/// The node that the beam search on the lowest layer starts from.
pub open spec fn landing(g: Graph, f: spec_fn(u64) -> u32) -> u64 {
    let (id, level) = g.entry->0;
    zoomed(g, level, 1, f, (id, f(id))).0
}

/// What a search for the `k` nearest neighbours returns.
pub open spec fn knn(g: Graph, f: spec_fn(u64) -> u32, k: nat, ef: nat) -> Seq<Neighbor> {
    if g.entry is None {
        Seq::empty()
    } else {
        first(
            beam_search(
                g,
                0,
                landing(g, f),
                if ef < k {
                    k
                } else {
                    ef
                },
                f,
            ),
            k,
        )
    }
}

/// No two members have the same id.
pub open spec fn ids_differ(list: Seq<Neighbor>) -> bool {
    forall|x: Neighbor, y: Neighbor| #[trigger]
        list.contains(x) && #[trigger] list.contains(y) && x.id == y.id ==> x == y
}

/// What holds of the state of every beam search in a graph of `n` nodes,
/// whatever the distances are.
pub open spec fn beam_ok(b: Beam, n: nat, ef: nat) -> bool {
    &&& b.visited.finite()
    &&& b.open.finite()
    &&& forall|id: u64| #[trigger] b.visited.contains(id) ==> id < n
    &&& forall|x: Neighbor| #[trigger] b.open.contains(x) ==> b.visited.contains(x.id)
    &&& forall|x: Neighbor| #[trigger] b.best.contains(x) ==> b.visited.contains(x.id)
    &&& ascending(b.best)
    &&& ids_differ(b.best)
    &&& 1 <= b.best.len()
    &&& b.best.len() <= ef || b.best.len() == 1
}

/// A search starts in order.
pub proof fn lemma_started(entry: u64, distance: u32, n: nat, ef: nat)
    requires
        entry < n,
    ensures
        beam_ok(started(entry, distance), n, ef),
        started(entry, distance).visited.len() == 1,
{
    let b = started(entry, distance);
    assert forall|x: Neighbor| #[trigger] b.best.contains(x) implies b.visited.contains(x.id) by {
        assert(b.best[0] == x);
    }
    assert(b.best.contains(b.best[0]));
}

/// Offering a node keeps the state in order.
pub proof fn lemma_offered(b: Beam, n: nat, ef: nat, x: Neighbor)
    requires
        beam_ok(b, n, ef),
        x.id < n,
        !b.visited.contains(x.id),
    ensures
        beam_ok(offered(b, ef, x), n, ef),
        offered(b, ef, x).visited.len() == b.visited.len() + 1,
        offered(b, ef, x).open.len() <= b.open.len() + 1,
        forall|y: Neighbor| #[trigger]
            offered(b, ef, x).best.contains(y) ==> b.best.contains(y) || y == x,
{
    let r = offered(b, ef, x);
    assert(!b.best.contains(x));
    lemma_ascending_in_order(b.best);
    if b.best.len() < ef {
        lemma_inserted_members(b.best, x);
        lemma_inserted_in_order(b.best, x);
    } else if precedes(x, b.best.last()) {
        let front = b.best.drop_last();
        assert(ascending(front));
        lemma_ascending_in_order(front);
        assert forall|y: Neighbor| #[trigger] front.contains(y) implies b.best.contains(y) by {
            assert(b.best[front.index_of(y)] == y);
        }
        lemma_inserted_members(front, x);
        lemma_inserted_in_order(front, x);
    }
}

/// A member that comes before all others is the closest.
pub proof fn lemma_closest(open: Set<Neighbor>, x: Neighbor)
    requires
        open.contains(x),
        forall|y: Neighbor| #[trigger] open.contains(y) && y != x ==> precedes(x, y),
    ensures
        closest(open) == x,
{
    let c = closest(open);
    assert(open.contains(c) && forall|y: Neighbor| #[trigger]
        open.contains(y) && y != c ==> precedes(c, y));
}

/// There are no more ids below `n` than `n`.
pub proof fn lemma_few_ids(s: Set<u64>, n: nat)
    requires
        s.finite(),
        forall|id: u64| #[trigger] s.contains(id) ==> id < n,
    ensures
        s.len() <= n,
    decreases n,
{
    if n == 0 {
        assert(s =~= Set::empty());
    } else if n > u64::MAX + 1 {
        lemma_few_ids(s, (n - 1) as nat);
    } else {
        let last = (n - 1) as u64;
        let rest = s.remove(last);
        assert forall|id: u64| #[trigger] rest.contains(id) implies id < n - 1 by {
            assert(s.contains(id));
        }
        lemma_few_ids(rest, (n - 1) as nat);
    }
}

/// Following one more link.
pub proof fn lemma_expanded_one_more(
    b: Beam,
    ef: nat,
    f: spec_fn(u64) -> u32,
    list: Seq<u64>,
    i: int,
)
    requires
        0 <= i < list.len(),
    ensures
        expanded(b, ef, f, list.take(i + 1)) == visited_by(
            expanded(b, ef, f, list.take(i)),
            ef,
            f,
            list[i],
        ),
{
    assert(list.take(i + 1).drop_last() =~= list.take(i));
}

} // verus!
