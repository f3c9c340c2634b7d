//! What a beam search finds.
//!
//! It need not find the closest nodes, but it stops only where none of the
//! links of what it has found leads to anything closer.

use crate::float32::{
    is_nan, law_less_is_numeric, law_less_is_smaller, law_total_order_extends_less, lt, number,
    smaller,
};
use crate::hnsw::graph::{links, valid, Graph};
use crate::hnsw::laws::{lemma_closest_exists, lemma_closest_precedes};
use crate::hnsw::reach::lemma_zoomed_is_a_node;
use crate::hnsw::traverse::{
    beam_ok, beam_search, closest, expanded, finished, knn, landing, lemma_closest, lemma_few_ids,
    lemma_offered, lemma_started, offered, run, started, stepped, visited_by, worst, Beam,
};
use crate::storage::neighbor::{ascending, inserted, lemma_inserted_members, precedes, Neighbor};
use vstd::prelude::*;

verus! {

/// A node with its distance.
pub open spec fn scored_node(f: spec_fn(u64) -> u32, id: u64) -> Neighbor {
    Neighbor { id, distance: f(id) }
}

/// A node is in the list, or the list is full and the node's distance is not a
/// smaller number than the last one in the list.
pub open spec fn accounted(
    list: Seq<Neighbor>,
    ef: nat,
    f: spec_fn(u64) -> u32,
    id: u64,
) -> bool {
    ||| list.contains(scored_node(f, id))
    ||| list.len() >= ef && !smaller(f(id), list[list.len() - 1].distance)
}

/// A list of no more than `ef` nodes (or one), in order of their distances, such
/// that nothing better is one link away: where the search started, and every
/// node that this node or a node of the list links to, is in the list, or the
/// list is full and has nothing farther away than that node.
pub open spec fn is_beam(
    g: Graph,
    layer: nat,
    start: u64,
    list: Seq<Neighbor>,
    ef: nat,
    f: spec_fn(u64) -> u32,
) -> bool {
    &&& 1 <= list.len()
    &&& list.len() <= ef || list.len() == 1
    &&& ascending(list)
    &&& forall|i: int|
        0 <= i < list.len() ==> (#[trigger] list[i]).id < g.nodes.len() && list[i].distance == f(
            list[i].id,
        )
    &&& accounted(list, ef, f, start)
    &&& forall|to: u64| #[trigger]
        links(g, start, layer).contains(to) ==> accounted(list, ef, f, to)
    &&& forall|i: int, to: u64|
        0 <= i < list.len() && #[trigger] links(g, list[i].id, layer).contains(to) ==> accounted(
            list,
            ef,
            f,
            to,
        )
}

/// Every node that was seen is accounted for.
#[verifier::opaque]
pub open spec fn seen_accounted(b: Beam, ef: nat, f: spec_fn(u64) -> u32) -> bool {
    forall|id: u64| #[trigger] b.visited.contains(id) ==> accounted(b.best, ef, f, id)
}

/// Everything that the search holds carries its distance, and every node that was
/// seen is accounted for.
pub open spec fn all_accounted(b: Beam, n: nat, ef: nat, f: spec_fn(u64) -> u32) -> bool {
    &&& beam_ok(b, n, ef)
    &&& seen_accounted(b, ef, f)
    &&& forall|x: Neighbor| #[trigger] b.best.contains(x) ==> x == scored_node(f, x.id)
    &&& forall|x: Neighbor| #[trigger] b.open.contains(x) ==> x == scored_node(f, x.id)
}

/// The links of all nodes that were seen were followed, or are still to be, or
/// the node was left out.
spec fn followed(g: Graph, layer: nat, b: Beam, f: spec_fn(u64) -> u32) -> bool {
    forall|x: Neighbor, to: u64|
        b.best.contains(x) && #[trigger] links(g, x.id, layer).contains(to) ==> b.open.contains(x)
            || b.visited.contains(to)
}

/// A node that is accounted for stays so when another one is offered.
proof fn lemma_stays_accounted(b: Beam, n: nat, ef: nat, f: spec_fn(u64) -> u32, next: u64, id: u64)
    requires
        all_accounted(b, n, ef, f),
        next < n,
        !b.visited.contains(next),
        accounted(b.best, ef, f, id) || id == next,
    ensures
        accounted(offered(b, ef, scored_node(f, next)).best, ef, f, id),
{
    let x = scored_node(f, next);
    let r = offered(b, ef, x);
    let y = scored_node(f, id);
    law_less_is_smaller(x.distance, worst(b.best));
    law_less_is_smaller(f(id), worst(b.best));
    if b.best.len() < ef {
        lemma_inserted_members(b.best, x);
    } else if lt(x.distance, worst(b.best)) {
        let last = b.best.last();
        let front = b.best.drop_last();
        assert(precedes(x, last));
        lemma_inserted_members(front, x);
        lemma_inserted_len(front, x);
        assert(r.best == inserted(front, x));
        let end = r.best.last();
        assert(r.best.contains(r.best[r.best.len() - 1]));
        assert(end == x || precedes(end, last)) by {
            if end != x {
                let i = front.index_of(end);
                assert(precedes(b.best[i], b.best[b.best.len() - 1]));
            }
        }
        law_less_is_smaller(f(id), end.distance);
        if b.best.contains(y) && !r.best.contains(y) {
            let i = b.best.index_of(y);
            if i < front.len() {
                assert(front[i] == y);
                assert(front.contains(y));
            }
            assert(y == last);
        }
    }
}

/// Offering a node to a beam keeps the least of all: what is in the beam afterwards
/// was in it or is the new node, and whichever of these is not in it is no smaller
/// number away than the last one that is, and then the beam is full. A node that is
/// no nearer than the last one of a full beam changes nothing and is not followed
/// up; every other one is in the beam and is.
pub proof fn law_a_beam_keeps_the_least(b: Beam, n: nat, ef: nat, x: Neighbor, y: Neighbor)
    requires
        beam_ok(b, n, ef),
        x.id < n,
        !b.visited.contains(x.id),
    ensures
        ascending(offered(b, ef, x).best),
        1 <= offered(b, ef, x).best.len(),
        offered(b, ef, x).best.len() <= ef || offered(b, ef, x).best.len() == 1,
        offered(b, ef, x).best.contains(y) ==> b.best.contains(y) || y == x,
        b.best.contains(y) || y == x ==> offered(b, ef, x).best.contains(y) || (offered(
            b,
            ef,
            x,
        ).best.len() >= ef && !smaller(y.distance, offered(b, ef, x).best.last().distance)),
        b.best.len() >= ef && !smaller(x.distance, b.best.last().distance) ==> offered(
            b,
            ef,
            x,
        ).best == b.best && offered(b, ef, x).open == b.open,
        b.best.len() < ef || smaller(x.distance, b.best.last().distance) ==> offered(
            b,
            ef,
            x,
        ).best.contains(x) && offered(b, ef, x).open.contains(x),
{
    let r = offered(b, ef, x);
    lemma_offered(b, n, ef, x);
    law_less_is_smaller(x.distance, worst(b.best));
    if b.best.len() < ef {
        lemma_inserted_members(b.best, x);
    } else if lt(x.distance, worst(b.best)) {
        let last = b.best.last();
        let front = b.best.drop_last();
        assert(precedes(x, last));
        lemma_inserted_members(front, x);
        lemma_inserted_len(front, x);
        assert(r.best == inserted(front, x));
        assert(r.best.contains(r.best[r.best.len() - 1]));
        let end = r.best.last();
        assert(end == x || precedes(end, last)) by {
            if end != x {
                let i = front.index_of(end);
                assert(precedes(b.best[i], b.best[b.best.len() - 1]));
            }
        }
        law_less_is_smaller(y.distance, end.distance);
        if b.best.contains(y) && !r.best.contains(y) {
            let i = b.best.index_of(y);
            if i < front.len() {
                assert(front[i] == y);
                assert(front.contains(y));
            }
        }
    }
}

proof fn lemma_inserted_len(s: Seq<Neighbor>, x: Neighbor)
    ensures
        inserted(s, x).len() == s.len() + 1,
    decreases s.len(),
{
    if s.len() > 0 && precedes(x, s.last()) {
        lemma_inserted_len(s.drop_last(), x);
    }
}

/// Offering a node.
proof fn lemma_accounted_offered(b: Beam, n: nat, ef: nat, f: spec_fn(u64) -> u32, next: u64)
    requires
        all_accounted(b, n, ef, f),
        next < n,
        !b.visited.contains(next),
    ensures
        all_accounted(offered(b, ef, scored_node(f, next)), n, ef, f),
        forall|x: Neighbor| #[trigger]
            offered(b, ef, scored_node(f, next)).best.contains(x) ==> b.best.contains(x) || x
                == scored_node(f, next),
        forall|x: Neighbor| #[trigger]
            b.open.contains(x) ==> offered(b, ef, scored_node(f, next)).open.contains(x),
        offered(b, ef, scored_node(f, next)).best.contains(scored_node(f, next)) ==> offered(
            b,
            ef,
            scored_node(f, next),
        ).open.contains(scored_node(f, next)),
        offered(b, ef, scored_node(f, next)).open.len() <= b.open.len() + 1,
        offered(b, ef, scored_node(f, next)).visited == b.visited.insert(next),
{
    let x = scored_node(f, next);
    let r = offered(b, ef, x);
    lemma_offered(b, n, ef, x);
    assert(seen_accounted(r, ef, f)) by {
        reveal(seen_accounted);
        assert forall|id: u64| #[trigger] r.visited.contains(id) implies accounted(
            r.best,
            ef,
            f,
            id,
        ) by {
            lemma_stays_accounted(b, n, ef, f, next, id);
        }
    }
    if r.best.contains(x) && !r.open.contains(x) {
        assert(b.best.contains(x));
        assert(b.visited.contains(x.id));
    }
}

/// Following links.
pub proof fn lemma_accounted_expanded(
    b: Beam,
    n: nat,
    ef: nat,
    f: spec_fn(u64) -> u32,
    list: Seq<u64>,
)
    requires
        all_accounted(b, n, ef, f),
        forall|i: int| 0 <= i < list.len() ==> #[trigger] list[i] < n,
    ensures
        ({
            let r = expanded(b, ef, f, list);
            &&& all_accounted(r, n, ef, f)
            &&& forall|id: u64| #[trigger] b.visited.contains(id) ==> r.visited.contains(id)
            &&& forall|x: Neighbor| #[trigger] b.open.contains(x) ==> r.open.contains(x)
            &&& forall|x: Neighbor| #[trigger]
                r.best.contains(x) ==> b.best.contains(x) || r.open.contains(x)
            &&& forall|i: int| 0 <= i < list.len() ==> r.visited.contains(#[trigger] list[i])
            &&& r.open.len() + b.visited.len() <= b.open.len() + r.visited.len()
        }),
    decreases list.len(),
{
    if list.len() > 0 {
        let front = list.drop_last();
        assert forall|i: int| 0 <= i < front.len() implies #[trigger] front[i] < n by {
            assert(front[i] == list[i]);
        }
        lemma_accounted_expanded(b, n, ef, f, front);
        let m = expanded(b, ef, f, front);
        let next = list.last();
        assert(list[list.len() - 1] < n);
        let r = expanded(b, ef, f, list);
        assert(r == visited_by(m, ef, f, next));
        if !m.visited.contains(next) {
            lemma_accounted_offered(m, n, ef, f, next);
            assert(r == offered(m, ef, scored_node(f, next)));
        }
        assert forall|i: int| 0 <= i < list.len() implies r.visited.contains(
            #[trigger] list[i],
        ) by {
            if i < front.len() {
                assert(front[i] == list[i]);
                assert(m.visited.contains(front[i]));
            }
        }
        assert forall|x: Neighbor| #[trigger] r.best.contains(x) implies b.best.contains(x)
            || r.open.contains(x) by {
            if m.best.contains(x) && !b.best.contains(x) {
                assert(m.open.contains(x));
            }
        }
    }
}

/// The state without an open node.
pub open spec fn without_open(b: Beam, x: Neighbor) -> Beam {
    Beam { visited: b.visited, open: b.open.remove(x), best: b.best }
}

/// Taking an open node away.
pub proof fn lemma_accounted_without(b: Beam, n: nat, ef: nat, f: spec_fn(u64) -> u32, x: Neighbor)
    requires
        all_accounted(b, n, ef, f),
        b.open.contains(x),
    ensures
        all_accounted(without_open(b, x), n, ef, f),
        without_open(b, x).open.len() + 1 == b.open.len(),
{
    let rest = without_open(b, x);
    assert forall|y: Neighbor| #[trigger] rest.open.contains(y) implies rest.visited.contains(y.id)
        && y == scored_node(f, y.id) by {
        assert(b.open.contains(y));
    }
    assert(seen_accounted(rest, ef, f)) by {
        reveal(seen_accounted);
    }
}

/// Following the links of a node keeps track of what was followed.
proof fn lemma_followed_expanded(
    g: Graph,
    layer: nat,
    b: Beam,
    n: nat,
    ef: nat,
    f: spec_fn(u64) -> u32,
    x: Neighbor,
)
    requires
        all_accounted(without_open(b, x), n, ef, f),
        followed(g, layer, b, f),
        forall|i: int|
            0 <= i < links(g, x.id, layer).len() ==> #[trigger] links(g, x.id, layer)[i] < n,
    ensures
        followed(g, layer, expanded(without_open(b, x), ef, f, links(g, x.id, layer)), f),
{
    let list = links(g, x.id, layer);
    let rest = without_open(b, x);
    lemma_accounted_expanded(rest, n, ef, f, list);
    let r = expanded(rest, ef, f, list);
    assert forall|y: Neighbor, to: u64|
        r.best.contains(y) && #[trigger] links(g, y.id, layer).contains(to) implies r.open.contains(
        y,
    ) || r.visited.contains(to) by {
        if b.best.contains(y) && !r.open.contains(y) {
            if y == x {
                let i = list.index_of(to);
                assert(r.visited.contains(list[i]));
            } else if b.open.contains(y) {
                assert(rest.open.contains(y));
            } else {
                assert(b.visited.contains(to));
            }
        }
    }
}

/// One step of a search.
proof fn lemma_accounted_step(g: Graph, layer: nat, b: Beam, ef: nat, f: spec_fn(u64) -> u32)
    requires
        valid(g),
        all_accounted(b, g.nodes.len(), ef, f),
        followed(g, layer, b, f),
        !finished(b, ef),
    ensures
        ({
            let r = stepped(g, layer, b, ef, f);
            &&& all_accounted(r, g.nodes.len(), ef, f)
            &&& followed(g, layer, r, f)
            &&& r.open.len() + 1 + b.visited.len() <= b.open.len() + r.visited.len()
            &&& forall|id: u64| #[trigger] b.visited.contains(id) ==> r.visited.contains(id)
        }),
{
    let n = g.nodes.len();
    lemma_closest_exists(b.open);
    let x = closest(b.open);
    let list = links(g, x.id, layer);
    assert forall|i: int| 0 <= i < list.len() implies #[trigger] list[i] < n by {
        assert(g.nodes[x.id as int][layer as int][i] < n);
    }
    lemma_accounted_without(b, n, ef, f, x);
    lemma_accounted_expanded(without_open(b, x), n, ef, f, list);
    lemma_followed_expanded(g, layer, b, n, ef, f, x);
    assert(stepped(g, layer, b, ef, f) == expanded(without_open(b, x), ef, f, list));
}

/// A search goes on until nothing is open, or what is open is too far away.
proof fn lemma_accounted_run(
    g: Graph,
    layer: nat,
    b: Beam,
    ef: nat,
    f: spec_fn(u64) -> u32,
    steps: nat,
)
    requires
        valid(g),
        all_accounted(b, g.nodes.len(), ef, f),
        followed(g, layer, b, f),
        b.open.len() + g.nodes.len() <= b.visited.len() + steps,
    ensures
        ({
            let r = run(g, layer, b, ef, f, steps);
            &&& all_accounted(r, g.nodes.len(), ef, f)
            &&& followed(g, layer, r, f)
            &&& finished(r, ef)
            &&& forall|id: u64| #[trigger] b.visited.contains(id) ==> r.visited.contains(id)
        }),
    decreases steps,
{
    lemma_few_ids(b.visited, g.nodes.len());
    if steps == 0 {
        assert(b.open.len() == 0);
        assert(b.open =~= Set::empty());
    } else if !finished(b, ef) {
        lemma_accounted_step(g, layer, b, ef, f);
        lemma_accounted_run(g, layer, stepped(g, layer, b, ef, f), ef, f, (steps - 1) as nat);
    }
}

/// What comes before another candidate is no farther away.
proof fn lemma_before_is_no_farther(c: Neighbor, x: Neighbor, last: Neighbor)
    requires
        c == x || precedes(c, x),
        x == last || precedes(x, last),
    ensures
        !lt(last.distance, c.distance),
{
    law_total_order_extends_less(last.distance, c.distance);
}

/// Every member of a beam is its last one or comes before that.
proof fn lemma_last_comes_last(list: Seq<Neighbor>, x: Neighbor)
    requires
        ascending(list),
        list.contains(x),
    ensures
        x == list.last() || precedes(x, list.last()),
{
    let i = list.index_of(x);
    if i < list.len() - 1 {
        assert(precedes(list[i], list[list.len() - 1]));
    }
}

/// When a search is over, nothing in the beam is open.
pub proof fn lemma_beam_is_closed(b: Beam, ef: nat, x: Neighbor)
    requires
        b.open.finite(),
        ascending(b.best),
        finished(b, ef),
        b.best.contains(x),
    ensures
        !b.open.contains(x),
{
    if b.open.contains(x) {
        lemma_closest_precedes(b.open, x);
        lemma_last_comes_last(b.best, x);
        lemma_before_is_no_farther(closest(b.open), x, b.best.last());
    }
}

/// The first step is always taken, and follows the links of where the search
/// starts.
proof fn lemma_first_step(g: Graph, layer: nat, start: u64, ef: nat, f: spec_fn(u64) -> u32)
    requires
        valid(g),
        start < g.nodes.len(),
    ensures
        !finished(started(start, f(start)), ef),
        forall|to: u64| #[trigger]
            links(g, start, layer).contains(to) ==> stepped(
                g,
                layer,
                started(start, f(start)),
                ef,
                f,
            ).visited.contains(to),
{
    let b = started(start, f(start));
    let x = scored_node(f, start);
    assert(b.open.contains(x));
    assert forall|y: Neighbor| #[trigger] b.open.contains(y) implies y == x by {}
    lemma_closest(b.open, x);
    let list = links(g, start, layer);
    let rest = without_open(b, x);
    assert(stepped(g, layer, b, ef, f) == expanded(rest, ef, f, list));
    assert forall|to: u64| #[trigger] list.contains(to) implies expanded(
        rest,
        ef,
        f,
        list,
    ).visited.contains(to) by {
        lemma_expanded_visits(rest, ef, f, list, to);
    }
}

proof fn lemma_expanded_visits(b: Beam, ef: nat, f: spec_fn(u64) -> u32, list: Seq<u64>, to: u64)
    requires
        b.visited.contains(to) || list.contains(to),
    ensures
        expanded(b, ef, f, list).visited.contains(to),
    decreases list.len(),
{
    if list.len() > 0 {
        let front = list.drop_last();
        if !b.visited.contains(to) && to != list.last() {
            let i = list.index_of(to);
            assert(front[i] == to);
        }
        if to != list.last() {
            lemma_expanded_visits(b, ef, f, front, to);
        } else if b.visited.contains(to) {
            lemma_expanded_visits(b, ef, f, front, to);
        }
    }
}

/// What a beam search finds is a beam: no link of a node in it, nor the node that
/// the search started from, is a smaller number away than the last node in it,
/// unless it is in it or there was room for all. That holds for every graph and
/// all distances.
pub proof fn law_a_beam_search_finds_a_beam(
    g: Graph,
    layer: nat,
    start: u64,
    ef: nat,
    f: spec_fn(u64) -> u32,
)
    requires
        valid(g),
        start < g.nodes.len(),
    ensures
        is_beam(g, layer, start, beam_search(g, layer, start, ef, f), ef, f),
{
    let n = g.nodes.len();
    let b = started(start, f(start));
    lemma_started(start, f(start), n, ef);
    assert(b.best[0] == scored_node(f, start));
    assert(b.best.contains(b.best[0]));
    assert(seen_accounted(b, ef, f)) by {
        reveal(seen_accounted);
    }
    assert forall|x: Neighbor| #[trigger] b.best.contains(x) implies x == scored_node(f, x.id)
        && b.open.contains(x) by {
        assert(b.best[0] == x);
    }
    lemma_first_step(g, layer, start, ef, f);
    lemma_accounted_step(g, layer, b, ef, f);
    let b1 = stepped(g, layer, b, ef, f);
    lemma_accounted_run(g, layer, b1, ef, f, (n - 1) as nat);
    let r = run(g, layer, b, ef, f, n);
    assert(r == run(g, layer, b1, ef, f, (n - 1) as nat));
    let list = r.best;
    reveal(seen_accounted);
    assert(b.visited.contains(start));
    assert forall|i: int| 0 <= i < list.len() implies (#[trigger] list[i]).id < n
        && list[i].distance == f(list[i].id) by {
        assert(list.contains(list[i]));
    }
    assert forall|to: u64| #[trigger] links(g, start, layer).contains(to) implies accounted(
        list,
        ef,
        f,
        to,
    ) by {
        assert(b1.visited.contains(to));
        assert(r.visited.contains(to));
    }
    assert forall|i: int, to: u64|
        0 <= i < list.len() && #[trigger] links(g, list[i].id, layer).contains(to) implies accounted(
        list,
        ef,
        f,
        to,
    ) by {
        assert(list.contains(list[i]));
        lemma_beam_is_closed(r, ef, list[i]);
        assert(r.visited.contains(to));
    }
}

/// Every node has a number for a distance.
pub open spec fn all_numbers(g: Graph, f: spec_fn(u64) -> u32) -> bool {
    forall|id: u64| id < g.nodes.len() ==> !is_nan(#[trigger] f(id))
}

/// What comes later in a list of numbers is no smaller.
proof fn lemma_no_smaller_later(list: Seq<Neighbor>, i: int, j: int)
    requires
        ascending(list),
        0 <= i <= j < list.len(),
        !is_nan(list[i].distance),
        !is_nan(list[j].distance),
    ensures
        number(list[i].distance) <= number(list[j].distance),
{
    if i < j {
        assert(precedes(list[i], list[j]));
        law_less_is_numeric(list[j].distance, list[i].distance);
    }
}

/// The first hit of a beam search is as near as where the search started and as
/// every node that this one links to, if all distances are numbers.
pub proof fn law_the_first_hit_is_nearest_around_the_start(
    g: Graph,
    layer: nat,
    start: u64,
    ef: nat,
    f: spec_fn(u64) -> u32,
    to: u64,
)
    requires
        valid(g),
        start < g.nodes.len(),
        all_numbers(g, f),
        to == start || links(g, start, layer).contains(to),
    ensures
        number(beam_search(g, layer, start, ef, f)[0].distance) <= number(f(to)),
{
    law_a_beam_search_finds_a_beam(g, layer, start, ef, f);
    let list = beam_search(g, layer, start, ef, f);
    let last = list.len() - 1;
    assert(to < g.nodes.len()) by {
        if to != start {
            let i = links(g, start, layer).index_of(to);
            assert(g.nodes[start as int][layer as int][i] < g.nodes.len());
        }
    }
    assert(!is_nan(f(list[0].id)) && !is_nan(f(list[last].id)) && !is_nan(f(to)));
    if list.contains(scored_node(f, to)) {
        let i = list.index_of(scored_node(f, to));
        lemma_no_smaller_later(list, 0, i);
    } else {
        lemma_no_smaller_later(list, 0, last);
    }
}

proof fn lemma_landing_is_a_node(g: Graph, f: spec_fn(u64) -> u32)
    requires
        valid(g),
        g.entry is Some,
    ensures
        landing(g, f) < g.nodes.len(),
{
    let (id, level) = g.entry->0;
    lemma_zoomed_is_a_node(g, level, 1, f, (id, f(id)));
}

/// The hits are the first `k` of a beam, or all of it if it is shorter.
pub open spec fn starts_a_beam(
    hits: Seq<Neighbor>,
    k: nat,
    g: Graph,
    start: u64,
    width: nat,
    f: spec_fn(u64) -> u32,
) -> bool {
    exists|list: Seq<Neighbor>| #[trigger]
        is_beam(g, 0, start, list, width, f) && hits.is_prefix_of(list) && (hits.len() == k
            || hits.len() < k && hits.len() == list.len())
}

/// The hits are the first `k` of a beam on the lowest layer, which is `ef` wide but
/// no narrower than `k`.
pub open spec fn is_search(
    hits: Seq<Neighbor>,
    k: nat,
    ef: nat,
    g: Graph,
    f: spec_fn(u64) -> u32,
) -> bool {
    &&& k <= ef ==> starts_a_beam(hits, k, g, landing(g, f), ef, f)
    &&& ef <= k ==> starts_a_beam(hits, k, g, landing(g, f), k, f)
}

/// The hits of a search are the first `k` of a beam on the lowest layer, which is
/// `ef` wide but no narrower than `k`.
pub proof fn law_hits_are_the_first_of_a_beam(g: Graph, f: spec_fn(u64) -> u32, k: nat, ef: nat)
    requires
        valid(g),
        g.entry is Some,
    ensures
        is_search(knn(g, f, k, ef), k, ef, g, f),
{
    let start = landing(g, f);
    let width = if k < ef {
        ef
    } else {
        k
    };
    lemma_landing_is_a_node(g, f);
    law_a_beam_search_finds_a_beam(g, 0, start, width, f);
    let list = beam_search(g, 0, start, width, f);
    assert(is_beam(g, 0, start, list, width, f));
    assert(knn(g, f, k, ef).is_prefix_of(list));
}

/// No hit of a search links to anything nearer than the last hit that is not a
/// hit itself, and there are `k` hits if anything that a hit links to is none,
/// if all distances are numbers. The same goes for where the search of the lowest
/// layer started and for what this node links to.
pub proof fn law_hits_have_no_nearer_links(
    g: Graph,
    f: spec_fn(u64) -> u32,
    k: nat,
    ef: nat,
    x: u64,
    to: u64,
)
    requires
        valid(g),
        g.entry is Some,
        k > 0,
        all_numbers(g, f),
        x == landing(g, f) || knn(g, f, k, ef).contains(scored_node(f, x)),
        x == to || links(g, x, 0).contains(to),
    ensures
        knn(g, f, k, ef).contains(scored_node(f, to)) || (knn(g, f, k, ef).len() == k && number(
            knn(g, f, k, ef)[k - 1].distance,
        ) <= number(f(to))),
{
    law_hits_are_the_first_of_a_beam(g, f, k, ef);
    lemma_landing_is_a_node(g, f);
    let width = if k < ef {
        ef
    } else {
        k
    };
    let start = landing(g, f);
    let hits = knn(g, f, k, ef);
    assert(starts_a_beam(hits, k, g, start, width, f));
    let list = choose|list: Seq<Neighbor>| #[trigger]
        is_beam(g, 0, start, list, width, f) && hits.is_prefix_of(list) && (hits.len() == k
            || hits.len() < k && hits.len() == list.len());
    assert(forall|i: int| 0 <= i < hits.len() ==> hits[i] == list[i]);
    let last = list.len() - 1;
    if hits.contains(scored_node(f, x)) {
        let i = hits.index_of(scored_node(f, x));
        assert(list[i] == hits[i]);
        assert(list.contains(list[i]));
    }
    assert(accounted(list, width, f, to));
    assert(to < g.nodes.len()) by {
        if to != x {
            let i = links(g, x, 0).index_of(to);
            assert(g.nodes[x as int][0][i] < g.nodes.len());
        } else if x != start {
            let i = hits.index_of(scored_node(f, x));
            assert(list[i].id < g.nodes.len());
        }
    }
    assert(!is_nan(f(list[last].id)) && !is_nan(f(to)));
    if list.contains(scored_node(f, to)) {
        let i = list.index_of(scored_node(f, to));
        if i < hits.len() {
            assert(hits[i] == scored_node(f, to));
        } else {
            assert(!is_nan(f(list[k - 1].id)));
            lemma_no_smaller_later(list, k - 1, i);
        }
    } else {
        assert(list.len() >= k);
        assert(!is_nan(f(list[k - 1].id)));
        lemma_no_smaller_later(list, k - 1, last);
    }
}

/// The first hit of a search is as near as where the search of the lowest layer
/// started, as all other hits, and as every node that one of these links to, if all
/// distances are numbers.
pub proof fn law_nothing_around_is_nearer_than_the_first_hit(
    g: Graph,
    f: spec_fn(u64) -> u32,
    k: nat,
    ef: nat,
    x: u64,
    to: u64,
)
    requires
        valid(g),
        g.entry is Some,
        k > 0,
        all_numbers(g, f),
        x == landing(g, f) || knn(g, f, k, ef).contains(scored_node(f, x)),
        x == to || links(g, x, 0).contains(to),
    ensures
        knn(g, f, k, ef).len() > 0,
        number(knn(g, f, k, ef)[0].distance) <= number(f(to)),
{
    law_hits_have_no_nearer_links(g, f, k, ef, x, to);
    law_hits_are_the_first_of_a_beam(g, f, k, ef);
    let width = if k < ef {
        ef
    } else {
        k
    };
    let start = landing(g, f);
    let hits = knn(g, f, k, ef);
    assert(starts_a_beam(hits, k, g, start, width, f));
    let list = choose|list: Seq<Neighbor>| #[trigger]
        is_beam(g, 0, start, list, width, f) && hits.is_prefix_of(list) && (hits.len() == k
            || hits.len() < k && hits.len() == list.len());
    assert(forall|i: int| 0 <= i < hits.len() ==> hits[i] == list[i]);
    assert(!is_nan(f(list[0].id)));
    let i = if hits.contains(scored_node(f, to)) {
        hits.index_of(scored_node(f, to))
    } else {
        k - 1
    };
    assert(!is_nan(f(list[i].id)));
    lemma_no_smaller_later(list, 0, i);
}

} // verus!
