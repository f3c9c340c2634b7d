//! Which nodes a beam search looks at.

use crate::float32::{is_nan, law_less_is_smaller, number, smaller};
use crate::hnsw::beam::{
    accounted, all_accounted, all_numbers, lemma_accounted_expanded, lemma_accounted_without,
    lemma_beam_is_closed, scored_node, seen_accounted, without_open,
};
use crate::hnsw::graph::{links, valid, Graph};
use crate::hnsw::laws::lemma_closest_exists;
use crate::hnsw::traverse::{
    beam_ok, beam_search, closest, expanded, finished, lemma_few_ids, lemma_started, run,
    started, stepped, visited_by, Beam,
};
use crate::storage::neighbor::{precedes, Neighbor};
use vstd::prelude::*;

verus! {

/// A node is where the search starts, or one of these nodes links to it.
pub open spec fn seen_from(g: Graph, layer: nat, start: u64, trace: Seq<u64>, id: u64) -> bool {
    id == start || exists|t: int|
        0 <= t < trace.len() && links(g, #[trigger] trace[t], layer).contains(id)
}

/// All of these nodes were seen and are nearer than `x`.
pub open spec fn are_nearer(
    g: Graph,
    layer: nat,
    start: u64,
    trace: Seq<u64>,
    f: spec_fn(u64) -> u32,
    x: u64,
    nodes: Seq<u64>,
) -> bool {
    &&& nodes.no_duplicates()
    &&& forall|i: int|
        0 <= i < nodes.len() ==> seen_from(g, layer, start, trace, #[trigger] nodes[i])
    &&& forall|i: int| 0 <= i < nodes.len() ==> smaller(f(#[trigger] nodes[i]), f(x))
}

/// So many of the nodes that were seen are nearer than `x`.
pub open spec fn crowded_out(
    g: Graph,
    layer: nat,
    start: u64,
    trace: Seq<u64>,
    f: spec_fn(u64) -> u32,
    x: u64,
    width: nat,
) -> bool {
    exists|nodes: Seq<u64>| #[trigger]
        are_nearer(g, layer, start, trace, f, x, nodes) && nodes.len() == width
}

/// The nodes whose links a search follows, in order: each one was seen by then, none
/// is among them twice, and none had as many nearer nodes before it as the beam
/// is wide.
#[verifier::opaque]
pub open spec fn is_trace(
    g: Graph,
    layer: nat,
    start: u64,
    trace: Seq<u64>,
    f: spec_fn(u64) -> u32,
    width: nat,
) -> bool {
    &&& trace.no_duplicates()
    &&& forall|t: int|
        0 <= t < trace.len() ==> seen_from(g, layer, start, trace.take(t), #[trigger] trace[t])
            && !crowded_out(g, layer, start, trace.take(t), f, trace[t], width)
}

/// The state of a search and the nodes whose links it has followed.
spec fn follows(g: Graph, layer: nat, start: u64, trace: Seq<u64>, b: Beam) -> bool {
    &&& forall|id: u64| #[trigger]
        b.visited.contains(id) <==> seen_from(g, layer, start, trace, id)
    &&& forall|x: Neighbor| #[trigger] b.open.contains(x) ==> !trace.contains(x.id)
    &&& forall|x: Neighbor| #[trigger]
        b.best.contains(x) ==> b.open.contains(x) || trace.contains(x.id)
}

/// What following links adds to a search.
proof fn lemma_expanded_adds(b: Beam, ef: nat, f: spec_fn(u64) -> u32, list: Seq<u64>)
    ensures
        ({
            let r = expanded(b, ef, f, list);
            &&& forall|id: u64| #[trigger]
                r.visited.contains(id) <==> b.visited.contains(id) || list.contains(id)
            &&& forall|x: Neighbor| #[trigger]
                r.open.contains(x) ==> b.open.contains(x) || !b.visited.contains(x.id)
        }),
    decreases list.len(),
{
    if list.len() > 0 {
        let front = list.drop_last();
        lemma_expanded_adds(b, ef, f, front);
        let m = expanded(b, ef, f, front);
        let next = list.last();
        let r = expanded(b, ef, f, list);
        assert(r == visited_by(m, ef, f, next));
        assert forall|id: u64| list.contains(id) <==> #[trigger] front.contains(id) || id
            == next by {
            if list.contains(id) && id != next {
                let i = list.index_of(id);
                assert(front[i] == id);
            }
            if front.contains(id) {
                let i = front.index_of(id);
                assert(list[i] == id);
            }
            if id == next {
                assert(list[list.len() - 1] == id);
            }
        }
        assert forall|id: u64| #[trigger] r.visited.contains(id) <==> b.visited.contains(id)
            || list.contains(id) by {
            assert(front.contains(id) || !front.contains(id));
            assert(m.visited.contains(id) || !m.visited.contains(id));
        }
        assert forall|x: Neighbor| #[trigger] r.open.contains(x) implies b.open.contains(x)
            || !b.visited.contains(x.id) by {
            if !m.open.contains(x) {
                assert(x.id == next);
                assert(!m.visited.contains(next));
            }
        }
    }
}

/// Of as many nodes as the beam is wide, not all are nearer than what is closed next.
proof fn lemma_not_crowded(
    b: Beam,
    n: nat,
    ef: nat,
    f: spec_fn(u64) -> u32,
    x: Neighbor,
    nearer: Seq<u64>,
)
    requires
        all_accounted(b, n, ef, f),
        b.open.contains(x),
        x == closest(b.open),
        !finished(b, ef),
        forall|id: u64| id < n ==> !is_nan(#[trigger] f(id)),
        nearer.no_duplicates(),
        nearer.len() == width_of(ef),
        forall|i: int| 0 <= i < nearer.len() ==> b.visited.contains(#[trigger] nearer[i]),
    ensures
        exists|i: int| 0 <= i < nearer.len() && !smaller(f(#[trigger] nearer[i]), f(x.id)),
{
    let last = b.best.last();
    assert(b.best.contains(b.best[b.best.len() - 1]));
    assert(b.visited.contains(last.id));
    assert(last == scored_node(f, last.id));
    assert(x == scored_node(f, x.id));
    law_less_is_smaller(last.distance, x.distance);
    let ids = b.best.map_values(|y: Neighbor| y.id);
    if forall|i: int| 0 <= i < nearer.len() ==> smaller(f(#[trigger] nearer[i]), f(x.id)) {
        assert forall|i: int| 0 <= i < nearer.len() implies ids.contains(#[trigger] nearer[i]) by {
            let id = nearer[i];
            assert(b.visited.contains(id));
            assert(accounted(b.best, ef, f, id)) by {
                reveal(seen_accounted);
            }
            if b.best.contains(scored_node(f, id)) {
                let j = b.best.index_of(scored_node(f, id));
                assert(ids[j] == id);
            } else {
                assert(!is_nan(f(id)) && !is_nan(f(last.id)));
                assert(number(last.distance) <= number(f(id)));
            }
        }
        lemma_ids_differ(b, n, ef);
        ids.unique_seq_to_set();
        nearer.unique_seq_to_set();
        assert(nearer.to_set().subset_of(ids.to_set())) by {
            assert forall|id: u64| #[trigger] nearer.to_set().contains(
                id,
            ) implies ids.to_set().contains(id) by {
                let i = nearer.index_of(id);
                assert(nearer[i] == id);
            }
        }
        vstd::set_lib::lemma_len_subset(nearer.to_set(), ids.to_set());
        vstd::set_lib::lemma_subset_equality(nearer.to_set(), ids.to_set());
        assert(ids[b.best.len() - 1] == last.id);
        assert(ids.to_set().contains(last.id));
        assert(nearer.to_set().contains(last.id));
        let i = nearer.index_of(last.id);
        assert(smaller(f(nearer[i]), f(x.id)));
    }
}

proof fn lemma_ids_differ(b: Beam, n: nat, ef: nat)
    requires
        beam_ok(b, n, ef),
    ensures
        b.best.map_values(|y: Neighbor| y.id).no_duplicates(),
{
    let ids = b.best.map_values(|y: Neighbor| y.id);
    assert forall|i: int, j: int| 0 <= i < ids.len() && 0 <= j < ids.len() && i != j implies ids[i]
        != ids[j] by {
        assert(b.best.contains(b.best[i]) && b.best.contains(b.best[j]));
        if i < j {
            assert(precedes(b.best[i], b.best[j]));
        } else {
            assert(precedes(b.best[j], b.best[i]));
        }
    }
}

/// What one more node lets a search see.
proof fn lemma_seen_more(g: Graph, layer: nat, start: u64, trace: Seq<u64>, x: u64, id: u64)
    ensures
        seen_from(g, layer, start, trace.push(x), id) <==> seen_from(g, layer, start, trace, id)
            || links(g, x, layer).contains(id),
{
    let more = trace.push(x);
    if id != start && seen_from(g, layer, start, more, id) {
        let t = choose|t: int|
            0 <= t < more.len() && links(g, #[trigger] more[t], layer).contains(id);
        if t < trace.len() {
            assert(more[t] == trace[t]);
        }
    }
    if id != start && seen_from(g, layer, start, trace, id) {
        let t = choose|t: int|
            0 <= t < trace.len() && links(g, #[trigger] trace[t], layer).contains(id);
        assert(more[t] == trace[t]);
    }
    if links(g, x, layer).contains(id) {
        assert(more[trace.len() as int] == x);
    }
}

/// One more node of a trace.
proof fn lemma_trace_grows(
    g: Graph,
    layer: nat,
    start: u64,
    trace: Seq<u64>,
    f: spec_fn(u64) -> u32,
    width: nat,
    x: u64,
)
    requires
        is_trace(g, layer, start, trace, f, width),
        !trace.contains(x),
        seen_from(g, layer, start, trace, x),
        !crowded_out(g, layer, start, trace, f, x, width),
    ensures
        is_trace(g, layer, start, trace.push(x), f, width),
{
    reveal(is_trace);
    let more = trace.push(x);
    assert forall|t: int| 0 <= t < more.len() implies seen_from(
        g,
        layer,
        start,
        more.take(t),
        #[trigger] more[t],
    ) && !crowded_out(g, layer, start, more.take(t), f, more[t], width) by {
        assert(more.take(t) =~= trace.take(t));
        if t < trace.len() {
            assert(more[t] == trace[t]);
        } else {
            assert(trace.take(t) =~= trace);
        }
    }
}

/// How wide a beam is.
spec fn width_of(ef: nat) -> nat {
    if ef == 0 {
        1
    } else {
        ef
    }
}

/// What is closed next is not crowded out.
proof fn lemma_next_is_not_crowded_out(
    g: Graph,
    layer: nat,
    start: u64,
    b: Beam,
    ef: nat,
    f: spec_fn(u64) -> u32,
    trace: Seq<u64>,
)
    requires
        all_numbers(g, f),
        all_accounted(b, g.nodes.len(), ef, f),
        !finished(b, ef),
        b.open.contains(closest(b.open)),
        forall|id: u64| #[trigger]
            b.visited.contains(id) <==> seen_from(g, layer, start, trace, id),
    ensures
        !crowded_out(g, layer, start, trace, f, closest(b.open).id, width_of(ef)),
{
    let x = closest(b.open);
    let width = width_of(ef);
    if crowded_out(g, layer, start, trace, f, x.id, width) {
        let nodes = choose|nodes: Seq<u64>| #[trigger]
            are_nearer(g, layer, start, trace, f, x.id, nodes) && nodes.len() == width;
        assert forall|i: int| 0 <= i < nodes.len() implies b.visited.contains(
            #[trigger] nodes[i],
        ) by {
            assert(seen_from(g, layer, start, trace, nodes[i]));
        }
        lemma_not_crowded(b, g.nodes.len(), ef, f, x, nodes);
    }
}

/// Following the links of a node that is closed.
proof fn lemma_follows_step(
    g: Graph,
    layer: nat,
    start: u64,
    b: Beam,
    n: nat,
    ef: nat,
    f: spec_fn(u64) -> u32,
    trace: Seq<u64>,
    x: Neighbor,
)
    requires
        all_accounted(b, n, ef, f),
        b.open.contains(x),
        follows(g, layer, start, trace, b),
        forall|id: u64| #[trigger] trace.contains(id) ==> b.visited.contains(id),
        forall|i: int|
            0 <= i < links(g, x.id, layer).len() ==> #[trigger] links(g, x.id, layer)[i] < n,
    ensures
        follows(
            g,
            layer,
            start,
            trace.push(x.id),
            expanded(without_open(b, x), ef, f, links(g, x.id, layer)),
        ),
{
    let list = links(g, x.id, layer);
    let rest = without_open(b, x);
    lemma_accounted_without(b, n, ef, f, x);
    lemma_accounted_expanded(rest, n, ef, f, list);
    lemma_expanded_adds(rest, ef, f, list);
    let r = expanded(rest, ef, f, list);
    let more = trace.push(x.id);
    assert forall|id: u64| #[trigger] r.visited.contains(id) <==> seen_from(
        g,
        layer,
        start,
        more,
        id,
    ) by {
        lemma_seen_more(g, layer, start, trace, x.id, id);
        assert(b.visited.contains(id) <==> seen_from(g, layer, start, trace, id));
    }
    assert forall|y: Neighbor| #[trigger] r.open.contains(y) implies !more.contains(y.id) by {
        if more.contains(y.id) {
            let t = more.index_of(y.id);
            if t < trace.len() {
                assert(trace[t] == y.id);
                assert(trace.contains(y.id));
                assert(b.visited.contains(y.id));
            } else {
                assert(y.id == x.id);
                assert(b.visited.contains(x.id));
            }
            assert(rest.open.contains(y));
            assert(b.open.contains(y));
            assert(y == scored_node(f, y.id) && x == scored_node(f, x.id));
        }
    }
    assert forall|y: Neighbor| #[trigger] r.best.contains(y) implies r.open.contains(y)
        || more.contains(y.id) by {
        if b.best.contains(y) && !r.open.contains(y) {
            if y == x {
                assert(more[trace.len() as int] == y.id);
            } else if b.open.contains(y) {
                assert(rest.open.contains(y));
            } else {
                let t = trace.index_of(y.id);
                assert(more[t] == y.id);
            }
        }
    }
}

/// One step of a search.
proof fn lemma_traced_step(
    g: Graph,
    layer: nat,
    start: u64,
    b: Beam,
    ef: nat,
    f: spec_fn(u64) -> u32,
    trace: Seq<u64>,
)
    requires
        valid(g),
        all_numbers(g, f),
        all_accounted(b, g.nodes.len(), ef, f),
        !finished(b, ef),
        is_trace(g, layer, start, trace, f, width_of(ef)),
        follows(g, layer, start, trace, b),
    ensures
        all_accounted(stepped(g, layer, b, ef, f), g.nodes.len(), ef, f),
        is_trace(g, layer, start, trace.push(closest(b.open).id), f, width_of(ef)),
        follows(
            g,
            layer,
            start,
            trace.push(closest(b.open).id),
            stepped(g, layer, b, ef, f),
        ),
        stepped(g, layer, b, ef, f).open.len() + 1 + b.visited.len() <= b.open.len() + stepped(
            g,
            layer,
            b,
            ef,
            f,
        ).visited.len(),
{
    let n = g.nodes.len();
    lemma_closest_exists(b.open);
    let x = closest(b.open);
    let list = links(g, x.id, layer);
    assert(b.visited.contains(x.id));
    assert forall|i: int| 0 <= i < list.len() implies #[trigger] list[i] < n by {
        assert(g.nodes[x.id as int][layer as int][i] < n);
    }
    assert forall|id: u64| #[trigger] trace.contains(id) implies b.visited.contains(id) by {
        lemma_traced_is_seen(g, layer, start, trace, f, width_of(ef), trace.index_of(id));
    }
    lemma_accounted_without(b, n, ef, f, x);
    lemma_accounted_expanded(without_open(b, x), n, ef, f, list);
    lemma_next_is_not_crowded_out(g, layer, start, b, ef, f, trace);
    assert(!trace.contains(x.id));
    assert(seen_from(g, layer, start, trace, x.id));
    lemma_trace_grows(g, layer, start, trace, f, width_of(ef), x.id);
    lemma_follows_step(g, layer, start, b, n, ef, f, trace, x);
    assert(stepped(g, layer, b, ef, f) == expanded(without_open(b, x), ef, f, list));
}

/// Every node of a trace is seen.
proof fn lemma_traced_is_seen(
    g: Graph,
    layer: nat,
    start: u64,
    trace: Seq<u64>,
    f: spec_fn(u64) -> u32,
    width: nat,
    t: int,
)
    requires
        is_trace(g, layer, start, trace, f, width),
        0 <= t < trace.len(),
    ensures
        seen_from(g, layer, start, trace, trace[t]),
{
    reveal(is_trace);
    let part = trace.take(t);
    assert(seen_from(g, layer, start, part, trace[t]));
    if trace[t] != start {
        let u = choose|u: int|
            0 <= u < part.len() && links(g, #[trigger] part[u], layer).contains(trace[t]);
        assert(trace[u] == part[u]);
    }
}

proof fn lemma_traced_run(
    g: Graph,
    layer: nat,
    start: u64,
    b: Beam,
    ef: nat,
    f: spec_fn(u64) -> u32,
    steps: nat,
    trace: Seq<u64>,
) -> (all: Seq<u64>)
    requires
        valid(g),
        all_numbers(g, f),
        all_accounted(b, g.nodes.len(), ef, f),
        is_trace(g, layer, start, trace, f, width_of(ef)),
        follows(g, layer, start, trace, b),
        b.open.len() + g.nodes.len() <= b.visited.len() + steps,
    ensures
        ({
            let r = run(g, layer, b, ef, f, steps);
            &&& all_accounted(r, g.nodes.len(), ef, f)
            &&& finished(r, ef)
            &&& is_trace(g, layer, start, all, f, width_of(ef))
            &&& follows(g, layer, start, all, r)
        }),
    decreases steps,
{
    lemma_few_ids(b.visited, g.nodes.len());
    if steps == 0 {
        assert(b.open.len() == 0);
        assert(b.open =~= Set::empty());
        trace
    } else if finished(b, ef) {
        trace
    } else {
        lemma_traced_step(g, layer, start, b, ef, f, trace);
        lemma_traced_run(
            g,
            layer,
            start,
            stepped(g, layer, b, ef, f),
            ef,
            f,
            (steps - 1) as nat,
            trace.push(closest(b.open).id),
        )
    }
}

/// What a search looks at: it follows the links of some nodes, one after the other;
/// what it finds is among what it has seen, and its own links were all followed, and
/// all that it has seen is found or left out of a full list.
pub open spec fn finds_by(
    g: Graph,
    layer: nat,
    start: u64,
    trace: Seq<u64>,
    list: Seq<Neighbor>,
    ef: nat,
    f: spec_fn(u64) -> u32,
) -> bool {
    &&& forall|i: int|
        0 <= i < list.len() ==> seen_from(g, layer, start, trace, (#[trigger] list[i]).id)
            && trace.contains(list[i].id)
    &&& forall|id: u64| #[trigger]
        seen_from(g, layer, start, trace, id) ==> accounted(list, ef, f, id)
}

/// A search follows the links of a node only if fewer of the nodes that it has seen
/// are nearer than the beam is wide, so it stops as soon as nothing that is left can
/// matter; and it follows those of all that it finds. All distances are numbers.
pub proof fn law_a_search_looks_no_farther_than_it_has_to(
    g: Graph,
    layer: nat,
    start: u64,
    ef: nat,
    f: spec_fn(u64) -> u32,
)
    requires
        valid(g),
        start < g.nodes.len(),
        all_numbers(g, f),
        ef > 0,
    ensures
        exists|trace: Seq<u64>| #[trigger]
            is_trace(g, layer, start, trace, f, ef) && finds_by(
                g,
                layer,
                start,
                trace,
                beam_search(g, layer, start, ef, f),
                ef,
                f,
            ),
{
    let n = g.nodes.len();
    let b = started(start, f(start));
    let none = Seq::<u64>::empty();
    lemma_started(start, f(start), n, ef);
    assert(b.best[0] == scored_node(f, start));
    assert(b.best.contains(b.best[0]));
    assert(seen_accounted(b, ef, f)) by {
        reveal(seen_accounted);
    }
    assert forall|x: Neighbor| #[trigger] b.best.contains(x) implies x == scored_node(f, x.id)
        && b.open.contains(x) by {
        assert(b.best[0] == x);
    }
    assert(follows(g, layer, start, none, b));
    assert(is_trace(g, layer, start, none, f, ef)) by {
        reveal(is_trace);
    }
    let trace = lemma_traced_run(g, layer, start, b, ef, f, n, none);
    let r = run(g, layer, b, ef, f, n);
    let list = r.best;
    assert forall|i: int| 0 <= i < list.len() implies seen_from(
        g,
        layer,
        start,
        trace,
        (#[trigger] list[i]).id,
    ) && trace.contains(list[i].id) by {
        assert(list.contains(list[i]));
        assert(r.visited.contains(list[i].id));
        lemma_beam_is_closed(r, ef, list[i]);
    }
    assert forall|id: u64| #[trigger] seen_from(g, layer, start, trace, id) implies accounted(
        list,
        ef,
        f,
        id,
    ) by {
        reveal(seen_accounted);
        assert(r.visited.contains(id));
    }
    assert(finds_by(g, layer, start, trace, list, ef, f));
}

} // verus!
