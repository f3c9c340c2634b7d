//! What holds of the index as a whole.

use crate::float32::lt;
use crate::hnsw::graph::{
    bare_node, degree_bound, lemma_relinked_valid, lemma_with_node_valid, links, on_layer,
    relinked, sound, valid, with_node, Graph,
};
use crate::hnsw::health::linked_to;
use crate::hnsw::index::hits;
use crate::hnsw::insert::{
    connected, connected_down, deduped, from_node, inserted_into, linked_back, linked_too, others,
    scored_from,
};
use crate::hnsw::select::{chosen, has_id, lemma_chosen};
use crate::hnsw::traverse::{
    beam_search, closest, descended, expanded, finished, improved, knn, landing, lemma_closest,
    lemma_improved, offered, run, started, stepped, zoomed, Beam,
};
use crate::oracle::from_query;
use crate::storage::exact::{law_nothing_beats_the_exact_answer, least, scored};
use crate::storage::neighbor::{
    arranged, law_precedes_is_a_total_order, lemma_arranged_members, lemma_inserted_members,
    precedes, Neighbor,
};
use vstd::prelude::*;

verus! {

/// A finite set that is not empty has a closest member.
pub proof fn lemma_closest_exists(open: Set<Neighbor>)
    requires
        open.finite(),
        !(open =~= Set::empty()),
    ensures
        open.contains(closest(open)),
{
    lemma_minimum(open);
    let x = choose|x: Neighbor|
        open.contains(x) && forall|y: Neighbor| #[trigger]
            open.contains(y) && y != x ==> precedes(x, y);
    lemma_closest(open, x);
}

/// The closest member comes before every other one.
pub proof fn lemma_closest_precedes(open: Set<Neighbor>, y: Neighbor)
    requires
        open.finite(),
        open.contains(y),
    ensures
        closest(open) == y || precedes(closest(open), y),
{
    lemma_minimum(open);
    let x = choose|x: Neighbor|
        open.contains(x) && forall|y: Neighbor| #[trigger]
            open.contains(y) && y != x ==> precedes(x, y);
    lemma_closest(open, x);
}

proof fn lemma_minimum(open: Set<Neighbor>)
    requires
        open.finite(),
        !(open =~= Set::empty()),
    ensures
        exists|x: Neighbor|
            open.contains(x) && forall|y: Neighbor| #[trigger]
                open.contains(y) && y != x ==> precedes(x, y),
    decreases open.len(),
{
    let a = open.choose();
    assert(open.contains(a));
    let rest = open.remove(a);
    if rest =~= Set::empty() {
        assert forall|y: Neighbor| #[trigger] open.contains(y) && y != a implies precedes(a, y) by {
            assert(rest.contains(y));
        }
    } else {
        lemma_minimum(rest);
        let b = choose|x: Neighbor|
            rest.contains(x) && forall|y: Neighbor| #[trigger]
                rest.contains(y) && y != x ==> precedes(x, y);
        law_precedes_is_a_total_order(a, b, a);
        let x = if precedes(a, b) {
            a
        } else {
            b
        };
        assert forall|y: Neighbor| #[trigger] open.contains(y) && y != x implies precedes(x, y) by {
            if y != a {
                assert(rest.contains(y));
            }
            law_precedes_is_a_total_order(a, b, y);
        }
        assert(open.contains(x));
    }
}

/// Following a link from a node with property `p` leads to one with it.
spec fn closed_under(
    g: Graph,
    layer: nat,
    f: spec_fn(u64) -> u32,
    p: spec_fn(Neighbor) -> bool,
) -> bool {
    forall|from: Neighbor, to: u64|
        p(from) && #[trigger] links(g, from.id, layer).contains(to) ==> p(
            Neighbor { id: to, distance: f(to) },
        )
}

/// Everything that a beam search holds has the property `p`.
spec fn holds(b: Beam, p: spec_fn(Neighbor) -> bool) -> bool {
    &&& b.open.finite()
    &&& forall|x: Neighbor| #[trigger] b.open.contains(x) ==> p(x)
    &&& forall|x: Neighbor| #[trigger] b.best.contains(x) ==> p(x)
    &&& b.best.len() >= 1
}

proof fn lemma_offered_holds(b: Beam, ef: nat, x: Neighbor, p: spec_fn(Neighbor) -> bool)
    requires
        holds(b, p),
        p(x),
    ensures
        holds(offered(b, ef, x), p),
{
    lemma_inserted_members(b.best, x);
    let front = b.best.drop_last();
    lemma_inserted_members(front, x);
    assert forall|y: Neighbor| #[trigger] front.contains(y) implies b.best.contains(y) by {
        assert(b.best[front.index_of(y)] == y);
    }
}

proof fn lemma_expanded_holds(
    b: Beam,
    ef: nat,
    f: spec_fn(u64) -> u32,
    list: Seq<u64>,
    p: spec_fn(Neighbor) -> bool,
)
    requires
        holds(b, p),
        forall|to: u64| #[trigger] list.contains(to) ==> p(Neighbor { id: to, distance: f(to) }),
    ensures
        holds(expanded(b, ef, f, list), p),
    decreases list.len(),
{
    if list.len() > 0 {
        let front = list.drop_last();
        assert forall|to: u64| #[trigger] front.contains(to) implies p(
            Neighbor { id: to, distance: f(to) },
        ) by {
            assert(list[front.index_of(to)] == to);
            assert(list.contains(to));
        }
        lemma_expanded_holds(b, ef, f, front, p);
        assert(list.contains(list[list.len() - 1]));
        let x = Neighbor { id: list.last(), distance: f(list.last()) };
        lemma_offered_holds(expanded(b, ef, f, front), ef, x, p);
    }
}

proof fn lemma_run_holds(
    g: Graph,
    layer: nat,
    b: Beam,
    ef: nat,
    f: spec_fn(u64) -> u32,
    steps: nat,
    p: spec_fn(Neighbor) -> bool,
)
    requires
        holds(b, p),
        closed_under(g, layer, f, p),
    ensures
        holds(run(g, layer, b, ef, f, steps), p),
    decreases steps,
{
    if steps > 0 && !finished(b, ef) {
        lemma_closest_exists(b.open);
        let x = closest(b.open);
        let rest = Beam { visited: b.visited, open: b.open.remove(x), best: b.best };
        assert(holds(rest, p));
        assert forall|to: u64| #[trigger] links(g, x.id, layer).contains(to) implies p(
            Neighbor { id: to, distance: f(to) },
        ) by {
            assert(p(x));
        }
        lemma_expanded_holds(rest, ef, f, links(g, x.id, layer), p);
        lemma_run_holds(
            g,
            layer,
            stepped(g, layer, b, ef, f),
            ef,
            f,
            (steps - 1) as nat,
            p,
        );
    }
}

/// What a beam search finds has every property that its start has and that
/// links pass on.
proof fn lemma_beam_holds(
    g: Graph,
    layer: nat,
    entry: u64,
    ef: nat,
    f: spec_fn(u64) -> u32,
    p: spec_fn(Neighbor) -> bool,
)
    requires
        p(Neighbor { id: entry, distance: f(entry) }),
        closed_under(g, layer, f, p),
    ensures
        beam_search(g, layer, entry, ef, f).len() >= 1,
        forall|x: Neighbor| #[trigger]
            beam_search(g, layer, entry, ef, f).contains(x) ==> p(x),
{
    let b = started(entry, f(entry));
    assert forall|x: Neighbor| #[trigger] b.best.contains(x) implies p(x) by {
        assert(b.best[0] == x);
    }
    lemma_run_holds(g, layer, b, ef, f, g.nodes.len(), p);
}

/// The greedy walk ends where every property holds that its start has and
/// that links pass on.
proof fn lemma_descended_holds(
    g: Graph,
    layer: nat,
    f: spec_fn(u64) -> u32,
    at: (u64, u32),
    p: spec_fn(u64) -> bool,
)
    requires
        p(at.0),
        at.1 == f(at.0),
        forall|from: u64, to: u64|
            p(from) && #[trigger] links(g, from, layer).contains(to) ==> p(to),
    ensures
        p(descended(g, layer, f, at).0),
        descended(g, layer, f, at).1 == f(descended(g, layer, f, at).0),
    decreases crate::float32::signed(at.1) + 0x8000_0000,
{
    let list = links(g, at.0, layer);
    lemma_improved(f, at, list);
    let next = improved(f, at, list);
    if lt(next.1, at.1) {
        assert(p(next.0));
        lemma_descended_holds(g, layer, f, next, p);
    }
}

/// Walking down from a node on the topmost layer, every node passed is on the
/// layer that the walk is on.
pub proof fn lemma_zoomed_on_layer(
    g: Graph,
    m: nat,
    top: nat,
    bottom: nat,
    f: spec_fn(u64) -> u32,
    at: (u64, u32),
)
    requires
        sound(g, m),
        bottom >= 1,
        on_layer(g, at.0, top),
        at.1 == f(at.0),
    ensures
        on_layer(
            g,
            zoomed(g, top, bottom, f, at).0,
            if top < bottom {
                top
            } else {
                (bottom - 1) as nat
            },
        ),
    decreases top,
{
    if top >= bottom {
        let p = |x: u64| on_layer(g, x, top);
        assert forall|from: u64, to: u64|
            p(from) && #[trigger] links(g, from, top).contains(to) implies p(to) by {
            lemma_link_on_layer(g, m, from, top, to);
        }
        lemma_descended_holds(g, top, f, at, p);
        let next = descended(g, top, f, at);
        assert(on_layer(g, next.0, (top - 1) as nat));
        lemma_zoomed_on_layer(g, m, (top - 1) as nat, bottom, f, next);
    }
}

proof fn lemma_link_on_layer(g: Graph, m: nat, from: u64, layer: nat, to: u64)
    requires
        sound(g, m),
        links(g, from, layer).contains(to),
    ensures
        on_layer(g, to, layer),
        to != from,
{
    let list = links(g, from, layer);
    let j = list.index_of(to);
    assert(g.nodes[from as int][layer as int][j] == to);
}

/// Replacing links by few enough links to other nodes on the layer keeps a
/// graph sound.
proof fn lemma_relinked_sound(g: Graph, m: nat, id: u64, layer: nat, list: Seq<u64>)
    requires
        sound(g, m),
        list.len() <= degree_bound(m, layer),
        forall|j: int|
            0 <= j < list.len() ==> (#[trigger] list[j]) != id && on_layer(g, list[j], layer),
    ensures
        sound(relinked(g, id, layer, list), m),
{
    let h = relinked(g, id, layer, list);
    assert forall|j: int| 0 <= j < list.len() implies #[trigger] list[j] < g.nodes.len() by {}
    lemma_relinked_valid(g, id, layer, list);
    if on_layer(g, id, layer) {
        assert forall|i: int, l: int| 0 <= i < h.nodes.len() && 0 <= l < h.nodes[i].len() implies (
        #[trigger] h.nodes[i][l]).len() <= degree_bound(m, l as nat) by {
            if !(i == id && l == layer) {
                assert(h.nodes[i][l] == g.nodes[i][l]);
            }
        }
        assert forall|i: int, l: int, j: int|
            0 <= i < h.nodes.len() && 0 <= l < h.nodes[i].len() && 0 <= j
                < h.nodes[i][l].len() implies (#[trigger] h.nodes[i][l][j]) != i && on_layer(
            h,
            h.nodes[i][l][j],
            l as nat,
        ) by {
            if i == id && l == layer {
                assert(h.nodes[i][l][j] == list[j]);
                assert(on_layer(g, list[j], layer));
            } else {
                assert(h.nodes[i][l] == g.nodes[i][l]);
                let x = g.nodes[i][l][j];
                assert(on_layer(g, x, l as nat));
            }
        }
    }
}

proof fn lemma_deduped(list: Seq<u64>)
    ensures
        deduped(list).len() <= list.len(),
        forall|x: u64| #[trigger] deduped(list).contains(x) ==> list.contains(x),
    decreases list.len(),
{
    if list.len() >= 2 {
        let front = list.drop_last();
        lemma_deduped(front);
        let r = deduped(list);
        assert forall|x: u64| #[trigger] r.contains(x) implies list.contains(x) by {
            let i = r.index_of(x);
            if i < deduped(front).len() {
                assert(deduped(front)[i] == x);
                assert(deduped(front).contains(x));
                assert(list[front.index_of(x)] == x);
            } else {
                assert(list[list.len() - 1] == x);
            }
        }
    }
}

pub proof fn lemma_others(list: Seq<Neighbor>, id: u64)
    ensures
        forall|x: Neighbor| #[trigger]
            others(list, id).contains(x) ==> list.contains(x) && x.id != id,
    decreases list.len(),
{
    if list.len() > 0 {
        let front = list.drop_last();
        lemma_others(front, id);
        let r = others(list, id);
        let s = others(front, id);
        assert forall|x: Neighbor| #[trigger] r.contains(x) implies list.contains(x) && x.id
            != id by {
            let i = r.index_of(x);
            if i < s.len() {
                assert(s[i] == x);
                assert(s.contains(x));
                assert(list[front.index_of(x)] == x);
            } else {
                assert(list[list.len() - 1] == x);
            }
        }
    }
}

/// In a sound graph every link leads to another node of the same layer, and no node
/// has more links than the bound, which is twice as high on the lowest layer.
pub proof fn law_links_of_a_sound_graph(g: Graph, m: nat, x: u64, layer: nat, to: u64)
    requires
        sound(g, m),
    ensures
        links(g, x, layer).contains(to) ==> to != x && to < g.nodes.len() && layer
            < g.nodes[to as int].len(),
        layer == 0 ==> links(g, x, layer).len() <= 2 * m,
        layer > 0 ==> links(g, x, layer).len() <= m,
        g.entry matches Some((id, level)) ==> id < g.nodes.len() && g.nodes[id as int].len()
            == level + 1,
{
    if links(g, x, layer).contains(to) {
        lemma_link_on_layer(g, m, x, layer, to);
    }
    if on_layer(g, x, layer) {
        assert(g.nodes[x as int][layer as int].len() <= degree_bound(m, layer));
    }
}

/// The links of a node once it links to one more are links it had, or that
/// one, and no more than there may be.
proof fn lemma_linked_too(
    base: u64,
    list: Seq<u64>,
    id: u64,
    max: nat,
    pair: spec_fn(u64, u64) -> u32,
)
    requires
        list.len() <= max,
    ensures
        linked_too(base, list, id, max, pair).len() <= max,
        forall|x: u64| #[trigger]
            linked_too(base, list, id, max, pair).contains(x) ==> list.contains(x) || x == id,
{
    let r = linked_too(base, list, id, max, pair);
    let longer = list.push(id);
    assert forall|x: u64| #[trigger] longer.contains(x) implies list.contains(x) || x == id by {
        let i = longer.index_of(x);
        if i < list.len() {
            assert(list[i] == x);
        }
    }
    if !list.contains(id) && list.len() + 1 > max {
        let scored = scored_from(base, longer, pair);
        let cands = arranged(scored);
        lemma_arranged_members(scored);
        lemma_chosen(cands, max, pair);
        assert forall|x: u64| #[trigger] r.contains(x) implies list.contains(x) || x == id by {
            let i = r.index_of(x);
            assert(has_id(cands, r[i]));
            let y = choose|y: Neighbor| #[trigger] cands.contains(y) && y.id == x;
            assert(scored.contains(y));
            let k = scored.index_of(y);
            assert(longer[k] == x);
            assert(longer.contains(x));
        }
    }
}

/// Making nodes link back keeps a graph sound and touches no other layer.
proof fn lemma_linked_back_sound(
    g: Graph,
    m: nat,
    layer: nat,
    list: Seq<u64>,
    id: u64,
    pair: spec_fn(u64, u64) -> u32,
)
    requires
        sound(g, m),
        on_layer(g, id, layer),
        forall|j: int| 0 <= j < list.len() ==> #[trigger] list[j] != id,
    ensures
        sound(linked_back(g, layer, list, id, degree_bound(m, layer), pair), m),
        linked_back(g, layer, list, id, degree_bound(m, layer), pair).nodes.len() == g.nodes.len(),
        linked_back(g, layer, list, id, degree_bound(m, layer), pair).entry == g.entry,
        forall|x: u64, l: nat| #[trigger]
            on_layer(linked_back(g, layer, list, id, degree_bound(m, layer), pair), x, l)
                <==> on_layer(g, x, l),
        forall|x: u64, l: nat|
            l != layer ==> #[trigger] links(
                linked_back(g, layer, list, id, degree_bound(m, layer), pair),
                x,
                l,
            ) == links(g, x, l),
    decreases list.len(),
{
    if list.len() > 0 {
        let front = list.drop_last();
        let max = degree_bound(m, layer);
        lemma_linked_back_sound(g, m, layer, front, id, pair);
        let h = linked_back(g, layer, front, id, max, pair);
        let nb = list.last();
        assert(list[list.len() - 1] != id);
        let cur = links(h, nb, layer);
        if on_layer(h, nb, layer) {
            assert(h.nodes[nb as int][layer as int].len() <= max);
        }
        let next = linked_too(nb, cur, id, max, pair);
        lemma_linked_too(nb, cur, id, max, pair);
        assert forall|j: int| 0 <= j < next.len() implies (#[trigger] next[j]) != nb && on_layer(
            h,
            next[j],
            layer,
        ) by {
            assert(next.contains(next[j]));
            if next[j] != id {
                lemma_link_on_layer(h, m, nb, layer, next[j]);
            } else {
                assert(on_layer(g, id, layer));
            }
        }
        lemma_relinked_sound(h, m, nb, layer, next);
        assert forall|j: int| 0 <= j < next.len() implies #[trigger] next[j] < h.nodes.len() by {}
        lemma_relinked_valid(h, nb, layer, next);
        let r = linked_back(g, layer, list, id, max, pair);
        assert(r == relinked(h, nb, layer, next));
        assert forall|x: u64, l: nat| #[trigger] on_layer(r, x, l) <==> on_layer(g, x, l) by {
            assert(on_layer(h, x, l) <==> on_layer(g, x, l));
        }
        assert forall|x: u64, l: nat| l != layer implies #[trigger] links(r, x, l) == links(
            g,
            x,
            l,
        ) by {
            assert(links(h, x, l) == links(g, x, l));
        }
    }
}

/// Connecting a node on a layer keeps a graph sound.
pub proof fn lemma_connected_sound(
    g: Graph,
    m: nat,
    layer: nat,
    id: u64,
    at: u64,
    ef: nat,
    pair: spec_fn(u64, u64) -> u32,
)
    requires
        sound(g, m),
        on_layer(g, id, layer),
        on_layer(g, at, layer),
        links(g, id, layer).len() == 0,
    ensures
        sound(connected(g, layer, id, at, m, ef, pair).0, m),
        on_layer(g, connected(g, layer, id, at, m, ef, pair).1, layer),
        connected(g, layer, id, at, m, ef, pair).0.nodes.len() == g.nodes.len(),
        connected(g, layer, id, at, m, ef, pair).0.entry == g.entry,
        forall|x: u64, l: nat| #[trigger]
            on_layer(connected(g, layer, id, at, m, ef, pair).0, x, l) <==> on_layer(g, x, l),
        forall|x: u64, l: nat|
            l != layer ==> #[trigger] links(connected(g, layer, id, at, m, ef, pair).0, x, l)
                == links(g, x, l),
{
    let f = from_node(id, pair);
    let near = beam_search(g, layer, at, ef, f);
    let p = |x: Neighbor| on_layer(g, x.id, layer);
    assert forall|from: Neighbor, to: u64|
        p(from) && #[trigger] links(g, from.id, layer).contains(to) implies p(
        Neighbor { id: to, distance: f(to) },
    ) by {
        lemma_link_on_layer(g, m, from.id, layer, to);
    }
    lemma_beam_holds(g, layer, at, ef, f, p);
    assert(near.contains(near[0]));
    assert(p(near[0]));
    let cands = others(near, id);
    lemma_others(near, id);
    let list = chosen(cands, m, pair);
    lemma_chosen(cands, m, pair);
    assert forall|j: int| 0 <= j < list.len() implies (#[trigger] list[j]) != id && on_layer(
        g,
        list[j],
        layer,
    ) by {
        assert(has_id(cands, list[j]));
        let x = choose|x: Neighbor| #[trigger] cands.contains(x) && x.id == list[j];
        assert(near.contains(x));
        assert(p(x));
    }
    assert(links(g, id, layer) + list =~= list);
    let own = deduped(list);
    lemma_deduped(list);
    assert forall|j: int| 0 <= j < own.len() implies (#[trigger] own[j]) != id && on_layer(
        g,
        own[j],
        layer,
    ) by {
        assert(own.contains(own[j]));
        assert(list.contains(own[j]));
        let k = list.index_of(own[j]);
        assert(on_layer(g, list[k], layer));
    }
    lemma_relinked_sound(g, m, id, layer, own);
    assert forall|j: int| 0 <= j < own.len() implies #[trigger] own[j] < g.nodes.len() by {}
    lemma_relinked_valid(g, id, layer, own);
    let h = relinked(g, id, layer, own);
    assert(on_layer(g, id, layer) && on_layer(h, id, layer));
    lemma_linked_back_sound(h, m, layer, list, id, pair);
    let r = connected(g, layer, id, at, m, ef, pair).0;
    assert forall|x: u64, l: nat| #[trigger] on_layer(r, x, l) <==> on_layer(g, x, l) by {
        assert(on_layer(h, x, l) <==> on_layer(g, x, l));
    }
    assert forall|x: u64, l: nat| l != layer implies #[trigger] links(r, x, l) == links(
        g,
        x,
        l,
    ) by {
        assert(links(h, x, l) == links(g, x, l));
    }
}

pub proof fn lemma_connected_down_sound(
    g: Graph,
    m: nat,
    layers: nat,
    id: u64,
    at: u64,
    ef: nat,
    pair: spec_fn(u64, u64) -> u32,
)
    requires
        sound(g, m),
        layers > 0 ==> on_layer(g, id, (layers - 1) as nat) && on_layer(
            g,
            at,
            (layers - 1) as nat,
        ),
        forall|l: nat| l < layers ==> (#[trigger] links(g, id, l)).len() == 0,
    ensures
        sound(connected_down(g, layers, id, at, m, ef, pair), m),
        connected_down(g, layers, id, at, m, ef, pair).nodes.len() == g.nodes.len(),
        connected_down(g, layers, id, at, m, ef, pair).entry == g.entry,
        forall|x: u64, l: nat| #[trigger]
            on_layer(connected_down(g, layers, id, at, m, ef, pair), x, l) <==> on_layer(g, x, l),
    decreases layers,
{
    if layers > 0 {
        let layer = (layers - 1) as nat;
        assert(links(g, id, layer).len() == 0);
        lemma_connected_sound(g, m, layer, id, at, ef, pair);
        let (h, next) = connected(g, layer, id, at, m, ef, pair);
        if layer > 0 {
            assert(on_layer(h, id, layer) && on_layer(h, next, layer)) by {
                assert(on_layer(g, id, layer) && on_layer(g, next, layer));
            }
        }
        assert forall|l: nat| l < layer implies (#[trigger] links(h, id, l)).len() == 0 by {
            assert(links(g, id, l).len() == 0);
        }
        lemma_connected_down_sound(h, m, layer, id, next, ef, pair);
        let r = connected_down(g, layers, id, at, m, ef, pair);
        assert forall|x: u64, l: nat| #[trigger] on_layer(r, x, l) <==> on_layer(g, x, l) by {
            assert(on_layer(h, x, l) <==> on_layer(g, x, l));
        }
    }
}

/// Adding a node keeps a graph well-built.
pub proof fn lemma_with_node_sound(g: Graph, m: nat, id: u64, level: nat)
    requires
        sound(g, m),
        g.nodes.len() <= id,
    ensures
        sound(with_node(g, id, level), m),
{
    let h = with_node(g, id, level);
    lemma_with_node_valid(g, id, level);
    assert(sound(h, m)) by {
        assert forall|i: int, l: int| 0 <= i < h.nodes.len() && 0 <= l < h.nodes[i].len() implies (
        #[trigger] h.nodes[i][l]).len() <= degree_bound(m, l as nat) by {
            if i < g.nodes.len() {
                assert(h.nodes[i][l] == g.nodes[i][l]);
            }
        }
        assert forall|i: int, l: int, j: int|
            0 <= i < h.nodes.len() && 0 <= l < h.nodes[i].len() && 0 <= j
                < h.nodes[i][l].len() implies (#[trigger] h.nodes[i][l][j]) != i && on_layer(
            h,
            h.nodes[i][l][j],
            l as nat,
        ) by {
            if i < g.nodes.len() {
                let x = g.nodes[i][l][j];
                assert(on_layer(g, x, l as nat));
            }
        }
    }
}

/// Inserting a node keeps a graph well-built: no node links to itself, links
/// lead to nodes on the same layer, and no node has too many links.
pub proof fn law_insert_keeps_the_graph_sound(
    g: Graph,
    id: u64,
    level: nat,
    m: nat,
    ef: nat,
    pair: spec_fn(u64, u64) -> u32,
)
    requires
        sound(g, m),
        g.nodes.len() <= id,
    ensures
        sound(inserted_into(g, id, level, m, ef, pair), m),
        inserted_into(g, id, level, m, ef, pair).nodes.len() == id + 1,
        forall|x: u64, l: nat| #[trigger]
            on_layer(inserted_into(g, id, level, m, ef, pair), x, l) <==> on_layer(
                with_node(g, id, level),
                x,
                l,
            ),
{
    let h = with_node(g, id, level);
    lemma_with_node_sound(g, m, id, level);
    assert(h.nodes[id as int] == bare_node(level));
    match g.entry {
        None => {},
        Some((entry, top)) => {
            let f = from_node(id, pair);
            lemma_zoomed_on_layer(h, m, top, level + 1, f, (entry, f(entry)));
            let at = zoomed(h, top, level + 1, f, (entry, f(entry))).0;
            let low = if level < top {
                level
            } else {
                top
            };
            lemma_connected_down_sound(h, m, low + 1, id, at, ef, pair);
            let c = connected_down(h, low + 1, id, at, m, ef, pair);
            if level > top {
                assert(on_layer(h, id, level) && on_layer(c, id, level));
                assert(!on_layer(h, id, level + 1) && !on_layer(c, id, level + 1));
            }
            let r = inserted_into(g, id, level, m, ef, pair);
            assert(r.nodes == c.nodes);
            assert forall|x: u64, l: nat| #[trigger] on_layer(r, x, l) <==> on_layer(h, x, l) by {
                assert(on_layer(c, x, l) <==> on_layer(h, x, l));
            }
        },
    }
}

/// Every hit of a search carries its own distance.
pub proof fn law_hits_carry_their_distances(
    g: Graph,
    f: spec_fn(u64) -> u32,
    k: nat,
    ef: nat,
    hit: Neighbor,
)
    requires
        knn(g, f, k, ef).contains(hit),
    ensures
        hit.distance == f(hit.id),
{
    let p = |x: Neighbor| x.distance == f(x.id);
    let width = if ef < k {
        k
    } else {
        ef
    };
    let at = landing(g, f);
    lemma_beam_holds(g, 0, at, width, f, p);
    let all = beam_search(g, 0, at, width, f);
    let i = knn(g, f, k, ef).index_of(hit);
    assert(all[i] == hit);
    assert(all.contains(hit));
}

/// No hit beats the exact answer: each one comes after the one in its place
/// there, or is that one.
pub proof fn law_no_hit_beats_the_exact_answer(
    g: Graph,
    f: spec_fn(Seq<u32>, Seq<u32>) -> u32,
    query: Seq<u32>,
    rows: Seq<Seq<u32>>,
    k: nat,
    ef: nat,
    exact: Seq<Neighbor>,
    i: int,
)
    requires
        hits(knn(g, from_query(f, query, rows), k, ef), rows.len(), k),
        least(exact, scored(f, query, rows, 0, rows.len() as int), k),
        0 <= i < knn(g, from_query(f, query, rows), k, ef).len(),
    ensures
        i < exact.len(),
        exact[i] == knn(g, from_query(f, query, rows), k, ef)[i] || precedes(
            exact[i],
            knn(g, from_query(f, query, rows), k, ef)[i],
        ),
{
    let list = knn(g, from_query(f, query, rows), k, ef);
    let pool = scored(f, query, rows, 0, rows.len() as int);
    assert forall|x: Neighbor| #[trigger] list.contains(x) implies pool.contains(x) by {
        law_hits_carry_their_distances(g, from_query(f, query, rows), k, ef, x);
    }
    law_nothing_beats_the_exact_answer(exact, list, pool, k, i);
}

/// A node that nothing links to on the lowest layer is found by no search,
/// however wide, unless the walk down the upper layers ends at it.
pub proof fn law_orphans_are_not_found(
    g: Graph,
    f: spec_fn(u64) -> u32,
    k: nat,
    ef: nat,
    id: u64,
    hit: Neighbor,
)
    requires
        valid(g),
        !linked_to(g, id, 0),
        landing(g, f) != id,
        knn(g, f, k, ef).contains(hit),
    ensures
        hit.id != id,
{
    let p = |x: Neighbor| x.id != id;
    let width = if ef < k {
        k
    } else {
        ef
    };
    let at = landing(g, f);
    assert forall|from: Neighbor, to: u64|
        p(from) && #[trigger] links(g, from.id, 0).contains(to) implies p(
        Neighbor { id: to, distance: f(to) },
    ) by {
        if from.id < g.nodes.len() {
            assert(to == id ==> linked_to(g, id, 0));
        }
    }
    lemma_beam_holds(g, 0, at, width, f, p);
    let all = beam_search(g, 0, at, width, f);
    let i = knn(g, f, k, ef).index_of(hit);
    assert(all[i] == hit);
    assert(all.contains(hit));
}

/// The walk down the upper layers does not end at a node that nothing links
/// to, unless it is the entry point.
pub proof fn law_unlinked_nodes_are_not_landed_on(g: Graph, f: spec_fn(u64) -> u32, id: u64)
    requires
        valid(g),
        forall|layer: nat| layer >= 1 ==> !#[trigger] linked_to(g, id, layer),
        g.entry matches Some((entry, _)) && entry != id,
    ensures
        landing(g, f) != id,
{
    let (entry, level) = g.entry->0;
    lemma_zoomed_elsewhere(g, level, f, (entry, f(entry)), id);
}

proof fn lemma_zoomed_elsewhere(
    g: Graph,
    top: nat,
    f: spec_fn(u64) -> u32,
    at: (u64, u32),
    id: u64,
)
    requires
        forall|layer: nat| layer >= 1 ==> !#[trigger] linked_to(g, id, layer),
        at.0 != id,
        at.1 == f(at.0),
    ensures
        zoomed(g, top, 1, f, at).0 != id,
    decreases top,
{
    if top >= 1 {
        let p = |x: u64| x != id;
        assert forall|from: u64, to: u64|
            p(from) && #[trigger] links(g, from, top).contains(to) implies p(to) by {
            if from < g.nodes.len() {
                assert(!linked_to(g, id, top));
            }
        }
        lemma_descended_holds(g, top, f, at, p);
        lemma_zoomed_elsewhere(g, (top - 1) as nat, f, descended(g, top, f, at), id);
    }
}

} // verus!
