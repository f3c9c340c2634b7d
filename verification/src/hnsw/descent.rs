//! What the greedy walk leads to.

use crate::float32::{is_nan, law_less_is_smaller, lt, signed, smaller};
use crate::hnsw::graph::{links, Graph};
use crate::hnsw::traverse::{descended, improved, landing, lemma_improved, zoomed};
use vstd::prelude::*;

verus! {

/// A step of the walk leads over a link to a node whose distance is a smaller
/// number, and to nothing farther away than another link does. Of several that are
/// as near, it takes the first.
pub open spec fn best_step(
    g: Graph,
    layer: nat,
    f: spec_fn(u64) -> u32,
    from: u64,
    to: u64,
) -> bool {
    &&& links(g, from, layer).contains(to)
    &&& smaller(f(to), f(from))
    &&& forall|other: u64| #[trigger]
        links(g, from, layer).contains(other) ==> !smaller(f(other), f(to))
    &&& exists|i: int|
        0 <= i < links(g, from, layer).len() && comes_first(links(g, from, layer), i, f, to)
}

/// The node at this place of a list is nearer than all that come before it.
pub open spec fn comes_first(list: Seq<u64>, i: int, f: spec_fn(u64) -> u32, to: u64) -> bool {
    &&& list[i] == to
    &&& forall|j: int|
        0 <= j < i ==> is_nan(f(#[trigger] list[j])) || smaller(f(to), f(list[j]))
}

/// A walk of best steps from one node to another, which has no link to anything
/// nearer.
pub open spec fn is_descent(
    g: Graph,
    layer: nat,
    f: spec_fn(u64) -> u32,
    path: Seq<u64>,
    from: u64,
    to: u64,
) -> bool {
    &&& 1 <= path.len()
    &&& path[0] == from
    &&& path[path.len() - 1] == to
    &&& forall|i: int|
        0 <= i < path.len() - 1 ==> #[trigger] best_step(g, layer, f, path[i], path[i + 1])
    &&& forall|other: u64| #[trigger]
        links(g, to, layer).contains(other) ==> !smaller(f(other), f(to))
}

/// A walk leads from one node to another.
pub open spec fn descends(
    g: Graph,
    layer: nat,
    f: spec_fn(u64) -> u32,
    from: u64,
    to: u64,
) -> bool {
    exists|path: Seq<u64>| is_descent(g, layer, f, path, from, to)
}

/// A round of the walk ends with nothing farther away than any of the links.
proof fn lemma_round_is_best(f: spec_fn(u64) -> u32, at: (u64, u32), list: Seq<u64>, other: u64)
    requires
        list.contains(other),
    ensures
        !smaller(f(other), improved(f, at, list).1),
    decreases list.len(),
{
    let front = list.drop_last();
    let so_far = improved(f, at, front);
    let next = list.last();
    law_less_is_smaller(f(next), so_far.1);
    if other != next {
        let i = list.index_of(other);
        assert(front[i] == other);
        lemma_round_is_best(f, at, front, other);
    }
}

/// A round of the walk takes the first of the nearest links.
proof fn lemma_round_takes_the_first(f: spec_fn(u64) -> u32, at: (u64, u32), list: Seq<u64>)
    ensures
        improved(f, at, list) == at || exists|i: int|
            0 <= i < list.len() && comes_first(list, i, f, improved(f, at, list).0),
    decreases list.len(),
{
    if list.len() > 0 {
        let front = list.drop_last();
        let so_far = improved(f, at, front);
        let next = list.last();
        lemma_round_takes_the_first(f, at, front);
        law_less_is_smaller(f(next), so_far.1);
        if lt(f(next), so_far.1) {
            let last = list.len() - 1;
            assert forall|j: int| 0 <= j < last implies is_nan(f(#[trigger] list[j])) || smaller(
                f(next),
                f(list[j]),
            ) by {
                assert(front[j] == list[j]);
                assert(front.contains(list[j]));
                lemma_round_is_best(f, at, front, list[j]);
            }
            assert(comes_first(list, last, f, next));
        } else if so_far != at {
            let i = choose|i: int|
                0 <= i < front.len() && comes_first(front, i, f, so_far.0);
            assert forall|j: int| 0 <= j < i implies is_nan(f(#[trigger] list[j])) || smaller(
                f(so_far.0),
                f(list[j]),
            ) by {
                assert(front[j] == list[j]);
            }
            assert(comes_first(list, i, f, so_far.0));
        }
    }
}

/// The walk on a layer goes from a node to the nearest of its links for as long
/// as that one is nearer, and ends at a node none of whose links is.
pub proof fn law_a_walk_ends_where_no_link_is_nearer(
    g: Graph,
    layer: nat,
    f: spec_fn(u64) -> u32,
    from: u64,
)
    ensures
        descends(g, layer, f, from, descended(g, layer, f, (from, f(from))).0),
        descended(g, layer, f, (from, f(from))).1 == f(
            descended(g, layer, f, (from, f(from))).0,
        ),
    decreases signed(f(from)) + 0x8000_0000,
{
    let at = (from, f(from));
    let list = links(g, from, layer);
    let next = improved(f, at, list);
    let to = descended(g, layer, f, at).0;
    lemma_improved(f, at, list);
    assert forall|other: u64| #[trigger] list.contains(other) implies !smaller(
        f(other),
        next.1,
    ) by {
        lemma_round_is_best(f, at, list, other);
    }
    law_less_is_smaller(next.1, f(from));
    lemma_round_takes_the_first(f, at, list);
    if lt(next.1, f(from)) {
        assert(next == (next.0, f(next.0)));
        law_a_walk_ends_where_no_link_is_nearer(g, layer, f, next.0);
        let rest = choose|path: Seq<u64>| is_descent(g, layer, f, path, next.0, to);
        let path = seq![from] + rest;
        assert(best_step(g, layer, f, from, next.0));
        assert forall|i: int| 0 <= i < path.len() - 1 implies #[trigger] best_step(
            g,
            layer,
            f,
            path[i],
            path[i + 1],
        ) by {
            if i > 0 {
                assert(best_step(g, layer, f, rest[i - 1], rest[i - 1 + 1]));
            }
        }
        assert(is_descent(g, layer, f, path, from, to));
    } else {
        assert(next == at);
        assert(is_descent(g, layer, f, seq![from], from, to));
    }
}

/// The walks lead down layer by layer, each from where the one above it ended.
pub open spec fn is_way_down(
    g: Graph,
    top: nat,
    bottom: nat,
    f: spec_fn(u64) -> u32,
    stops: Seq<u64>,
    from: u64,
    to: u64,
) -> bool {
    &&& stops.len() == (if top < bottom {
        1
    } else {
        top - bottom + 2
    })
    &&& stops[0] == from
    &&& stops[stops.len() - 1] == to
    &&& forall|i: int|
        0 <= i < stops.len() - 1 ==> #[trigger] descends(
            g,
            (top - i) as nat,
            f,
            stops[i],
            stops[i + 1],
        )
}

/// There is a way down from one node to another.
pub open spec fn leads_down(
    g: Graph,
    top: nat,
    bottom: nat,
    f: spec_fn(u64) -> u32,
    from: u64,
    to: u64,
) -> bool {
    exists|stops: Seq<u64>| is_way_down(g, top, bottom, f, stops, from, to)
}

/// On the way down there is one walk on every layer from the highest to the
/// lowest, and none is left out.
pub proof fn law_every_layer_is_walked(
    g: Graph,
    top: nat,
    bottom: nat,
    f: spec_fn(u64) -> u32,
    from: u64,
)
    requires
        bottom > 0,
    ensures
        leads_down(g, top, bottom, f, from, zoomed(g, top, bottom, f, (from, f(from))).0),
        zoomed(g, top, bottom, f, (from, f(from))).1 == f(
            zoomed(g, top, bottom, f, (from, f(from))).0,
        ),
    decreases top,
{
    let to = zoomed(g, top, bottom, f, (from, f(from))).0;
    if top < bottom {
        assert(is_way_down(g, top, bottom, f, seq![from], from, to));
    } else {
        law_a_walk_ends_where_no_link_is_nearer(g, top, f, from);
        let next = descended(g, top, f, (from, f(from))).0;
        let below = (top - 1) as nat;
        law_every_layer_is_walked(g, below, bottom, f, next);
        let rest = choose|stops: Seq<u64>| is_way_down(g, below, bottom, f, stops, next, to);
        let stops = seq![from] + rest;
        assert forall|i: int| 0 <= i < stops.len() - 1 implies #[trigger] descends(
            g,
            (top - i) as nat,
            f,
            stops[i],
            stops[i + 1],
        ) by {
            if i > 0 {
                assert(descends(g, (below - (i - 1)) as nat, f, rest[i - 1], rest[i - 1 + 1]));
            }
        }
        assert(is_way_down(g, top, bottom, f, stops, from, to));
    }
}

/// A search of the lowest layer starts where the walks on all layers above it
/// lead, from the entry point and the highest layer on.
pub proof fn law_a_search_lands_below_the_walks(g: Graph, f: spec_fn(u64) -> u32)
    requires
        g.entry is Some,
    ensures
        ({
            let (id, level) = g.entry->0;
            leads_down(g, level, 1, f, id, landing(g, f))
        }),
{
    let (id, level) = g.entry->0;
    law_every_layer_is_walked(g, level, 1, f, id);
}

} // verus!
