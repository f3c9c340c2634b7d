//! What an insertion links.

use crate::hnsw::beam::{accounted, is_beam, law_a_beam_search_finds_a_beam};
use crate::hnsw::descent::{law_every_layer_is_walked, leads_down};
use crate::hnsw::graph::{
    degree_bound, lemma_relinked_valid, lemma_with_node_valid, links, on_layer, relinked, valid,
    with_node, Graph,
};
use crate::hnsw::insert::{
    connected, connected_down, deduped, from_node, inserted_into, linked_back, linked_too, others,
    scored_from,
};
use crate::hnsw::laws::lemma_others;
use crate::hnsw::reach::lemma_zoomed_is_a_node;
use crate::hnsw::select::chosen;
use crate::hnsw::spread::{first_at, is_spread, law_the_choice_is_spread, sifts};
use crate::hnsw::tidy::{
    lemma_beam_distinct, lemma_chosen_distinct, lemma_deduped_same, lemma_others_distinct,
};
use crate::hnsw::traverse::{beam_search, zoomed};
use crate::storage::neighbor::{arranged, in_order, lemma_arranged_members, Neighbor};
use vstd::prelude::*;

verus! {

/// The candidates are exactly the nodes that `base` links to, and `id`, with
/// their distances from `base`, the closest first.
pub open spec fn candidates_of(
    cands: Seq<Neighbor>,
    base: u64,
    list: Seq<u64>,
    id: u64,
    pair: spec_fn(u64, u64) -> u32,
) -> bool {
    &&& cands.len() == list.len() + 1
    &&& in_order(cands)
    &&& forall|x: Neighbor| #[trigger]
        cands.contains(x) <==> x.distance == pair(base, x.id) && (list.contains(x.id) || x.id == id)
}

/// The links of `base` before and after it is asked to link to `id`: it does if
/// there is room, and otherwise keeps a spread choice of all of them.
pub open spec fn links_back(
    before: Seq<u64>,
    after: Seq<u64>,
    base: u64,
    id: u64,
    max: nat,
    pair: spec_fn(u64, u64) -> u32,
) -> bool {
    if before.contains(id) {
        after == before
    } else if before.len() < max {
        after == before.push(id)
    } else {
        exists|cands: Seq<Neighbor>| #[trigger]
            candidates_of(cands, base, before, id, pair) && is_spread(after, cands, max, pair)
    }
}

/// How `id` was linked on a layer when the graph `g` became `h`: it links to a
/// spread choice of at most `m` of a beam that was found from `at`, those link
/// back, up to `m` links or twice as many on the lowest layer, and nothing else
/// changed there.
pub open spec fn joined(
    g: Graph,
    h: Graph,
    layer: nat,
    id: u64,
    at: u64,
    near: Seq<Neighbor>,
    m: nat,
    ef: nat,
    pair: spec_fn(u64, u64) -> u32,
) -> bool {
    &&& is_beam(g, layer, at, near, ef, from_node(id, pair))
    &&& is_spread(links(h, id, layer), near.filter(|x: Neighbor| x.id != id), m, pair)
    &&& forall|x: u64| #[trigger]
        links(h, id, layer).contains(x) && on_layer(g, x, layer) ==> links_back(
            links(g, x, layer),
            links(h, x, layer),
            x,
            id,
            if layer == 0 {
                2 * m
            } else {
                m
            },
            pair,
        )
    &&& forall|x: u64|
        x != id && !links(h, id, layer).contains(x) ==> #[trigger] links(h, x, layer) == links(
            g,
            x,
            layer,
        )
}

/// The same nodes are on the same layers.
pub open spec fn same_shape(g: Graph, h: Graph) -> bool {
    &&& g.nodes.len() == h.nodes.len()
    &&& forall|x: u64, l: nat|
        #![trigger on_layer(g, x, l)]
        #![trigger on_layer(h, x, l)]
        on_layer(g, x, l) <==> on_layer(h, x, l)
}

/// The links on a layer are the same.
pub open spec fn same_on(g: Graph, h: Graph, layer: nat) -> bool {
    forall|x: u64|
        #![trigger links(g, x, layer)]
        #![trigger links(h, x, layer)]
        links(g, x, layer) == links(h, x, layer)
}

proof fn lemma_others_is_filter(list: Seq<Neighbor>, id: u64)
    ensures
        others(list, id) == list.filter(|x: Neighbor| x.id != id),
    decreases list.len(),
{
    reveal(Seq::filter);
    if list.len() > 0 {
        lemma_others_is_filter(list.drop_last(), id);
    }
}

proof fn lemma_links_back(
    base: u64,
    list: Seq<u64>,
    id: u64,
    max: nat,
    pair: spec_fn(u64, u64) -> u32,
)
    ensures
        links_back(list, linked_too(base, list, id, max, pair), base, id, max, pair),
        forall|i: int|
            0 <= i < linked_too(base, list, id, max, pair).len() ==> list.contains(
                #[trigger] linked_too(base, list, id, max, pair)[i],
            ) || linked_too(base, list, id, max, pair)[i] == id,
{
    let after = linked_too(base, list, id, max, pair);
    if !list.contains(id) && list.len() >= max {
        let longer = list.push(id);
        let scored = scored_from(base, longer, pair);
        let cands = arranged(scored);
        lemma_arranged_members(scored);
        assert forall|x: Neighbor| #[trigger] cands.contains(x) <==> x.distance == pair(base, x.id)
            && (list.contains(x.id) || x.id == id) by {
            if cands.contains(x) {
                let i = scored.index_of(x);
                assert(scored[i] == x);
                assert(longer[i] == x.id);
                if i < list.len() {
                    assert(list[i] == x.id);
                }
            }
            if x.distance == pair(base, x.id) && (list.contains(x.id) || x.id == id) {
                let i = if x.id == id {
                    list.len() as int
                } else {
                    list.index_of(x.id)
                };
                assert(longer[i] == x.id);
                assert(scored[i] == x);
                assert(scored.contains(x));
            }
        }
        assert(candidates_of(cands, base, list, id, pair));
        law_the_choice_is_spread(cands, max, pair);
        let (kept, passed) = choose|kept: Seq<int>, passed: Seq<int>| #[trigger]
            sifts(kept, passed, cands, max, pair) && first_at(after, kept + passed, cands, max);
        assert forall|i: int| 0 <= i < after.len() implies list.contains(#[trigger] after[i])
            || after[i] == id by {
            let at = (kept + passed)[i];
            assert(0 <= at < cands.len());
            assert(cands.contains(cands[at]));
        }
    }
}

proof fn lemma_relinked_links(g: Graph, id: u64, layer: nat, list: Seq<u64>)
    ensures
        same_shape(g, relinked(g, id, layer, list)),
        forall|x: u64, l: nat| #[trigger]
            links(relinked(g, id, layer, list), x, l) == (if x == id && l == layer && on_layer(
                g,
                x,
                l,
            ) {
                list
            } else {
                links(g, x, l)
            }),
{
}

/// Every node of the list is asked once to link back.
proof fn lemma_linked_back_links(
    g: Graph,
    layer: nat,
    list: Seq<u64>,
    id: u64,
    max: nat,
    pair: spec_fn(u64, u64) -> u32,
)
    requires
        valid(g),
        list.no_duplicates(),
        id < g.nodes.len(),
    ensures
        ({
            let h = linked_back(g, layer, list, id, max, pair);
            &&& valid(h)
            &&& h.entry == g.entry
            &&& same_shape(g, h)
            &&& forall|x: u64, l: nat| #[trigger]
                links(h, x, l) == (if l == layer && list.contains(x) && on_layer(g, x, l) {
                    linked_too(x, links(g, x, l), id, max, pair)
                } else {
                    links(g, x, l)
                })
        }),
    decreases list.len(),
{
    if list.len() > 0 {
        let front = list.drop_last();
        let nb = list.last();
        assert forall|i: int, j: int|
            0 <= i < front.len() && 0 <= j < front.len() && i != j implies front[i] != front[j] by {
            assert(list[i] != list[j]);
        }
        lemma_linked_back_links(g, layer, front, id, max, pair);
        let h = linked_back(g, layer, front, id, max, pair);
        let new = linked_too(nb, links(h, nb, layer), id, max, pair);
        lemma_links_back(nb, links(h, nb, layer), id, max, pair);
        lemma_relinked_links(h, nb, layer, new);
        assert forall|j: int| 0 <= j < new.len() implies #[trigger] new[j] < h.nodes.len() by {
            if new[j] != id {
                let was = links(h, nb, layer);
                let i = was.index_of(new[j]);
                assert(h.nodes[nb as int][layer as int][i] < h.nodes.len());
            }
        }
        lemma_relinked_valid(h, nb, layer, new);
        let r = linked_back(g, layer, list, id, max, pair);
        assert(r == relinked(h, nb, layer, new));
        assert(!front.contains(nb)) by {
            if front.contains(nb) {
                let i = front.index_of(nb);
                assert(list[i] == list[list.len() - 1]);
            }
        }
        assert forall|x: u64| list.contains(x) <==> #[trigger] front.contains(x) || x == nb by {
            if list.contains(x) && x != nb {
                let i = list.index_of(x);
                assert(front[i] == x);
            }
            if front.contains(x) {
                let i = front.index_of(x);
                assert(list[i] == x);
            }
            if x == nb {
                assert(list[list.len() - 1] == x);
            }
        }
        assert forall|x: u64, l: nat| #[trigger] links(r, x, l) == (if l == layer && list.contains(x)
            && on_layer(g, x, l) {
            linked_too(x, links(g, x, l), id, max, pair)
        } else {
            links(g, x, l)
        }) by {
            assert(front.contains(x) || !front.contains(x));
            assert(on_layer(g, x, l) <==> on_layer(h, x, l));
        }
    }
}

/// A new node is linked on a layer.
proof fn lemma_connected_joins(
    g: Graph,
    layer: nat,
    id: u64,
    at: u64,
    m: nat,
    ef: nat,
    pair: spec_fn(u64, u64) -> u32,
) -> (near: Seq<Neighbor>)
    requires
        valid(g),
        at < g.nodes.len(),
        on_layer(g, id, layer),
        links(g, id, layer) == Seq::<u64>::empty(),
    ensures
        joined(g, connected(g, layer, id, at, m, ef, pair).0, layer, id, at, near, m, ef, pair),
        valid(connected(g, layer, id, at, m, ef, pair).0),
        connected(g, layer, id, at, m, ef, pair).0.entry == g.entry,
        same_shape(g, connected(g, layer, id, at, m, ef, pair).0),
        forall|l: nat|
            l != layer ==> #[trigger] same_on(g, connected(g, layer, id, at, m, ef, pair).0, l),
        connected(g, layer, id, at, m, ef, pair).1 == near[0].id,
        near[0].id < g.nodes.len(),
{
    let f = from_node(id, pair);
    let near = beam_search(g, layer, at, ef, f);
    law_a_beam_search_finds_a_beam(g, layer, at, ef, f);
    lemma_beam_distinct(g, layer, at, ef, f);
    let cands = others(near, id);
    lemma_others_is_filter(near, id);
    lemma_others_distinct(near, id);
    lemma_others(near, id);
    let list = chosen(cands, m, pair);
    lemma_chosen_distinct(cands, m, pair);
    law_the_choice_is_spread(cands, m, pair);
    assert forall|i: int| 0 <= i < list.len() implies #[trigger] list[i] < g.nodes.len() && list[i]
        != id by {
        let (kept, passed) = choose|kept: Seq<int>, passed: Seq<int>| #[trigger]
            sifts(kept, passed, cands, m, pair) && first_at(list, kept + passed, cands, m);
        let p = (kept + passed)[i];
        assert(0 <= p < cands.len());
        assert(cands.contains(cands[p]));
        let q = near.index_of(cands[p]);
        assert(near[q].id < g.nodes.len());
    }
    assert(links(g, id, layer) + list =~= list);
    lemma_deduped_same(list);
    assert(deduped(links(g, id, layer) + list) == list);
    let h = relinked(g, id, layer, list);
    lemma_relinked_links(g, id, layer, list);
    lemma_relinked_valid(g, id, layer, list);
    let max = degree_bound(m, layer);
    let r = connected(g, layer, id, at, m, ef, pair).0;
    assert(r == linked_back(h, layer, list, id, max, pair));
    lemma_linked_back_links(h, layer, list, id, max, pair);
    assert(!list.contains(id));
    assert(links(r, id, layer) == list);
    assert forall|x: u64| #[trigger] list.contains(x) && on_layer(g, x, layer) implies links_back(
        links(g, x, layer),
        links(r, x, layer),
        x,
        id,
        max,
        pair,
    ) by {
        lemma_links_back(x, links(g, x, layer), id, max, pair);
        assert(links(h, x, layer) == links(g, x, layer));
        assert(on_layer(h, x, layer));
    }
    assert forall|x: u64| x != id && !list.contains(x) implies #[trigger] links(r, x, layer)
        == links(g, x, layer) by {
        assert(links(h, x, layer) == links(g, x, layer));
    }
    assert forall|l: nat| l != layer implies #[trigger] same_on(g, r, l) by {
        assert forall|x: u64|
            #![trigger links(g, x, l)]
            #![trigger links(r, x, l)]
            links(g, x, l) == links(r, x, l) by {
            assert(links(h, x, l) == links(g, x, l));
        }
    }
    assert forall|x: u64, l: nat|
        #![trigger on_layer(g, x, l)]
        #![trigger on_layer(r, x, l)]
        on_layer(g, x, l) <==> on_layer(r, x, l) by {
        assert(on_layer(g, x, l) <==> on_layer(h, x, l));
    }
    assert(joined(g, r, layer, id, at, near, m, ef, pair));
    near
}

/// What was linked on a layer depends on that layer alone.
proof fn lemma_joined_same(
    g1: Graph,
    h1: Graph,
    g2: Graph,
    h2: Graph,
    layer: nat,
    id: u64,
    at: u64,
    near: Seq<Neighbor>,
    m: nat,
    ef: nat,
    pair: spec_fn(u64, u64) -> u32,
)
    requires
        joined(g1, h1, layer, id, at, near, m, ef, pair),
        same_shape(g1, g2),
        same_on(g1, g2, layer),
        same_on(h1, h2, layer),
    ensures
        joined(g2, h2, layer, id, at, near, m, ef, pair),
{
    let f = from_node(id, pair);
    assert(links(h1, id, layer) == links(h2, id, layer));
    assert(links(g1, at, layer) == links(g2, at, layer));
    assert forall|i: int, to: u64|
        0 <= i < near.len() && #[trigger] links(g2, near[i].id, layer).contains(to) implies accounted(
        near,
        ef,
        f,
        to,
    ) by {
        assert(links(g1, near[i].id, layer).contains(to));
    }
    assert(is_beam(g2, layer, at, near, ef, f));
    assert forall|x: u64| #[trigger]
        links(h2, id, layer).contains(x) && on_layer(g2, x, layer) implies links_back(
        links(g2, x, layer),
        links(h2, x, layer),
        x,
        id,
        if layer == 0 {
            2 * m
        } else {
            m
        },
        pair,
    ) by {
        assert(links(h1, id, layer).contains(x) && on_layer(g1, x, layer));
        assert(links(g1, x, layer) == links(g2, x, layer));
        assert(links(h1, x, layer) == links(h2, x, layer));
    }
    assert forall|x: u64|
        x != id && !links(h2, id, layer).contains(x) implies #[trigger] links(h2, x, layer)
        == links(g2, x, layer) by {
        assert(links(h1, x, layer) == links(g1, x, layer));
    }
}

/// How a node was linked on the lowest layers: on each of them as [`joined`] says,
/// from the closest node that was found on the layer above on.
pub open spec fn joined_below(
    g: Graph,
    h: Graph,
    layers: nat,
    id: u64,
    starts: Seq<u64>,
    found: Seq<Seq<Neighbor>>,
    m: nat,
    ef: nat,
    pair: spec_fn(u64, u64) -> u32,
) -> bool {
    &&& starts.len() == layers
    &&& found.len() == layers
    &&& forall|l: nat|
        l < layers ==> #[trigger] joined(
            g,
            h,
            l,
            id,
            starts[l as int],
            found[l as int],
            m,
            ef,
            pair,
        )
    &&& forall|l: int|
        0 <= l < layers - 1 ==> #[trigger] starts[l] == found[l + 1][0].id
}

proof fn lemma_connected_down_joins(
    g: Graph,
    layers: nat,
    id: u64,
    at: u64,
    m: nat,
    ef: nat,
    pair: spec_fn(u64, u64) -> u32,
) -> (r: (Seq<u64>, Seq<Seq<Neighbor>>))
    requires
        valid(g),
        at < g.nodes.len(),
        forall|l: nat| l < layers ==> #[trigger] on_layer(g, id, l),
        forall|l: nat| l < layers ==> #[trigger] links(g, id, l) == Seq::<u64>::empty(),
    ensures
        ({
            let h = connected_down(g, layers, id, at, m, ef, pair);
            &&& joined_below(g, h, layers, id, r.0, r.1, m, ef, pair)
            &&& layers > 0 ==> r.0[layers - 1] == at
            &&& h.entry == g.entry
            &&& same_shape(g, h)
            &&& forall|l: nat| l >= layers ==> #[trigger] same_on(g, h, l)
        }),
    decreases layers,
{
    if layers == 0 {
        (Seq::empty(), Seq::empty())
    } else {
        let layer = (layers - 1) as nat;
        assert(on_layer(g, id, layer));
        assert(links(g, id, layer) == Seq::<u64>::empty());
        let near = lemma_connected_joins(g, layer, id, at, m, ef, pair);
        let (c, next) = connected(g, layer, id, at, m, ef, pair);
        assert forall|l: nat| l < layer implies #[trigger] on_layer(c, id, l) by {
            assert(on_layer(g, id, l));
        }
        assert forall|l: nat| l < layer implies #[trigger] links(c, id, l)
            == Seq::<u64>::empty() by {
            assert(same_on(g, c, l));
            assert(links(g, id, l) == Seq::<u64>::empty());
        }
        let (s, n) = lemma_connected_down_joins(c, layer, id, next, m, ef, pair);
        let h = connected_down(g, layers, id, at, m, ef, pair);
        assert(h == connected_down(c, layer, id, next, m, ef, pair));
        let starts = s.push(at);
        let found = n.push(near);
        assert(same_on(c, h, layer));
        assert forall|l: nat| l < layers implies #[trigger] joined(
            g,
            h,
            l,
            id,
            starts[l as int],
            found[l as int],
            m,
            ef,
            pair,
        ) by {
            if l < layer {
                assert(joined(c, h, l, id, s[l as int], n[l as int], m, ef, pair));
                assert(same_on(g, c, l));
                lemma_joined_same(
                    c,
                    h,
                    g,
                    h,
                    l,
                    id,
                    s[l as int],
                    n[l as int],
                    m,
                    ef,
                    pair,
                );
            } else {
                lemma_joined_same(g, c, g, h, layer, id, at, near, m, ef, pair);
            }
        }
        assert forall|l: int| 0 <= l < layers - 1 implies #[trigger] starts[l] == found[l
            + 1][0].id by {
            if l < layer - 1 {
                assert(s[l] == n[l + 1][0].id);
            }
        }
        assert forall|l: nat| l >= layers implies #[trigger] same_on(g, h, l) by {
            assert(same_on(g, c, l));
            assert(same_on(c, h, l));
            assert forall|x: u64|
                #![trigger links(g, x, l)]
                #![trigger links(h, x, l)]
                links(g, x, l) == links(h, x, l) by {
                assert(links(g, x, l) == links(c, x, l));
            }
        }
        assert forall|x: u64, l: nat|
            #![trigger on_layer(g, x, l)]
            #![trigger on_layer(h, x, l)]
            on_layer(g, x, l) <==> on_layer(h, x, l) by {
            assert(on_layer(g, x, l) <==> on_layer(c, x, l));
        }
        (starts, found)
    }
}

/// How a node was inserted into a graph with entry point `entry` on layer `top`:
/// the walks lead down to the node's own level, and on each of its layers that
/// the graph had, it is linked from where the search of the layer above ended.
/// Layers above are left as they were.
pub open spec fn inserted_well(
    g: Graph,
    h: Graph,
    entry: u64,
    top: nat,
    id: u64,
    level: nat,
    starts: Seq<u64>,
    found: Seq<Seq<Neighbor>>,
    m: nat,
    ef: nat,
    pair: spec_fn(u64, u64) -> u32,
) -> bool {
    let layers = if level < top {
        level + 1
    } else {
        top + 1
    };
    &&& joined_below(g, h, layers, id, starts, found, m, ef, pair)
    &&& leads_down(g, top, level + 1, from_node(id, pair), entry, starts[layers - 1])
    &&& forall|l: nat| l >= layers ==> #[trigger] same_on(g, h, l)
    &&& same_shape(g, h)
}

/// The first node is the entry point and has no links.
pub proof fn law_the_first_node_is_the_entry(
    g: Graph,
    id: u64,
    level: nat,
    m: nat,
    ef: nat,
    pair: spec_fn(u64, u64) -> u32,
)
    requires
        g.entry is None,
    ensures
        inserted_into(g, id, level, m, ef, pair).entry == Some((id, level)),
        inserted_into(g, id, level, m, ef, pair).nodes == with_node(g, id, level).nodes,
{
}

/// A new node is on the layers up to its level and has no links yet. All other
/// nodes stay as they are, and ids that were skipped are on the lowest layer.
pub proof fn law_a_new_node_has_no_links(g: Graph, id: u64, level: nat, x: u64, layer: nat)
    requires
        g.nodes.len() <= id,
    ensures
        with_node(g, id, level).nodes.len() == id + 1,
        links(with_node(g, id, level), x, layer) == links(g, x, layer),
        on_layer(with_node(g, id, level), x, layer) <==> on_layer(g, x, layer) || (x == id && layer
            <= level) || (g.nodes.len() <= x < id && layer == 0),
        g.nodes.len() <= x ==> links(g, x, layer).len() == 0,
{
    assert(links(with_node(g, id, level), x, layer) =~= links(g, x, layer));
}

/// Inserting a node links it on each of its layers to a spread choice of the
/// nodes around it, and these to it; it changes nothing else, and the node
/// becomes the entry point only if its level is above all others.
pub proof fn law_an_insertion_links_the_surroundings(
    g: Graph,
    id: u64,
    level: nat,
    m: nat,
    ef: nat,
    pair: spec_fn(u64, u64) -> u32,
)
    requires
        valid(g),
        g.nodes.len() <= id,
        g.entry is Some,
    ensures
        ({
            let h = inserted_into(g, id, level, m, ef, pair);
            let (entry, top) = g.entry->0;
            &&& exists|starts: Seq<u64>, found: Seq<Seq<Neighbor>>| #[trigger]
                inserted_well(
                    with_node(g, id, level),
                    h,
                    entry,
                    top,
                    id,
                    level,
                    starts,
                    found,
                    m,
                    ef,
                    pair,
                )
            &&& h.entry == (if level > top {
                Some((id, level))
            } else {
                g.entry
            })
        }),
{
    let w = with_node(g, id, level);
    let h = inserted_into(g, id, level, m, ef, pair);
    let (entry, top) = g.entry->0;
    let f = from_node(id, pair);
    let at = zoomed(w, top, level + 1, f, (entry, pair(id, entry))).0;
    let layers = if level < top {
        level + 1
    } else {
        top + 1
    };
    lemma_with_node_valid(g, id, level);
    lemma_zoomed_is_a_node(w, top, level + 1, f, (entry, pair(id, entry)));
    law_every_layer_is_walked(w, top, level + 1, f, entry);
    assert forall|l: nat| l < layers implies #[trigger] on_layer(w, id, l) by {}
    assert forall|l: nat| l < layers implies #[trigger] links(w, id, l)
        == Seq::<u64>::empty() by {}
    let (starts, found) = lemma_connected_down_joins(w, layers, id, at, m, ef, pair);
    let c = connected_down(w, layers, id, at, m, ef, pair);
    assert(h.nodes == c.nodes);
    assert forall|l: nat| #[trigger] same_on(c, h, l) by {
        assert forall|x: u64|
            #![trigger links(c, x, l)]
            #![trigger links(h, x, l)]
            links(c, x, l) == links(h, x, l) by {}
    }
    assert forall|l: nat| l < layers implies #[trigger] joined(
        w,
        h,
        l,
        id,
        starts[l as int],
        found[l as int],
        m,
        ef,
        pair,
    ) by {
        assert(joined(w, c, l, id, starts[l as int], found[l as int], m, ef, pair));
        assert(same_on(c, h, l));
        lemma_joined_same(
            w,
            c,
            w,
            h,
            l,
            id,
            starts[l as int],
            found[l as int],
            m,
            ef,
            pair,
        );
    }
    assert forall|l: nat| l >= layers implies #[trigger] same_on(w, h, l) by {
        assert(same_on(w, c, l));
        assert(same_on(c, h, l));
        assert forall|x: u64|
            #![trigger links(w, x, l)]
            #![trigger links(h, x, l)]
            links(w, x, l) == links(h, x, l) by {
            assert(links(w, x, l) == links(c, x, l));
        }
    }
    assert(same_shape(w, h)) by {
        assert forall|x: u64, l: nat|
            #![trigger on_layer(w, x, l)]
            #![trigger on_layer(h, x, l)]
            on_layer(w, x, l) <==> on_layer(h, x, l) by {
            assert(on_layer(w, x, l) <==> on_layer(c, x, l));
        }
    }
    assert(inserted_well(w, h, entry, top, id, level, starts, found, m, ef, pair));
}

} // verus!
