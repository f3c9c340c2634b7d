//! What more holds of a graph that grows by insertions: no link occurs twice,
//! and the entry point is a node of the highest level.

use crate::hnsw::graph::{degree_bound, links, on_layer, relinked, sound, valid, with_node, Graph};
use crate::hnsw::insert::{
    connected, connected_down, deduped, from_node, inserted_into, linked_back, linked_too, others,
    scored_from,
};
use crate::hnsw::laws::{
    law_insert_keeps_the_graph_sound, lemma_closest_exists, lemma_connected_down_sound,
    lemma_connected_sound, lemma_others, lemma_with_node_sound, lemma_zoomed_on_layer,
};
use crate::hnsw::select::{chosen, lemma_sifted, sifted};
use crate::hnsw::traverse::{
    beam_ok, beam_search, closest, expanded, finished, lemma_offered, lemma_started, run, started,
    stepped, zoomed, Beam,
};
use crate::storage::neighbor::{
    arranged, inserted, lemma_arranged_members, lemma_inserted_members, precedes, Neighbor,
};
use vstd::prelude::*;

verus! {

/// No node links to the same node twice on a layer.
pub open spec fn tidy(g: Graph) -> bool {
    forall|x: u64, layer: nat| (#[trigger] links(g, x, layer)).no_duplicates()
}

/// The entry point is a node of the highest level, and there is one unless
/// there are no nodes.
pub open spec fn entry_on_top(g: Graph) -> bool {
    match g.entry {
        None => g.nodes.len() == 0,
        Some((_, top)) => forall|x: u64, layer: nat| #[trigger]
            on_layer(g, x, layer) ==> layer <= top,
    }
}

/// No two members of a list have the same id.
pub open spec fn distinct(list: Seq<Neighbor>) -> bool {
    forall|i: int, j: int|
        0 <= i < j < list.len() ==> (#[trigger] list[i]).id != (#[trigger] list[j]).id
}

/// Following links keeps the state of a search in order.
proof fn lemma_expanded_ok(
    b: Beam,
    n: nat,
    ef: nat,
    f: spec_fn(u64) -> u32,
    list: Seq<u64>,
)
    requires
        beam_ok(b, n, ef),
        forall|i: int| 0 <= i < list.len() ==> #[trigger] list[i] < n,
    ensures
        beam_ok(expanded(b, ef, f, list), n, ef),
    decreases list.len(),
{
    if list.len() > 0 {
        let front = list.drop_last();
        assert forall|i: int| 0 <= i < front.len() implies #[trigger] front[i] < n by {
            assert(front[i] == list[i]);
        }
        lemma_expanded_ok(b, n, ef, f, front);
        let c = expanded(b, ef, f, front);
        let next = list[list.len() - 1];
        if !c.visited.contains(next) {
            lemma_offered(c, n, ef, Neighbor { id: next, distance: f(next) });
        }
    }
}

proof fn lemma_run_ok(
    g: Graph,
    layer: nat,
    b: Beam,
    ef: nat,
    f: spec_fn(u64) -> u32,
    steps: nat,
)
    requires
        valid(g),
        beam_ok(b, g.nodes.len(), ef),
    ensures
        beam_ok(run(g, layer, b, ef, f, steps), g.nodes.len(), ef),
    decreases steps,
{
    if steps > 0 && !finished(b, ef) {
        lemma_closest_exists(b.open);
        let x = closest(b.open);
        let rest = Beam { visited: b.visited, open: b.open.remove(x), best: b.best };
        assert(beam_ok(rest, g.nodes.len(), ef));
        let list = links(g, x.id, layer);
        assert forall|i: int| 0 <= i < list.len() implies #[trigger] list[i] < g.nodes.len() by {
            assert(g.nodes[x.id as int][layer as int][i] < g.nodes.len());
        }
        lemma_expanded_ok(rest, g.nodes.len(), ef, f, list);
        lemma_run_ok(g, layer, stepped(g, layer, b, ef, f), ef, f, (steps - 1) as nat);
    }
}

/// A beam search finds no node twice.
pub proof fn lemma_beam_distinct(g: Graph, layer: nat, at: u64, ef: nat, f: spec_fn(u64) -> u32)
    requires
        valid(g),
        at < g.nodes.len(),
    ensures
        distinct(beam_search(g, layer, at, ef, f)),
{
    lemma_started(at, f(at), g.nodes.len(), ef);
    lemma_run_ok(g, layer, started(at, f(at)), ef, f, g.nodes.len());
    let list = beam_search(g, layer, at, ef, f);
    assert forall|i: int, j: int| 0 <= i < j < list.len() implies (#[trigger] list[i]).id != (
    #[trigger] list[j]).id by {
        assert(list.contains(list[i]) && list.contains(list[j]));
        assert(precedes(list[i], list[j]));
    }
}

pub proof fn lemma_others_distinct(list: Seq<Neighbor>, id: u64)
    requires
        distinct(list),
    ensures
        distinct(others(list, id)),
    decreases list.len(),
{
    if list.len() > 0 {
        let front = list.drop_last();
        lemma_others_distinct(front, id);
        lemma_others(front, id);
        let s = others(front, id);
        assert forall|i: int| 0 <= i < s.len() implies (#[trigger] s[i]).id != list.last().id by {
            assert(s.contains(s[i]));
            let k = front.index_of(s[i]);
            assert(list[k].id != list[list.len() - 1].id);
        }
    }
}

/// What is kept and what is passed over are different candidates.
proof fn lemma_sifted_distinct(cands: Seq<Neighbor>, m: nat, pair: spec_fn(u64, u64) -> u32)
    requires
        distinct(cands),
    ensures
        distinct(sifted(cands, m, pair).0 + sifted(cands, m, pair).1),
    decreases cands.len(),
{
    if cands.len() > 0 {
        let front = cands.drop_last();
        lemma_sifted_distinct(front, m, pair);
        lemma_sifted(front, m, pair);
        let (kept, passed) = sifted(front, m, pair);
        let (kept2, passed2) = sifted(cands, m, pair);
        let old_all = kept + passed;
        let all = kept2 + passed2;
        let x = cands.last();
        assert forall|i: int| 0 <= i < old_all.len() implies (#[trigger] old_all[i]).id != x.id by {
            if i < kept.len() {
                assert(kept.contains(kept[i]));
            } else {
                assert(passed.contains(passed[i - kept.len()]));
            }
            assert(front.contains(old_all[i]));
            let k = front.index_of(old_all[i]);
            assert(cands[k].id != cands[cands.len() - 1].id);
        }
        if kept2.len() > kept.len() {
            assert forall|i: int, j: int| 0 <= i < j < all.len() implies (#[trigger] all[i]).id != (
            #[trigger] all[j]).id by {
                let a = if i <= kept.len() { i } else { i - 1 };
                let b = if j <= kept.len() { j } else { j - 1 };
                if i == kept.len() {
                    assert(all[j] == old_all[j - 1]);
                } else if j == kept.len() {
                    assert(all[i] == old_all[i]);
                } else {
                    assert(all[i] == old_all[a] && all[j] == old_all[b]);
                }
            }
        } else if passed2.len() > passed.len() {
            assert(all =~= old_all.push(x));
        }
    }
}

pub proof fn lemma_chosen_distinct(cands: Seq<Neighbor>, m: nat, pair: spec_fn(u64, u64) -> u32)
    requires
        distinct(cands),
    ensures
        chosen(cands, m, pair).no_duplicates(),
{
    lemma_sifted_distinct(cands, m, pair);
    let (kept, passed) = sifted(cands, m, pair);
    let all = kept + passed;
    let r = chosen(cands, m, pair);
    assert forall|i: int| 0 <= i < r.len() implies #[trigger] r[i] == all[i].id by {}
    assert forall|i: int, j: int| 0 <= i < r.len() && 0 <= j < r.len() && i != j implies r[i]
        != r[j] by {
        if i < j {
            assert(all[i].id != all[j].id);
        } else {
            assert(all[j].id != all[i].id);
        }
    }
}

pub proof fn lemma_deduped_same(list: Seq<u64>)
    requires
        list.no_duplicates(),
    ensures
        deduped(list) == list,
    decreases list.len(),
{
    if list.len() >= 2 {
        lemma_deduped_same(list.drop_last());
        assert(list[list.len() - 2] != list[list.len() - 1]);
        assert(list.drop_last().push(list.last()) =~= list);
    }
}

proof fn lemma_inserted_distinct(s: Seq<Neighbor>, x: Neighbor)
    requires
        distinct(s),
        forall|i: int| 0 <= i < s.len() ==> (#[trigger] s[i]).id != x.id,
    ensures
        distinct(inserted(s, x)),
    decreases s.len(),
{
    if s.len() > 0 && precedes(x, s.last()) {
        let front = s.drop_last();
        lemma_inserted_distinct(front, x);
        lemma_inserted_members(front, x);
        let t = inserted(front, x);
        assert forall|i: int| 0 <= i < t.len() implies (#[trigger] t[i]).id != s.last().id by {
            assert(t.contains(t[i]));
            if t[i] != x {
                let k = front.index_of(t[i]);
                assert(s[k].id != s[s.len() - 1].id);
            } else {
                assert(s[s.len() - 1].id != x.id);
            }
        }
    }
}

/// Arranging candidates repeats none.
pub proof fn lemma_arranged_distinct(items: Seq<Neighbor>)
    requires
        distinct(items),
    ensures
        distinct(arranged(items)),
    decreases items.len(),
{
    if items.len() > 0 {
        let front = items.drop_last();
        lemma_arranged_distinct(front);
        lemma_arranged_members(front);
        let s = arranged(front);
        assert forall|i: int| 0 <= i < s.len() implies (#[trigger] s[i]).id != items.last().id by {
            assert(s.contains(s[i]));
            let k = front.index_of(s[i]);
            assert(items[k].id != items[items.len() - 1].id);
        }
        lemma_inserted_distinct(s, items.last());
    }
}

proof fn lemma_linked_too_distinct(
    base: u64,
    list: Seq<u64>,
    id: u64,
    max: nat,
    pair: spec_fn(u64, u64) -> u32,
)
    requires
        list.no_duplicates(),
    ensures
        linked_too(base, list, id, max, pair).no_duplicates(),
{
    if !list.contains(id) {
        let longer = list.push(id);
        assert forall|i: int, j: int|
            0 <= i < longer.len() && 0 <= j < longer.len() && i != j implies longer[i]
            != longer[j] by {
            if i < list.len() {
                assert(list.contains(list[i]));
            }
            if j < list.len() {
                assert(list.contains(list[j]));
            }
        }
        let scored = scored_from(base, longer, pair);
        assert forall|i: int, j: int| 0 <= i < j < scored.len() implies (#[trigger] scored[i]).id
            != (#[trigger] scored[j]).id by {
            assert(longer[i] != longer[j]);
        }
        lemma_arranged_distinct(scored);
        lemma_chosen_distinct(arranged(scored), max, pair);
    }
}

proof fn lemma_relinked_tidy(g: Graph, id: u64, layer: nat, list: Seq<u64>)
    requires
        tidy(g),
        list.no_duplicates(),
    ensures
        tidy(relinked(g, id, layer, list)),
{
    let r = relinked(g, id, layer, list);
    assert forall|x: u64, l: nat| (#[trigger] links(r, x, l)).no_duplicates() by {
        assert(links(g, x, l).no_duplicates());
    }
}

proof fn lemma_linked_back_tidy(
    g: Graph,
    layer: nat,
    list: Seq<u64>,
    id: u64,
    max: nat,
    pair: spec_fn(u64, u64) -> u32,
)
    requires
        tidy(g),
    ensures
        tidy(linked_back(g, layer, list, id, max, pair)),
    decreases list.len(),
{
    if list.len() > 0 {
        lemma_linked_back_tidy(g, layer, list.drop_last(), id, max, pair);
        let h = linked_back(g, layer, list.drop_last(), id, max, pair);
        let nb = list.last();
        lemma_linked_too_distinct(nb, links(h, nb, layer), id, max, pair);
        lemma_relinked_tidy(
            h,
            nb,
            layer,
            linked_too(nb, links(h, nb, layer), id, max, pair),
        );
    }
}

proof fn lemma_connected_tidy(
    g: Graph,
    layer: nat,
    id: u64,
    at: u64,
    m: nat,
    ef: nat,
    pair: spec_fn(u64, u64) -> u32,
)
    requires
        valid(g),
        tidy(g),
        at < g.nodes.len(),
        links(g, id, layer).len() == 0,
    ensures
        tidy(connected(g, layer, id, at, m, ef, pair).0),
{
    let f = from_node(id, pair);
    let near = beam_search(g, layer, at, ef, f);
    lemma_beam_distinct(g, layer, at, ef, f);
    lemma_others_distinct(near, id);
    let list = chosen(others(near, id), m, pair);
    lemma_chosen_distinct(others(near, id), m, pair);
    assert(links(g, id, layer) + list =~= list);
    lemma_deduped_same(list);
    lemma_relinked_tidy(g, id, layer, list);
    lemma_linked_back_tidy(
        relinked(g, id, layer, list),
        layer,
        list,
        id,
        degree_bound(m, layer),
        pair,
    );
}

proof fn lemma_connected_down_tidy(
    g: Graph,
    m: nat,
    layers: nat,
    id: u64,
    at: u64,
    ef: nat,
    pair: spec_fn(u64, u64) -> u32,
)
    requires
        sound(g, m),
        tidy(g),
        layers > 0 ==> on_layer(g, id, (layers - 1) as nat) && on_layer(
            g,
            at,
            (layers - 1) as nat,
        ),
        forall|l: nat| l < layers ==> (#[trigger] links(g, id, l)).len() == 0,
    ensures
        tidy(connected_down(g, layers, id, at, m, ef, pair)),
    decreases layers,
{
    if layers > 0 {
        let layer = (layers - 1) as nat;
        assert(links(g, id, layer).len() == 0);
        lemma_connected_tidy(g, layer, id, at, m, ef, pair);
        lemma_connected_sound(g, m, layer, id, at, ef, pair);
        let (h, next) = connected(g, layer, id, at, m, ef, pair);
        if layer > 0 {
            assert(on_layer(h, id, layer) && on_layer(h, next, layer)) by {
                assert(on_layer(g, id, layer) && on_layer(g, next, layer));
            }
        }
        assert forall|l: nat| l < layer implies (#[trigger] links(h, id, l)).len() == 0 by {
            assert(links(g, id, l).len() == 0);
        }
        lemma_connected_down_tidy(h, m, layer, id, next, ef, pair);
    }
}

/// In a graph that grows by insertions no list of links holds a node twice.
pub proof fn law_insert_keeps_links_apart(
    g: Graph,
    id: u64,
    level: nat,
    m: nat,
    ef: nat,
    pair: spec_fn(u64, u64) -> u32,
)
    requires
        sound(g, m),
        tidy(g),
        g.nodes.len() <= id,
    ensures
        tidy(inserted_into(g, id, level, m, ef, pair)),
{
    let h = with_node(g, id, level);
    lemma_with_node_sound(g, m, id, level);
    assert(tidy(h)) by {
        assert forall|x: u64, l: nat| (#[trigger] links(h, x, l)).no_duplicates() by {
            assert(links(g, x, l).no_duplicates());
        }
    }
    let r = inserted_into(g, id, level, m, ef, pair);
    match g.entry {
        None => {
            assert forall|x: u64, l: nat| (#[trigger] links(r, x, l)).no_duplicates() by {
                assert(links(h, x, l).no_duplicates());
            }
        },
        Some((entry, top)) => {
            let f = from_node(id, pair);
            lemma_zoomed_on_layer(h, m, top, level + 1, f, (entry, f(entry)));
            let at = zoomed(h, top, level + 1, f, (entry, f(entry))).0;
            let low = if level < top {
                level
            } else {
                top
            };
            lemma_connected_down_tidy(h, m, low + 1, id, at, ef, pair);
            let c = connected_down(h, low + 1, id, at, m, ef, pair);
            assert forall|x: u64, l: nat| (#[trigger] links(r, x, l)).no_duplicates() by {
                assert(links(c, x, l).no_duplicates());
            }
        },
    }
}

/// In a graph that grows by insertions the entry point has the highest level.
pub proof fn law_insert_keeps_the_entry_on_top(
    g: Graph,
    id: u64,
    level: nat,
    m: nat,
    ef: nat,
    pair: spec_fn(u64, u64) -> u32,
)
    requires
        sound(g, m),
        entry_on_top(g),
        g.nodes.len() <= id,
    ensures
        entry_on_top(inserted_into(g, id, level, m, ef, pair)),
        inserted_into(g, id, level, m, ef, pair).entry is Some,
{
    let h = with_node(g, id, level);
    let r = inserted_into(g, id, level, m, ef, pair);
    lemma_with_node_sound(g, m, id, level);
    law_insert_keeps_the_graph_sound(g, id, level, m, ef, pair);
    if let Some((entry, top)) = g.entry {
        let f = from_node(id, pair);
        lemma_zoomed_on_layer(h, m, top, level + 1, f, (entry, f(entry)));
        let at = zoomed(h, top, level + 1, f, (entry, f(entry))).0;
        let low = if level < top {
            level
        } else {
            top
        };
        lemma_connected_down_sound(h, m, low + 1, id, at, ef, pair);
        let c = connected_down(h, low + 1, id, at, m, ef, pair);
        assert(c.entry == g.entry);
    }
    let (_, highest) = r.entry->0;
    assert forall|x: u64, layer: nat| #[trigger] on_layer(r, x, layer) implies layer
        <= highest by {
        assert(on_layer(h, x, layer));
        if x < g.nodes.len() {
            assert(on_layer(g, x, layer));
        }
    }
}

/// The graph that inserting nodes of these levels one after the other builds.
/// The distances may be others each time.
pub open spec fn built(
    levels: Seq<nat>,
    m: nat,
    ef: nat,
    pairs: Seq<spec_fn(u64, u64) -> u32>,
) -> Graph
    decreases levels.len(),
{
    if levels.len() == 0 {
        Graph { nodes: Seq::empty(), entry: None }
    } else {
        let n = levels.len() - 1;
        inserted_into(
            built(levels.drop_last(), m, ef, pairs),
            n as u64,
            levels.last(),
            m,
            ef,
            pairs[n],
        )
    }
}

/// A graph that is built by insertions has a node for each, and is as it should
/// be: links lead to other nodes of the same layer, none twice, no more than
/// there may be, and the entry point has the highest level.
pub proof fn law_a_built_graph_is_in_order(
    levels: Seq<nat>,
    m: nat,
    ef: nat,
    pairs: Seq<spec_fn(u64, u64) -> u32>,
)
    requires
        levels.len() <= u64::MAX,
    ensures
        built(levels, m, ef, pairs).nodes.len() == levels.len(),
        sound(built(levels, m, ef, pairs), m),
        tidy(built(levels, m, ef, pairs)),
        entry_on_top(built(levels, m, ef, pairs)),
    decreases levels.len(),
{
    if levels.len() > 0 {
        let n = levels.len() - 1;
        law_a_built_graph_is_in_order(levels.drop_last(), m, ef, pairs);
        let g = built(levels.drop_last(), m, ef, pairs);
        law_insert_keeps_the_graph_sound(g, n as u64, levels.last(), m, ef, pairs[n]);
        law_insert_keeps_links_apart(g, n as u64, levels.last(), m, ef, pairs[n]);
        law_insert_keeps_the_entry_on_top(g, n as u64, levels.last(), m, ef, pairs[n]);
    }
}

} // verus!
