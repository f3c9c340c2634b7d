//! What the searches of a database find.

use crate::db::model::{by_metric, linked, Codes, Functions, Image};
use crate::db::quantize::stale_ids;
use crate::db::query::{code_distances, code_hits, fetched, rescored};
use crate::distance::Metric;
use crate::hnsw::beam::{is_beam, is_search, law_hits_are_the_first_of_a_beam, starts_a_beam};
use crate::hnsw::graph::{links, valid, with_node, Graph};
use crate::hnsw::health::{orphan, orphans};
use crate::hnsw::index::HnswConfig;
use crate::hnsw::laws::law_hits_carry_their_distances;
use crate::hnsw::tidy::{distinct, lemma_arranged_distinct};
use crate::hnsw::traverse::{knn, landing};
use crate::hnsw::weave::{inserted_well, law_an_insertion_links_the_surroundings};
use crate::oracle::{between, from_query};
use crate::pq::codebook::code_at;
use crate::pq::laws::{is_exact, law_codes_are_as_far_as_what_they_stand_for, sum_over_parts};
use crate::pq::{decoded, encoded, K};
use crate::random::level_word;
use crate::storage::neighbor::{
    arranged, first, in_order, law_precedes_is_a_total_order, lemma_arranged_members, precedes,
    Neighbor,
};
use vstd::prelude::*;

verus! {

/// Every hit of a search carries the distance between the query and its vector, by
/// the metric of the index.
pub proof fn law_hits_are_measured_by_the_metric(
    img: Image,
    query: Seq<u32>,
    k: nat,
    ef: nat,
    kernel: spec_fn(Metric, Seq<u32>, Seq<u32>) -> u32,
    hit: Neighbor,
)
    requires
        knn(
            img.graph,
            from_query(by_metric(kernel, img.config.metric), query, img.rows),
            k,
            ef,
        ).contains(hit),
    ensures
        hit.distance == kernel(img.config.metric, query, img.rows[hit.id as int]),
{
    let f = from_query(by_metric(kernel, img.config.metric), query, img.rows);
    law_hits_carry_their_distances(img.graph, f, k, ef, hit);
}

/// The distances between vectors by this metric.
pub open spec fn measures_rows(
    pair: spec_fn(u64, u64) -> u32,
    rows: Seq<Seq<u32>>,
    metric: Metric,
    kernel: spec_fn(Metric, Seq<u32>, Seq<u32>) -> u32,
    n: nat,
) -> bool {
    forall|a: u64, b: u64|
        a < n && b < n ==> #[trigger] pair(a, b) == kernel(metric, rows[a as int], rows[b as int])
}

/// How a vector is linked into a graph that has an entry point.
pub open spec fn links_well(
    graph: Graph,
    after: Graph,
    config: HnswConfig,
    id: u64,
    level: nat,
    pair: spec_fn(u64, u64) -> u32,
) -> bool {
    let (entry, top) = graph.entry->0;
    exists|starts: Seq<u64>, found: Seq<Seq<Neighbor>>| #[trigger]
        inserted_well(
            with_node(graph, id, level),
            after,
            entry,
            top,
            id,
            level,
            starts,
            found,
            config.m as nat,
            config.ef_construction as nat,
            pair,
        )
}

/// A vector is linked by the distances between the stored vectors, by the metric of
/// the index, on the level that is drawn for it, with a beam as wide as is set for
/// that.
pub proof fn law_vectors_are_linked_by_their_distances(
    graph: Graph,
    config: HnswConfig,
    rows: Seq<Seq<u32>>,
    id: u64,
    by: Functions,
)
    requires
        valid(graph),
        graph.entry is Some,
        graph.nodes.len() <= id < rows.len(),
    ensures
        exists|pair: spec_fn(u64, u64) -> u32| #[trigger]
            measures_rows(pair, rows, config.metric, by.kernel, (id + 1) as nat) && links_well(
                graph,
                linked(graph, config, rows, id, by),
                config,
                id,
                (by.level)(config.m, level_word(id)),
                pair,
            ),
{
    reveal(linked);
    let pair = between(by_metric(by.kernel, config.metric), rows.take(id + 1));
    let level = (by.level)(config.m, level_word(id));
    law_an_insertion_links_the_surroundings(
        graph,
        id,
        level,
        config.m as nat,
        config.ef_construction as nat,
        pair,
    );
    assert(measures_rows(pair, rows, config.metric, by.kernel, (id + 1) as nat));
}

/// The distance of a stored code from a query is that of what the code stands for,
/// part by part, wherever addition is exact. The codes lie end to end.
pub proof fn law_a_search_over_codes_measures_what_they_stand_for(
    c: Codes,
    query: Seq<u32>,
    l2: spec_fn(Seq<u32>, Seq<u32>) -> u32,
    plus: spec_fn(u32, u32) -> u32,
    id: u64,
)
    requires
        is_exact(plus),
        c.quantizer.centroids.len() == (c.quantizer.m * K as nat) * c.quantizer.sub_dim,
        (id + 1) * c.quantizer.m <= c.codes.len(),
    ensures
        ({
            let q = c.quantizer;
            let code = c.codes.subrange(id * q.m, (id + 1) * q.m);
            code_distances(c, query, l2, plus)(id) == sum_over_parts(
                query,
                decoded(q.centroids, q.sub_dim, code, q.m),
                q.sub_dim,
                q.m,
                l2,
                plus,
            )
        }),
{
    let q = c.quantizer;
    assert((id + 1) * q.m == id * q.m + q.m && 0 <= id * q.m) by (nonlinear_arith)
        requires
            id >= 0,
            q.m >= 0,
    ;
    let code = code_at(c.codes, id as int, q.m);
    law_codes_are_as_far_as_what_they_stand_for(q, query, code, l2, plus);
}

/// The candidates in order of the distances between the query and their vectors,
/// and the first `k` of them, or all if there are fewer.
pub open spec fn is_rerank(
    list: Seq<Neighbor>,
    raw: Seq<Neighbor>,
    k: nat,
    f: spec_fn(u64) -> u32,
) -> bool {
    &&& in_order(list)
    &&& distinct(list)
    &&& list.len() == k || list.len() < k && list.len() == raw.len()
    &&& list.len() <= raw.len()
    &&& forall|x: Neighbor| #[trigger]
        list.contains(x) ==> x.distance == f(x.id) && exists|i: int|
            0 <= i < raw.len() && (#[trigger] raw[i]).id == x.id
    &&& forall|i: int, x: Neighbor|
        0 <= i < raw.len() && #[trigger] list.contains(x) ==> {
            let y = Neighbor { id: (#[trigger] raw[i]).id, distance: f(raw[i].id) };
            list.contains(y) || precedes(x, y)
        }
}

/// No node occurs twice among the hits of a search.
proof fn lemma_hits_are_distinct(g: Graph, f: spec_fn(u64) -> u32, k: nat, ef: nat)
    requires
        valid(g),
        g.entry is Some,
    ensures
        distinct(knn(g, f, k, ef)),
{
    law_hits_are_the_first_of_a_beam(g, f, k, ef);
    let hits = knn(g, f, k, ef);
    let width = if k < ef {
        ef
    } else {
        k
    };
    let start = landing(g, f);
    assert(starts_a_beam(hits, k, g, start, width, f));
    let list = choose|list: Seq<Neighbor>| #[trigger]
        is_beam(g, 0, start, list, width, f) && hits.is_prefix_of(list) && (hits.len() == k
            || hits.len() < k && hits.len() == list.len());
    assert forall|i: int, j: int| 0 <= i < j < hits.len() implies (#[trigger] hits[i]).id != (
    #[trigger] hits[j]).id by {
        assert(hits[i] == list[i] && hits[j] == list[j]);
        assert(precedes(list[i], list[j]));
    }
}

proof fn lemma_rerank(raw: Seq<Neighbor>, scored: Seq<Neighbor>, k: nat, f: spec_fn(u64) -> u32)
    requires
        distinct(raw),
        scored.len() == raw.len(),
        forall|i: int|
            0 <= i < raw.len() ==> #[trigger] scored[i] == (Neighbor {
                id: raw[i].id,
                distance: f(raw[i].id),
            }),
    ensures
        is_rerank(first(arranged(scored), k), raw, k, f),
{
    let all = arranged(scored);
    let list = first(all, k);
    lemma_arranged_members(scored);
    assert(distinct(scored)) by {
        assert forall|i: int, j: int| 0 <= i < j < scored.len() implies (#[trigger] scored[i]).id
            != (#[trigger] scored[j]).id by {
            assert(raw[i].id != raw[j].id);
        }
    }
    lemma_arranged_distinct(scored);
    assert forall|i: int| 0 <= i < list.len() implies #[trigger] list[i] == all[i] by {}
    assert forall|i: int, j: int| 0 <= i < j < list.len() implies (#[trigger] list[i]).id != (
    #[trigger] list[j]).id by {
        assert(all[i].id != all[j].id);
    }
    assert forall|i: int, j: int| 0 <= i < j < list.len() implies !precedes(
        #[trigger] list[j],
        #[trigger] list[i],
    ) by {
        assert(!precedes(all[j], all[i]));
    }
    assert forall|x: Neighbor| #[trigger] list.contains(x) implies x.distance == f(x.id)
        && exists|i: int| 0 <= i < raw.len() && (#[trigger] raw[i]).id == x.id by {
        let i = list.index_of(x);
        assert(all[i] == x);
        assert(all.contains(x));
        let j = scored.index_of(x);
        assert(raw[j].id == x.id);
    }
    assert forall|i: int, x: Neighbor| 0 <= i < raw.len() && #[trigger] list.contains(x) implies {
        let y = Neighbor { id: (#[trigger] raw[i]).id, distance: f(raw[i].id) };
        list.contains(y) || precedes(x, y)
    } by {
        let y = Neighbor { id: raw[i].id, distance: f(raw[i].id) };
        assert(scored[i] == y);
        assert(scored.contains(y));
        assert(all.contains(y));
        let p = list.index_of(x);
        let q = all.index_of(y);
        if q < list.len() {
            assert(list[q] == y);
        } else {
            assert(!precedes(all[q], all[p]));
            assert(all[p].id != all[q].id);
            law_precedes_is_a_total_order(x, y, x);
        }
    }
}

/// A search over codes that reranks takes so many times more candidates from the
/// codes, and returns the first of them in order of the distances between the query
/// and their vectors. One that does not returns what it finds by the codes.
pub proof fn law_reranking_orders_candidates_by_their_vectors(
    img: Image,
    query: Seq<u32>,
    k: nat,
    ef: nat,
    rerank: nat,
    kernel: spec_fn(Metric, Seq<u32>, Seq<u32>) -> u32,
    l2: spec_fn(Seq<u32>, Seq<u32>) -> u32,
    plus: spec_fn(u32, u32) -> u32,
)
    requires
        valid(img.graph),
        img.graph.entry is Some,
        img.pq is Some,
    ensures
        ({
            let list = code_hits(img, query, k, ef, rerank, kernel, l2, plus);
            let f = |id: u64| kernel(img.config.metric, query, img.rows[id as int]);
            let by_codes = code_distances(img.pq->0, query, l2, plus);
            &&& rerank == 0 ==> is_search(list, k, ef, img.graph, by_codes)
            &&& rerank > 0 ==> exists|raw: Seq<Neighbor>| #[trigger]
                is_rerank(list, raw, k, f) && is_search(raw, k * rerank, ef, img.graph, by_codes)
        }),
{
    let list = code_hits(img, query, k, ef, rerank, kernel, l2, plus);
    let f = |id: u64| kernel(img.config.metric, query, img.rows[id as int]);
    let by_codes = code_distances(img.pq->0, query, l2, plus);
    let raw = knn(img.graph, by_codes, fetched(k, rerank), ef);
    law_hits_are_the_first_of_a_beam(img.graph, by_codes, fetched(k, rerank), ef);
    if rerank > 0 {
        lemma_hits_are_distinct(img.graph, by_codes, fetched(k, rerank), ef);
        let scored = rescored(raw, query, img.rows, by_metric(kernel, img.config.metric));
        lemma_rerank(raw, scored, k, f);
        assert(is_rerank(list, raw, k, f));
    }
}

/// The ids in a list are in order, and are those below `n` that a condition holds
/// of.
pub open spec fn lists_all(list: Seq<u64>, n: nat, p: spec_fn(u64) -> bool) -> bool {
    &&& forall|i: int, j: int| 0 <= i < j < list.len() ==> #[trigger] list[i] < #[trigger] list[j]
    &&& forall|id: u64| #[trigger] list.contains(id) <==> id < n && p(id)
}

proof fn lemma_lists_all_more(front: Seq<u64>, n: nat, p: spec_fn(u64) -> bool)
    requires
        lists_all(front, n, p),
        n <= u64::MAX,
    ensures
        p(n as u64) ==> lists_all(front.push(n as u64), n + 1, p),
        !p(n as u64) ==> lists_all(front, n + 1, p),
{
    let id = n as u64;
    if p(id) {
        let list = front.push(id);
        assert forall|i: int| 0 <= i < front.len() implies #[trigger] front[i] < n by {
            assert(front.contains(front[i]));
        }
        assert forall|x: u64| #[trigger] list.contains(x) <==> x < n + 1 && p(x) by {
            if list.contains(x) {
                let i = list.index_of(x);
                if i < front.len() {
                    assert(front[i] == x);
                    assert(front.contains(x));
                }
            }
            if x < n && p(x) {
                assert(front.contains(x));
                let i = front.index_of(x);
                assert(list[i] == x);
            }
            if x == id {
                assert(list[front.len() as int] == x);
            }
        }
    }
}

/// No node links to this one on the lowest layer, and searches do not start at it.
pub open spec fn is_cut_off(g: Graph, id: u64) -> bool {
    &&& forall|from: u64| !(#[trigger] links(g, from, 0).contains(id))
    &&& forall|level: nat| g.entry != Some((id, level))
}

proof fn lemma_orphan_is_cut_off(g: Graph, id: u64)
    ensures
        orphan(g, id) <==> is_cut_off(g, id),
{
    if orphan(g, id) {
        assert forall|from: u64| !(#[trigger] links(g, from, 0).contains(id)) by {
            if links(g, from, 0).contains(id) {
                assert(from < g.nodes.len());
            }
        }
    }
    if is_cut_off(g, id) {
        if g.entry is Some {
            let (entry, level) = g.entry->0;
            assert(g.entry != Some((id, level)));
        }
    }
}

/// The list of orphans names every node that is cut off once, in order, and nothing
/// else.
pub proof fn law_all_orphans_are_named(g: Graph, n: nat)
    requires
        n <= u64::MAX,
    ensures
        lists_all(orphans(g, n), n, |id: u64| is_cut_off(g, id)),
    decreases n,
{
    if n > 0 {
        law_all_orphans_are_named(g, (n - 1) as nat);
        lemma_orphan_is_cut_off(g, (n - 1) as u64);
        lemma_lists_all_more(
            orphans(g, (n - 1) as nat),
            (n - 1) as nat,
            |id: u64| is_cut_off(g, id),
        );
    }
}

/// The code with this number is another one than encoding the vector gives.
pub open spec fn is_outdated(
    c: Codes,
    rows: Seq<Seq<u32>>,
    id: int,
    f: spec_fn(Seq<u32>, Seq<u32>) -> u32,
) -> bool {
    let q = c.quantizer;
    c.codes.subrange(id * q.m, (id + 1) * q.m) != encoded(
        q.centroids,
        q.m,
        q.sub_dim,
        rows[id],
        f,
    )
}

/// The list of stale codes names every one that is outdated once, in order, and
/// nothing else.
pub proof fn law_all_stale_codes_are_named(
    c: Codes,
    rows: Seq<Seq<u32>>,
    n: nat,
    f: spec_fn(Seq<u32>, Seq<u32>) -> u32,
)
    requires
        n <= u64::MAX,
    ensures
        lists_all(stale_ids(c, rows, n, f), n, |id: u64| is_outdated(c, rows, id as int, f)),
    decreases n,
{
    if n > 0 {
        law_all_stale_codes_are_named(c, rows, (n - 1) as nat, f);
        let m = c.quantizer.m as int;
        assert(((n - 1) + 1) * m == (n - 1) * m + m) by (nonlinear_arith);
        lemma_lists_all_more(
            stale_ids(c, rows, (n - 1) as nat, f),
            (n - 1) as nat,
            |id: u64| is_outdated(c, rows, id as int, f),
        );
    }
}

} // verus!
