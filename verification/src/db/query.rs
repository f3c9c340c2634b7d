//! Reading a database.

use crate::db::model::{by_metric, measures, measures_all, scores_all, Codes, Image};
use crate::db::{lemma_by_metric, Db, PqState};
use crate::distance::Metric;
use crate::error::{corrupt, is_corrupt, Error};
use crate::hnsw::health::orphans;
use crate::hnsw::index::hits;
use crate::hnsw::scratch::VisitedSet;
use crate::hnsw::traverse::{ids_differ, knn};
use crate::oracle::{answers, computes, from_query};
use crate::pq::codebook::code_at;
use crate::pq::{adc_distance, adds, adds_all, code_distance, lemma_piece, table_of, K};
use crate::storage::neighbor::{
    arrange, arranged, first, in_order, lemma_arranged_members, lemma_ascending_in_order,
    precedes, Neighbor,
};
use vstd::prelude::*;

verus! {

/// The distances of the codes from a query.
pub open spec fn code_distances(
    c: Codes,
    query: Seq<u32>,
    l2: spec_fn(Seq<u32>, Seq<u32>) -> u32,
    plus: spec_fn(u32, u32) -> u32,
) -> spec_fn(u64) -> u32 {
    let q = c.quantizer;
    let table = table_of(q.centroids, q.m, q.sub_dim, query, l2);
    |id: u64| code_distance(table, code_at(c.codes, id as int, q.m), plus)
}

/// How many candidates are taken from the codes.
pub open spec fn fetched(k: nat, rerank: nat) -> nat {
    if rerank == 0 {
        k
    } else {
        k * rerank
    }
}

/// The candidates, scored by their vectors.
pub open spec fn rescored(
    list: Seq<Neighbor>,
    query: Seq<u32>,
    rows: Seq<Seq<u32>>,
    kernel: spec_fn(Seq<u32>, Seq<u32>) -> u32,
) -> Seq<Neighbor> {
    list.map_values(
        |x: Neighbor| Neighbor { id: x.id, distance: kernel(query, rows[x.id as int]) },
    )
}

/// What a search over codes returns.
pub open spec fn code_hits(
    img: Image,
    query: Seq<u32>,
    k: nat,
    ef: nat,
    rerank: nat,
    kernel: spec_fn(Metric, Seq<u32>, Seq<u32>) -> u32,
    l2: spec_fn(Seq<u32>, Seq<u32>) -> u32,
    plus: spec_fn(u32, u32) -> u32,
) -> Seq<Neighbor> {
    let raw = knn(
        img.graph,
        code_distances(img.pq->0, query, l2, plus),
        fetched(k, rerank),
        ef,
    );
    if rerank == 0 {
        raw
    } else {
        first(
            arranged(rescored(raw, query, img.rows, by_metric(kernel, img.config.metric))),
            k,
        )
    }
}

/// What every list of hits looks like, whatever the distances are.
pub open spec fn some_hits(list: Seq<Neighbor>, n: nat, k: nat) -> bool {
    &&& in_order(list)
    &&& ids_differ(list)
    &&& forall|x: Neighbor| #[trigger] list.contains(x) ==> x.id < n
    &&& list.len() <= k
}

impl Db {
    /// The number of vectors in the index.
    pub fn len(&self) -> (n: usize)
        ensures
            n == self@.graph.nodes.len(),
    {
        self.index.len()
    }

    pub fn is_empty(&self) -> (r: bool)
        ensures
            r <==> self@.graph.nodes.len() == 0,
    {
        self.index.len() == 0
    }

    pub fn dim(&self) -> (dim: usize)
        ensures
            dim == self@.dim,
    {
        self.store.dim()
    }

    /// The vector with this id.
    pub fn get(&self, id: u64) -> (r: Result<&[u32], Error>)
        requires
            self.wf(),
        ensures
            r is Ok <==> id < self@.rows.len(),
            r matches Ok(v) ==> v@ == self@.rows[id as int],
            r matches Err(e) ==> e == Error::IdOutOfRange(id),
    {
        self.store.get(id)
    }

    /// The number of nodes that no other node links to on the lowest layer,
    /// but for the entry point.
    pub fn orphan_count(&self) -> (count: usize)
        requires
            self.wf(),
        ensures
            count == orphans(self@.graph, self@.graph.nodes.len()).len(),
    {
        self.index.zero_indegree_count()
    }

    /// Those nodes.
    pub fn orphan_ids(&self) -> (list: Vec<u64>)
        requires
            self.wf(),
        ensures
            list@ == orphans(self@.graph, self@.graph.nodes.len()),
    {
        self.index.zero_indegree_nodes()
    }

    /// The sequence number of the next record of the log, if there is a log.
    pub fn next_lsn(&self) -> (lsn: Option<u64>)
        ensures
            match self@.log {
                None => lsn is None,
                Some(log) => lsn == Some(log.next_lsn),
            },
    {
        match &self.wal {
            None => None,
            Some(wal) => Some(wal.next_lsn()),
        }
    }

    /// The metric of the index.
    pub fn metric(&self) -> (metric: Metric)
        ensures
            metric == self@.config.metric,
    {
        self.index.config().metric
    }

    /// The `k` nearest neighbours of `query` that the index finds, in order.
    pub fn search<K: Fn(Metric, &[u32], &[u32]) -> u32>(
        &self,
        query: &[u32],
        k: usize,
        ef: usize,
        kernel: &K,
        visited: &mut VisitedSet,
    ) -> (r: Result<Vec<Neighbor>, Error>)
        requires
            self.wf(),
            old(visited).wf(),
            measures_all(*kernel),
        ensures
            final(visited).wf(),
            r is Ok <==> query@.len() == self@.dim,
            r matches Err(e) ==> e matches Error::DimensionMismatch { expected, got } && expected
                == self@.dim && got == query@.len(),
            r matches Ok(list) ==> {
                &&& hits(list@, self@.graph.nodes.len(), k as nat)
                &&& self@.graph.entry is Some && k > 0 ==> list@.len() > 0
                &&& forall|f: spec_fn(Metric, Seq<u32>, Seq<u32>) -> u32| #[trigger]
                    measures(*kernel, f) ==> list@ == knn(
                        self@.graph,
                        from_query(by_metric(f, self@.config.metric), query@, self@.rows),
                        k as nat,
                        ef as nat,
                    )
            },
    {
        let dim: usize = self.store.dim();
        if query.len() != dim {
            return Err(Error::DimensionMismatch { expected: dim, got: query.len() });
        }
        let metric: Metric = self.metric();
        let one = |a: &[u32], b: &[u32]| -> (d: u32)
            requires
                a@.len() == b@.len(),
            ensures
                call_ensures(*kernel, (metric, a, b), d),
            { kernel(metric, a, b) };
        proof {
            lemma_by_metric(*kernel, one, metric);
        }
        Ok(self.index.search(&self.store, query, k, ef, &one, visited))
    }
}

/// Hits scored anew and put in order are hits.
proof fn lemma_rescored_hits(
    raw: Seq<Neighbor>,
    scored: Seq<Neighbor>,
    n: nat,
    fetch: nat,
    k: nat,
)
    requires
        hits(raw, n, fetch),
        scored.len() == raw.len(),
        forall|i: int| 0 <= i < raw.len() ==> (#[trigger] scored[i]).id == raw[i].id,
    ensures
        some_hits(first(arranged(scored), k), n, k),
{
    let all = arranged(scored);
    let list = first(all, k);
    lemma_arranged_members(scored);
    assert forall|x: Neighbor| #[trigger] list.contains(x) implies scored.contains(x) && x.id
        < n by {
        let i = list.index_of(x);
        assert(all[i] == x);
        assert(all.contains(x));
        let j = scored.index_of(x);
        assert(raw.contains(raw[j]));
    }
    assert forall|x: Neighbor, y: Neighbor| #[trigger]
        list.contains(x) && #[trigger] list.contains(y) && x.id == y.id implies x == y by {
        let (i, j) = (scored.index_of(x), scored.index_of(y));
        assert(raw.contains(raw[i]) && raw.contains(raw[j]));
        if i < j {
            assert(precedes(raw[i], raw[j]));
        }
        if j < i {
            assert(precedes(raw[j], raw[i]));
        }
    }
    assert(in_order(list));
}

/// The code with this number.
fn code_of<'a>(codes: &'a Vec<u8>, id: u64, m: usize, n: usize) -> (code: &'a [u8])
    requires
        id < n,
        n * m <= codes@.len(),
    ensures
        code@ == code_at(codes@, id as int, m as nat),
        code@.len() == m,
{
    proof {
        lemma_piece((n * m) as nat, id as int, m as nat, n as nat);
        assert(codes@.len() == codes.len());
        assert(id * m == m * id) by (nonlinear_arith);
    }
    let at: usize = id as usize * m;
    vstd::slice::slice_subrange(codes.as_slice(), at, at + m)
}

impl Db {
    /// Scores candidates by their vectors.
    fn rescore<K: Fn(Metric, &[u32], &[u32]) -> u32>(
        &self,
        list: &Vec<Neighbor>,
        query: &[u32],
        kernel: &K,
    ) -> (scored: Vec<Neighbor>)
        requires
            self.wf(),
            query@.len() == self@.dim,
            measures_all(*kernel),
            forall|i: int| 0 <= i < list@.len() ==> (#[trigger] list@[i]).id < self@.rows.len(),
        ensures
            scored@.len() == list@.len(),
            forall|i: int| 0 <= i < list@.len() ==> (#[trigger] scored@[i]).id == list@[i].id,
            forall|f: spec_fn(Metric, Seq<u32>, Seq<u32>) -> u32| #[trigger]
                measures(*kernel, f) ==> scored@ == rescored(
                    list@,
                    query@,
                    self@.rows,
                    by_metric(f, self@.config.metric),
                ),
    {
        let metric: Metric = self.metric();
        let mut scored: Vec<Neighbor> = Vec::with_capacity(list.len());
        let mut i: usize = 0;
        while i < list.len()
            invariant
                i <= list@.len(),
                self.wf(),
                metric == self@.config.metric,
                query@.len() == self@.dim,
                measures_all(*kernel),
                forall|j: int|
                    0 <= j < list@.len() ==> (#[trigger] list@[j]).id < self@.rows.len(),
                scored@.len() == i,
                forall|j: int| 0 <= j < i ==> (#[trigger] scored@[j]).id == list@[j].id,
                forall|f: spec_fn(Metric, Seq<u32>, Seq<u32>) -> u32, j: int|
                    #![trigger measures(*kernel, f), scored@[j]]
                    measures(*kernel, f) && 0 <= j < i ==> scored@[j].distance == f(
                        metric,
                        query@,
                        self@.rows[list@[j].id as int],
                    ),
            decreases list@.len() - i,
        {
            let id: u64 = list[i].id;
            let row: &[u32] = self.store.get_unchecked(id);
            let distance: u32 = kernel(metric, query, row);
            scored.push(Neighbor { id, distance });
            i = i + 1;
        }
        proof {
            assert forall|f: spec_fn(Metric, Seq<u32>, Seq<u32>) -> u32| #[trigger]
                measures(*kernel, f) implies scored@ == rescored(
                list@,
                query@,
                self@.rows,
                by_metric(f, self@.config.metric),
            ) by {
                assert(scored@ =~= rescored(
                    list@,
                    query@,
                    self@.rows,
                    by_metric(f, self@.config.metric),
                ));
            }
        }
        scored
    }

    /// The best candidates by their codes.
    fn search_codes<L: Fn(&[u32], &[u32]) -> u32, A: Fn(u32, u32) -> u32>(
        &self,
        state: &PqState,
        query: &[u32],
        fetch: usize,
        ef: usize,
        l2: &L,
        plus: &A,
        visited: &mut VisitedSet,
    ) -> (raw: Vec<Neighbor>)
        requires
            self.wf(),
            self.pq == Some(*state),
            old(visited).wf(),
            query@.len() == self@.dim,
            scores_all(*l2),
            adds_all(*plus),
        ensures
            final(visited).wf(),
            hits(raw@, self@.graph.nodes.len(), fetch as nat),
            self@.graph.entry is Some && fetch > 0 ==> raw@.len() > 0,
            forall|lf: spec_fn(Seq<u32>, Seq<u32>) -> u32, pf: spec_fn(u32, u32) -> u32|
                #![trigger computes(*l2, lf), adds(*plus, pf)]
                computes(*l2, lf) && adds(*plus, pf) ==> raw@ == knn(
                    self@.graph,
                    code_distances(self@.pq->0, query@, lf, pf),
                    fetch as nat,
                    ef as nat,
                ),
    {
        let m: usize = state.pq.m();
        let table: Vec<u32> = state.pq.adc_table(query, l2);
        let n: usize = self.index.len();
        let codes: &Vec<u8> = &state.codes;
        let dist = |id: u64| -> (d: u32)
            requires
                id < n,
            ensures
                forall|pf: spec_fn(u32, u32) -> u32| #[trigger]
                    adds(*plus, pf) ==> d == code_distance(
                        table@,
                        code_at(codes@, id as int, m as nat),
                        pf,
                    ),
            { adc_distance(table.as_slice(), code_of(codes, id, m, n), plus) };
        proof {
            assert forall|lf: spec_fn(Seq<u32>, Seq<u32>) -> u32, pf: spec_fn(u32, u32) -> u32|
                #![trigger computes(*l2, lf), adds(*plus, pf)]
                computes(*l2, lf) && adds(*plus, pf) implies answers(
                dist,
                code_distances(self@.pq->0, query@, lf, pf),
            ) by {}
        }
        self.index.search_with_oracle(&dist, fetch, ef, visited)
    }

    /// The `k` nearest neighbours of `query` by the codes. The best `k *
    /// rerank` of them are scored anew by their vectors, unless `rerank` is
    /// zero.
    pub fn search_pq<
        K: Fn(Metric, &[u32], &[u32]) -> u32,
        L: Fn(&[u32], &[u32]) -> u32,
        A: Fn(u32, u32) -> u32,
    >(
        &self,
        query: &[u32],
        k: usize,
        ef: usize,
        rerank: usize,
        kernel: &K,
        l2: &L,
        plus: &A,
        visited: &mut VisitedSet,
    ) -> (r: Result<Vec<Neighbor>, Error>)
        requires
            self.wf(),
            old(visited).wf(),
            measures_all(*kernel),
            scores_all(*l2),
            adds_all(*plus),
            k * rerank <= usize::MAX,
        ensures
            final(visited).wf(),
            r is Ok <==> query@.len() == self@.dim && self@.pq is Some,
            r matches Err(e) ==> if query@.len() != self@.dim {
                e matches Error::DimensionMismatch { expected, got } && expected == self@.dim
                    && got == query@.len()
            } else {
                is_corrupt(e, "PQ not trained; call train_pq first"@)
            },
            r matches Ok(list) ==> {
                &&& some_hits(list@, self@.graph.nodes.len(), k as nat)
                &&& forall|
                    kf: spec_fn(Metric, Seq<u32>, Seq<u32>) -> u32,
                    lf: spec_fn(Seq<u32>, Seq<u32>) -> u32,
                    pf: spec_fn(u32, u32) -> u32,
                |
                    #![trigger measures(*kernel, kf), computes(*l2, lf), adds(*plus, pf)]
                    measures(*kernel, kf) && computes(*l2, lf) && adds(*plus, pf) ==> list@
                        == code_hits(
                        self@,
                        query@,
                        k as nat,
                        ef as nat,
                        rerank as nat,
                        kf,
                        lf,
                        pf,
                    )
            },
    {
        let dim: usize = self.store.dim();
        if query.len() != dim {
            return Err(Error::DimensionMismatch { expected: dim, got: query.len() });
        }
        match &self.pq {
            None => Err(corrupt("PQ not trained; call train_pq first")),
            Some(state) => {
                let fetch: usize = if rerank == 0 {
                    k
                } else {
                    k * rerank
                };
                let raw: Vec<Neighbor> = self.search_codes(
                    state,
                    query,
                    fetch,
                    ef,
                    l2,
                    plus,
                    visited,
                );
                if rerank == 0 {
                    proof {
                        lemma_ascending_in_order(raw@);
                    }
                    return Ok(raw);
                }
                assert forall|i: int| 0 <= i < raw@.len() implies (#[trigger] raw@[i]).id
                    < self@.rows.len() by {
                    assert(raw@.contains(raw@[i]));
                }
                let scored: Vec<Neighbor> = self.rescore(&raw, query, kernel);
                let mut list: Vec<Neighbor> = arrange(&scored);
                list.truncate(k);
                proof {
                    assert(list@ =~= first(arranged(scored@), k as nat));
                    lemma_rescored_hits(
                        raw@,
                        scored@,
                        self@.graph.nodes.len(),
                        fetch as nat,
                        k as nat,
                    );
                }
                Ok(list)
            },
        }
    }
}

} // verus!
