//! Training the codes of a database.

use crate::db::model::{scores_all, Codes, Image};
use crate::db::{Db, PqState};
use crate::distance::Metric;
use crate::error::{corrupt, is_corrupt, Error};
use crate::oracle::computes;
use crate::pq::codebook::{all_codes, code_at, encode_all};
use crate::pq::kmeans::{folds_all, spots_any};
use crate::pq::train::{codebook, trained};
use crate::pq::{adds_all, encoded, lemma_piece, ProductQuantizer, K};
use crate::storage::store::VectorStore;
use vstd::prelude::*;

verus! {

/// The distance between two samples, so that there are no more than asked for
/// or a few more.
pub open spec fn sample_step(n: nat, max_samples: nat) -> nat {
    let most = if max_samples == 0 {
        1
    } else {
        max_samples
    };
    if n / most == 0 {
        1
    } else {
        n / most
    }
}

/// The number of samples.
pub open spec fn sample_count(n: nat, step: nat) -> nat {
    if n == 0 {
        0
    } else {
        ((n - 1) / step as int + 1) as nat
    }
}

/// Vectors of a database can be split into `m` parts, and there are enough
/// samples for the centroids.
pub open spec fn trainable(img: Image, m: nat, max_samples: nat) -> bool {
    &&& 0 < m
    &&& img.dim % m == 0
    &&& sample_count(img.rows.len(), sample_step(img.rows.len(), max_samples)) >= K
}

/// The first `count` samples, end to end.
pub open spec fn sampled(rows: Seq<Seq<u32>>, step: nat, count: nat) -> Seq<u32>
    decreases count,
{
    if count == 0 {
        Seq::empty()
    } else {
        sampled(rows, step, (count - 1) as nat) + rows[(count - 1) * step]
    }
}

/// The distance between two samples.
fn step_between(n: usize, max_samples: usize) -> (step: usize)
    ensures
        step == sample_step(n as nat, max_samples as nat),
        step > 0,
{
    let most: usize = if max_samples == 0 {
        1
    } else {
        max_samples
    };
    if n / most == 0 {
        1
    } else {
        n / most
    }
}

/// Takes a sample of the stored vectors.
fn sample(store: &VectorStore, step: usize) -> (samples: Vec<u32>)
    requires
        store.wf(),
        step > 0,
    ensures
        samples@ == sampled(
            store.rows(),
            step as nat,
            sample_count(store.rows().len(), step as nat),
        ),
        samples@.len() == sample_count(store.rows().len(), step as nat) * store.spec_dim(),
{
    let n: usize = store.len();
    let ghost rows = store.rows();
    let ghost dim = store.spec_dim();
    let ghost mut count: nat = 0;
    let mut samples: Vec<u32> = Vec::new();
    let mut id: usize = 0;
    let mut more: bool = n > 0;
    assert(0 * dim == 0 && 0 * step == 0) by (nonlinear_arith);
    while more
        invariant
            store.wf(),
            step > 0,
            rows == store.rows(),
            dim == store.spec_dim(),
            n == rows.len(),
            samples@ == sampled(rows, step as nat, count),
            samples@.len() == count * dim,
            more ==> id < n && id == count * step,
            !more ==> count == sample_count(n as nat, step as nat),
            id <= n,
        decreases n - id + (if more {
                1int
            } else {
                0int
            }),
    {
        let row: &[u32] = store.get_unchecked(id as u64);
        let ghost before = samples@;
        samples.extend_from_slice(row);
        proof {
            assert(samples@ =~= before + row@);
            assert((count + 1) * dim == count * dim + dim) by (nonlinear_arith);
            assert((count + 1) * step == count * step + step) by (nonlinear_arith);
            count = count + 1;
        }
        if step < n - id {
            id = id + step;
        } else {
            more = false;
            proof {
                lemma_last_sample(n as int, step as int, count as int);
            }
        }
    }
    samples
}

/// The samples are every `step`th vector from the first on, end to end, and none
/// is left out: the words from `i * dim` up to `(i + 1) * dim` are the vector
/// with id `i * step`, and every id is less than `step` behind that of a sample.
pub proof fn law_samples_are_evenly_spread(rows: Seq<Seq<u32>>, dim: nat, step: nat)
    requires
        step > 0,
        forall|i: int| 0 <= i < rows.len() ==> (#[trigger] rows[i]).len() == dim,
    ensures
        ({
            let count = sample_count(rows.len(), step);
            let samples = sampled(rows, step, count);
            &&& samples.len() == count * dim
            &&& forall|i: int|
                0 <= i < count ==> 0 <= #[trigger] (i * step) < rows.len() && samples.subrange(
                    i * dim,
                    (i + 1) * dim,
                ) == rows[i * step]
            &&& forall|id: int|
                0 <= id < rows.len() ==> 0 <= #[trigger] (id / step as int) < count && (id
                    / step as int) * step <= id < (id / step as int) * step + step
        }),
{
    let n = rows.len();
    let count = sample_count(n, step);
    assert forall|id: int| 0 <= id < n implies 0 <= #[trigger] (id / step as int) < count && (id
        / step as int) * step <= id < (id / step as int) * step + step by {
        let q = id / step as int;
        assert(0 <= q <= (n - 1) / step as int && q * step <= id < q * step + step)
            by (nonlinear_arith)
            requires
                0 <= id <= n - 1,
                step > 0,
                q == id / step as int,
        ;
    }
    assert forall|i: int| 0 <= i < count implies 0 <= #[trigger] (i * step) < n by {
        assert(0 <= i * step <= n - 1) by (nonlinear_arith)
            requires
                0 <= i <= (n - 1) / step as int,
                step > 0,
                n > 0,
        ;
    }
    lemma_sampled(rows, dim, step, count);
}

proof fn lemma_sampled(rows: Seq<Seq<u32>>, dim: nat, step: nat, count: nat)
    requires
        forall|i: int| 0 <= i < rows.len() ==> (#[trigger] rows[i]).len() == dim,
        forall|i: int| 0 <= i < count ==> 0 <= #[trigger] (i * step) < rows.len(),
    ensures
        sampled(rows, step, count).len() == count * dim,
        forall|i: int|
            0 <= i < count ==> sampled(rows, step, count).subrange(i * dim, (i + 1) * dim)
                == rows[#[trigger] (i * step)],
    decreases count,
{
    let all = sampled(rows, step, count);
    if count == 0 {
        assert(0 * dim == 0) by (nonlinear_arith);
    } else {
        let last = count - 1;
        let front = sampled(rows, step, last as nat);
        lemma_sampled(rows, dim, step, last as nat);
        assert(0 <= last * step < rows.len());
        assert((last + 1) * dim == last * dim + dim) by (nonlinear_arith);
        assert forall|i: int| 0 <= i < count implies all.subrange(i * dim, (i + 1) * dim)
            == rows[#[trigger] (i * step)] by {
            if i < last {
                assert(0 <= i * dim <= (i + 1) * dim <= last * dim) by (nonlinear_arith)
                    requires
                        0 <= i < last,
                ;
                assert(all.subrange(i * dim, (i + 1) * dim) =~= front.subrange(
                    i * dim,
                    (i + 1) * dim,
                ));
            } else {
                assert(all.subrange(i * dim, (i + 1) * dim) =~= rows[last * step]);
            }
        }
    }
}

/// There are as many samples as asked for, or more but not twice as many. If
/// there are fewer vectors, all of them are samples.
pub proof fn law_enough_samples_are_taken(n: nat, max_samples: nat)
    requires
        max_samples > 0,
    ensures
        sample_step(n, max_samples) > 0,
        n <= max_samples ==> sample_count(n, sample_step(n, max_samples)) == n,
        max_samples <= n ==> max_samples <= sample_count(n, sample_step(n, max_samples)) < 2
            * max_samples,
{
    let q = n / max_samples;
    let step = sample_step(n, max_samples);
    if n < max_samples {
        assert(q == 0) by (nonlinear_arith)
            requires
                n < max_samples,
                q == n / max_samples,
        ;
        assert((n - 1) / 1 == n - 1);
    } else {
        assert(q >= 1 && q * max_samples <= n < (q + 1) * max_samples) by (nonlinear_arith)
            requires
                n >= max_samples > 0,
                q == n / max_samples,
        ;
        let c = (n - 1) / step as int;
        assert(max_samples - 1 <= c < 2 * max_samples - 1) by (nonlinear_arith)
            requires
                q >= 1,
                max_samples > 0,
                q * max_samples <= n < (q + 1) * max_samples,
                c == (n - 1) / q as int,
        ;
    }
}

/// There is enough to train on wherever there are as many vectors as centroids, as
/// many samples are asked for, and the vectors can be split.
pub proof fn law_enough_vectors_can_be_trained_on(img: Image, m: nat, max_samples: nat)
    requires
        img.rows.len() >= K,
        max_samples >= K,
        0 < m,
        img.dim % m == 0,
    ensures
        trainable(img, m, max_samples),
{
    law_enough_samples_are_taken(img.rows.len(), max_samples);
}

/// The sample behind which there is none.
proof fn lemma_last_sample(n: int, step: int, count: int)
    requires
        step > 0,
        count >= 1,
        (count - 1) * step < n <= count * step,
    ensures
        (n - 1) / step + 1 == count,
{
    let r = n - 1 - (count - 1) * step;
    assert(count * step == (count - 1) * step + step) by (nonlinear_arith);
    vstd::arithmetic::div_mod::lemma_fundamental_div_mod_converse(n - 1, step, count - 1, r);
}

impl Db {
    /// Whether [`Db::train_pq`] can be called with these arguments: it can where
    /// it reports an error, and where there is something to train on.
    pub fn can_train(&self, m: usize, max_samples: usize) -> (r: bool)
        requires
            self.wf(),
        ensures
            r <==> (self@.config.metric == Metric::L2 && self@.rows.len() >= K ==> trainable(
                self@,
                m as nat,
                max_samples as nat,
            )),
    {
        let n: usize = self.store.len();
        if self.metric() != Metric::L2 || n < K {
            return true;
        }
        let step: usize = step_between(n, max_samples);
        m > 0 && self.store.dim() % m == 0 && (n - 1) / step + 1 >= K
    }

    /// Trains codes on the stored vectors and encodes all of them. Vectors that
    /// are inserted later are encoded as they arrive. There is a seed for each
    /// of the `m` parts.
    pub fn train_pq<
        L: Fn(&[u32], &[u32]) -> u32,
        S: Fn(&[u32]) -> u32,
        M: Fn(u32, u32) -> u32,
        A: Fn(&[u32]) -> u32,
        T: Fn(u64, u32) -> u32,
    >(
        &mut self,
        m: usize,
        iters: usize,
        max_samples: usize,
        seeds: &[u64],
        l2: &L,
        total: &S,
        minus: &M,
        mean: &A,
        spot: &T,
    ) -> (r: Result<(), Error>)
        requires
            old(self).wf(),
            old(self)@.config.metric == Metric::L2 && old(self)@.rows.len() >= K ==> trainable(
                old(self)@,
                m as nat,
                max_samples as nat,
            ) && seeds@.len() == m,
            scores_all(*l2),
            folds_all(*total),
            adds_all(*minus),
            folds_all(*mean),
            spots_any(*spot),
        ensures
            final(self).wf(),
            r is Ok <==> old(self)@.config.metric == Metric::L2 && old(self)@.rows.len() >= K,
            r matches Err(e) ==> {
                &&& final(self)@ == old(self)@
                &&& if old(self)@.config.metric != Metric::L2 {
                    is_corrupt(e, "PQ supports L2 only in v1"@)
                } else {
                    is_corrupt(e, "need >= 256 vectors to train PQ"@)
                }
            },
            r is Ok ==> {
                let rows = old(self)@.rows;
                let dim = old(self)@.dim;
                let step = sample_step(rows.len(), max_samples as nat);
                let count = sample_count(rows.len(), step);
                let c = final(self)@.pq->0;
                &&& final(self)@ == (Image { pq: Some(c), ..old(self)@ })
                &&& c.quantizer.dim == dim
                &&& c.quantizer.m == m
                &&& c.quantizer.sub_dim == dim / m as nat
                &&& c.codes.len() == rows.len() * m
                &&& forall|sub: int|
                    0 <= sub < m ==> trained(
                        #[trigger] codebook(c.quantizer.centroids, sub, dim / m as nat),
                        sampled(rows, step, count),
                        count,
                        dim,
                        sub,
                        dim / m as nat,
                        iters as nat,
                        *l2,
                        *total,
                        *minus,
                        *mean,
                        *spot,
                    )
                &&& forall|f: spec_fn(Seq<u32>, Seq<u32>) -> u32| #[trigger]
                    computes(*l2, f) ==> c.codes == all_codes(c.quantizer, rows, f)
            },
    {
        if self.metric() != Metric::L2 {
            return Err(corrupt("PQ supports L2 only in v1"));
        }
        let n: usize = self.store.len();
        let dim: usize = self.store.dim();
        if n < K {
            return Err(corrupt("need >= 256 vectors to train PQ"));
        }
        let step: usize = step_between(n, max_samples);
        let samples: Vec<u32> = sample(&self.store, step);
        let ghost count = sample_count(n as nat, step as nat);
        proof {
            self.store.lemma_sound();
            lemma_even_split(samples@.len() as int, count as int, dim as int);
        }
        let pq: ProductQuantizer = ProductQuantizer::train(
            samples.as_slice(),
            dim,
            m,
            iters,
            seeds,
            l2,
            total,
            minus,
            mean,
            spot,
        );
        let codes: Vec<u8> = encode_all(&pq, &self.store, l2);
        let ghost q = pq@;
        let ghost bytes = codes@;
        proof {
            let (a, b) = (self@.graph.nodes.len() as int, n as int);
            assert(a * m <= b * m) by (nonlinear_arith)
                requires
                    a <= b,
                    0 <= m,
            ;
        }
        self.pq = Some(PqState { pq, codes });
        assert(self@ =~= (Image {
            pq: Some(Codes { quantizer: q, codes: bytes }),
            ..old(self)@
        }));
        Ok(())
    }
}

proof fn lemma_even_split(len: int, count: int, dim: int)
    requires
        len == count * dim,
        dim > 0,
    ensures
        len % dim == 0,
        len / dim == count,
{
    vstd::arithmetic::div_mod::lemma_fundamental_div_mod_converse(len, dim, count, 0);
}

/// The code with this number is not the one that encoding the vector gives.
pub open spec fn stale(
    c: Codes,
    rows: Seq<Seq<u32>>,
    id: int,
    f: spec_fn(Seq<u32>, Seq<u32>) -> u32,
) -> bool {
    code_at(c.codes, id, c.quantizer.m) != encoded(
        c.quantizer.centroids,
        c.quantizer.m,
        c.quantizer.sub_dim,
        rows[id],
        f,
    )
}

/// The numbers of the codes among the first `n` that are stale, in order.
pub open spec fn stale_ids(
    c: Codes,
    rows: Seq<Seq<u32>>,
    n: nat,
    f: spec_fn(Seq<u32>, Seq<u32>) -> u32,
) -> Seq<u64>
    decreases n,
{
    if n == 0 {
        Seq::empty()
    } else {
        let front = stale_ids(c, rows, (n - 1) as nat, f);
        if stale(c, rows, n - 1, f) {
            front.push((n - 1) as u64)
        } else {
            front
        }
    }
}

/// Whether the bytes from `at` on are those of `code`.
fn same_code(codes: &Vec<u8>, at: usize, code: &Vec<u8>) -> (same: bool)
    requires
        at + code@.len() <= codes@.len(),
    ensures
        same == (codes@.subrange(at as int, at + code@.len()) == code@),
{
    let ghost part = codes@.subrange(at as int, at + code@.len());
    let mut i: usize = 0;
    while i < code.len()
        invariant
            i <= code@.len(),
            at + code@.len() <= codes@.len(),
            part == codes@.subrange(at as int, at + code@.len()),
            forall|j: int| 0 <= j < i ==> part[j] == code@[j],
        decreases code@.len() - i,
    {
        assert(codes@.len() == codes.len());
        if codes[at + i] != code[i] {
            assert(part[i as int] != code@[i as int]);
            return false;
        }
        i = i + 1;
    }
    assert(part =~= code@);
    true
}

impl Db {
    /// The ids whose code is not the one that encoding their vector anew
    /// gives, with the number of codes and the number of vectors. There is
    /// nothing to say before codes are trained.
    pub fn pq_inconsistent_ids<L: Fn(&[u32], &[u32]) -> u32>(&self, l2: &L) -> (r: Option<
        (Vec<u64>, usize, usize),
    >)
        requires
            self.wf(),
            scores_all(*l2),
        ensures
            r is Some <==> self@.pq is Some,
            r matches Some((bad, covered, rows)) ==> {
                let c = self@.pq->0;
                &&& covered == c.codes.len() / c.quantizer.m
                &&& rows == self@.rows.len()
                &&& forall|f: spec_fn(Seq<u32>, Seq<u32>) -> u32| #[trigger]
                    computes(*l2, f) ==> bad@ == stale_ids(c, self@.rows, covered as nat, f)
            },
    {
        match &self.pq {
            None => None,
            Some(state) => {
                let m: usize = state.pq.m();
                let covered: usize = state.codes.len() / m;
                let rows: usize = self.store.len();
                let ghost c = self@.pq->0;
                proof {
                    vstd::arithmetic::div_mod::lemma_fundamental_div_mod(
                        state.codes@.len() as int,
                        m as int,
                    );
                    assert(covered <= rows) by (nonlinear_arith)
                        requires
                            m * covered <= rows * m,
                            m > 0,
                    ;
                }
                let mut bad: Vec<u64> = Vec::new();
                let mut fresh: Vec<u8> = vec![0u8; m];
                let mut id: usize = 0;
                while id < covered
                    invariant
                        id <= covered <= rows,
                        self.wf(),
                        self.pq == Some(*state),
                        c == self@.pq->0,
                        rows == self@.rows.len(),
                        m == c.quantizer.m,
                        m * covered <= c.codes.len(),
                        scores_all(*l2),
                        fresh@.len() == m,
                        forall|f: spec_fn(Seq<u32>, Seq<u32>) -> u32| #[trigger]
                            computes(*l2, f) ==> bad@ == stale_ids(c, self@.rows, id as nat, f),
                    decreases covered - id,
                {
                    let row: &[u32] = self.store.get_unchecked(id as u64);
                    state.pq.encode(row, &mut fresh, l2);
                    proof {
                        assert(m * covered == covered * m) by (nonlinear_arith);
                        lemma_piece((covered * m) as nat, id as int, m as nat, covered as nat);
                        assert(state.codes@.len() == state.codes.len());
                    }
                    if !same_code(&state.codes, id * m, &fresh) {
                        bad.push(id as u64);
                    }
                    id = id + 1;
                }
                Some((bad, covered, rows))
            },
        }
    }
}

} // verus!
