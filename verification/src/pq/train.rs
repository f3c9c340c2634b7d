//! Training a product quantizer.

use crate::oracle::scores_dim;
use crate::pq::kmeans::{clustered, folds_all, kmeans, spots_any};
use crate::pq::{adds_all, lemma_piece, ProductQuantizer, K};
use crate::random::seeded;
use rand::rngs::SmallRng;
use vstd::prelude::*;

verus! {

/// The rows of `dim` words, cut down to part `sub`.
pub open spec fn subspace(samples: Seq<u32>, n: nat, dim: nat, sub: int, sub_dim: nat) -> Seq<
    u32,
> {
    Seq::new(
        n * sub_dim,
        |i: int| samples[i / sub_dim as int * dim + sub * sub_dim + i % sub_dim as int],
    )
}

/// The codebook of part `sub`.
pub open spec fn codebook(centroids: Seq<u32>, sub: int, sub_dim: nat) -> Seq<u32> {
    centroids.subrange(sub * (K * sub_dim), (sub + 1) * (K * sub_dim))
}

/// The codebook of part `sub` was made by clustering that part of the samples.
pub open spec fn trained<
    L: Fn(&[u32], &[u32]) -> u32,
    S: Fn(&[u32]) -> u32,
    M: Fn(u32, u32) -> u32,
    A: Fn(&[u32]) -> u32,
    T: Fn(u64, u32) -> u32,
>(
    book: Seq<u32>,
    samples: Seq<u32>,
    n: nat,
    dim: nat,
    sub: int,
    sub_dim: nat,
    iters: nat,
    l2: L,
    total: S,
    minus: M,
    mean: A,
    spot: T,
) -> bool {
    exists|picks: Seq<usize>, respawns: Seq<Seq<usize>>| #[trigger]
        clustered(
            book,
            subspace(samples, n, dim, sub, sub_dim),
            n,
            sub_dim,
            iters,
            picks,
            respawns,
            l2,
            total,
            minus,
            mean,
            spot,
        )
}

/// Gathers one part of every sample.
fn gather_part(samples: &[u32], n: usize, dim: usize, sub: usize, sub_dim: usize) -> (points: Vec<
    u32,
>)
    requires
        samples@.len() == n * dim,
        0 < sub_dim,
        (sub + 1) * sub_dim <= dim,
    ensures
        points@ == subspace(samples@, n as nat, dim as nat, sub as int, sub_dim as nat),
        points@.len() == n * sub_dim,
{
    let mut points: Vec<u32> = Vec::new();
    assert(samples@.len() == samples.len());
    let mut i: usize = 0;
    let ghost want = subspace(samples@, n as nat, dim as nat, sub as int, sub_dim as nat);
    assert(0 * sub_dim == 0) by (nonlinear_arith);
    while i < n
        invariant
            i <= n,
            samples@.len() == n * dim,
            samples@.len() <= usize::MAX,
            0 < sub_dim,
            (sub + 1) * sub_dim <= dim,
            want == subspace(samples@, n as nat, dim as nat, sub as int, sub_dim as nat),
            points@.len() == i * sub_dim,
            i * sub_dim <= want.len(),
            points@ == want.take(i * sub_dim),
        decreases n - i,
    {
        proof {
            lemma_piece(samples@.len(), i as int, dim as nat, n as nat);
            lemma_piece(want.len(), i as int, sub_dim as nat, n as nat);
            assert((sub + 1) * sub_dim == sub * sub_dim + sub_dim) by (nonlinear_arith);
            assert(0 <= sub * sub_dim) by (nonlinear_arith);
        }
        let start: usize = i * dim + sub * sub_dim;
        let ghost before = points@;
        let part: &[u32] = vstd::slice::slice_subrange(samples, start, start + sub_dim);
        points.extend_from_slice(part);
        proof {
            assert((i + 1) * sub_dim == i * sub_dim + sub_dim) by (nonlinear_arith);
            assert(points@ =~= before + part@);
            assert forall|j: int| 0 <= j < (i + 1) * sub_dim implies #[trigger] points@[j]
                == want[j] by {
                if j < i * sub_dim {
                    assert(points@[j] == before[j]);
                } else {
                    let r = j - i * sub_dim;
                    lemma_split(j, i as int, sub_dim as int, r);
                    assert(points@[j] == part@[r]);
                }
            }
            assert(points@ =~= want.take((i + 1) * sub_dim));
        }
        i = i + 1;
    }
    assert(want.take(n * sub_dim) =~= want);
    points
}

proof fn lemma_split(j: int, i: int, d: int, r: int)
    requires
        j == i * d + r,
        0 <= r < d,
    ensures
        j / d == i,
        j % d == r,
{
    vstd::arithmetic::div_mod::lemma_fundamental_div_mod_converse(j, d, i, r);
}

impl ProductQuantizer {
    /// Trains codebooks on `samples`, rows of `dim` words. There is a seed for
    /// every part, for the random choices of its clustering.
    pub fn train<
        L: Fn(&[u32], &[u32]) -> u32,
        S: Fn(&[u32]) -> u32,
        M: Fn(u32, u32) -> u32,
        A: Fn(&[u32]) -> u32,
        T: Fn(u64, u32) -> u32,
    >(
        samples: &[u32],
        dim: usize,
        m: usize,
        iters: usize,
        seeds: &[u64],
        l2: &L,
        total: &S,
        minus: &M,
        mean: &A,
        spot: &T,
    ) -> (pq: ProductQuantizer)
        requires
            0 < m,
            0 < dim,
            dim % m == 0,
            samples@.len() % (dim as nat) == 0,
            samples@.len() / (dim as nat) >= K,
            seeds@.len() == m,
            scores_dim(*l2, (dim / m) as nat),
            folds_all(*total),
            adds_all(*minus),
            folds_all(*mean),
            spots_any(*spot),
        ensures
            pq.wf(),
            pq.spec_dim() == dim,
            pq.spec_m() == m,
            pq.spec_sub_dim() == dim / m,
            forall|sub: int|
                0 <= sub < m ==> trained(
                    #[trigger] codebook(pq.spec_centroids(), sub, (dim / m) as nat),
                    samples@,
                    samples@.len() / (dim as nat),
                    dim as nat,
                    sub,
                    (dim / m) as nat,
                    iters as nat,
                    *l2,
                    *total,
                    *minus,
                    *mean,
                    *spot,
                ),
    {
        let n: usize = samples.len() / dim;
        let d: usize = dim / m;
        proof {
            vstd::arithmetic::div_mod::lemma_fundamental_div_mod(dim as int, m as int);
            vstd::arithmetic::div_mod::lemma_fundamental_div_mod(samples@.len() as int, dim as int);
            assert(n * dim == dim * n) by (nonlinear_arith);
            assert(m * d == d * m) by (nonlinear_arith);
            assert(d > 0) by (nonlinear_arith)
                requires
                    m * d == dim,
                    dim > 0,
                    d >= 0,
            ;
            assert(0 * (K * d) == 0) by (nonlinear_arith);
        }
        let mut centroids: Vec<u32> = Vec::new();
        let mut sub: usize = 0;
        while sub < m
            invariant
                sub <= m,
                d * m == dim,
                d > 0,
                samples@.len() == n * dim,
                n >= K,
                seeds@.len() == m,
                scores_dim(*l2, d as nat),
                folds_all(*total),
                adds_all(*minus),
                folds_all(*mean),
                spots_any(*spot),
                centroids@.len() == sub * (K * d),
                forall|s: int|
                    0 <= s < sub ==> trained(
                        #[trigger] codebook(centroids@, s, d as nat),
                        samples@,
                        n as nat,
                        dim as nat,
                        s,
                        d as nat,
                        iters as nat,
                        *l2,
                        *total,
                        *minus,
                        *mean,
                        *spot,
                    ),
            decreases m - sub,
        {
            proof {
                assert((sub + 1) * d <= dim) by (nonlinear_arith)
                    requires
                        sub < m,
                        d * m == dim,
                        d > 0,
                ;
            }
            let points: Vec<u32> = gather_part(samples, n, dim, sub, d);
            let mut rng: SmallRng = seeded(seeds[sub]);
            let book: Vec<u32> = kmeans(
                points.as_slice(),
                n,
                d,
                iters,
                l2,
                total,
                minus,
                mean,
                &mut rng,
                spot,
            );
            let ghost before = centroids@;
            centroids.extend_from_slice(book.as_slice());
            proof {
                let size = K * d;
                assert((sub + 1) * size == sub * size + size) by (nonlinear_arith);
                assert(centroids@ =~= before + book@);
                assert forall|s: int| 0 <= s < sub + 1 implies trained(
                    #[trigger] codebook(centroids@, s, d as nat),
                    samples@,
                    n as nat,
                    dim as nat,
                    s,
                    d as nat,
                    iters as nat,
                    *l2,
                    *total,
                    *minus,
                    *mean,
                    *spot,
                ) by {
                    if s < sub {
                        assert(0 <= s * size <= (s + 1) * size <= sub * size) by (nonlinear_arith)
                            requires
                                0 <= s < sub,
                                size >= 0,
                        ;
                        assert(codebook(centroids@, s, d as nat) =~= codebook(
                            before,
                            s,
                            d as nat,
                        ));
                    } else {
                        assert(codebook(centroids@, s, d as nat) =~= book@);
                    }
                }
            }
            sub = sub + 1;
        }
        proof {
            assert(m * (K * d) == (m * K) * d) by (nonlinear_arith);
            assert(centroids@.len() == centroids.len());
        }
        ProductQuantizer::with_centroids(dim, m, d, centroids)
    }
}

} // verus!
