//! Product quantization.
//!
//! A vector is split into `m` parts of equal length. Each part has a codebook
//! of [`K`] centroids, and is replaced by the number of the closest one, so a
//! vector becomes `m` bytes. Distances from a query to codes come from a table
//! of the distances of its parts to all centroids.

pub mod centers;
pub mod codebook;
pub mod kmeans;
pub mod laws;
pub mod train;

use crate::bytes::{put_words, read_words, words_at, words_bytes};
use crate::float32::{as_index, from_integer, less, lt, of_integer, to_integer, INFINITY};
use crate::oracle::{computes, scores_dim};
use vstd::prelude::*;

verus! {

/// Centroids in a codebook: as many as a byte can tell apart.
pub const K: usize = 256;

/// The `i`th run of `d` words.
pub open spec fn piece(s: Seq<u32>, i: int, d: nat) -> Seq<u32> {
    s.subrange(i * d, i * d + d)
}

/// The position of the smallest of the first `n` values, and that value. Only
/// what is less than infinity counts, and the first of equal ones.
pub open spec fn argmin(value: spec_fn(int) -> u32, n: nat) -> (int, u32)
    decreases n,
{
    if n == 0 {
        (0, INFINITY)
    } else {
        let (at, least) = argmin(value, (n - 1) as nat);
        if lt(value(n - 1), least) {
            (n - 1, value(n - 1))
        } else {
            (at, least)
        }
    }
}

/// The distances of `x` to the pieces of `table` from number `base` on.
pub open spec fn distances(
    f: spec_fn(Seq<u32>, Seq<u32>) -> u32,
    x: Seq<u32>,
    table: Seq<u32>,
    base: int,
    d: nat,
) -> spec_fn(int) -> u32 {
    |k: int| f(x, piece(table, base + k, d))
}

/// A piece that is there lies within the sequence.
pub proof fn lemma_piece(len: nat, i: int, d: nat, n: nat)
    requires
        0 <= i < n,
        len == n * d,
    ensures
        0 <= i * d,
        i * d + d <= len,
{
    assert(0 <= i * d && i * d + d <= n * d) by (nonlinear_arith)
        requires
            0 <= i < n,
            0 <= d,
    ;
}

/// Reads a piece.
pub fn piece_of(s: &[u32], i: usize, d: usize) -> (p: &[u32])
    requires
        0 <= i * d,
        i * d + d <= s@.len(),
    ensures
        p@ == piece(s@, i as int, d as nat),
        p@.len() == d,
{
    assert(s@.len() == s.len());
    let at: usize = i * d;
    vstd::slice::slice_subrange(s, at, at + d)
}

/// The number of the closest of the [`K`] pieces from number `base` on.
pub(crate) fn nearest<L: Fn(&[u32], &[u32]) -> u32>(
    x: &[u32],
    table: &[u32],
    base: usize,
    d: usize,
    l2: &L,
    Ghost(n): Ghost<nat>,
) -> (best: usize)
    requires
        x@.len() == d,
        table@.len() == n * d,
        base + K <= n,
        n <= usize::MAX,
        scores_dim(*l2, d as nat),
    ensures
        best < K,
        forall|f: spec_fn(Seq<u32>, Seq<u32>) -> u32| #[trigger]
            computes(*l2, f) ==> best == argmin(
                distances(f, x@, table@, base as int, d as nat),
                K as nat,
            ).0,
{
    let mut best: usize = 0;
    let mut least: u32 = INFINITY;
    let mut k: usize = 0;
    while k < K
        invariant
            k <= K,
            best < K,
            x@.len() == d,
            table@.len() == n * d,
            base + K <= n,
            n <= usize::MAX,
            scores_dim(*l2, d as nat),
            forall|f: spec_fn(Seq<u32>, Seq<u32>) -> u32| #[trigger]
                computes(*l2, f) ==> (best as int, least) == argmin(
                    distances(f, x@, table@, base as int, d as nat),
                    k as nat,
                ),
        decreases K - k,
    {
        proof {
            lemma_piece(table@.len(), base + k, d as nat, n);
        }
        let c: &[u32] = piece_of(table, base + k, d);
        let value: u32 = l2(x, c);
        if less(value, least) {
            least = value;
            best = k;
        }
        k = k + 1;
    }
    best
}

/// The codebooks of a product quantizer.
#[derive(Debug, Clone)]
pub struct ProductQuantizer {
    dim: usize,
    m: usize,
    sub_dim: usize,
    /// `m * K` centroids of `sub_dim` words, part by part.
    centroids: Vec<u32>,
}

/// The code of a vector: for every part the number of the closest centroid.
pub open spec fn encoded(
    centroids: Seq<u32>,
    m: nat,
    sub_dim: nat,
    v: Seq<u32>,
    f: spec_fn(Seq<u32>, Seq<u32>) -> u32,
) -> Seq<u8> {
    Seq::new(
        m,
        |sub: int|
            argmin(
                distances(f, piece(v, sub, sub_dim), centroids, sub * K, sub_dim),
                K as nat,
            ).0 as u8,
    )
}

/// The centroids that the first `n` bytes of a code stand for, end to end.
pub open spec fn decoded(centroids: Seq<u32>, sub_dim: nat, code: Seq<u8>, n: nat) -> Seq<u32>
    decreases n,
{
    if n == 0 {
        Seq::empty()
    } else {
        decoded(centroids, sub_dim, code, (n - 1) as nat) + piece(
            centroids,
            (n - 1) * K + code[n - 1],
            sub_dim,
        )
    }
}

/// The distances of the parts of a query to all centroids.
pub open spec fn table_of(
    centroids: Seq<u32>,
    m: nat,
    sub_dim: nat,
    query: Seq<u32>,
    f: spec_fn(Seq<u32>, Seq<u32>) -> u32,
) -> Seq<u32> {
    Seq::new(
        m * K as nat,
        |i: int| f(piece(query, i / K as int, sub_dim), piece(centroids, i, sub_dim)),
    )
}

/// The words that a quantizer is stored as.
pub open spec fn stored_words(dim: nat, m: nat, sub_dim: nat, centroids: Seq<u32>) -> Seq<u32> {
    seq![from_integer(dim), from_integer(m), from_integer(sub_dim)] + centroids
}

/// Whether bytes hold a quantizer.
pub open spec fn well_stored(bytes: Seq<u8>) -> bool {
    let w = words_at(bytes, 0, bytes.len() / 4);
    let dim = to_integer(w[0], usize::MAX as nat);
    let m = to_integer(w[1], usize::MAX as nat);
    let sub_dim = to_integer(w[2], usize::MAX as nat);
    &&& bytes.len() % 4 == 0
    &&& bytes.len() >= 12
    &&& dim != 0
    &&& m != 0
    &&& sub_dim * m == dim
    &&& w.len() - 3 == m * K * sub_dim
}

/// Every sum of `plus` is the value of `f` on the two terms.
pub open spec fn adds<A: Fn(u32, u32) -> u32>(plus: A, f: spec_fn(u32, u32) -> u32) -> bool {
    forall|a: u32, b: u32, r: u32| #[trigger] call_ensures(plus, (a, b), r) ==> r == f(a, b)
}

/// `plus` can be called with anything.
pub open spec fn adds_all<A: Fn(u32, u32) -> u32>(plus: A) -> bool {
    forall|a: u32, b: u32| #[trigger] call_requires(plus, (a, b))
}

/// The distance of one byte of a code, from the table.
pub open spec fn term(table: Seq<u32>, code: Seq<u8>, sub: int) -> u32 {
    table[sub * K + code[sub]]
}

/// The sum of every fourth term, starting with number `lane`.
pub open spec fn lane_sum(
    table: Seq<u32>,
    code: Seq<u8>,
    lane: int,
    groups: nat,
    f: spec_fn(u32, u32) -> u32,
) -> u32
    decreases groups,
{
    if groups == 0 {
        0
    } else {
        f(
            lane_sum(table, code, lane, (groups - 1) as nat, f),
            term(table, code, 4 * (groups - 1) + lane),
        )
    }
}

/// The terms from number `from` up to `to` added to `sum`.
pub open spec fn rest_sum(
    table: Seq<u32>,
    code: Seq<u8>,
    sum: u32,
    from: int,
    to: int,
    f: spec_fn(u32, u32) -> u32,
) -> u32
    decreases to - from,
{
    if to <= from {
        sum
    } else {
        f(rest_sum(table, code, sum, from, to - 1, f), term(table, code, to - 1))
    }
}

/// The sum of the terms of a code: four sums side by side, put together in
/// pairs, then what is left over.
pub open spec fn code_distance(table: Seq<u32>, code: Seq<u8>, f: spec_fn(u32, u32) -> u32) -> u32 {
    let groups = code.len() / 4;
    let sum = f(
        f(lane_sum(table, code, 0, groups, f), lane_sum(table, code, 1, groups, f)),
        f(lane_sum(table, code, 2, groups, f), lane_sum(table, code, 3, groups, f)),
    );
    rest_sum(table, code, sum, 4 * groups as int, code.len() as int, f)
}

fn term_of(table: &[u32], code: &[u8], sub: usize) -> (t: u32)
    requires
        sub < code@.len(),
        code@.len() * K <= table@.len(),
    ensures
        t == term(table@, code@, sub as int),
{
    assert(table@.len() == table.len());
    table[sub * K + code[sub] as usize]
}

/// The distance of a code, from the table of a query.
pub fn adc_distance<A: Fn(u32, u32) -> u32>(table: &[u32], code: &[u8], plus: &A) -> (d: u32)
    requires
        code@.len() * K <= table@.len(),
        adds_all(*plus),
    ensures
        forall|f: spec_fn(u32, u32) -> u32| #[trigger]
            adds(*plus, f) ==> d == code_distance(table@, code@, f),
{
    let m: usize = code.len();
    let (mut a, mut b, mut c, mut e): (u32, u32, u32, u32) = (0, 0, 0, 0);
    let ghost groups = m as nat / 4;
    let mut group: usize = 0;
    while group < m / 4
        invariant
            group <= m / 4,
            m == code@.len(),
            code@.len() * K <= table@.len(),
            adds_all(*plus),
            forall|f: spec_fn(u32, u32) -> u32| #[trigger]
                adds(*plus, f) ==> a == lane_sum(table@, code@, 0, group as nat, f) && b == lane_sum(
                    table@,
                    code@,
                    1,
                    group as nat,
                    f,
                ) && c == lane_sum(table@, code@, 2, group as nat, f) && e == lane_sum(
                    table@,
                    code@,
                    3,
                    group as nat,
                    f,
                ),
        decreases m / 4 - group,
    {
        let sub: usize = 4 * group;
        a = plus(a, term_of(table, code, sub));
        b = plus(b, term_of(table, code, sub + 1));
        c = plus(c, term_of(table, code, sub + 2));
        e = plus(e, term_of(table, code, sub + 3));
        group = group + 1;
    }
    let mut sub: usize = 4 * group;
    let start: u32 = plus(plus(a, b), plus(c, e));
    let mut sum: u32 = start;
    while sub < m
        invariant
            4 * groups <= sub <= m,
            m == code@.len(),
            code@.len() * K <= table@.len(),
            adds_all(*plus),
            forall|f: spec_fn(u32, u32) -> u32| #[trigger]
                adds(*plus, f) ==> sum == rest_sum(
                    table@,
                    code@,
                    start,
                    4 * groups as int,
                    sub as int,
                    f,
                ),
        decreases m - sub,
    {
        sum = plus(sum, term_of(table, code, sub));
        sub = sub + 1;
    }
    sum
}

impl ProductQuantizer {
    pub closed spec fn spec_dim(&self) -> nat {
        self.dim as nat
    }

    pub closed spec fn spec_m(&self) -> nat {
        self.m as nat
    }

    pub closed spec fn spec_sub_dim(&self) -> nat {
        self.sub_dim as nat
    }

    pub closed spec fn spec_centroids(&self) -> Seq<u32> {
        self.centroids@
    }

    /// The parts make up the vector, and every part has its codebook.
    pub open spec fn wf(&self) -> bool {
        &&& 0 < self.spec_m()
        &&& 0 < self.spec_dim()
        &&& self.spec_sub_dim() * self.spec_m() == self.spec_dim()
        &&& self.spec_m() <= usize::MAX
        &&& self.spec_centroids().len() == (self.spec_m() * K as nat) * self.spec_sub_dim()
        &&& self.spec_centroids().len() <= usize::MAX
    }

    /// The numbers of parts and centroids fit.
    proof fn lemma_sizes(&self)
        requires
            self.wf(),
        ensures
            self.spec_sub_dim() > 0,
            self.spec_m() * K <= usize::MAX,
            self.spec_dim() == self.spec_m() * self.spec_sub_dim(),
    {
        let (m, d) = (self.spec_m() as int, self.spec_sub_dim() as int);
        assert(d > 0) by (nonlinear_arith)
            requires
                d * m > 0,
                d >= 0,
                m > 0,
        ;
        assert(m * 256 <= (m * 256) * d) by (nonlinear_arith)
            requires
                d >= 1,
                m >= 0,
        ;
        assert(d * m == m * d) by (nonlinear_arith);
    }

    /// A quantizer with these codebooks.
    pub(crate) fn with_centroids(dim: usize, m: usize, sub_dim: usize, centroids: Vec<u32>) -> (pq:
        ProductQuantizer)
        ensures
            pq.spec_dim() == dim,
            pq.spec_m() == m,
            pq.spec_sub_dim() == sub_dim,
            pq.spec_centroids() == centroids@,
    {
        ProductQuantizer { dim, m, sub_dim, centroids }
    }

    /// The number of parts.
    pub fn m(&self) -> (m: usize)
        ensures
            m == self.spec_m(),
    {
        self.m
    }

    pub fn dim(&self) -> (dim: usize)
        ensures
            dim == self.spec_dim(),
    {
        self.dim
    }

    /// Centroid `k` of part `sub`.
    pub fn centroid(&self, sub: usize, k: usize) -> (c: &[u32])
        requires
            self.wf(),
            sub < self.spec_m(),
            k < K,
        ensures
            c@ == piece(self.spec_centroids(), sub * K + k, self.spec_sub_dim()),
            c@.len() == self.spec_sub_dim(),
    {
        proof {
            self.lemma_sizes();
            lemma_piece(
                self.spec_centroids().len(),
                sub * K + k,
                self.spec_sub_dim(),
                self.spec_m() * K as nat,
            );
        }
        piece_of(self.centroids.as_slice(), sub * K + k, self.sub_dim)
    }

    /// Part `sub` of a vector.
    fn part<'a>(&self, v: &'a [u32], sub: usize) -> (p: &'a [u32])
        requires
            self.wf(),
            v@.len() == self.spec_dim(),
            sub < self.spec_m(),
        ensures
            p@ == piece(v@, sub as int, self.spec_sub_dim()),
            p@.len() == self.spec_sub_dim(),
    {
        proof {
            self.lemma_sizes();
            lemma_piece(v@.len(), sub as int, self.spec_sub_dim(), self.spec_m());
        }
        piece_of(v, sub, self.sub_dim)
    }

    /// Quantizes `v` into `out`, which has a byte for every part.
    pub fn encode<L: Fn(&[u32], &[u32]) -> u32>(&self, v: &[u32], out: &mut Vec<u8>, l2: &L)
        requires
            self.wf(),
            v@.len() == self.spec_dim(),
            old(out)@.len() == self.spec_m(),
            scores_dim(*l2, self.spec_sub_dim()),
        ensures
            final(out)@.len() == self.spec_m(),
            forall|f: spec_fn(Seq<u32>, Seq<u32>) -> u32| #[trigger]
                computes(*l2, f) ==> final(out)@ == encoded(
                    self.spec_centroids(),
                    self.spec_m(),
                    self.spec_sub_dim(),
                    v@,
                    f,
                ),
    {
        let mut sub: usize = 0;
        while sub < self.m
            invariant
                sub <= self.spec_m(),
                self.wf(),
                v@.len() == self.spec_dim(),
                out@.len() == self.spec_m(),
                scores_dim(*l2, self.spec_sub_dim()),
                forall|f: spec_fn(Seq<u32>, Seq<u32>) -> u32, i: int|
                    #![trigger computes(*l2, f), out@[i]]
                    computes(*l2, f) && 0 <= i < sub ==> out@[i] == encoded(
                        self.spec_centroids(),
                        self.spec_m(),
                        self.spec_sub_dim(),
                        v@,
                        f,
                    )[i],
            decreases self.spec_m() - sub,
        {
            proof {
                self.lemma_sizes();
            }
            let x: &[u32] = self.part(v, sub);
            let best: usize = nearest(
                x,
                self.centroids.as_slice(),
                sub * K,
                self.sub_dim,
                l2,
                Ghost(self.spec_m() * K as nat),
            );
            out.set(sub, best as u8);
            sub = sub + 1;
        }
        proof {
            assert forall|f: spec_fn(Seq<u32>, Seq<u32>) -> u32| #[trigger]
                computes(*l2, f) implies out@ == encoded(
                self.spec_centroids(),
                self.spec_m(),
                self.spec_sub_dim(),
                v@,
                f,
            ) by {
                assert(out@ =~= encoded(
                    self.spec_centroids(),
                    self.spec_m(),
                    self.spec_sub_dim(),
                    v@,
                    f,
                ));
            }
        }
    }

    /// The vector that a code stands for.
    pub fn decode(&self, code: &[u8]) -> (v: Vec<u32>)
        requires
            self.wf(),
            code@.len() >= self.spec_m(),
        ensures
            v@ == decoded(
                self.spec_centroids(),
                self.spec_sub_dim(),
                code@,
                self.spec_m(),
            ),
    {
        let mut v: Vec<u32> = Vec::with_capacity(self.dim);
        let mut sub: usize = 0;
        while sub < self.m
            invariant
                sub <= self.spec_m(),
                self.wf(),
                code@.len() >= self.spec_m(),
                v@ == decoded(self.spec_centroids(), self.spec_sub_dim(), code@, sub as nat),
            decreases self.spec_m() - sub,
        {
            let ghost before = v@;
            let c: &[u32] = self.centroid(sub, code[sub] as usize);
            v.extend_from_slice(c);
            assert(v@ =~= before + c@);
            sub = sub + 1;
        }
        v
    }

    /// The distances of the parts of a query to all centroids.
    pub fn adc_table<L: Fn(&[u32], &[u32]) -> u32>(&self, query: &[u32], l2: &L) -> (table: Vec<
        u32,
    >)
        requires
            self.wf(),
            query@.len() == self.spec_dim(),
            scores_dim(*l2, self.spec_sub_dim()),
        ensures
            table@.len() == self.spec_m() * K,
            forall|f: spec_fn(Seq<u32>, Seq<u32>) -> u32| #[trigger]
                computes(*l2, f) ==> table@ == table_of(
                    self.spec_centroids(),
                    self.spec_m(),
                    self.spec_sub_dim(),
                    query@,
                    f,
                ),
    {
        proof {
            self.lemma_sizes();
        }
        let n: usize = self.m * K;
        let mut table: Vec<u32> = Vec::with_capacity(n);
        let mut i: usize = 0;
        while i < n
            invariant
                i <= n,
                n == self.spec_m() * K,
                self.wf(),
                query@.len() == self.spec_dim(),
                scores_dim(*l2, self.spec_sub_dim()),
                table@.len() == i,
                forall|f: spec_fn(Seq<u32>, Seq<u32>) -> u32, j: int|
                    #![trigger computes(*l2, f), table@[j]]
                    computes(*l2, f) && 0 <= j < i ==> table@[j] == table_of(
                        self.spec_centroids(),
                        self.spec_m(),
                        self.spec_sub_dim(),
                        query@,
                        f,
                    )[j],
            decreases n - i,
        {
            let sub: usize = i / K;
            let q: &[u32] = self.part(query, sub);
            let c: &[u32] = self.centroid(sub, i % K);
            table.push(l2(q, c));
            i = i + 1;
        }
        proof {
            assert forall|f: spec_fn(Seq<u32>, Seq<u32>) -> u32| #[trigger]
                computes(*l2, f) implies table@ == table_of(
                self.spec_centroids(),
                self.spec_m(),
                self.spec_sub_dim(),
                query@,
                f,
            ) by {
                assert(table@ =~= table_of(
                    self.spec_centroids(),
                    self.spec_m(),
                    self.spec_sub_dim(),
                    query@,
                    f,
                ));
            }
        }
        table
    }

    /// The quantizer as bytes: dimension, number of parts and their length,
    /// each as a single-precision value, then the centroids.
    pub fn to_bytes(&self) -> (bytes: Vec<u8>)
        ensures
            bytes@ == words_bytes(
                stored_words(
                    self.spec_dim(),
                    self.spec_m(),
                    self.spec_sub_dim(),
                    self.spec_centroids(),
                ),
            ),
    {
        let mut words: Vec<u32> = Vec::with_capacity(3);
        words.push(of_integer(self.dim as u64));
        words.push(of_integer(self.m as u64));
        words.push(of_integer(self.sub_dim as u64));
        words.extend_from_slice(self.centroids.as_slice());
        assert(words@ =~= stored_words(
            self.spec_dim(),
            self.spec_m(),
            self.spec_sub_dim(),
            self.spec_centroids(),
        ));
        let mut bytes: Vec<u8> = Vec::new();
        put_words(&mut bytes, words.as_slice());
        assert(bytes@ =~= words_bytes(words@));
        bytes
    }

    /// Reads a quantizer back.
    pub fn from_bytes(bytes: &[u8]) -> (pq: Option<ProductQuantizer>)
        ensures
            pq is Some <==> well_stored(bytes@),
            pq matches Some(pq) ==> {
                let w = words_at(bytes@, 0, bytes@.len() / 4);
                &&& pq.wf()
                &&& pq.spec_dim() == to_integer(w[0], usize::MAX as nat)
                &&& pq.spec_m() == to_integer(w[1], usize::MAX as nat)
                &&& pq.spec_sub_dim() == to_integer(w[2], usize::MAX as nat)
                &&& pq.spec_centroids() == w.subrange(3, w.len() as int)
            },
    {
        let len: usize = bytes.len();
        if len % 4 != 0 || len < 12 {
            return None;
        }
        let words: Vec<u32> = read_words(bytes, 0, len / 4);
        let dim: usize = as_index(words[0]);
        let m: usize = as_index(words[1]);
        let sub_dim: usize = as_index(words[2]);
        if dim == 0 || m == 0 {
            return None;
        }
        let n: usize = words.len() - 3;
        assert(sub_dim * m <= 0xFFFF_FFFF_FFFF_FFFF * 0xFFFF_FFFF_FFFF_FFFF) by (nonlinear_arith)
            requires
                sub_dim <= 0xFFFF_FFFF_FFFF_FFFF,
                m <= 0xFFFF_FFFF_FFFF_FFFF,
        ;
        if (sub_dim as u128) * (m as u128) != dim as u128 {
            return None;
        }
        assert((m * 256) * sub_dim == 256 * (sub_dim * m)) by (nonlinear_arith);
        if n as u128 != 256 * (dim as u128) {
            return None;
        }
        let centroids: Vec<u32> = vstd::slice::slice_to_vec(
            vstd::slice::slice_subrange(words.as_slice(), 3, words.len()),
        );
        assert(centroids@ =~= words@.subrange(3, words@.len() as int));
        Some(ProductQuantizer { dim, m, sub_dim, centroids })
    }
}

} // verus!
