//! Clustering: where the centroids of a codebook come from.
//!
//! Seeding picks rows one after the other, each with a probability in
//! proportion to its squared distance from what was picked before. Then the
//! rows are assigned to the closest centroid and every centroid moves to the
//! mean of its rows, again and again; one that has no rows moves to a random
//! row.
//!
//! Arithmetic comes from the caller. What is stated holds for all random
//! choices, and for whatever arithmetic the closures do.

use crate::float32::{at_most, le, less, lt};
use crate::oracle::{computes, scores_dim};
use crate::pq::{adds, adds_all, argmin, distances, lemma_piece, nearest, piece, piece_of, K};
use crate::random::{draw_below, draw_word};
use rand::rngs::SmallRng;
use vstd::prelude::*;

verus! {

/// The functions that the closures of a clustering compute.
pub ghost struct Arithmetic {
    /// The distance of two points.
    pub l2: spec_fn(Seq<u32>, Seq<u32>) -> u32,
    /// The sum of some values.
    pub total: spec_fn(Seq<u32>) -> u32,
    /// The difference of two values.
    pub minus: spec_fn(u32, u32) -> u32,
    /// The mean of some values.
    pub mean: spec_fn(Seq<u32>) -> u32,
}

/// Every answer of `fold` is the value of `f` on the list.
pub open spec fn folds<S: Fn(&[u32]) -> u32>(fold: S, f: spec_fn(Seq<u32>) -> u32) -> bool {
    forall|v: &[u32], r: u32| #[trigger] call_ensures(fold, (v,), r) ==> r == f(v@)
}

/// `fold` can be called with any list.
pub open spec fn folds_all<S: Fn(&[u32]) -> u32>(fold: S) -> bool {
    forall|v: &[u32]| #[trigger] call_requires(fold, (v,))
}

/// The closures compute these functions.
pub open spec fn performs<
    L: Fn(&[u32], &[u32]) -> u32,
    S: Fn(&[u32]) -> u32,
    M: Fn(u32, u32) -> u32,
    A: Fn(&[u32]) -> u32,
>(l2: L, total: S, minus: M, mean: A, by: Arithmetic) -> bool {
    &&& computes(l2, by.l2)
    &&& folds(total, by.total)
    &&& adds(minus, by.minus)
    &&& folds(mean, by.mean)
}

/// `spot` can make a value of any random word and any range.
pub open spec fn spots_any<T: Fn(u64, u32) -> u32>(spot: T) -> bool {
    forall|word: u64, w: u32| #[trigger] call_requires(spot, (word, w))
}

/// Numbers below `n`.
pub open spec fn below(list: Seq<usize>, n: nat) -> bool {
    forall|i: int| 0 <= i < list.len() ==> #[trigger] list[i] < n
}

/// The weights with every one replaced that a value is less than.
pub open spec fn lowered(weights: Seq<u32>, value: spec_fn(int) -> u32) -> Seq<u32> {
    Seq::new(
        weights.len(),
        |i: int|
            if lt(value(i), weights[i]) {
                value(i)
            } else {
                weights[i]
            },
    )
}

/// The distances of the rows from one of them.
pub open spec fn from_row(
    points: Seq<u32>,
    d: nat,
    row: int,
    l2: spec_fn(Seq<u32>, Seq<u32>) -> u32,
) -> spec_fn(int) -> u32 {
    |i: int| l2(piece(points, i, d), piece(points, row, d))
}

/// The weight of every row once these rows are picked: its distance from the
/// closest of them.
pub open spec fn weights(
    points: Seq<u32>,
    n: nat,
    d: nat,
    picks: Seq<usize>,
    l2: spec_fn(Seq<u32>, Seq<u32>) -> u32,
) -> Seq<u32>
    decreases picks.len(),
{
    if picks.len() <= 1 {
        Seq::new(n, from_row(points, d, picks[0] as int, l2))
    } else {
        lowered(
            weights(points, n, d, picks.drop_last(), l2),
            from_row(points, d, picks.last() as int, l2),
        )
    }
}

/// What is left of `target` once the first `i` weights are taken off.
pub open spec fn remaining(
    target: u32,
    weights: Seq<u32>,
    i: nat,
    minus: spec_fn(u32, u32) -> u32,
) -> u32
    decreases i,
{
    if i == 0 {
        target
    } else {
        minus(remaining(target, weights, (i - 1) as nat, minus), weights[i - 1])
    }
}

/// `at` is the first row at which nothing is left of `target`, or the last.
pub open spec fn is_spot(
    at: int,
    target: u32,
    weights: Seq<u32>,
    minus: spec_fn(u32, u32) -> u32,
) -> bool {
    &&& 0 <= at < weights.len()
    &&& at == weights.len() - 1 || le(remaining(target, weights, (at + 1) as nat, minus), 0)
    &&& forall|j: int|
        0 <= j < at ==> !le(#[trigger] remaining(target, weights, (j + 1) as nat, minus), 0)
}

/// `target` is what `spot` makes of some random word and this range.
pub open spec fn drawn<T: Fn(u64, u32) -> u32>(spot: T, range: u32, target: u32) -> bool {
    exists|word: u64| #[trigger] call_ensures(spot, (word, range), target)
}

/// The row that is picked after these: if their weights add up to something,
/// it is where a target falls that is drawn from their sum.
pub open spec fn picked_next<T: Fn(u64, u32) -> u32>(
    points: Seq<u32>,
    n: nat,
    d: nat,
    picks: Seq<usize>,
    next: usize,
    by: Arithmetic,
    spot: T,
) -> bool {
    let w = weights(points, n, d, picks, by.l2);
    let sum = (by.total)(w);
    le(sum, 0) || exists|target: u32| #[trigger]
        drawn(spot, sum, target) && is_spot(next as int, target, w, by.minus)
}

/// All rows but the first were picked by their weights.
pub open spec fn picked_by_weight<T: Fn(u64, u32) -> u32>(
    points: Seq<u32>,
    n: nat,
    d: nat,
    picks: Seq<usize>,
    by: Arithmetic,
    spot: T,
) -> bool {
    forall|j: int|
        1 <= j < picks.len() ==> picked_next(
            points,
            n,
            d,
            picks.take(j),
            #[trigger] picks[j],
            by,
            spot,
        )
}

proof fn lemma_one_more_pick<T: Fn(u64, u32) -> u32>(
    points: Seq<u32>,
    n: nat,
    d: nat,
    before: Seq<usize>,
    next: usize,
    by: Arithmetic,
    spot: T,
)
    requires
        picked_by_weight(points, n, d, before, by, spot),
        picked_next(points, n, d, before, next, by, spot),
    ensures
        picked_by_weight(points, n, d, before.push(next), by, spot),
{
    let picks = before.push(next);
    assert forall|j: int| 1 <= j < picks.len() implies picked_next(
        points,
        n,
        d,
        picks.take(j),
        #[trigger] picks[j],
        by,
        spot,
    ) by {
        if j < before.len() {
            assert(picks.take(j) =~= before.take(j));
            assert(picks[j] == before[j]);
        } else {
            assert(picks.take(j) =~= before);
        }
    }
}

/// The picked rows, end to end.
pub open spec fn gathered(points: Seq<u32>, d: nat, picks: Seq<usize>) -> Seq<u32>
    decreases picks.len(),
{
    if picks.len() == 0 {
        Seq::empty()
    } else {
        gathered(points, d, picks.drop_last()) + piece(points, picks.last() as int, d)
    }
}

/// The number of the closest centroid, for every row.
pub open spec fn assigned(
    points: Seq<u32>,
    n: nat,
    d: nat,
    centroids: Seq<u32>,
    l2: spec_fn(Seq<u32>, Seq<u32>) -> u32,
) -> Seq<usize> {
    Seq::new(
        n,
        |i: int|
            argmin(distances(l2, piece(points, i, d), centroids, 0, d), K as nat).0 as usize,
    )
}

/// Component `j` of those of the first `n` rows that are assigned to `k`.
pub open spec fn column(
    points: Seq<u32>,
    d: nat,
    assign: Seq<usize>,
    k: usize,
    j: int,
    n: nat,
) -> Seq<u32>
    decreases n,
{
    if n == 0 {
        Seq::empty()
    } else {
        let front = column(points, d, assign, k, j, (n - 1) as nat);
        if assign[n - 1] == k {
            front.push(points[(n - 1) * d + j])
        } else {
            front
        }
    }
}

/// Where centroid `k` moves: to the mean of its rows, or if it has none, to a
/// given row.
pub open spec fn moved(
    points: Seq<u32>,
    d: nat,
    assign: Seq<usize>,
    k: usize,
    respawn: usize,
    mean: spec_fn(Seq<u32>) -> u32,
) -> Seq<u32> {
    if assign.contains(k) {
        Seq::new(d, |j: int| mean(column(points, d, assign, k, j, assign.len())))
    } else {
        piece(points, respawn as int, d)
    }
}

/// Where the first `n` centroids move, end to end.
pub open spec fn all_moved(
    points: Seq<u32>,
    d: nat,
    assign: Seq<usize>,
    respawn: Seq<usize>,
    n: nat,
    mean: spec_fn(Seq<u32>) -> u32,
) -> Seq<u32>
    decreases n,
{
    if n == 0 {
        Seq::empty()
    } else {
        all_moved(points, d, assign, respawn, (n - 1) as nat, mean) + moved(
            points,
            d,
            assign,
            (n - 1) as usize,
            respawn[n - 1],
            mean,
        )
    }
}

/// The centroids after as many rounds as there are lists of rows to fall back
/// on.
pub open spec fn after_rounds(
    points: Seq<u32>,
    n: nat,
    d: nat,
    start: Seq<u32>,
    respawns: Seq<Seq<usize>>,
    by: Arithmetic,
) -> Seq<u32>
    decreases respawns.len(),
{
    if respawns.len() == 0 {
        start
    } else {
        let c = after_rounds(points, n, d, start, respawns.drop_last(), by);
        all_moved(
            points,
            d,
            assigned(points, n, d, c, by.l2),
            respawns.last(),
            K as nat,
            by.mean,
        )
    }
}

/// Some rows were picked by weight, and the centroids come from them in
/// `iters` rounds.
pub open spec fn clustered<
    L: Fn(&[u32], &[u32]) -> u32,
    S: Fn(&[u32]) -> u32,
    M: Fn(u32, u32) -> u32,
    A: Fn(&[u32]) -> u32,
    T: Fn(u64, u32) -> u32,
>(
    centroids: Seq<u32>,
    points: Seq<u32>,
    n: nat,
    d: nat,
    iters: nat,
    picks: Seq<usize>,
    respawns: Seq<Seq<usize>>,
    l2: L,
    total: S,
    minus: M,
    mean: A,
    spot: T,
) -> bool {
    &&& picks.len() == K
    &&& below(picks, n)
    &&& respawns.len() == iters
    &&& forall|r: int|
        0 <= r < respawns.len() ==> (#[trigger] respawns[r]).len() == K && below(respawns[r], n)
    &&& forall|by: Arithmetic| #[trigger]
        performs(l2, total, minus, mean, by) ==> picked_by_weight(points, n, d, picks, by, spot)
            && centroids == after_rounds(points, n, d, gathered(points, d, picks), respawns, by)
}

/// The distances of all rows from one of them, or what is less than the
/// weights they have.
fn reweigh<L: Fn(&[u32], &[u32]) -> u32>(
    points: &[u32],
    n: usize,
    d: usize,
    row: usize,
    weights: &mut Vec<u32>,
    l2: &L,
)
    requires
        points@.len() == n * d,
        row < n,
        old(weights)@.len() == n,
        scores_dim(*l2, d as nat),
    ensures
        final(weights)@.len() == n,
        forall|f: spec_fn(Seq<u32>, Seq<u32>) -> u32| #[trigger]
            computes(*l2, f) ==> final(weights)@ == lowered(
                old(weights)@,
                from_row(points@, d as nat, row as int, f),
            ),
{
    proof {
        lemma_piece(points@.len(), row as int, d as nat, n as nat);
    }
    let c: &[u32] = piece_of(points, row, d);
    let mut i: usize = 0;
    while i < n
        invariant
            i <= n,
            points@.len() == n * d,
            c@ == piece(points@, row as int, d as nat),
            c@.len() == d,
            weights@.len() == n,
            scores_dim(*l2, d as nat),
            old(weights)@.len() == n,
            forall|j: int| i <= j < n ==> weights@[j] == old(weights)@[j],
            forall|f: spec_fn(Seq<u32>, Seq<u32>) -> u32, j: int|
                #![trigger computes(*l2, f), weights@[j]]
                computes(*l2, f) && 0 <= j < i ==> weights@[j] == lowered(
                    old(weights)@,
                    from_row(points@, d as nat, row as int, f),
                )[j],
        decreases n - i,
    {
        proof {
            lemma_piece(points@.len(), i as int, d as nat, n as nat);
        }
        let x: &[u32] = piece_of(points, i, d);
        let value: u32 = l2(x, c);
        let ghost before = weights@;
        if less(value, weights[i]) {
            weights.set(i, value);
        }
        proof {
            assert forall|f: spec_fn(Seq<u32>, Seq<u32>) -> u32, j: int|
                #![trigger computes(*l2, f), weights@[j]]
                computes(*l2, f) && 0 <= j < i + 1 implies weights@[j] == lowered(
                old(weights)@,
                from_row(points@, d as nat, row as int, f),
            )[j] by {
                if j < i {
                    assert(weights@[j] == before[j]);
                }
            }
        }
        i = i + 1;
    }
    proof {
        assert forall|f: spec_fn(Seq<u32>, Seq<u32>) -> u32| #[trigger]
            computes(*l2, f) implies weights@ == lowered(
            old(weights)@,
            from_row(points@, d as nat, row as int, f),
        ) by {
            assert(weights@ =~= lowered(
                old(weights)@,
                from_row(points@, d as nat, row as int, f),
            ));
        }
    }
}

/// The distances of all rows from one of them.
fn weigh<L: Fn(&[u32], &[u32]) -> u32>(
    points: &[u32],
    n: usize,
    d: usize,
    row: usize,
    l2: &L,
) -> (weights: Vec<u32>)
    requires
        points@.len() == n * d,
        row < n,
        scores_dim(*l2, d as nat),
    ensures
        weights@.len() == n,
        forall|f: spec_fn(Seq<u32>, Seq<u32>) -> u32| #[trigger]
            computes(*l2, f) ==> weights@ == Seq::new(
                n as nat,
                from_row(points@, d as nat, row as int, f),
            ),
{
    proof {
        lemma_piece(points@.len(), row as int, d as nat, n as nat);
    }
    let c: &[u32] = piece_of(points, row, d);
    let mut weights: Vec<u32> = Vec::with_capacity(n);
    let mut i: usize = 0;
    while i < n
        invariant
            i <= n,
            points@.len() == n * d,
            c@ == piece(points@, row as int, d as nat),
            c@.len() == d,
            weights@.len() == i,
            scores_dim(*l2, d as nat),
            forall|f: spec_fn(Seq<u32>, Seq<u32>) -> u32, j: int|
                #![trigger computes(*l2, f), weights@[j]]
                computes(*l2, f) && 0 <= j < i ==> weights@[j] == from_row(
                    points@,
                    d as nat,
                    row as int,
                    f,
                )(j),
        decreases n - i,
    {
        proof {
            lemma_piece(points@.len(), i as int, d as nat, n as nat);
        }
        let x: &[u32] = piece_of(points, i, d);
        weights.push(l2(x, c));
        i = i + 1;
    }
    proof {
        assert forall|f: spec_fn(Seq<u32>, Seq<u32>) -> u32| #[trigger]
            computes(*l2, f) implies weights@ == Seq::new(
            n as nat,
            from_row(points@, d as nat, row as int, f),
        ) by {
            assert(weights@ =~= Seq::new(n as nat, from_row(points@, d as nat, row as int, f)));
        }
    }
    weights
}

/// The row at which a target falls.
pub fn weighted_row<M: Fn(u32, u32) -> u32>(weights: &Vec<u32>, target: u32, minus: &M) -> (at:
    usize)
    requires
        weights@.len() > 0,
        adds_all(*minus),
    ensures
        at < weights@.len(),
        forall|f: spec_fn(u32, u32) -> u32| #[trigger]
            adds(*minus, f) ==> is_spot(at as int, target, weights@, f),
{
    let n: usize = weights.len();
    let mut left: u32 = target;
    let mut i: usize = 0;
    while i < n
        invariant
            i <= n,
            n == weights@.len(),
            n > 0,
            adds_all(*minus),
            forall|f: spec_fn(u32, u32) -> u32| #[trigger]
                adds(*minus, f) ==> left == remaining(target, weights@, i as nat, f),
            forall|f: spec_fn(u32, u32) -> u32, j: int|
                #![trigger adds(*minus, f), remaining(target, weights@, (j + 1) as nat, f)]
                adds(*minus, f) && 0 <= j < i ==> !le(
                    remaining(target, weights@, (j + 1) as nat, f),
                    0,
                ),
        decreases n - i,
    {
        left = minus(left, weights[i]);
        if at_most(left, 0) {
            return i;
        }
        i = i + 1;
    }
    n - 1
}

/// Picks [`K`] rows by their weights.
fn pick_rows<
    L: Fn(&[u32], &[u32]) -> u32,
    S: Fn(&[u32]) -> u32,
    M: Fn(u32, u32) -> u32,
    T: Fn(u64, u32) -> u32,
>(
    points: &[u32],
    n: usize,
    d: usize,
    l2: &L,
    total: &S,
    minus: &M,
    rng: &mut SmallRng,
    spot: &T,
) -> (picks: Vec<usize>)
    requires
        n > 0,
        points@.len() == n * d,
        scores_dim(*l2, d as nat),
        folds_all(*total),
        adds_all(*minus),
        spots_any(*spot),
    ensures
        picks@.len() == K,
        below(picks@, n as nat),
        forall|by: Arithmetic|
            computes(*l2, by.l2) && folds(*total, by.total) && adds(*minus, by.minus)
                ==> #[trigger] picked_by_weight(points@, n as nat, d as nat, picks@, by, *spot),
{
    let first: usize = draw_below(rng, n);
    let mut picks: Vec<usize> = Vec::with_capacity(K);
    picks.push(first);
    let mut w: Vec<u32> = weigh(points, n, d, first, l2);
    while picks.len() < K
        invariant
            1 <= picks@.len() <= K,
            n > 0,
            points@.len() == n * d,
            scores_dim(*l2, d as nat),
            folds_all(*total),
            adds_all(*minus),
            spots_any(*spot),
            below(picks@, n as nat),
            w@.len() == n,
            forall|f: spec_fn(Seq<u32>, Seq<u32>) -> u32| #[trigger]
                computes(*l2, f) ==> w@ == weights(points@, n as nat, d as nat, picks@, f),
            forall|by: Arithmetic|
                computes(*l2, by.l2) && folds(*total, by.total) && adds(*minus, by.minus)
                    ==> #[trigger] picked_by_weight(points@, n as nat, d as nat, picks@, by, *spot),
        decreases K - picks@.len(),
    {
        let ghost before = picks@;
        let sum: u32 = total(w.as_slice());
        let ghost mut target: u32 = 0;
        let next: usize = if at_most(sum, 0) {
            draw_below(rng, n)
        } else {
            let word: u64 = draw_word(rng);
            let at: u32 = spot(word, sum);
            proof {
                target = at;
                assert(call_ensures(*spot, (word, sum), at));
            }
            weighted_row(&w, at, minus)
        };
        let ghost was = w@;
        picks.push(next);
        reweigh(points, n, d, next, &mut w, l2);
        proof {
            assert(picks@.drop_last() =~= before);
            assert(picks@ =~= before.push(next));
            assert forall|by: Arithmetic|
                computes(*l2, by.l2) && folds(*total, by.total) && adds(
                    *minus,
                    by.minus,
                ) implies #[trigger] picked_by_weight(
                points@,
                n as nat,
                d as nat,
                picks@,
                by,
                *spot,
            ) by {
                assert(was == weights(points@, n as nat, d as nat, before, by.l2));
                assert(le(sum, 0) || drawn(*spot, sum, target));
                lemma_one_more_pick(points@, n as nat, d as nat, before, next, by, *spot);
            }
        }
    }
    picks
}

/// The picked rows, end to end.
fn gather_rows(points: &[u32], n: usize, d: usize, picks: &Vec<usize>) -> (rows: Vec<u32>)
    requires
        points@.len() == n * d,
        below(picks@, n as nat),
    ensures
        rows@ == gathered(points@, d as nat, picks@),
        rows@.len() == picks@.len() * d,
{
    let mut rows: Vec<u32> = Vec::new();
    let mut i: usize = 0;
    assert(picks@.take(0) =~= Seq::empty());
    while i < picks.len()
        invariant
            i <= picks@.len(),
            points@.len() == n * d,
            below(picks@, n as nat),
            rows@ == gathered(points@, d as nat, picks@.take(i as int)),
            rows@.len() == i * d,
        decreases picks@.len() - i,
    {
        let at: usize = picks[i];
        proof {
            lemma_piece(points@.len(), at as int, d as nat, n as nat);
            assert(i * d + d == (i + 1) * d) by (nonlinear_arith);
            assert(picks@.take(i + 1).drop_last() =~= picks@.take(i as int));
        }
        let ghost before = rows@;
        let row: &[u32] = piece_of(points, at, d);
        rows.extend_from_slice(row);
        assert(rows@ =~= before + row@);
        i = i + 1;
    }
    assert(picks@.take(i as int) =~= picks@);
    rows
}

/// Assigns every row to the closest centroid.
pub fn assign_rows<L: Fn(&[u32], &[u32]) -> u32>(
    points: &[u32],
    n: usize,
    d: usize,
    centroids: &Vec<u32>,
    l2: &L,
) -> (assign: Vec<usize>)
    requires
        points@.len() == n * d,
        centroids@.len() == K * d,
        scores_dim(*l2, d as nat),
    ensures
        assign@.len() == n,
        below(assign@, K as nat),
        forall|f: spec_fn(Seq<u32>, Seq<u32>) -> u32| #[trigger]
            computes(*l2, f) ==> assign@ == assigned(
                points@,
                n as nat,
                d as nat,
                centroids@,
                f,
            ),
{
    let mut assign: Vec<usize> = Vec::with_capacity(n);
    let mut i: usize = 0;
    while i < n
        invariant
            i <= n,
            points@.len() == n * d,
            centroids@.len() == K * d,
            scores_dim(*l2, d as nat),
            assign@.len() == i,
            below(assign@, K as nat),
            forall|f: spec_fn(Seq<u32>, Seq<u32>) -> u32, j: int|
                #![trigger computes(*l2, f), assign@[j]]
                computes(*l2, f) && 0 <= j < i ==> assign@[j] == assigned(
                    points@,
                    n as nat,
                    d as nat,
                    centroids@,
                    f,
                )[j],
        decreases n - i,
    {
        proof {
            lemma_piece(points@.len(), i as int, d as nat, n as nat);
        }
        let x: &[u32] = piece_of(points, i, d);
        let best: usize = nearest(x, centroids.as_slice(), 0, d, l2, Ghost(K as nat));
        assign.push(best);
        i = i + 1;
    }
    proof {
        assert forall|f: spec_fn(Seq<u32>, Seq<u32>) -> u32| #[trigger]
            computes(*l2, f) implies assign@ == assigned(
            points@,
            n as nat,
            d as nat,
            centroids@,
            f,
        ) by {
            assert(assign@ =~= assigned(points@, n as nat, d as nat, centroids@, f));
        }
    }
    assign
}

/// Component `j` of the rows that are assigned to `k`.
fn column_of(points: &[u32], n: usize, d: usize, assign: &Vec<usize>, k: usize, j: usize) -> (list:
    Vec<u32>)
    requires
        points@.len() == n * d,
        assign@.len() == n,
        j < d,
    ensures
        list@ == column(points@, d as nat, assign@, k, j as int, n as nat),
{
    let mut list: Vec<u32> = Vec::new();
    let mut i: usize = 0;
    assert(points@.len() == points.len());
    while i < n
        invariant
            i <= n,
            points@.len() == n * d,
            points@.len() <= usize::MAX,
            assign@.len() == n,
            j < d,
            list@ == column(points@, d as nat, assign@, k, j as int, i as nat),
        decreases n - i,
    {
        if assign[i] == k {
            proof {
                lemma_piece(points@.len(), i as int, d as nat, n as nat);
            }
            list.push(points[i * d + j]);
        }
        i = i + 1;
    }
    list
}

/// Whether a row is assigned to `k`.
fn has_rows(assign: &Vec<usize>, k: usize) -> (r: bool)
    ensures
        r == assign@.contains(k),
{
    let mut i: usize = 0;
    while i < assign.len()
        invariant
            i <= assign@.len(),
            forall|j: int| 0 <= j < i ==> assign@[j] != k,
        decreases assign@.len() - i,
    {
        if assign[i] == k {
            assert(assign@[i as int] == k);
            return true;
        }
        i = i + 1;
    }
    false
}

/// Moves the centroids. `respawn` has a row for each, to fall back on.
pub fn move_centroids<A: Fn(&[u32]) -> u32>(
    points: &[u32],
    n: usize,
    d: usize,
    assign: &Vec<usize>,
    respawn: &Vec<usize>,
    mean: &A,
) -> (centroids: Vec<u32>)
    requires
        points@.len() == n * d,
        assign@.len() == n,
        respawn@.len() == K,
        below(respawn@, n as nat),
        folds_all(*mean),
    ensures
        centroids@.len() == K * d,
        forall|f: spec_fn(Seq<u32>) -> u32| #[trigger]
            folds(*mean, f) ==> centroids@ == all_moved(
                points@,
                d as nat,
                assign@,
                respawn@,
                K as nat,
                f,
            ),
{
    let mut centroids: Vec<u32> = Vec::new();
    let mut k: usize = 0;
    while k < K
        invariant
            k <= K,
            points@.len() == n * d,
            assign@.len() == n,
            respawn@.len() == K,
            below(respawn@, n as nat),
            folds_all(*mean),
            centroids@.len() == k * d,
            forall|f: spec_fn(Seq<u32>) -> u32| #[trigger]
                folds(*mean, f) ==> centroids@ == all_moved(
                    points@,
                    d as nat,
                    assign@,
                    respawn@,
                    k as nat,
                    f,
                ),
        decreases K - k,
    {
        let one: Vec<u32> = move_one(points, n, d, assign, k, respawn[k], mean);
        let ghost before = centroids@;
        centroids.extend_from_slice(one.as_slice());
        proof {
            assert(k * d + d == (k + 1) * d) by (nonlinear_arith);
            assert(centroids@ =~= before + one@);
        }
        k = k + 1;
    }
    centroids
}

/// Moves one centroid.
fn move_one<A: Fn(&[u32]) -> u32>(
    points: &[u32],
    n: usize,
    d: usize,
    assign: &Vec<usize>,
    k: usize,
    respawn: usize,
    mean: &A,
) -> (centroid: Vec<u32>)
    requires
        points@.len() == n * d,
        assign@.len() == n,
        respawn < n,
        folds_all(*mean),
    ensures
        centroid@.len() == d,
        forall|f: spec_fn(Seq<u32>) -> u32| #[trigger]
            folds(*mean, f) ==> centroid@ == moved(points@, d as nat, assign@, k, respawn, f),
{
    if !has_rows(assign, k) {
        proof {
            lemma_piece(points@.len(), respawn as int, d as nat, n as nat);
        }
        return vstd::slice::slice_to_vec(piece_of(points, respawn, d));
    }
    let mut centroid: Vec<u32> = Vec::with_capacity(d);
    let mut j: usize = 0;
    while j < d
        invariant
            j <= d,
            points@.len() == n * d,
            assign@.len() == n,
            assign@.contains(k),
            folds_all(*mean),
            centroid@.len() == j,
            forall|f: spec_fn(Seq<u32>) -> u32, i: int|
                #![trigger folds(*mean, f), centroid@[i]]
                folds(*mean, f) && 0 <= i < j ==> centroid@[i] == f(
                    column(points@, d as nat, assign@, k, i, assign@.len()),
                ),
        decreases d - j,
    {
        let list: Vec<u32> = column_of(points, n, d, assign, k, j);
        centroid.push(mean(list.as_slice()));
        j = j + 1;
    }
    proof {
        assert forall|f: spec_fn(Seq<u32>) -> u32| #[trigger] folds(*mean, f) implies centroid@
            == moved(points@, d as nat, assign@, k, respawn, f) by {
            assert(centroid@ =~= moved(points@, d as nat, assign@, k, respawn, f));
        }
    }
    centroid
}

/// A row to fall back on for every centroid: a random one for those without
/// rows.
fn fall_back(assign: &Vec<usize>, n: usize, rng: &mut SmallRng) -> (respawn: Vec<
    usize,
>)
    requires
        n > 0,
    ensures
        respawn@.len() == K,
        below(respawn@, n as nat),
{
    let mut respawn: Vec<usize> = Vec::with_capacity(K);
    while respawn.len() < K
        invariant
            respawn@.len() <= K,
            n > 0,
            below(respawn@, n as nat),
        decreases K - respawn@.len(),
    {
        let k: usize = respawn.len();
        let row: usize = if has_rows(assign, k) {
            0
        } else {
            draw_below(rng, n)
        };
        respawn.push(row);
    }
    respawn
}

/// Clusters `n` points of `d` components into [`K`] centroids.
pub fn kmeans<
    L: Fn(&[u32], &[u32]) -> u32,
    S: Fn(&[u32]) -> u32,
    M: Fn(u32, u32) -> u32,
    A: Fn(&[u32]) -> u32,
    T: Fn(u64, u32) -> u32,
>(
    points: &[u32],
    n: usize,
    d: usize,
    iters: usize,
    l2: &L,
    total: &S,
    minus: &M,
    mean: &A,
    rng: &mut SmallRng,
    spot: &T,
) -> (centroids: Vec<u32>)
    requires
        n > 0,
        points@.len() == n * d,
        scores_dim(*l2, d as nat),
        folds_all(*total),
        adds_all(*minus),
        folds_all(*mean),
        spots_any(*spot),
    ensures
        centroids@.len() == K * d,
        exists|picks: Seq<usize>, respawns: Seq<Seq<usize>>| #[trigger]
            clustered(
                centroids@,
                points@,
                n as nat,
                d as nat,
                iters as nat,
                picks,
                respawns,
                *l2,
                *total,
                *minus,
                *mean,
                *spot,
            ),
{
    let picks: Vec<usize> = pick_rows(points, n, d, l2, total, minus, rng, spot);
    let mut centroids: Vec<u32> = gather_rows(points, n, d, &picks);
    let ghost start = centroids@;
    let ghost mut respawns: Seq<Seq<usize>> = Seq::empty();
    let mut round: usize = 0;
    while round < iters
        invariant
            round <= iters,
            n > 0,
            points@.len() == n * d,
            scores_dim(*l2, d as nat),
            folds_all(*mean),
            centroids@.len() == K * d,
            respawns.len() == round,
            forall|r: int|
                0 <= r < respawns.len() ==> (#[trigger] respawns[r]).len() == K && below(
                    respawns[r],
                    n as nat,
                ),
            forall|by: Arithmetic|
                computes(*l2, by.l2) && folds(*mean, by.mean) ==> centroids@
                    == #[trigger] after_rounds(
                    points@,
                    n as nat,
                    d as nat,
                    start,
                    respawns,
                    by,
                ),
        decreases iters - round,
    {
        let assign: Vec<usize> = assign_rows(points, n, d, &centroids, l2);
        let respawn: Vec<usize> = fall_back(&assign, n, rng);
        let ghost was = centroids@;
        let ghost before = respawns;
        centroids = move_centroids(points, n, d, &assign, &respawn, mean);
        proof {
            respawns = respawns.push(respawn@);
            assert(respawns.drop_last() =~= before);
            assert forall|by: Arithmetic|
                computes(*l2, by.l2) && folds(*mean, by.mean) implies centroids@
                == #[trigger] after_rounds(
                points@,
                n as nat,
                d as nat,
                start,
                respawns,
                by,
            ) by {
                assert(was == after_rounds(points@, n as nat, d as nat, start, before, by));
            }
        }
        round = round + 1;
    }
    proof {
        assert(clustered(
            centroids@,
            points@,
            n as nat,
            d as nat,
            iters as nat,
            picks@,
            respawns,
            *l2,
            *total,
            *minus,
            *mean,
            *spot,
        ));
    }
    centroids
}

} // verus!
