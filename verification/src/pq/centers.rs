//! What holds of the centroids that clustering makes.

use crate::float32::{
    is_nan, law_less_is_smaller, le, lt, magnitude, number, smaller, units, INFINITY,
};
use crate::pq::kmeans::{
    after_rounds, all_moved, assigned, below, clustered, column, drawn, from_row, gathered,
    is_spot, moved, performs, picked_by_weight, picked_next, remaining, weights, Arithmetic,
};
use crate::pq::laws::law_the_first_closest_is_chosen;
use crate::pq::train::{codebook, subspace, trained};
use crate::pq::{argmin, distances, piece, K};
use vstd::prelude::*;

verus! {

/// The `i`th of some rows of `d` words that lie end to end.
pub open spec fn row_of(s: Seq<u32>, i: int, d: nat) -> Seq<u32> {
    s.subrange(i * d, (i + 1) * d)
}

/// A row is a piece.
pub proof fn lemma_row_is_piece(s: Seq<u32>, i: int, d: nat)
    ensures
        row_of(s, i, d) == piece(s, i, d),
{
    assert((i + 1) * d == i * d + d) by (nonlinear_arith);
}

/// The weight of a row is its distance from one of the rows that were picked, and
/// from none of them is its distance a smaller number.
pub proof fn law_weights_are_distances_from_the_closest_pick(
    points: Seq<u32>,
    n: nat,
    d: nat,
    picks: Seq<usize>,
    l2: spec_fn(Seq<u32>, Seq<u32>) -> u32,
    i: int,
)
    requires
        0 <= i < n,
        picks.len() >= 1,
    ensures
        weights(points, n, d, picks, l2).len() == n,
        exists|j: int|
            0 <= j < picks.len() && weights(points, n, d, picks, l2)[i] == l2(
                row_of(points, i, d),
                row_of(points, #[trigger] picks[j] as int, d),
            ),
        forall|j: int|
            0 <= j < picks.len() ==> !smaller(
                l2(row_of(points, i, d), row_of(points, #[trigger] picks[j] as int, d)),
                weights(points, n, d, picks, l2)[i],
            ),
    decreases picks.len(),
{
    let w = weights(points, n, d, picks, l2);
    let value = from_row(points, d, picks.last() as int, l2);
    lemma_row_is_piece(points, i, d);
    lemma_row_is_piece(points, picks.last() as int, d);
    assert(value(i) == l2(row_of(points, i, d), row_of(points, picks.last() as int, d)));
    if picks.len() == 1 {
        assert(w[i] == value(i));
        law_less_is_smaller(w[i], w[i]);
        assert(w[i] == l2(row_of(points, i, d), row_of(points, picks[0] as int, d)));
    } else {
        let front = picks.drop_last();
        law_weights_are_distances_from_the_closest_pick(points, n, d, front, l2, i);
        let before = weights(points, n, d, front, l2);
        law_less_is_smaller(value(i), before[i]);
        assert(w[i] == if lt(value(i), before[i]) {
            value(i)
        } else {
            before[i]
        });
        if lt(value(i), before[i]) {
            assert(w[i] == l2(
                row_of(points, i, d),
                row_of(points, picks[picks.len() - 1] as int, d),
            ));
        } else {
            let j = choose|j: int|
                0 <= j < front.len() && before[i] == l2(
                    row_of(points, i, d),
                    row_of(points, #[trigger] front[j] as int, d),
                );
            assert(w[i] == l2(row_of(points, i, d), row_of(points, picks[j] as int, d)));
        }
        assert forall|j: int| 0 <= j < picks.len() implies !smaller(
            l2(row_of(points, i, d), row_of(points, #[trigger] picks[j] as int, d)),
            w[i],
        ) by {
            let x = l2(row_of(points, i, d), row_of(points, picks[j] as int, d));
            law_less_is_smaller(x, w[i]);
            law_less_is_smaller(x, before[i]);
            if j < front.len() {
                assert(front[j] == picks[j]);
                assert(!smaller(x, before[i]));
            }
        }
    }
}

/// What the first `i` weights add up to.
pub open spec fn total_of(weights: Seq<u32>, i: nat) -> int
    decreases i,
{
    if i == 0 {
        0
    } else {
        total_of(weights, (i - 1) as nat) + number(weights[i - 1])
    }
}

/// A finite number.
pub open spec fn is_finite(x: u32) -> bool {
    magnitude(x) < INFINITY
}

/// Subtracting finite numbers is exact wherever there is a number for the result.
pub open spec fn subtracts(minus: spec_fn(u32, u32) -> u32) -> bool {
    forall|a: u32, b: u32, c: u32|
        #![trigger minus(a, b), number(c)]
        is_finite(a) && is_finite(b) && is_finite(c) && number(a) - number(b) == number(c)
            ==> is_finite(minus(a, b)) && number(minus(a, b)) == number(c)
}

/// There are numbers for all that is left of a target on the way through the
/// weights.
pub open spec fn no_rounding(target: u32, weights: Seq<u32>) -> bool {
    &&& forall|i: int| 0 <= i < weights.len() ==> is_finite(#[trigger] weights[i])
    &&& forall|i: nat|
        i <= weights.len() ==> exists|c: u32|
            is_finite(c) && #[trigger] number(c) == number(target) - #[trigger] total_of(weights, i)
}

proof fn lemma_remaining(
    target: u32,
    weights: Seq<u32>,
    i: nat,
    minus: spec_fn(u32, u32) -> u32,
)
    requires
        is_finite(target),
        subtracts(minus),
        no_rounding(target, weights),
        i <= weights.len(),
    ensures
        is_finite(remaining(target, weights, i, minus)),
        number(remaining(target, weights, i, minus)) == number(target) - total_of(weights, i),
    decreases i,
{
    if i > 0 {
        lemma_remaining(target, weights, (i - 1) as nat, minus);
        let a = remaining(target, weights, (i - 1) as nat, minus);
        let b = weights[i - 1];
        assert(is_finite(b));
        let c = choose|c: u32|
            is_finite(c) && #[trigger] number(c) == number(target) - total_of(weights, i);
        assert(number(a) - number(b) == number(c));
        assert(remaining(target, weights, i, minus) == minus(a, b));
    }
}

/// The row that a target falls on is the first one up to which the weights add
/// up to the target, or the last one, if nothing is rounded on the way.
pub proof fn law_a_target_falls_where_the_weights_reach_it(
    at: int,
    target: u32,
    weights: Seq<u32>,
    minus: spec_fn(u32, u32) -> u32,
)
    requires
        is_spot(at, target, weights, minus),
        is_finite(target),
        subtracts(minus),
        no_rounding(target, weights),
    ensures
        0 <= at < weights.len(),
        at == weights.len() - 1 || number(target) <= total_of(weights, (at + 1) as nat),
        forall|j: int|
            0 <= j < at ==> #[trigger] total_of(weights, (j + 1) as nat) < number(target),
{
    lemma_remaining(target, weights, (at + 1) as nat, minus);
    lemma_zero();
    lemma_le_zero(remaining(target, weights, (at + 1) as nat, minus));
    assert forall|j: int| 0 <= j < at implies #[trigger] total_of(weights, (j + 1) as nat) < number(
        target,
    ) by {
        lemma_remaining(target, weights, (j + 1) as nat, minus);
        lemma_le_zero(remaining(target, weights, (j + 1) as nat, minus));
    }
}

proof fn lemma_zero()
    ensures
        number(0) == 0,
        !is_nan(0),
{
    assert(units(0) == 0);
}

proof fn lemma_le_zero(x: u32)
    requires
        is_finite(x),
    ensures
        le(x, 0) <==> number(x) <= 0,
{
    lemma_zero();
    law_less_is_smaller(0, x);
}

/// The picked rows lie end to end.
pub proof fn law_picked_rows_are_gathered(points: Seq<u32>, n: nat, d: nat, picks: Seq<usize>)
    requires
        points.len() == n * d,
        below(picks, n),
    ensures
        gathered(points, d, picks).len() == picks.len() * d,
        forall|i: int|
            0 <= i < picks.len() ==> row_of(gathered(points, d, picks), i, d) == row_of(
                points,
                #[trigger] picks[i] as int,
                d,
            ),
    decreases picks.len(),
{
    let all = gathered(points, d, picks);
    if picks.len() == 0 {
        assert(0 * d == 0) by (nonlinear_arith);
    } else {
        let front = picks.drop_last();
        let rest = gathered(points, d, front);
        assert(below(front, n)) by {
            assert forall|i: int| 0 <= i < front.len() implies #[trigger] front[i] < n by {
                assert(front[i] == picks[i]);
            }
        }
        law_picked_rows_are_gathered(points, n, d, front);
        let last = picks.last() as int;
        assert(picks[picks.len() - 1] < n);
        lemma_inside(last, n, d);
        lemma_row_is_piece(points, last, d);
        lemma_one_more_row(rest, row_of(points, last, d), front.len(), d);
        assert forall|i: int| 0 <= i < picks.len() implies row_of(all, i, d) == row_of(
            points,
            #[trigger] picks[i] as int,
            d,
        ) by {
            if i < front.len() {
                assert(front[i] == picks[i]);
            }
        }
    }
}

proof fn lemma_inside(i: int, n: nat, d: nat)
    requires
        0 <= i < n,
    ensures
        0 <= i * d,
        (i + 1) * d == i * d + d,
        (i + 1) * d <= n * d,
{
    assert(0 <= i * d && (i + 1) * d == i * d + d && (i + 1) * d <= n * d) by (nonlinear_arith)
        requires
            0 <= i < n,
            0 <= d,
    ;
}

/// Rows that lie end to end, and one more behind them.
proof fn lemma_one_more_row(rest: Seq<u32>, row: Seq<u32>, n: nat, d: nat)
    requires
        rest.len() == n * d,
        row.len() == d,
    ensures
        (rest + row).len() == (n + 1) * d,
        forall|i: int|
            0 <= i < n ==> #[trigger] row_of(rest + row, i, d) == row_of(rest, i, d),
        row_of(rest + row, n as int, d) == row,
{
    let all = rest + row;
    assert((n + 1) * d == n * d + d) by (nonlinear_arith);
    assert forall|i: int| 0 <= i < n implies #[trigger] row_of(all, i, d) == row_of(
        rest,
        i,
        d,
    ) by {
        lemma_inside(i, n, d);
        assert(row_of(all, i, d) =~= row_of(rest, i, d));
    }
    assert(row_of(all, n as int, d) =~= row);
}

/// Every row is assigned to a centroid that it is closest to, and to the first of
/// them.
pub proof fn law_rows_are_assigned_to_the_closest_centroid(
    points: Seq<u32>,
    n: nat,
    d: nat,
    centroids: Seq<u32>,
    l2: spec_fn(Seq<u32>, Seq<u32>) -> u32,
    i: int,
    k: int,
)
    requires
        0 <= i < n,
        0 <= k < K,
    ensures
        ({
            let at = assigned(points, n, d, centroids, l2)[i];
            &&& at < K
            &&& no_closer(row_of(points, i, d), centroids, d, l2, at as int, k)
        }),
{
    let value = distances(l2, piece(points, i, d), centroids, 0, d);
    let at = argmin(value, K as nat).0;
    law_the_first_closest_is_chosen(value, K as nat, k);
    lemma_row_is_piece(points, i, d);
    lemma_row_is_piece(centroids, at, d);
    lemma_row_is_piece(centroids, k, d);
    law_less_is_smaller(value(k), value(at));
    law_less_is_smaller(value(at), value(k));
    law_the_first_closest_is_chosen(value, K as nat, 0);
}

/// The numbers of the rows that are assigned to `k`, in order.
pub open spec fn are_rows_of(rows: Seq<int>, assign: Seq<usize>, k: int) -> bool {
    &&& forall|t: int, u: int| 0 <= t < u < rows.len() ==> #[trigger] rows[t] < #[trigger] rows[u]
    &&& forall|i: int| #[trigger] rows.contains(i) <==> 0 <= i < assign.len() && assign[i] == k
}

/// The words at place `j` of these rows.
pub open spec fn words_of(points: Seq<u32>, d: nat, rows: Seq<int>, j: int) -> Seq<u32> {
    Seq::new(rows.len(), |t: int| points[rows[t] * d + j])
}

/// Where a centroid is after a round: at the mean of the rows that were assigned
/// to it, place by place, or if there were none, at a row that was drawn.
pub open spec fn is_center(
    center: Seq<u32>,
    points: Seq<u32>,
    d: nat,
    assign: Seq<usize>,
    k: int,
    respawn: int,
    mean: spec_fn(Seq<u32>) -> u32,
) -> bool {
    exists|rows: Seq<int>| #[trigger]
        are_rows_of(rows, assign, k) && center.len() == d && (if rows.len() == 0 {
            center == row_of(points, respawn, d)
        } else {
            forall|j: int| 0 <= j < d ==> #[trigger] center[j] == mean(words_of(points, d, rows, j))
        })
}

proof fn lemma_rows_of(assign: Seq<usize>, k: int) -> (rows: Seq<int>)
    ensures
        are_rows_of(rows, assign, k),
    decreases assign.len(),
{
    if assign.len() == 0 {
        Seq::empty()
    } else {
        let front = assign.drop_last();
        let rest = lemma_rows_of(front, k);
        let last = assign.len() - 1;
        assert forall|t: int| 0 <= t < rest.len() implies #[trigger] rest[t] < last by {
            assert(rest.contains(rest[t]));
        }
        if assign.last() == k {
            let rows = rest.push(last);
            assert forall|i: int| #[trigger] rows.contains(i) <==> 0 <= i < assign.len()
                && assign[i] == k by {
                if rows.contains(i) {
                    let t = rows.index_of(i);
                    if t < rest.len() {
                        assert(rest[t] == i);
                        assert(rest.contains(i));
                    }
                }
                if 0 <= i < last && assign[i] == k {
                    assert(front[i] == assign[i]);
                    assert(rest.contains(i));
                    let t = rest.index_of(i);
                    assert(rows[t] == i);
                }
                if i == last {
                    assert(rows[rest.len() as int] == i);
                }
            }
            rows
        } else {
            assert forall|i: int| #[trigger] rest.contains(i) <==> 0 <= i < assign.len()
                && assign[i] == k by {
                if 0 <= i < last {
                    assert(front[i] == assign[i]);
                }
            }
            rest
        }
    }
}

proof fn lemma_column(
    points: Seq<u32>,
    d: nat,
    assign: Seq<usize>,
    k: usize,
    j: int,
    n: nat,
    rows: Seq<int>,
)
    requires
        n <= assign.len(),
        are_rows_of(rows, assign.take(n as int), k as int),
    ensures
        column(points, d, assign, k, j, n) == words_of(points, d, rows, j),
    decreases n,
{
    let list = assign.take(n as int);
    if n == 0 {
        if rows.len() > 0 {
            assert(rows.contains(rows[0]));
        }
        assert(column(points, d, assign, k, j, n) =~= words_of(points, d, rows, j));
    } else {
        let before = assign.take(n - 1);
        if assign[n - 1] == k {
            assert(list[n - 1] == k);
            assert(rows.contains(n - 1));
            let last = rows.index_of(n - 1);
            assert(last == rows.len() - 1) by {
                if last < rows.len() - 1 {
                    assert(rows[last] < rows[rows.len() - 1]);
                    assert(rows.contains(rows[rows.len() - 1]));
                }
            }
            let front = rows.drop_last();
            assert forall|i: int| #[trigger] front.contains(i) <==> 0 <= i < before.len()
                && before[i] == k by {
                if front.contains(i) {
                    let t = front.index_of(i);
                    assert(rows[t] == i);
                    assert(rows.contains(i));
                    assert(rows[t] < rows[last]);
                    assert(list[i] == before[i]);
                }
                if 0 <= i < before.len() && before[i] == k {
                    assert(list[i] == before[i]);
                    assert(rows.contains(i));
                    let t = rows.index_of(i);
                    assert(front[t] == i);
                }
            }
            lemma_column(points, d, assign, k, j, (n - 1) as nat, front);
            assert(column(points, d, assign, k, j, n) =~= words_of(points, d, rows, j));
        } else {
            assert forall|i: int| #[trigger] rows.contains(i) <==> 0 <= i < before.len()
                && before[i] == k by {
                if 0 <= i < before.len() {
                    assert(list[i] == before[i]);
                }
                if rows.contains(i) {
                    assert(list[i] == assign[i]);
                }
            }
            lemma_column(points, d, assign, k, j, (n - 1) as nat, rows);
        }
    }
}

proof fn lemma_moved_is_center(
    points: Seq<u32>,
    d: nat,
    assign: Seq<usize>,
    k: usize,
    respawn: usize,
    mean: spec_fn(Seq<u32>) -> u32,
)
    requires
        points.len() == assign.len() * d,
        respawn < assign.len(),
    ensures
        is_center(
            moved(points, d, assign, k, respawn, mean),
            points,
            d,
            assign,
            k as int,
            respawn as int,
            mean,
        ),
        moved(points, d, assign, k, respawn, mean).len() == d,
{
    let center = moved(points, d, assign, k, respawn, mean);
    let rows = lemma_rows_of(assign, k as int);
    assert(assign.take(assign.len() as int) =~= assign);
    lemma_inside(respawn as int, assign.len(), d);
    lemma_row_is_piece(points, respawn as int, d);
    if assign.contains(k) {
        let i = assign.index_of(k);
        assert(rows.contains(i));
        assert forall|j: int| 0 <= j < d implies #[trigger] center[j] == mean(
            words_of(points, d, rows, j),
        ) by {
            lemma_column(points, d, assign, k, j, assign.len(), rows);
        }
    } else {
        if rows.len() > 0 {
            assert(rows.contains(rows[0]));
            assert(assign[rows[0]] == k);
        }
    }
    assert(are_rows_of(rows, assign, k as int));
}

proof fn lemma_all_moved(
    points: Seq<u32>,
    d: nat,
    assign: Seq<usize>,
    respawn: Seq<usize>,
    n: nat,
    mean: spec_fn(Seq<u32>) -> u32,
)
    requires
        points.len() == assign.len() * d,
        n <= respawn.len(),
        n <= K,
        below(respawn, assign.len()),
    ensures
        all_moved(points, d, assign, respawn, n, mean).len() == n * d,
        forall|k: int|
            0 <= k < n ==> is_center(
                row_of(all_moved(points, d, assign, respawn, n, mean), k, d),
                points,
                d,
                assign,
                k,
                #[trigger] respawn[k] as int,
                mean,
            ),
    decreases n,
{
    let all = all_moved(points, d, assign, respawn, n, mean);
    if n == 0 {
        assert(0 * d == 0) by (nonlinear_arith);
    } else {
        let last = (n - 1) as nat;
        lemma_all_moved(points, d, assign, respawn, last, mean);
        assert(respawn[last as int] < assign.len());
        lemma_moved_is_center(points, d, assign, last as usize, respawn[last as int], mean);
        let rest = all_moved(points, d, assign, respawn, last, mean);
        lemma_one_more_row(
            rest,
            moved(points, d, assign, last as usize, respawn[last as int], mean),
            last,
            d,
        );
        assert forall|k: int| 0 <= k < n implies is_center(
            row_of(all, k, d),
            points,
            d,
            assign,
            k,
            #[trigger] respawn[k] as int,
            mean,
        ) by {
            if k < last {
                assert(row_of(all, k, d) == row_of(rest, k, d));
            }
        }
    }
}

/// A round of clustering: every row is assigned to the first of the centroids
/// that it is closest to, and every centroid moves as [`is_center`] says.
pub open spec fn is_round(
    before: Seq<u32>,
    after: Seq<u32>,
    points: Seq<u32>,
    n: nat,
    d: nat,
    respawn: Seq<usize>,
    by: Arithmetic,
) -> bool {
    exists|assign: Seq<usize>| #[trigger]
        nearest_of(assign, before, points, n, d, by.l2) && after.len() == K * d && forall|k: int|
            0 <= k < K ==> is_center(
                row_of(after, k, d),
                points,
                d,
                assign,
                k,
                #[trigger] respawn[k] as int,
                by.mean,
            )
}

/// Centroid `k` is not closer to a row than centroid `at`, nor as close if it comes
/// before.
pub open spec fn no_closer(
    row: Seq<u32>,
    centroids: Seq<u32>,
    d: nat,
    l2: spec_fn(Seq<u32>, Seq<u32>) -> u32,
    at: int,
    k: int,
) -> bool {
    let here = l2(row, row_of(centroids, at, d));
    let there = l2(row, row_of(centroids, k, d));
    &&& !smaller(there, here)
    &&& k < at ==> is_nan(there) || smaller(here, there)
}

/// Every row is assigned to the first of the centroids that it is closest to.
pub open spec fn nearest_of(
    assign: Seq<usize>,
    centroids: Seq<u32>,
    points: Seq<u32>,
    n: nat,
    d: nat,
    l2: spec_fn(Seq<u32>, Seq<u32>) -> u32,
) -> bool {
    &&& assign.len() == n
    &&& forall|i: int| 0 <= i < n ==> #[trigger] assign[i] < K
    &&& forall|i: int, k: int|
        0 <= i < n && 0 <= k < K ==> #[trigger] no_closer(
            row_of(points, i, d),
            centroids,
            d,
            l2,
            assign[i] as int,
            k,
        )
}

/// Each round of clustering assigns every row to its closest centroid and moves
/// every centroid to the mean of its rows.
pub proof fn law_a_round_moves_centroids_to_their_rows(
    points: Seq<u32>,
    n: nat,
    d: nat,
    start: Seq<u32>,
    respawns: Seq<Seq<usize>>,
    by: Arithmetic,
)
    requires
        points.len() == n * d,
        respawns.len() > 0,
        respawns.last().len() == K,
        below(respawns.last(), n),
    ensures
        is_round(
            after_rounds(points, n, d, start, respawns.drop_last(), by),
            after_rounds(points, n, d, start, respawns, by),
            points,
            n,
            d,
            respawns.last(),
            by,
        ),
{
    let before = after_rounds(points, n, d, start, respawns.drop_last(), by);
    let assign = assigned(points, n, d, before, by.l2);
    assert forall|i: int| 0 <= i < n implies #[trigger] assign[i] < K by {
        law_rows_are_assigned_to_the_closest_centroid(points, n, d, before, by.l2, i, 0);
    }
    assert forall|i: int, k: int| 0 <= i < n && 0 <= k < K implies #[trigger] no_closer(
        row_of(points, i, d),
        before,
        d,
        by.l2,
        assign[i] as int,
        k,
    ) by {
        law_rows_are_assigned_to_the_closest_centroid(points, n, d, before, by.l2, i, k);
    }
    assert(nearest_of(assign, before, points, n, d, by.l2));
    lemma_all_moved(points, d, assign, respawns.last(), K as nat, by.mean);
}

/// Without a round the centroids stay where they start.
pub proof fn law_no_round_moves_nothing(
    points: Seq<u32>,
    n: nat,
    d: nat,
    start: Seq<u32>,
    by: Arithmetic,
)
    ensures
        after_rounds(points, n, d, start, Seq::empty(), by) == start,
{
}

/// A part of the samples holds that part of every one of them, row by row.
pub proof fn law_a_part_holds_that_part_of_all_rows(
    samples: Seq<u32>,
    n: nat,
    dim: nat,
    sub: int,
    sub_dim: nat,
    i: int,
)
    requires
        samples.len() == n * dim,
        0 < sub_dim,
        0 <= sub,
        (sub + 1) * sub_dim <= dim,
        0 <= i < n,
    ensures
        subspace(samples, n, dim, sub, sub_dim).len() == n * sub_dim,
        row_of(subspace(samples, n, dim, sub, sub_dim), i, sub_dim) == row_of(
            row_of(samples, i, dim),
            sub,
            sub_dim,
        ),
{
    let part = subspace(samples, n, dim, sub, sub_dim);
    let row = row_of(samples, i, dim);
    lemma_inside(i, n, dim);
    lemma_inside(i, n, sub_dim);
    assert(0 <= sub * sub_dim && (sub + 1) * sub_dim == sub * sub_dim + sub_dim)
        by (nonlinear_arith)
        requires
            0 <= sub,
            0 < sub_dim,
    ;
    let a = row_of(part, i, sub_dim);
    let b = row_of(row, sub, sub_dim);
    assert forall|j: int| 0 <= j < sub_dim implies a[j] == b[j] by {
        let at = i * sub_dim + j;
        vstd::arithmetic::div_mod::lemma_fundamental_div_mod_converse(at, sub_dim as int, i, j);
        assert(a[j] == part[at]);
        assert(b[j] == row[sub * sub_dim + j]);
        assert(b[j] == samples[i * dim + (sub * sub_dim + j)]);
    }
    assert(a =~= b);
}

/// The codebooks lie end to end: centroid `k` of part `sub` is row `sub * K + k`
/// of all of them.
pub proof fn law_codebooks_lie_end_to_end(
    centroids: Seq<u32>,
    m: nat,
    sub_dim: nat,
    sub: int,
    k: int,
)
    requires
        centroids.len() == (m * K as nat) * sub_dim,
        0 <= sub < m,
        0 <= k < K,
    ensures
        row_of(codebook(centroids, sub, sub_dim), k, sub_dim) == row_of(
            centroids,
            sub * K + k,
            sub_dim,
        ),
{
    let d = sub_dim as int;
    assert(sub * (K * d) + k * d == (sub * K + k) * d && sub * (K * d) + (k + 1) * d == (sub * K + k
        + 1) * d && 0 <= k * d && (k + 1) * d <= K * d && 0 <= sub * (K * d) && (sub + 1) * (K * d)
        <= (m * K as nat) * d && (sub + 1) * (K * d) == sub * (K * d) + K * d) by (nonlinear_arith)
        requires
            0 <= sub < m,
            0 <= k < K,
            0 <= d,
    ;
    assert((sub + 1) * (K * sub_dim) == (sub + 1) * (K * d));
    assert(k * d <= (k + 1) * d) by (nonlinear_arith)
        requires
            0 <= d,
    ;
    assert(row_of(codebook(centroids, sub, sub_dim), k, sub_dim) =~= row_of(
        centroids,
        sub * K + k,
        sub_dim,
    ));
}

/// A weight for every row: its distance from one of the first `j` rows that were
/// picked, such that none of them is closer.
pub open spec fn are_weights(
    w: Seq<u32>,
    points: Seq<u32>,
    n: nat,
    d: nat,
    picks: Seq<usize>,
    j: int,
    l2: spec_fn(Seq<u32>, Seq<u32>) -> u32,
) -> bool {
    &&& w.len() == n
    &&& forall|i: int|
        0 <= i < n ==> is_closest_distance(
            #[trigger] w[i],
            row_of(points, i, d),
            points,
            d,
            picks,
            j,
            l2,
        )
}

/// A distance of a row from one of the first `j` rows that were picked, such that
/// none of them is closer.
pub open spec fn is_closest_distance(
    distance: u32,
    row: Seq<u32>,
    points: Seq<u32>,
    d: nat,
    picks: Seq<usize>,
    j: int,
    l2: spec_fn(Seq<u32>, Seq<u32>) -> u32,
) -> bool {
    &&& exists|t: int|
        0 <= t < j && distance == l2(row, row_of(points, #[trigger] picks[t] as int, d))
    &&& forall|t: int|
        0 <= t < j ==> !smaller(l2(row, row_of(points, #[trigger] picks[t] as int, d)), distance)
}

/// Row number `j` was picked by the distances of all rows from those picked before:
/// where a target falls that is drawn from their sum, unless that is not positive.
pub open spec fn is_picked_by_distance<T: Fn(u64, u32) -> u32>(
    points: Seq<u32>,
    n: nat,
    d: nat,
    picks: Seq<usize>,
    j: int,
    by: Arithmetic,
    spot: T,
) -> bool {
    exists|w: Seq<u32>| #[trigger]
        are_weights(w, points, n, d, picks, j, by.l2) && (le((by.total)(w), 0) || exists|
            target: u32,
        | #[trigger]
            drawn(spot, (by.total)(w), target) && is_spot(picks[j] as int, target, w, by.minus))
}

/// A clustering: as many rows are picked as there are centroids, each after the
/// first by its distance from those before; the centroids start at these rows and
/// move in so many rounds, the last of which leaves them where they are.
pub open spec fn is_clustering<T: Fn(u64, u32) -> u32>(
    book: Seq<u32>,
    points: Seq<u32>,
    n: nat,
    d: nat,
    iters: nat,
    centers: Seq<Seq<u32>>,
    picks: Seq<usize>,
    respawns: Seq<Seq<usize>>,
    by: Arithmetic,
    spot: T,
) -> bool {
    &&& picks.len() == K
    &&& below(picks, n)
    &&& centers.len() == iters + 1
    &&& respawns.len() == iters
    &&& forall|k: int|
        0 <= k < K ==> row_of(centers[0], k, d) == row_of(points, #[trigger] picks[k] as int, d)
    &&& forall|r: int|
        0 <= r < iters ==> is_round(
            centers[r],
            centers[r + 1],
            points,
            n,
            d,
            #[trigger] respawns[r],
            by,
        )
    &&& centers[iters as int] == book
    &&& forall|j: int|
        1 <= j < K ==> #[trigger] is_picked_by_distance(points, n, d, picks, j, by, spot)
}

proof fn lemma_picked_by_distance<T: Fn(u64, u32) -> u32>(
    points: Seq<u32>,
    n: nat,
    d: nat,
    picks: Seq<usize>,
    j: int,
    by: Arithmetic,
    spot: T,
)
    requires
        picked_by_weight(points, n, d, picks, by, spot),
        1 <= j < picks.len(),
    ensures
        is_picked_by_distance(points, n, d, picks, j, by, spot),
{
    let some = picks.take(j);
    let w = weights(points, n, d, some, by.l2);
    assert(picked_next(points, n, d, some, picks[j], by, spot));
    lemma_weights_len(points, n, d, some, by.l2);
    assert forall|i: int| 0 <= i < n implies is_closest_distance(
        #[trigger] w[i],
        row_of(points, i, d),
        points,
        d,
        picks,
        j,
        by.l2,
    ) by {
        law_weights_are_distances_from_the_closest_pick(points, n, d, some, by.l2, i);
        let t = choose|t: int|
            0 <= t < some.len() && w[i] == (by.l2)(
                row_of(points, i, d),
                row_of(points, #[trigger] some[t] as int, d),
            );
        assert(some[t] == picks[t]);
        assert forall|t: int| 0 <= t < j implies !smaller(
            (by.l2)(row_of(points, i, d), row_of(points, #[trigger] picks[t] as int, d)),
            w[i],
        ) by {
            assert(some[t] == picks[t]);
        }
    }
    assert(are_weights(w, points, n, d, picks, j, by.l2));
}

proof fn lemma_weights_len(
    points: Seq<u32>,
    n: nat,
    d: nat,
    picks: Seq<usize>,
    l2: spec_fn(Seq<u32>, Seq<u32>) -> u32,
)
    ensures
        weights(points, n, d, picks, l2).len() == n,
    decreases picks.len(),
{
    if picks.len() > 1 {
        lemma_weights_len(points, n, d, picks.drop_last(), l2);
    }
}

/// Rows of one part of the samples.
pub open spec fn is_part(
    points: Seq<u32>,
    samples: Seq<u32>,
    n: nat,
    dim: nat,
    sub: int,
    sub_dim: nat,
) -> bool {
    &&& points.len() == n * sub_dim
    &&& forall|i: int|
        0 <= i < n ==> #[trigger] row_of(points, i, sub_dim) == row_of(
            row_of(samples, i, dim),
            sub,
            sub_dim,
        )
}

/// A codebook that was trained comes from a clustering of its part of the samples.
pub proof fn law_codebooks_come_from_clustering<
    L: Fn(&[u32], &[u32]) -> u32,
    S: Fn(&[u32]) -> u32,
    M: Fn(u32, u32) -> u32,
    A: Fn(&[u32]) -> u32,
    T: Fn(u64, u32) -> u32,
>(
    book: Seq<u32>,
    samples: Seq<u32>,
    n: nat,
    dim: nat,
    sub: int,
    sub_dim: nat,
    iters: nat,
    l2: L,
    total: S,
    minus: M,
    mean: A,
    spot: T,
    by: Arithmetic,
)
    requires
        trained(book, samples, n, dim, sub, sub_dim, iters, l2, total, minus, mean, spot),
        performs(l2, total, minus, mean, by),
        samples.len() == n * dim,
        0 < sub_dim,
        0 <= sub,
        (sub + 1) * sub_dim <= dim,
    ensures
        exists|
            points: Seq<u32>,
            centers: Seq<Seq<u32>>,
            picks: Seq<usize>,
            respawns: Seq<Seq<usize>>,
        |
            is_part(points, samples, n, dim, sub, sub_dim) && #[trigger] is_clustering(
                book,
                points,
                n,
                sub_dim,
                iters,
                centers,
                picks,
                respawns,
                by,
                spot,
            ),
{
    let points = subspace(samples, n, dim, sub, sub_dim);
    let d = sub_dim;
    let (picks, respawns) = choose|picks: Seq<usize>, respawns: Seq<Seq<usize>>| #[trigger]
        clustered(
            book,
            points,
            n,
            d,
            iters,
            picks,
            respawns,
            l2,
            total,
            minus,
            mean,
            spot,
        );
    assert forall|i: int| 0 <= i < n implies #[trigger] row_of(points, i, d) == row_of(
        row_of(samples, i, dim),
        sub,
        d,
    ) by {
        law_a_part_holds_that_part_of_all_rows(samples, n, dim, sub, d, i);
    }
    assert(points.len() == n * d);
    assert(is_part(points, samples, n, dim, sub, d));
    let start = gathered(points, d, picks);
    let centers = Seq::new(
        iters + 1,
        |r: int| after_rounds(points, n, d, start, respawns.take(r), by),
    );
    law_picked_rows_are_gathered(points, n, d, picks);
    assert(respawns.take(0) =~= Seq::empty());
    assert(respawns.take(iters as int) =~= respawns);
    assert forall|r: int| 0 <= r < iters implies is_round(
        centers[r],
        centers[r + 1],
        points,
        n,
        d,
        #[trigger] respawns[r],
        by,
    ) by {
        let some = respawns.take(r + 1);
        assert(some.drop_last() =~= respawns.take(r));
        assert(some.last() == respawns[r]);
        law_a_round_moves_centroids_to_their_rows(points, n, d, start, some, by);
    }
    assert forall|j: int| 1 <= j < K implies #[trigger] is_picked_by_distance(
        points,
        n,
        d,
        picks,
        j,
        by,
        spot,
    ) by {
        lemma_picked_by_distance(points, n, d, picks, j, by, spot);
    }
    assert(is_clustering(book, points, n, d, iters, centers, picks, respawns, by, spot));
}

} // verus!
