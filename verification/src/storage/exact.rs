//! Exhaustive k-nearest-neighbour search.
//!
//! Every stored vector is scored, so what comes out is the truth that
//! approximate results are measured against. The ids are taken in chunks:
//! each chunk has its own list of the `k` best, and the lists are merged.
//! Chunks do not depend on one another, and merging gives the same list in
//! whatever order it is done.

use crate::oracle::{computes, scores_dim};
use crate::storage::neighbor::{
    ascending, bounded, in_order, inserted, law_precedes_is_a_total_order,
    lemma_ascending_in_order, lemma_inserted_in_order, lemma_inserted_members, precedes, Neighbor,
};
use crate::storage::store::VectorStore;
use vstd::prelude::*;

pub use crate::storage::neighbor::push_bounded;

verus! {

/// Ids that are scored together.
pub const CHUNK: u64 = 16_384;

/// The candidates with these ids, scored by `f`.
pub open spec fn scored(
    f: spec_fn(Seq<u32>, Seq<u32>) -> u32,
    query: Seq<u32>,
    rows: Seq<Seq<u32>>,
    from: int,
    to: int,
) -> Set<Neighbor> {
    Set::new(
        |x: Neighbor| from <= x.id < to && x.distance == f(query, rows[x.id as int]),
    )
}

/// `list` holds the `k` least members of `pool`, in order: it is shorter only
/// if that is all of them, and whatever is left out comes after every member.
pub open spec fn least(list: Seq<Neighbor>, pool: Set<Neighbor>, k: nat) -> bool {
    &&& ascending(list)
    &&& list.len() <= k
    &&& forall|x: Neighbor| #[trigger] list.contains(x) ==> pool.contains(x)
    &&& list.len() < k ==> forall|x: Neighbor| #[trigger] pool.contains(x) ==> list.contains(x)
    &&& forall|x: Neighbor, y: Neighbor| #[trigger]
        pool.contains(x) && !list.contains(x) && #[trigger] list.contains(y) ==> precedes(y, x)
}

/// All of `more` pushed into a list bounded to `k` members.
pub open spec fn merged(list: Seq<Neighbor>, more: Seq<Neighbor>, k: nat) -> Seq<Neighbor>
    decreases more.len(),
{
    if more.len() == 0 {
        list
    } else {
        bounded(merged(list, more.drop_last(), k), more.last(), k)
    }
}

/// There is only one list of the `k` least members.
pub proof fn law_least_is_unique(a: Seq<Neighbor>, b: Seq<Neighbor>, pool: Set<Neighbor>, k: nat)
    requires
        least(a, pool, k),
        least(b, pool, k),
    ensures
        a == b,
{
    lemma_least_prefix(a, b, pool, k);
    lemma_least_prefix(b, a, pool, k);
    assert(a =~= b);
}

proof fn lemma_least_prefix(a: Seq<Neighbor>, b: Seq<Neighbor>, pool: Set<Neighbor>, k: nat)
    requires
        least(a, pool, k),
        least(b, pool, k),
    ensures
        b.len() <= a.len(),
        forall|i: int| 0 <= i < b.len() ==> a[i] == #[trigger] b[i],
{
    lemma_same_members(a, b, pool, k);
    lemma_same_members(b, a, pool, k);
    lemma_as_long(a, b);
    lemma_as_long(b, a);
    assert forall|i: int| 0 <= i < b.len() implies a[i] == #[trigger] b[i] by {
        lemma_same_order(a, b, i);
    }
}

/// Nothing beats the exact answer: whichever members are listed, in order and
/// none twice, each comes after the one in its place in the exact list or is
/// that one.
pub proof fn law_nothing_beats_the_exact_answer(
    exact: Seq<Neighbor>,
    other: Seq<Neighbor>,
    pool: Set<Neighbor>,
    k: nat,
    i: int,
)
    requires
        least(exact, pool, k),
        ascending(other),
        forall|x: Neighbor| #[trigger] other.contains(x) ==> pool.contains(x),
        0 <= i < other.len(),
        i < k,
    ensures
        i < exact.len(),
        exact[i] == other[i] || precedes(exact[i], other[i]),
{
    if exact.len() < k {
        lemma_as_long(exact, other);
    }
    if exact[i] != other[i] && !precedes(exact[i], other[i]) {
        law_precedes_is_a_total_order(exact[i], other[i], exact[i]);
        let (front, more) = (exact.take(i), other.take(i + 1));
        assert(exact.contains(exact[i]));
        assert forall|x: Neighbor| #[trigger] more.contains(x) implies front.contains(x) by {
            let j = more.index_of(x);
            assert(other[j] == x);
            assert(other.contains(x));
            if j < i {
                law_precedes_is_a_total_order(x, other[i], exact[i]);
            }
            law_precedes_is_a_total_order(x, exact[i], x);
            assert(exact.contains(x));
            let at = exact.index_of(x);
            if at > i {
                assert(precedes(exact[i], exact[at]));
            }
            assert(front[at] == x);
        }
        lemma_as_long(front, more);
    }
}

/// A repetition-free list whose members all occur in another is no longer.
proof fn lemma_as_long(a: Seq<Neighbor>, b: Seq<Neighbor>)
    requires
        ascending(a),
        ascending(b),
        forall|x: Neighbor| #[trigger] b.contains(x) ==> a.contains(x),
    ensures
        b.len() <= a.len(),
{
    lemma_ascending_distinct(a);
    lemma_ascending_distinct(b);
    a.unique_seq_to_set();
    b.unique_seq_to_set();
    assert(b.to_set().subset_of(a.to_set()));
    vstd::set_lib::lemma_len_subset(b.to_set(), a.to_set());
}

proof fn lemma_ascending_distinct(a: Seq<Neighbor>)
    requires
        ascending(a),
    ensures
        a.no_duplicates(),
{
    assert forall|i: int, j: int| 0 <= i < a.len() && 0 <= j < a.len() && i != j implies a[i]
        != a[j] by {
        if i < j {
            assert(precedes(a[i], a[j]));
        } else {
            assert(precedes(a[j], a[i]));
        }
    }
}

proof fn lemma_same_members(a: Seq<Neighbor>, b: Seq<Neighbor>, pool: Set<Neighbor>, k: nat)
    requires
        least(a, pool, k),
        least(b, pool, k),
    ensures
        forall|x: Neighbor| #[trigger] b.contains(x) ==> a.contains(x),
{
    assert forall|x: Neighbor| #[trigger] b.contains(x) implies a.contains(x) by {
        if !a.contains(x) {
            assert(pool.contains(x));
            // `a` is full and each of its members comes before `x`, so `b`
            // has them all, and `x` besides.
            assert forall|y: Neighbor| #[trigger] a.contains(y) implies b.contains(y) by {
                assert(precedes(y, x));
                if !b.contains(y) {
                    assert(pool.contains(y));
                    assert(precedes(x, y));
                }
            }
            lemma_one_longer(b, a, x);
        }
    }
}

/// A list that has all members of another and one more is longer.
proof fn lemma_one_longer(a: Seq<Neighbor>, b: Seq<Neighbor>, x: Neighbor)
    requires
        ascending(a),
        ascending(b),
        forall|y: Neighbor| #[trigger] b.contains(y) ==> a.contains(y),
        a.contains(x),
        !b.contains(x),
    ensures
        b.len() < a.len(),
{
    lemma_ascending_distinct(a);
    lemma_ascending_distinct(b);
    a.unique_seq_to_set();
    b.unique_seq_to_set();
    assert(b.to_set().subset_of(a.to_set().remove(x)));
    vstd::set_lib::lemma_len_subset(b.to_set(), a.to_set().remove(x));
}

proof fn lemma_same_order(a: Seq<Neighbor>, b: Seq<Neighbor>, i: int)
    requires
        ascending(a),
        ascending(b),
        a.len() == b.len(),
        0 <= i < a.len(),
        forall|x: Neighbor| #[trigger] b.contains(x) <==> a.contains(x),
    ensures
        a[i] == b[i],
    decreases i,
{
    assert forall|j: int| 0 <= j < i implies a[j] == b[j] by {
        lemma_same_order(a, b, j);
    }
    assert(a.contains(a[i]) && b.contains(b[i]));
    assert(b.contains(a[i]) && a.contains(b[i]));
    let p = b.index_of(a[i]);
    let q = a.index_of(b[i]);
    assert(b[p] == a[i] && a[q] == b[i]);
    if a[i] != b[i] {
        if p < i {
            assert(a[p] == b[p]);
            assert(precedes(a[p], a[i]));
        }
        if q < i {
            assert(a[q] == b[q]);
            assert(precedes(b[q], b[i]));
        }
        assert(p > i && q > i);
        assert(precedes(b[i], b[p]));
        assert(precedes(a[i], a[q]));
    }
}

/// Pushing a new candidate keeps the `k` least.
pub proof fn lemma_least_pushed(list: Seq<Neighbor>, pool: Set<Neighbor>, x: Neighbor, k: nat)
    requires
        least(list, pool, k),
        !pool.contains(x),
    ensures
        least(bounded(list, x, k), pool.insert(x), k),
{
    let all = pool.insert(x);
    assert(!list.contains(x));
    lemma_ascending_in_order(list);
    if list.len() < k {
        lemma_inserted_members(list, x);
        lemma_inserted_in_order(list, x);
        let r = inserted(list, x);
        assert forall|y: Neighbor| #[trigger] all.contains(y) implies r.contains(y) by {
            if y != x {
                assert(pool.contains(y));
            }
        }
    } else if list.len() > 0 && precedes(x, list.last()) {
        let front = list.drop_last();
        assert(ascending(front));
        lemma_ascending_in_order(front);
        assert forall|y: Neighbor| #[trigger] front.contains(y) implies list.contains(y) by {
            assert(list[front.index_of(y)] == y);
        }
        lemma_inserted_members(front, x);
        lemma_inserted_in_order(front, x);
        let r = inserted(front, x);
        assert(list.contains(list[list.len() - 1]));
        assert forall|y: Neighbor, z: Neighbor| #[trigger]
            all.contains(y) && !r.contains(y) && #[trigger] r.contains(z) implies precedes(z, y) by {
            let last = list.last();
            // what precedes the last member precedes everything left out
            assert(precedes(z, last)) by {
                if z != x {
                    let i = front.index_of(z);
                    assert(precedes(list[i], list[list.len() - 1]));
                }
            }
            if y != last {
                assert(!list.contains(y)) by {
                    if list.contains(y) {
                        let i = list.index_of(y);
                        assert(front[i] == y);
                        assert(front.contains(y));
                    }
                }
                assert(pool.contains(y));
                assert(precedes(last, y));
                law_precedes_is_a_total_order(z, last, y);
            }
        }
    } else {
        assert forall|y: Neighbor, z: Neighbor| #[trigger]
            all.contains(y) && !list.contains(y) && #[trigger] list.contains(z) implies precedes(
            z,
            y,
        ) by {
            if y == x {
                let i = list.index_of(z);
                if i < list.len() - 1 {
                    assert(precedes(list[i], list[list.len() - 1]));
                }
                law_precedes_is_a_total_order(z, list.last(), x);
                law_precedes_is_a_total_order(x, list.last(), z);
                assert(z != x);
            } else {
                assert(pool.contains(y));
            }
        }
    }
}

/// Merging the lists of two pools that share nothing gives the list of both.
pub proof fn law_merging_keeps_the_least(
    a: Seq<Neighbor>,
    p: Set<Neighbor>,
    b: Seq<Neighbor>,
    q: Set<Neighbor>,
    k: nat,
)
    requires
        least(a, p, k),
        least(b, q, k),
        p.disjoint(q),
    ensures
        least(merged(a, b, k), p.union(q), k),
{
    let r = merged(a, b, k);
    let some = p.union(b.to_set());
    lemma_merged_prefix(a, p, b, q, k);
    assert(least(r, some, k));
    let all = p.union(q);
    assert forall|x: Neighbor| #[trigger] r.contains(x) implies all.contains(x) by {
        assert(some.contains(x));
        if b.to_set().contains(x) {
            assert(b.contains(x));
        }
    }
    assert forall|x: Neighbor| #[trigger] all.contains(x) && !r.contains(x) implies (r.len() == k
        && forall|y: Neighbor| #[trigger] r.contains(y) ==> precedes(y, x)) by {
        if some.contains(x) {
        } else {
            // `x` was left out of `b`, so `b` is full and comes before it
            assert(q.contains(x) && !b.contains(x));
            assert(b.len() == k);
            if r.len() < k {
                assert forall|y: Neighbor| #[trigger] b.contains(y) implies r.contains(y) by {
                    assert(b.to_set().contains(y));
                    assert(some.contains(y));
                }
                lemma_as_long(r, b);
            }
            assert forall|y: Neighbor| #[trigger] r.contains(y) implies precedes(y, x) by {
                assert(some.contains(y));
                if !b.contains(y) && !precedes(y, x) {
                    assert(p.contains(y));
                    assert forall|z: Neighbor| #[trigger] b.contains(z) implies r.contains(z) by {
                        assert(b.to_set().contains(z));
                        assert(some.contains(z));
                        if !r.contains(z) {
                            assert(precedes(y, z));
                            assert(precedes(z, x));
                            law_precedes_is_a_total_order(y, z, x);
                        }
                    }
                    lemma_one_longer(r, b, y);
                }
            }
        }
    }
}

proof fn lemma_merged_prefix(
    a: Seq<Neighbor>,
    p: Set<Neighbor>,
    b: Seq<Neighbor>,
    q: Set<Neighbor>,
    k: nat,
)
    requires
        least(a, p, k),
        ascending(b),
        forall|x: Neighbor| #[trigger] b.contains(x) ==> q.contains(x),
        p.disjoint(q),
    ensures
        least(merged(a, b, k), p.union(b.to_set()), k),
    decreases b.len(),
{
    if b.len() == 0 {
        assert(p.union(b.to_set()) =~= p);
    } else {
        let front = b.drop_last();
        let x = b.last();
        assert(b.contains(b[b.len() - 1]));
        assert(ascending(front));
        assert forall|y: Neighbor| #[trigger] front.contains(y) implies q.contains(y) by {
            assert(b[front.index_of(y)] == y);
            assert(b.contains(y));
        }
        lemma_merged_prefix(a, p, front, q, k);
        let before = p.union(front.to_set());
        assert(!before.contains(x)) by {
            if front.contains(x) {
                let i = front.index_of(x);
                assert(precedes(b[i], b[b.len() - 1]));
            }
        }
        lemma_least_pushed(merged(a, front, k), before, x, k);
        assert(before.insert(x) =~= p.union(b.to_set())) by {
            assert(front.push(x) =~= b);
            assert forall|y: Neighbor| b.contains(y) <==> front.contains(y) || y == x by {
                if b.contains(y) && y != x {
                    assert(front[b.index_of(y)] == y);
                }
                if front.contains(y) {
                    assert(b[front.index_of(y)] == y);
                }
            }
        }
    }
}

/// A list bounded to `k` members grows by what is pushed until it is full.
proof fn lemma_bounded_len(list: Seq<Neighbor>, x: Neighbor, k: nat)
    requires
        list.len() <= k,
    ensures
        bounded(list, x, k).len() == if list.len() < k {
            list.len() + 1
        } else {
            k
        },
{
    lemma_inserted_members(list, x);
    if list.len() > 0 {
        lemma_inserted_members(list.drop_last(), x);
    }
}

/// Pushes all of `more` into a list bounded to `k` members.
pub fn merge(list: &mut Vec<Neighbor>, more: &Vec<Neighbor>, k: usize)
    requires
        in_order(old(list)@),
    ensures
        final(list)@ == merged(old(list)@, more@, k as nat),
        in_order(final(list)@),
{
    let mut i: usize = 0;
    assert(more@.take(0) =~= Seq::empty());
    while i < more.len()
        invariant
            i <= more@.len(),
            list@ == merged(old(list)@, more@.take(i as int), k as nat),
            in_order(list@),
        decreases more@.len() - i,
    {
        push_bounded(list, more[i], k);
        i = i + 1;
        assert(more@.take(i as int).drop_last() =~= more@.take(i - 1));
    }
    assert(more@.take(i as int) =~= more@);
}

/// What every list of the best candidates with ids in a range looks like,
/// whatever the scores are.
pub open spec fn ranked(list: Seq<Neighbor>, from: int, to: int, k: nat) -> bool {
    &&& ascending(list)
    &&& list.len() == if to - from < k {
        to - from
    } else {
        k as int
    }
    &&& forall|x: Neighbor| #[trigger] list.contains(x) ==> from <= x.id < to
}

proof fn lemma_ranked_pushed(list: Seq<Neighbor>, from: int, x: Neighbor, k: nat)
    requires
        ranked(list, from, x.id as int, k),
        from <= x.id,
    ensures
        ranked(bounded(list, x, k), from, x.id + 1, k),
{
    assert(!list.contains(x));
    lemma_ascending_in_order(list);
    lemma_bounded_len(list, x, k);
    if list.len() < k {
        lemma_inserted_members(list, x);
        lemma_inserted_in_order(list, x);
    } else if list.len() > 0 && precedes(x, list.last()) {
        let front = list.drop_last();
        assert(ascending(front));
        lemma_ascending_in_order(front);
        assert forall|y: Neighbor| #[trigger] front.contains(y) implies list.contains(y) by {
            assert(list[front.index_of(y)] == y);
        }
        lemma_inserted_members(front, x);
        lemma_inserted_in_order(front, x);
    }
}

proof fn lemma_ranked_merged(
    a: Seq<Neighbor>,
    from: int,
    mid: int,
    b: Seq<Neighbor>,
    to: int,
    k: nat,
)
    requires
        ranked(a, from, mid, k),
        ranked(b, mid, to, k),
        from <= mid <= to,
    ensures
        ranked(merged(a, b, k), from, to, k),
{
    lemma_ranked_merged_prefix(a, from, mid, b, to, k);
}

proof fn lemma_ranked_merged_prefix(
    a: Seq<Neighbor>,
    from: int,
    mid: int,
    b: Seq<Neighbor>,
    to: int,
    k: nat,
)
    requires
        ranked(a, from, mid, k),
        ascending(b),
        forall|x: Neighbor| #[trigger] b.contains(x) ==> mid <= x.id < to,
        from <= mid <= to,
    ensures
        ascending(merged(a, b, k)),
        merged(a, b, k).len() == if a.len() + b.len() < k {
            (a.len() + b.len()) as nat
        } else {
            k
        },
        forall|x: Neighbor| #[trigger]
            merged(a, b, k).contains(x) ==> a.contains(x) || b.contains(x),
        forall|x: Neighbor| #[trigger] merged(a, b, k).contains(x) ==> from <= x.id < to,
    decreases b.len(),
{
    if b.len() > 0 {
        let front = b.drop_last();
        let x = b.last();
        assert(b.contains(b[b.len() - 1]));
        assert(ascending(front));
        assert forall|y: Neighbor| #[trigger] front.contains(y) implies b.contains(y) by {
            assert(b[front.index_of(y)] == y);
        }
        lemma_ranked_merged_prefix(a, from, mid, front, to, k);
        let list = merged(a, front, k);
        lemma_ascending_in_order(list);
        lemma_bounded_len(list, x, k);
        assert(!list.contains(x)) by {
            if front.contains(x) {
                let i = front.index_of(x);
                assert(precedes(b[i], b[b.len() - 1]));
            }
        }
        if list.len() < k {
            lemma_inserted_members(list, x);
            lemma_inserted_in_order(list, x);
        } else if list.len() > 0 && precedes(x, list.last()) {
            let rest = list.drop_last();
            assert(ascending(rest));
            lemma_ascending_in_order(rest);
            assert forall|y: Neighbor| #[trigger] rest.contains(y) implies list.contains(y) by {
                assert(list[rest.index_of(y)] == y);
            }
            lemma_inserted_members(rest, x);
            lemma_inserted_in_order(rest, x);
        }
    }
}

/// The `k` best of the vectors with ids from `from` up to `to`.
pub fn search_range<K: Fn(&[u32], &[u32]) -> u32>(
    store: &VectorStore,
    query: &[u32],
    k: usize,
    kernel: &K,
    from: u64,
    to: u64,
) -> (list: Vec<Neighbor>)
    requires
        store.wf(),
        query@.len() == store.spec_dim(),
        scores_dim(*kernel, store.spec_dim()),
        from <= to <= store.rows().len(),
    ensures
        ranked(list@, from as int, to as int, k as nat),
        forall|f: spec_fn(Seq<u32>, Seq<u32>) -> u32| #[trigger]
            computes(*kernel, f) ==> least(
                list@,
                scored(f, query@, store.rows(), from as int, to as int),
                k as nat,
            ),
{
    let mut list: Vec<Neighbor> = Vec::new();
    let mut id: u64 = from;
    while id < to
        invariant
            store.wf(),
            query@.len() == store.spec_dim(),
            scores_dim(*kernel, store.spec_dim()),
            from <= id <= to <= store.rows().len(),
            ranked(list@, from as int, id as int, k as nat),
            forall|f: spec_fn(Seq<u32>, Seq<u32>) -> u32| #[trigger]
                computes(*kernel, f) ==> least(
                    list@,
                    scored(f, query@, store.rows(), from as int, id as int),
                    k as nat,
                ),
        decreases to - id,
    {
        let row: &[u32] = store.get_unchecked(id);
        let distance: u32 = kernel(query, row);
        let x = Neighbor { id, distance };
        proof {
            lemma_ascending_in_order(list@);
            lemma_ranked_pushed(list@, from as int, x, k as nat);
            assert forall|f: spec_fn(Seq<u32>, Seq<u32>) -> u32| #[trigger]
                computes(*kernel, f) implies least(
                bounded(list@, x, k as nat),
                scored(f, query@, store.rows(), from as int, id + 1),
                k as nat,
            ) by {
                let pool = scored(f, query@, store.rows(), from as int, id as int);
                assert(x.distance == f(query@, store.rows()[id as int]));
                lemma_least_pushed(list@, pool, x, k as nat);
                assert(pool.insert(x) =~= scored(f, query@, store.rows(), from as int, id + 1));
            }
        }
        push_bounded(&mut list, x, k);
        id = id + 1;
    }
    list
}

/// The exact `k` nearest neighbours of `query`, in order.
pub fn search<K: Fn(&[u32], &[u32]) -> u32>(
    store: &VectorStore,
    query: &[u32],
    k: usize,
    kernel: &K,
) -> (list: Vec<Neighbor>)
    requires
        store.wf(),
        query@.len() == store.spec_dim(),
        scores_dim(*kernel, store.spec_dim()),
    ensures
        ranked(list@, 0, store.rows().len() as int, k as nat),
        forall|f: spec_fn(Seq<u32>, Seq<u32>) -> u32| #[trigger]
            computes(*kernel, f) ==> least(
                list@,
                scored(f, query@, store.rows(), 0, store.rows().len() as int),
                k as nat,
            ),
{
    let n: u64 = store.len() as u64;
    let mut list: Vec<Neighbor> = Vec::new();
    let mut start: u64 = 0;
    while start < n
        invariant
            store.wf(),
            query@.len() == store.spec_dim(),
            scores_dim(*kernel, store.spec_dim()),
            start <= n == store.rows().len(),
            ranked(list@, 0, start as int, k as nat),
            forall|f: spec_fn(Seq<u32>, Seq<u32>) -> u32| #[trigger]
                computes(*kernel, f) ==> least(
                    list@,
                    scored(f, query@, store.rows(), 0, start as int),
                    k as nat,
                ),
        decreases n - start,
    {
        let end: u64 = if n - start < CHUNK {
            n
        } else {
            start + CHUNK
        };
        let part: Vec<Neighbor> = search_range(store, query, k, kernel, start, end);
        proof {
            lemma_ascending_in_order(list@);
            lemma_ranked_merged(list@, 0, start as int, part@, end as int, k as nat);
            assert forall|f: spec_fn(Seq<u32>, Seq<u32>) -> u32| #[trigger]
                computes(*kernel, f) implies least(
                merged(list@, part@, k as nat),
                scored(f, query@, store.rows(), 0, end as int),
                k as nat,
            ) by {
                let p = scored(f, query@, store.rows(), 0, start as int);
                let q = scored(f, query@, store.rows(), start as int, end as int);
                law_merging_keeps_the_least(list@, p, part@, q, k as nat);
                assert(p.union(q) =~= scored(f, query@, store.rows(), 0, end as int));
            }
        }
        merge(&mut list, &part, k);
        start = end;
    }
    list
}

} // verus!
