//! What the exact answer to a search is.

use crate::float32::{law_less_is_smaller, law_total_order_extends_less, smaller};
use crate::hnsw::traverse::lemma_few_ids;
use crate::storage::exact::{least, scored};
use crate::storage::neighbor::{precedes, Neighbor};
use vstd::prelude::*;

verus! {

/// A set of all ids below `n` has as many members.
proof fn lemma_many_ids(s: Set<u64>, n: nat)
    requires
        s.finite(),
        n <= u64::MAX,
        forall|id: u64| id < n ==> #[trigger] s.contains(id),
    ensures
        s.len() >= n,
    decreases n,
{
    if n > 0 {
        let last = (n - 1) as u64;
        let rest = s.remove(last);
        assert(s.contains(last));
        assert forall|id: u64| id < n - 1 implies #[trigger] rest.contains(id) by {
            assert(s.contains(id));
        }
        lemma_many_ids(rest, (n - 1) as nat);
    }
}

/// What comes before another candidate is not farther away.
proof fn lemma_not_farther(a: Neighbor, b: Neighbor)
    requires
        a == b || precedes(a, b),
    ensures
        !smaller(b.distance, a.distance),
{
    law_less_is_smaller(b.distance, a.distance);
    law_total_order_extends_less(b.distance, a.distance);
}

/// The exact answer has `k` hits, or one for every vector if there are fewer. They
/// are different vectors with their distances from the query, the nearest first,
/// and no vector that is left out is at a smaller distance than any of them.
pub proof fn law_the_exact_answer_is_the_nearest_vectors(
    list: Seq<Neighbor>,
    f: spec_fn(Seq<u32>, Seq<u32>) -> u32,
    query: Seq<u32>,
    rows: Seq<Seq<u32>>,
    k: nat,
)
    requires
        rows.len() <= u64::MAX,
        least(list, scored(f, query, rows, 0, rows.len() as int), k),
    ensures
        list.len() == (if k < rows.len() {
            k
        } else {
            rows.len()
        }),
        forall|i: int|
            0 <= i < list.len() ==> (#[trigger] list[i]).id < rows.len() && list[i].distance == f(
                query,
                rows[list[i].id as int],
            ),
        forall|i: int, j: int|
            0 <= i < j < list.len() ==> (#[trigger] list[i]).id != (#[trigger] list[j]).id
                && !smaller(list[j].distance, list[i].distance),
        forall|id: u64, i: int|
            id < rows.len() && 0 <= i < list.len() ==> {
                ||| exists|j: int| 0 <= j < list.len() && (#[trigger] list[j]).id == id
                ||| !smaller(f(query, #[trigger] rows[id as int]), (#[trigger] list[i]).distance)
            },
{
    let n = rows.len();
    let pool = scored(f, query, rows, 0, n as int);
    assert forall|i: int| 0 <= i < list.len() implies (#[trigger] list[i]).id < n
        && list[i].distance == f(query, rows[list[i].id as int]) by {
        assert(list.contains(list[i]));
        assert(pool.contains(list[i]));
    }
    assert forall|i: int, j: int| 0 <= i < j < list.len() implies (#[trigger] list[i]).id != (
    #[trigger] list[j]).id && !smaller(list[j].distance, list[i].distance) by {
        assert(precedes(list[i], list[j]));
        lemma_not_farther(list[i], list[j]);
        if list[i].id == list[j].id {
            assert(list[i] == list[j]);
        }
    }
    let ids = list.map_values(|x: Neighbor| x.id);
    assert(ids.no_duplicates()) by {
        assert forall|i: int, j: int| 0 <= i < ids.len() && 0 <= j < ids.len() && i != j implies ids[i]
            != ids[j] by {
            if i < j {
                assert(list[i].id != list[j].id);
            } else {
                assert(list[j].id != list[i].id);
            }
        }
    }
    ids.unique_seq_to_set();
    let set = ids.to_set();
    assert forall|id: u64| #[trigger] set.contains(id) implies id < n by {
        let i = ids.index_of(id);
        assert(list[i].id == id);
    }
    lemma_few_ids(set, n);
    if list.len() < k {
        assert forall|id: u64| id < n implies #[trigger] set.contains(id) by {
            let x = Neighbor { id, distance: f(query, rows[id as int]) };
            assert(pool.contains(x));
            assert(list.contains(x));
            let i = list.index_of(x);
            assert(ids[i] == id);
        }
        lemma_many_ids(set, n);
    }
    assert forall|id: u64, i: int| id < n && 0 <= i < list.len() implies {
        ||| exists|j: int| 0 <= j < list.len() && (#[trigger] list[j]).id == id
        ||| !smaller(f(query, #[trigger] rows[id as int]), (#[trigger] list[i]).distance)
    } by {
        let x = Neighbor { id, distance: f(query, rows[id as int]) };
        assert(pool.contains(x));
        if list.contains(x) {
            let j = list.index_of(x);
            assert(list[j].id == id);
        } else {
            assert(list.contains(list[i]));
            lemma_not_farther(list[i], x);
        }
    }
}

} // verus!
