//! Distances come from the caller, as closures.
//!
//! A *kernel* scores two vectors, an *oracle* scores the vector with some id.
//! Nothing is asked of them but that they can be called where they are
//! called. What a search returns is stated for every function that the
//! closure computes: if its every answer is that function's value, the result
//! is the one that belongs to that function.

use vstd::prelude::*;

verus! {

/// Every answer of `kernel` is the value of `f` on the two vectors.
pub open spec fn computes<K: Fn(&[u32], &[u32]) -> u32>(
    kernel: K,
    f: spec_fn(Seq<u32>, Seq<u32>) -> u32,
) -> bool {
    forall|a: &[u32], b: &[u32], r: u32| #[trigger]
        call_ensures(kernel, (a, b), r) ==> r == f(a@, b@)
}

/// `kernel` can be called with any two vectors of this dimension.
pub open spec fn scores_dim<K: Fn(&[u32], &[u32]) -> u32>(kernel: K, dim: nat) -> bool {
    forall|a: &[u32], b: &[u32]|
        a@.len() == dim && b@.len() == dim ==> #[trigger] call_requires(kernel, (a, b))
}

/// Every answer of `oracle` is the value of `f` on the id.
pub open spec fn answers<D: Fn(u64) -> u32>(oracle: D, f: spec_fn(u64) -> u32) -> bool {
    forall|id: u64, r: u32| #[trigger] call_ensures(oracle, (id,), r) ==> r == f(id)
}

/// `oracle` can be asked for every id below `n`.
pub open spec fn scores_ids<D: Fn(u64) -> u32>(oracle: D, n: nat) -> bool {
    forall|id: u64| id < n ==> #[trigger] call_requires(oracle, (id,))
}

/// The distances of the rows from a query.
pub open spec fn from_query(
    f: spec_fn(Seq<u32>, Seq<u32>) -> u32,
    query: Seq<u32>,
    rows: Seq<Seq<u32>>,
) -> spec_fn(u64) -> u32 {
    |id: u64| f(query, rows[id as int])
}

/// The distances of the rows from one another.
pub open spec fn between(
    f: spec_fn(Seq<u32>, Seq<u32>) -> u32,
    rows: Seq<Seq<u32>>,
) -> spec_fn(u64, u64) -> u32 {
    |a: u64, b: u64| f(rows[a as int], rows[b as int])
}

/// Every answer of `oracle` is the value of `f` on the two ids.
pub open spec fn answers_pairs<P: Fn(u64, u64) -> u32>(
    oracle: P,
    f: spec_fn(u64, u64) -> u32,
) -> bool {
    forall|a: u64, b: u64, r: u32| #[trigger] call_ensures(oracle, (a, b), r) ==> r == f(a, b)
}

/// `oracle` can be asked for every two ids below `n`.
pub open spec fn scores_pairs<P: Fn(u64, u64) -> u32>(oracle: P, n: nat) -> bool {
    forall|a: u64, b: u64| a < n && b < n ==> #[trigger] call_requires(oracle, (a, b))
}

} // verus!
