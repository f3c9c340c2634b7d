//! What holds of lists that candidates are pushed into: in whatever order they
//! come, and however often one of them occurs, the best are kept.

use crate::storage::exact::merged;
use crate::storage::neighbor::{
    arranged, bounded, first, in_order, inserted, law_precedes_is_a_total_order,
    lemma_arranged_members, lemma_inserted_at, precedes, Neighbor,
};
use vstd::prelude::*;
use vstd::relations::{sorted_by, total_ordering};

verus! {

/// Where `x` goes in a list.
proof fn lemma_place(s: Seq<Neighbor>, x: Neighbor) -> (at: int)
    requires
        in_order(s),
    ensures
        0 <= at <= s.len(),
        forall|i: int| 0 <= i < at ==> !precedes(x, #[trigger] s[i]),
        forall|i: int| at <= i < s.len() ==> precedes(x, #[trigger] s[i]),
        inserted(s, x) == s.insert(at, x),
    decreases s.len(),
{
    let at: int = if s.len() == 0 {
        0
    } else if !precedes(x, s.last()) {
        assert forall|i: int| 0 <= i < s.len() implies !precedes(x, #[trigger] s[i]) by {
            if i < s.len() - 1 {
                assert(!precedes(s[s.len() - 1], s[i]));
                law_precedes_is_a_total_order(x, s[i], s.last());
                law_precedes_is_a_total_order(s[i], s.last(), x);
            }
        }
        s.len() as int
    } else {
        let front = s.drop_last();
        assert(in_order(front));
        let at = lemma_place(front, x);
        assert forall|i: int| 0 <= i < at implies !precedes(x, #[trigger] s[i]) by {
            assert(front[i] == s[i]);
        }
        assert forall|i: int| at <= i < s.len() implies precedes(x, #[trigger] s[i]) by {
            if i < front.len() {
                assert(front[i] == s[i]);
            }
        }
        at
    };
    lemma_inserted_at(s, x, at);
    at
}

/// Pushing into the first `k` members of a list gives the first `k` members of
/// the list that it is put into.
proof fn lemma_bounded_leading(s: Seq<Neighbor>, x: Neighbor, k: nat)
    requires
        in_order(s),
    ensures
        bounded(first(s, k), x, k) == first(inserted(s, x), k),
{
    let at = lemma_place(s, x);
    if s.len() >= k && k > 0 {
        let f = s.take(k as int);
        assert(first(s, k) =~= f);
        assert(f.last() == s[k - 1]);
        if precedes(x, f.last()) {
            let g = s.take(k - 1);
            assert(f.drop_last() =~= g);
            assert forall|i: int| 0 <= i < at implies !precedes(x, #[trigger] g[i]) by {
                assert(g[i] == s[i]);
            }
            assert forall|i: int| at <= i < g.len() implies precedes(x, #[trigger] g[i]) by {
                assert(g[i] == s[i]);
            }
            lemma_inserted_at(g, x, at);
            assert(g.insert(at, x) =~= s.insert(at, x).take(k as int));
        } else {
            assert(s.insert(at, x).take(k as int) =~= f);
        }
    } else if k == 0 {
        assert(first(s, k) =~= Seq::empty());
        assert(first(inserted(s, x), k) =~= Seq::empty());
    }
}

/// Pushing more behind the best of some.
proof fn lemma_pushed(a: Seq<Neighbor>, b: Seq<Neighbor>, k: nat)
    ensures
        merged(first(arranged(a), k), b, k) == first(arranged(a + b), k),
    decreases b.len(),
{
    if b.len() == 0 {
        assert(a + b =~= a);
    } else {
        let front = b.drop_last();
        lemma_pushed(a, front, k);
        lemma_arranged_members(a + front);
        lemma_bounded_leading(arranged(a + front), b.last(), k);
        assert((a + b).drop_last() =~= a + front);
    }
}

/// Pushing candidates one after the other into an empty list keeps the best of
/// them, in order, `k` of them if there are so many. One that occurs twice is
/// kept twice.
pub proof fn law_pushing_keeps_the_best(items: Seq<Neighbor>, k: nat)
    ensures
        merged(Seq::empty(), items, k) == first(arranged(items), k),
        in_order(arranged(items)),
        arranged(items).to_multiset() == items.to_multiset(),
{
    let none = Seq::<Neighbor>::empty();
    lemma_pushed(none, items, k);
    assert(none + items =~= items);
    assert(first(arranged(none), k) =~= none);
    lemma_arranged_members(items);
    lemma_arranged_multiset(items);
}

/// The order in which candidates are pushed does not matter.
pub proof fn law_pushes_commute(a: Seq<Neighbor>, b: Seq<Neighbor>, k: nat)
    requires
        a.to_multiset() == b.to_multiset(),
    ensures
        merged(Seq::empty(), a, k) == merged(Seq::empty(), b, k),
{
    law_pushing_keeps_the_best(a, k);
    law_pushing_keeps_the_best(b, k);
    lemma_arranged_unique(a, b);
}

/// Lists of the best of two lots merge to the list of the best of both, either
/// way round.
pub proof fn law_partial_lists_merge(a: Seq<Neighbor>, b: Seq<Neighbor>, k: nat)
    ensures
        merged(merged(Seq::empty(), a, k), merged(Seq::empty(), b, k), k) == merged(
            Seq::empty(),
            a + b,
            k,
        ),
        merged(merged(Seq::empty(), b, k), merged(Seq::empty(), a, k), k) == merged(
            Seq::empty(),
            a + b,
            k,
        ),
{
    lemma_partial_lists(a, b, k);
    lemma_partial_lists(b, a, k);
    vstd::seq_lib::lemma_multiset_commutative(a, b);
    vstd::seq_lib::lemma_multiset_commutative(b, a);
    assert((a + b).to_multiset() =~= (b + a).to_multiset());
    law_pushes_commute(a + b, b + a, k);
}

proof fn lemma_partial_lists(a: Seq<Neighbor>, b: Seq<Neighbor>, k: nat)
    ensures
        merged(merged(Seq::empty(), a, k), merged(Seq::empty(), b, k), k) == merged(
            Seq::empty(),
            a + b,
            k,
        ),
{
    law_pushing_keeps_the_best(a, k);
    law_pushing_keeps_the_best(b, k);
    let x = first(arranged(a), k);
    let t = arranged(b);
    if t.len() > k {
        lemma_rest_changes_nothing(a, t, k, t.len() as int);
        assert(t.take(t.len() as int) =~= t);
    }
    assert(merged(x, first(t, k), k) == merged(x, t, k));
    lemma_pushed(a, t, k);
    law_pushing_keeps_the_best(a + b, k);
    vstd::seq_lib::lemma_multiset_commutative(a, t);
    vstd::seq_lib::lemma_multiset_commutative(a, b);
    lemma_arranged_unique(a + t, a + b);
}

/// Pushing the members of a list in order, each comes no earlier than the one
/// that is then in its place.
proof fn lemma_pushed_in_order(a: Seq<Neighbor>, t: Seq<Neighbor>, k: nat, n: int)
    requires
        in_order(t),
        0 <= n <= t.len(),
        n <= k,
    ensures
        ({
            let list = merged(first(arranged(a), k), t.take(n), k);
            &&& in_order(list)
            &&& n <= list.len() <= k
            &&& forall|j: int| 0 <= j < n ==> !precedes(t[j], #[trigger] list[j])
        }),
    decreases n,
{
    lemma_pushed(a, t.take(n), k);
    lemma_arranged_members(a + t.take(n));
    let list = merged(first(arranged(a), k), t.take(n), k);
    if n > 0 {
        let i = n - 1;
        lemma_pushed_in_order(a, t, k, i);
        let before = merged(first(arranged(a), k), t.take(i), k);
        let x = t[i];
        assert(t.take(n).drop_last() =~= t.take(i));
        assert(t.take(n).last() == x);
        assert(list == bounded(before, x, k));
        let s = if before.len() < k {
            before
        } else {
            before.drop_last()
        };
        assert(in_order(s));
        let at = lemma_place(s, x);
        assert forall|j: int| 0 <= j < n implies !precedes(t[j], #[trigger] list[j]) by {
            if before.len() < k || precedes(x, before.last()) {
                assert(list == s.insert(at, x));
                if j < at {
                    assert(list[j] == s[j]);
                    if j == i {
                        assert(!precedes(x, s[j]));
                    } else {
                        assert(list[j] == before[j]);
                    }
                } else if j == at {
                    if j < i {
                        assert(!precedes(t[j], before[j]));
                        if j < s.len() {
                            law_precedes_is_a_total_order(x, s[j], t[j]);
                            law_precedes_is_a_total_order(t[j], x, s[j]);
                        } else {
                            law_precedes_is_a_total_order(x, before[j], t[j]);
                            law_precedes_is_a_total_order(t[j], x, before[j]);
                        }
                    } else {
                        law_precedes_is_a_total_order(x, x, x);
                    }
                } else {
                    assert(list[j] == s[j - 1]);
                    assert(s[j - 1] == before[j - 1]);
                    assert(!precedes(t[j - 1], before[j - 1]));
                    assert(!precedes(t[j], t[j - 1]));
                    law_precedes_is_a_total_order(t[j], before[j - 1], t[j - 1]);
                    law_precedes_is_a_total_order(before[j - 1], t[j - 1], t[j]);
                }
            } else {
                assert(list == before);
                if j == i {
                    law_precedes_is_a_total_order(x, before[j], before.last());
                    law_precedes_is_a_total_order(before[j], before.last(), x);
                }
            }
        }
    }
}

/// Behind the first `k` members of a list in order, the rest changes nothing.
proof fn lemma_rest_changes_nothing(a: Seq<Neighbor>, t: Seq<Neighbor>, k: nat, n: int)
    requires
        in_order(t),
        k <= n <= t.len(),
    ensures
        merged(first(arranged(a), k), t.take(n), k) == merged(
            first(arranged(a), k),
            t.take(k as int),
            k,
        ),
    decreases n,
{
    if n > k {
        lemma_rest_changes_nothing(a, t, k, n - 1);
        let x = first(arranged(a), k);
        let list = merged(x, t.take(k as int), k);
        assert(t.take(n).drop_last() =~= t.take(n - 1));
        assert(t.take(n).last() == t[n - 1]);
        lemma_pushed_in_order(a, t, k, k as int);
        if k > 0 {
            assert(!precedes(t[k - 1], list[k - 1]));
            assert(!precedes(t[n - 1], t[k - 1]) || n - 1 == k - 1);
            law_precedes_is_a_total_order(t[n - 1], list[k - 1], t[k - 1]);
            law_precedes_is_a_total_order(list[k - 1], t[k - 1], t[n - 1]);
        }
        assert(bounded(list, t[n - 1], k) == list);
    }
}

proof fn lemma_inserted_multiset(s: Seq<Neighbor>, x: Neighbor)
    ensures
        inserted(s, x).to_multiset() == s.to_multiset().insert(x),
    decreases s.len(),
{
    broadcast use vstd::seq_lib::group_to_multiset_ensures;

    if s.len() > 0 && precedes(x, s.last()) {
        let front = s.drop_last();
        lemma_inserted_multiset(front, x);
        assert(front.push(s.last()) =~= s);
        assert(inserted(s, x).to_multiset() =~= s.to_multiset().insert(x));
    }
}

proof fn lemma_arranged_multiset(items: Seq<Neighbor>)
    ensures
        arranged(items).to_multiset() == items.to_multiset(),
    decreases items.len(),
{
    broadcast use vstd::seq_lib::group_to_multiset_ensures;

    if items.len() > 0 {
        let front = items.drop_last();
        lemma_arranged_multiset(front);
        lemma_inserted_multiset(arranged(front), items.last());
        assert(front.push(items.last()) =~= items);
    }
}

/// Lists with the same members, each as often, are arranged the same way.
proof fn lemma_arranged_unique(a: Seq<Neighbor>, b: Seq<Neighbor>)
    requires
        a.to_multiset() == b.to_multiset(),
    ensures
        arranged(a) == arranged(b),
{
    let leq = |x: Neighbor, y: Neighbor| !precedes(y, x);
    lemma_arranged_multiset(a);
    lemma_arranged_multiset(b);
    lemma_arranged_members(a);
    lemma_arranged_members(b);
    assert(total_ordering(leq)) by {
        assert forall|x: Neighbor| #[trigger] leq(x, x) by {
            law_precedes_is_a_total_order(x, x, x);
        }
        assert forall|x: Neighbor, y: Neighbor, z: Neighbor| #[trigger]
            leq(x, y) && #[trigger] leq(y, z) implies leq(x, z) by {
            law_precedes_is_a_total_order(x, z, y);
            law_precedes_is_a_total_order(z, x, y);
        }
        assert forall|x: Neighbor, y: Neighbor| #[trigger]
            leq(x, y) && #[trigger] leq(y, x) implies x == y by {
            law_precedes_is_a_total_order(x, y, x);
        }
        assert forall|x: Neighbor, y: Neighbor| #[trigger] leq(x, y) || #[trigger] leq(y, x) by {
            law_precedes_is_a_total_order(x, y, x);
        }
    }
    assert(sorted_by(arranged(a), leq));
    assert(sorted_by(arranged(b), leq));
    vstd::seq_lib::lemma_sorted_unique(arranged(a), arranged(b), leq);
}

} // verus!
