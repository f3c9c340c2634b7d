//! Scored candidates, and lists of them in order.

use crate::float32::{law_less_is_smaller, smaller, total_key, total_order};
use vstd::prelude::*;

verus! {

/// A scored candidate: an id and the bits of its distance.
#[derive(Debug, Clone, Copy, PartialEq, Eq, Structural)]
pub struct Neighbor {
    pub id: u64,
    pub distance: u32,
}

/// `a` comes before `b`: it is closer in the total order of distances, or as
/// close with the smaller id.
pub open spec fn precedes(a: Neighbor, b: Neighbor) -> bool {
    ||| total_key(a.distance) < total_key(b.distance)
    ||| total_key(a.distance) == total_key(b.distance) && a.id < b.id
}

/// The list is in order, without repetition.
pub open spec fn ascending(s: Seq<Neighbor>) -> bool {
    forall|i: int, j: int| 0 <= i < j < s.len() ==> precedes(#[trigger] s[i], #[trigger] s[j])
}

/// The list is in order.
pub open spec fn in_order(s: Seq<Neighbor>) -> bool {
    forall|i: int, j: int|
        0 <= i < j < s.len() ==> !precedes(#[trigger] s[j], #[trigger] s[i])
}

/// The list with `x` put in its place, behind anything equal to it.
pub open spec fn inserted(s: Seq<Neighbor>, x: Neighbor) -> Seq<Neighbor>
    decreases s.len(),
{
    if s.len() == 0 || !precedes(x, s.last()) {
        s.push(x)
    } else {
        inserted(s.drop_last(), x).push(s.last())
    }
}

/// The list with `x` put in its place, if it has fewer than `k` members, or if
/// `x` comes before the last one, which is then dropped.
pub open spec fn bounded(s: Seq<Neighbor>, x: Neighbor, k: nat) -> Seq<Neighbor> {
    if s.len() < k {
        inserted(s, x)
    } else if s.len() > 0 && precedes(x, s.last()) {
        inserted(s.drop_last(), x)
    } else {
        s
    }
}

/// The first `k` members, or all.
pub open spec fn first(list: Seq<Neighbor>, k: nat) -> Seq<Neighbor> {
    if list.len() <= k {
        list
    } else {
        list.take(k as int)
    }
}

/// All of `items`, put in their places one after the other.
pub open spec fn arranged(items: Seq<Neighbor>) -> Seq<Neighbor>
    decreases items.len(),
{
    if items.len() == 0 {
        items
    } else {
        inserted(arranged(items.drop_last()), items.last())
    }
}

/// A candidate whose distance is a smaller number comes first, and of two at the
/// same distance the one with the smaller id.
pub proof fn law_closer_candidates_come_first(a: Neighbor, b: Neighbor)
    ensures
        smaller(a.distance, b.distance) ==> precedes(a, b),
        a.distance == b.distance ==> (precedes(a, b) <==> a.id < b.id),
{
    law_less_is_smaller(a.distance, b.distance);
}

impl Neighbor {
    /// Whether this candidate comes before `other`.
    #[inline]
    pub fn before(&self, other: &Neighbor) -> (r: bool)
        ensures
            r == precedes(*self, *other),
    {
        let a: i64 = total_order(self.distance);
        let b: i64 = total_order(other.distance);
        a < b || (a == b && self.id < other.id)
    }
}

/// The order is total: of two different candidates one comes before the
/// other, never both, and the order is transitive.
pub proof fn law_precedes_is_a_total_order(a: Neighbor, b: Neighbor, c: Neighbor)
    ensures
        !precedes(a, a),
        a != b ==> precedes(a, b) || precedes(b, a),
        precedes(a, b) ==> !precedes(b, a),
        precedes(a, b) && precedes(b, c) ==> precedes(a, c),
        !precedes(b, a) && precedes(b, c) ==> precedes(a, c),
        precedes(a, b) && !precedes(c, b) ==> precedes(a, c),
{
}

/// Putting `x` behind the members that it does not precede is where it goes.
pub proof fn lemma_inserted_at(s: Seq<Neighbor>, x: Neighbor, at: int)
    requires
        0 <= at <= s.len(),
        forall|i: int| 0 <= i < at ==> !precedes(x, #[trigger] s[i]),
        forall|i: int| at <= i < s.len() ==> precedes(x, #[trigger] s[i]),
    ensures
        inserted(s, x) == s.insert(at, x),
    decreases s.len(),
{
    if at == s.len() {
        assert(s.insert(at, x) =~= s.push(x));
        if s.len() > 0 {
            assert(!precedes(x, s[s.len() - 1]));
        }
    } else {
        assert(precedes(x, s[s.len() - 1]));
        let front = s.drop_last();
        assert forall|i: int| 0 <= i < at implies !precedes(x, #[trigger] front[i]) by {
            assert(front[i] == s[i]);
        }
        assert forall|i: int| at <= i < front.len() implies precedes(x, #[trigger] front[i]) by {
            assert(front[i] == s[i]);
        }
        lemma_inserted_at(front, x, at);
        assert(s.insert(at, x) =~= front.insert(at, x).push(s.last()));
    }
}

/// The members of a list that something was put into.
pub proof fn lemma_inserted_members(s: Seq<Neighbor>, x: Neighbor)
    ensures
        inserted(s, x).len() == s.len() + 1,
        forall|y: Neighbor| #[trigger] inserted(s, x).contains(y) <==> s.contains(y) || y == x,
    decreases s.len(),
{
    let r = inserted(s, x);
    if s.len() == 0 || !precedes(x, s.last()) {
        assert(r == s.push(x));
        assert forall|y: Neighbor| #[trigger] r.contains(y) <==> s.contains(y) || y == x by {
            if s.contains(y) {
                let i = s.index_of(y);
                assert(r[i] == y);
            }
            if y == x {
                assert(r[s.len() as int] == y);
            }
            if r.contains(y) {
                let i = r.index_of(y);
                if i < s.len() {
                    assert(s[i] == y);
                }
            }
        }
    } else {
        let front = s.drop_last();
        let t = inserted(front, x);
        lemma_inserted_members(front, x);
        assert forall|y: Neighbor| #[trigger] r.contains(y) <==> s.contains(y) || y == x by {
            if s.contains(y) {
                let i = s.index_of(y);
                if i < front.len() {
                    assert(front[i] == y);
                    assert(t.contains(y));
                    assert(r[t.index_of(y)] == y);
                } else {
                    assert(r[t.len() as int] == y);
                }
            }
            if y == x {
                assert(t.contains(y));
                assert(r[t.index_of(y)] == y);
            }
            if r.contains(y) {
                let i = r.index_of(y);
                if i < t.len() {
                    assert(t[i] == y);
                    assert(t.contains(y));
                    if y != x {
                        assert(s[front.index_of(y)] == y);
                    }
                } else {
                    assert(s[s.len() - 1] == y);
                }
            }
        }
    }
}

/// A list stays in order when something is put in its place, and stays free
/// of repetition if that is new.
pub proof fn lemma_inserted_in_order(s: Seq<Neighbor>, x: Neighbor)
    requires
        in_order(s),
    ensures
        in_order(inserted(s, x)),
        ascending(s) && !s.contains(x) ==> ascending(inserted(s, x)),
    decreases s.len(),
{
    let r = inserted(s, x);
    if s.len() == 0 || !precedes(x, s.last()) {
        assert forall|i: int, j: int| 0 <= i < j < r.len() implies !precedes(
            #[trigger] r[j],
            #[trigger] r[i],
        ) by {
            if j == s.len() && i < s.len() - 1 {
                assert(!precedes(s[s.len() - 1], s[i]));
                law_precedes_is_a_total_order(s[i], s.last(), x);
                law_precedes_is_a_total_order(x, s[i], s.last());
            }
        }
        if ascending(s) && !s.contains(x) {
            assert forall|i: int, j: int| 0 <= i < j < r.len() implies precedes(
                #[trigger] r[i],
                #[trigger] r[j],
            ) by {
                if j == s.len() {
                    assert(s[i] != x);
                    law_precedes_is_a_total_order(s[i], x, x);
                    assert(!precedes(r[j], r[i]));
                }
            }
        }
    } else {
        let front = s.drop_last();
        let t = inserted(front, x);
        assert(in_order(front));
        lemma_inserted_in_order(front, x);
        lemma_inserted_members(front, x);
        assert forall|i: int| 0 <= i < t.len() implies (!precedes(s.last(), #[trigger] t[i]) && (
        ascending(s) ==> precedes(t[i], s.last()))) by {
            assert(t.contains(t[i]));
            if t[i] != x {
                let k = front.index_of(t[i]);
                assert(s[k] == t[i]);
                assert(!precedes(s[s.len() - 1], s[k]));
            }
            law_precedes_is_a_total_order(t[i], s.last(), x);
        }
        if ascending(s) && !s.contains(x) {
            assert(ascending(front));
            assert(!front.contains(x)) by {
                if front.contains(x) {
                    assert(s[front.index_of(x)] == x);
                }
            }
            assert(ascending(r));
        }
        assert(in_order(r));
    }
}

/// A list without repetition is in order.
pub proof fn lemma_ascending_in_order(s: Seq<Neighbor>)
    requires
        ascending(s),
    ensures
        in_order(s),
{
    assert forall|i: int, j: int| 0 <= i < j < s.len() implies !precedes(
        #[trigger] s[j],
        #[trigger] s[i],
    ) by {
        law_precedes_is_a_total_order(s[i], s[j], s[j]);
    }
}

/// Puts `x` in its place.
pub fn insert_in_order(list: &mut Vec<Neighbor>, x: Neighbor)
    requires
        in_order(old(list)@),
    ensures
        final(list)@ == inserted(old(list)@, x),
        in_order(final(list)@),
{
    let mut lo: usize = 0;
    let mut hi: usize = list.len();
    while lo < hi
        invariant
            lo <= hi <= list@.len(),
            list@ == old(list)@,
            in_order(list@),
            forall|i: int| 0 <= i < lo ==> !precedes(x, #[trigger] list@[i]),
            forall|i: int| hi <= i < list@.len() ==> precedes(x, #[trigger] list@[i]),
        decreases hi - lo,
    {
        let mid: usize = lo + (hi - lo) / 2;
        let probe: Neighbor = list[mid];
        if x.before(&probe) {
            assert forall|i: int| mid <= i < list@.len() implies precedes(
                x,
                #[trigger] list@[i],
            ) by {
                if mid < i {
                    assert(!precedes(list@[i], list@[mid as int]));
                    law_precedes_is_a_total_order(x, probe, list@[i]);
                }
            }
            hi = mid;
        } else {
            assert forall|i: int| 0 <= i < mid + 1 implies !precedes(x, #[trigger] list@[i]) by {
                if i < mid {
                    assert(!precedes(list@[mid as int], list@[i]));
                    law_precedes_is_a_total_order(x, list@[i], probe);
                }
            }
            lo = mid + 1;
        }
    }
    proof {
        lemma_inserted_at(list@, x, lo as int);
        lemma_inserted_in_order(list@, x);
    }
    list.insert(lo, x);
}

/// The list is in reverse order, without repetition.
pub open spec fn descending(s: Seq<Neighbor>) -> bool {
    forall|i: int, j: int| 0 <= i < j < s.len() ==> precedes(#[trigger] s[j], #[trigger] s[i])
}

/// Puts `x`, which is new, in its place in a list in reverse order.
pub fn insert_descending(list: &mut Vec<Neighbor>, x: Neighbor)
    requires
        descending(old(list)@),
        !old(list)@.contains(x),
    ensures
        descending(final(list)@),
        final(list)@.to_set() == old(list)@.to_set().insert(x),
        final(list)@.len() == old(list)@.len() + 1,
{
    let mut lo: usize = 0;
    let mut hi: usize = list.len();
    while lo < hi
        invariant
            lo <= hi <= list@.len(),
            list@ == old(list)@,
            descending(list@),
            !list@.contains(x),
            forall|i: int| 0 <= i < lo ==> precedes(x, #[trigger] list@[i]),
            forall|i: int| hi <= i < list@.len() ==> precedes(#[trigger] list@[i], x),
        decreases hi - lo,
    {
        let mid: usize = lo + (hi - lo) / 2;
        let probe: Neighbor = list[mid];
        assert(list@.contains(list@[mid as int]));
        if x.before(&probe) {
            assert forall|i: int| 0 <= i < mid + 1 implies precedes(x, #[trigger] list@[i]) by {
                if i < mid {
                    assert(precedes(list@[mid as int], list@[i]));
                    law_precedes_is_a_total_order(x, probe, list@[i]);
                }
            }
            lo = mid + 1;
        } else {
            proof {
                law_precedes_is_a_total_order(x, probe, x);
            }
            assert forall|i: int| mid <= i < list@.len() implies precedes(
                #[trigger] list@[i],
                x,
            ) by {
                if mid < i {
                    assert(precedes(list@[i], list@[mid as int]));
                    law_precedes_is_a_total_order(list@[i], probe, x);
                }
            }
            hi = mid;
        }
    }
    let ghost before = list@;
    list.insert(lo, x);
    proof {
        assert(list@ == before.insert(lo as int, x));
        assert forall|y: Neighbor| #[trigger] list@.contains(y) <==> before.contains(y) || y
            == x by {
            if before.contains(y) {
                let i = before.index_of(y);
                if i < lo {
                    assert(list@[i] == y);
                } else {
                    assert(list@[i + 1] == y);
                }
            }
            if y == x {
                assert(list@[lo as int] == y);
            }
            if list@.contains(y) {
                let i = list@.index_of(y);
                if i < lo {
                    assert(before[i] == y);
                } else if i > lo {
                    assert(before[i - 1] == y);
                }
            }
        }
        assert(list@.to_set() =~= before.to_set().insert(x));
    }
}

/// Pushes into a list bounded to `k` members, whose last one is the worst.
pub fn push_bounded(list: &mut Vec<Neighbor>, item: Neighbor, k: usize)
    requires
        in_order(old(list)@),
    ensures
        final(list)@ == bounded(old(list)@, item, k as nat),
        in_order(final(list)@),
{
    let len: usize = list.len();
    if len < k {
        insert_in_order(list, item);
    } else if len > 0 {
        let worst: Neighbor = list[len - 1];
        if item.before(&worst) {
            list.truncate(len - 1);
            assert(list@ =~= old(list)@.drop_last());
            insert_in_order(list, item);
        }
    }
}

/// Arranges a list.
pub fn arrange(items: &Vec<Neighbor>) -> (list: Vec<Neighbor>)
    ensures
        list@ == arranged(items@),
        in_order(list@),
{
    let mut list: Vec<Neighbor> = Vec::with_capacity(items.len());
    let mut i: usize = 0;
    assert(items@.take(0) =~= Seq::empty());
    while i < items.len()
        invariant
            i <= items@.len(),
            list@ == arranged(items@.take(i as int)),
            in_order(list@),
        decreases items@.len() - i,
    {
        insert_in_order(&mut list, items[i]);
        i = i + 1;
        assert(items@.take(i as int).drop_last() =~= items@.take(i - 1));
    }
    assert(items@.take(i as int) =~= items@);
    list
}

/// The members of an arranged list.
pub proof fn lemma_arranged_members(items: Seq<Neighbor>)
    ensures
        arranged(items).len() == items.len(),
        forall|y: Neighbor| #[trigger] arranged(items).contains(y) <==> items.contains(y),
        in_order(arranged(items)),
    decreases items.len(),
{
    if items.len() > 0 {
        let front = items.drop_last();
        lemma_arranged_members(front);
        lemma_inserted_members(arranged(front), items.last());
        lemma_inserted_in_order(arranged(front), items.last());
        assert forall|y: Neighbor| #[trigger] arranged(items).contains(y) <==> items.contains(y) by {
            assert(front.push(items.last()) =~= items);
            if items.contains(y) && y != items.last() {
                assert(front[items.index_of(y)] == y);
            }
            if front.contains(y) {
                assert(items[front.index_of(y)] == y);
            }
            if y == items.last() {
                assert(items[items.len() - 1] == y);
            }
        }
    }
}

} // verus!
