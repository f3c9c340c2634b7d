//! Choosing which candidates to link to.
//!
//! Candidates are taken from the closest on. One is kept only if it is closer
//! to the base than to every candidate that was kept before it, which spreads
//! the links over all directions. Places that are left over are filled with
//! the best of the candidates that were passed over.

use crate::float32::{less, lt};
use crate::oracle::{answers_pairs, scores_pairs};
use crate::storage::neighbor::Neighbor;
use vstd::prelude::*;

verus! {

/// One of the candidates that were kept is closer to `x` than the base is.
pub open spec fn dominated(
    kept: Seq<Neighbor>,
    x: Neighbor,
    pair: spec_fn(u64, u64) -> u32,
) -> bool {
    exists|i: int| 0 <= i < kept.len() && lt(pair(x.id, (#[trigger] kept[i]).id), x.distance)
}

/// The candidates that are kept, and those that are passed over before `m`
/// are kept.
pub open spec fn sifted(cands: Seq<Neighbor>, m: nat, pair: spec_fn(u64, u64) -> u32) -> (
    Seq<Neighbor>,
    Seq<Neighbor>,
)
    decreases cands.len(),
{
    if cands.len() == 0 {
        (Seq::empty(), Seq::empty())
    } else {
        let (kept, passed) = sifted(cands.drop_last(), m, pair);
        let x = cands.last();
        if kept.len() >= m {
            (kept, passed)
        } else if dominated(kept, x, pair) {
            (kept, passed.push(x))
        } else {
            (kept.push(x), passed)
        }
    }
}

/// The ids of a list.
pub open spec fn ids(list: Seq<Neighbor>) -> Seq<u64> {
    list.map_values(|x: Neighbor| x.id)
}

/// The chosen ids: those that are kept, then the best that were passed over,
/// `m` at most.
pub open spec fn chosen(cands: Seq<Neighbor>, m: nat, pair: spec_fn(u64, u64) -> u32) -> Seq<u64> {
    let (kept, passed) = sifted(cands, m, pair);
    let all = ids(kept) + ids(passed);
    if all.len() <= m {
        all
    } else {
        all.take(m as int)
    }
}

/// What is sifted are the candidates, and no more than `m` are kept.
pub proof fn lemma_sifted(cands: Seq<Neighbor>, m: nat, pair: spec_fn(u64, u64) -> u32)
    ensures
        sifted(cands, m, pair).0.len() <= m,
        forall|x: Neighbor| #[trigger] sifted(cands, m, pair).0.contains(x) ==> cands.contains(x),
        forall|x: Neighbor| #[trigger] sifted(cands, m, pair).1.contains(x) ==> cands.contains(x),
    decreases cands.len(),
{
    if cands.len() > 0 {
        let front = cands.drop_last();
        lemma_sifted(front, m, pair);
        let (kept, passed) = sifted(front, m, pair);
        let (kept2, passed2) = sifted(cands, m, pair);
        assert forall|x: Neighbor| #[trigger] front.contains(x) implies cands.contains(x) by {
            assert(cands[front.index_of(x)] == x);
        }
        assert(cands.contains(cands[cands.len() - 1]));
        assert forall|x: Neighbor| #[trigger] kept2.contains(x) implies cands.contains(x) by {
            let i = kept2.index_of(x);
            if i < kept.len() {
                assert(kept[i] == x);
                assert(kept.contains(x));
            }
        }
        assert forall|x: Neighbor| #[trigger] passed2.contains(x) implies cands.contains(x) by {
            let i = passed2.index_of(x);
            if i < passed.len() {
                assert(passed[i] == x);
                assert(passed.contains(x));
            }
        }
    }
}

/// No more than `m` ids are chosen, all of them those of candidates.
pub proof fn lemma_chosen(cands: Seq<Neighbor>, m: nat, pair: spec_fn(u64, u64) -> u32)
    ensures
        choice(chosen(cands, m, pair), cands, m),
{
    lemma_sifted(cands, m, pair);
    let (kept, passed) = sifted(cands, m, pair);
    let r = chosen(cands, m, pair);
    assert forall|i: int| 0 <= i < r.len() implies has_id(cands, #[trigger] r[i]) by {
        if i < kept.len() {
            assert(kept.contains(kept[i]));
            assert(cands.contains(kept[i]));
        } else {
            assert(passed.contains(passed[i - kept.len()]));
            assert(cands.contains(passed[i - kept.len()]));
        }
    }
}

/// Whether one of the candidates that were kept is closer to `x` than the base
/// is.
fn is_dominated<P: Fn(u64, u64) -> u32>(
    kept: &Vec<Neighbor>,
    x: Neighbor,
    pair: &P,
    n: u64,
) -> (r: bool)
    requires
        scores_pairs(*pair, n as nat),
        x.id < n,
        forall|i: int| 0 <= i < kept@.len() ==> (#[trigger] kept@[i]).id < n,
    ensures
        forall|f: spec_fn(u64, u64) -> u32| #[trigger]
            answers_pairs(*pair, f) ==> r == dominated(kept@, x, f),
{
    let mut i: usize = 0;
    while i < kept.len()
        invariant
            i <= kept@.len(),
            scores_pairs(*pair, n as nat),
            x.id < n,
            forall|j: int| 0 <= j < kept@.len() ==> (#[trigger] kept@[j]).id < n,
            forall|f: spec_fn(u64, u64) -> u32, j: int|
                #![trigger answers_pairs(*pair, f), kept@[j]]
                answers_pairs(*pair, f) && 0 <= j < i ==> !lt(f(x.id, kept@[j].id), x.distance),
        decreases kept@.len() - i,
    {
        let d: u32 = pair(x.id, kept[i].id);
        if less(d, x.distance) {
            return true;
        }
        i = i + 1;
    }
    false
}

/// One of the candidates has this id.
pub open spec fn has_id(cands: Seq<Neighbor>, id: u64) -> bool {
    exists|x: Neighbor| #[trigger] cands.contains(x) && x.id == id
}

/// What is chosen, whatever the distances are: ids of candidates, `m` at most.
pub open spec fn choice(list: Seq<u64>, cands: Seq<Neighbor>, m: nat) -> bool {
    &&& list.len() <= m
    &&& forall|i: int| 0 <= i < list.len() ==> has_id(cands, #[trigger] list[i])
}

/// Chooses `m` ids at most. The candidates must be in order.
pub fn select_neighbors<P: Fn(u64, u64) -> u32>(
    cands: &Vec<Neighbor>,
    m: usize,
    pair: &P,
    n: u64,
) -> (list: Vec<u64>)
    requires
        scores_pairs(*pair, n as nat),
        forall|i: int| 0 <= i < cands@.len() ==> (#[trigger] cands@[i]).id < n,
    ensures
        choice(list@, cands@, m as nat),
        forall|f: spec_fn(u64, u64) -> u32| #[trigger]
            answers_pairs(*pair, f) ==> list@ == chosen(cands@, m as nat, f),
{
    let mut kept: Vec<Neighbor> = Vec::new();
    let mut passed: Vec<Neighbor> = Vec::new();
    let mut i: usize = 0;
    assert(cands@.take(0) =~= Seq::empty());
    while i < cands.len() && kept.len() < m
        invariant
            i <= cands@.len(),
            kept@.len() <= m,
            scores_pairs(*pair, n as nat),
            forall|j: int| 0 <= j < cands@.len() ==> (#[trigger] cands@[j]).id < n,
            forall|j: int| 0 <= j < kept@.len() ==> cands@.contains(#[trigger] kept@[j]),
            forall|j: int| 0 <= j < passed@.len() ==> cands@.contains(#[trigger] passed@[j]),
            forall|f: spec_fn(u64, u64) -> u32| #[trigger]
                answers_pairs(*pair, f) ==> (kept@, passed@) == sifted(
                    cands@.take(i as int),
                    m as nat,
                    f,
                ),
        decreases cands@.len() - i,
    {
        let x: Neighbor = cands[i];
        proof {
            assert(cands@.take(i + 1).drop_last() =~= cands@.take(i as int));
            assert(cands@.contains(cands@[i as int]));
            assert forall|j: int| 0 <= j < kept@.len() implies (#[trigger] kept@[j]).id < n by {
                let k = cands@.index_of(kept@[j]);
                assert(cands@.contains(kept@[j]));
                assert(cands@[k].id < n);
            }
        }
        if is_dominated(&kept, x, pair, n) {
            passed.push(x);
        } else {
            kept.push(x);
        }
        i = i + 1;
    }
    proof {
        assert forall|f: spec_fn(u64, u64) -> u32| #[trigger] answers_pairs(*pair, f) implies (
        kept@, passed@) == sifted(cands@, m as nat, f) by {
            if i == cands@.len() {
                assert(cands@.take(i as int) =~= cands@);
            } else {
                lemma_sifted_full(cands@, i as int, m as nat, f);
            }
        }
    }
    let mut list: Vec<u64> = Vec::new();
    let mut j: usize = 0;
    while j < kept.len()
        invariant
            j <= kept@.len(),
            kept@.len() <= m,
            list@ == ids(kept@).take(j as int),
            forall|l: int| 0 <= l < kept@.len() ==> cands@.contains(#[trigger] kept@[l]),
            choice(list@, cands@, m as nat),
        decreases kept@.len() - j,
    {
        let ghost before = list@;
        list.push(kept[j].id);
        proof {
            assert(cands@.contains(kept@[j as int]));
            lemma_choice_grows(before, list@, cands@, m as nat, kept@[j as int]);
            assert(list@ =~= ids(kept@).take(j + 1));
        }
        j = j + 1;
    }
    let ghost all = ids(kept@) + ids(passed@);
    proof {
        assert(list@ =~= all.take(kept@.len() as int));
    }
    let mut j: usize = 0;
    while j < passed.len() && list.len() < m
        invariant
            j <= passed@.len(),
            list@.len() <= m,
            list@.len() == kept@.len() + j,
            all == ids(kept@) + ids(passed@),
            list@ == all.take(kept@.len() + j),
            forall|l: int| 0 <= l < passed@.len() ==> cands@.contains(#[trigger] passed@[l]),
            choice(list@, cands@, m as nat),
        decreases passed@.len() - j,
    {
        let ghost before = list@;
        list.push(passed[j].id);
        proof {
            assert(cands@.contains(passed@[j as int]));
            lemma_choice_grows(before, list@, cands@, m as nat, passed@[j as int]);
            assert(list@ =~= all.take(kept@.len() + j + 1));
        }
        j = j + 1;
    }
    proof {
        if all.len() <= m {
            assert(list@ =~= all);
        } else {
            assert(list@ =~= all.take(m as int));
        }
    }
    list
}

proof fn lemma_choice_grows(
    before: Seq<u64>,
    after: Seq<u64>,
    cands: Seq<Neighbor>,
    m: nat,
    x: Neighbor,
)
    requires
        choice(before, cands, m),
        before.len() < m,
        cands.contains(x),
        after == before.push(x.id),
    ensures
        choice(after, cands, m),
{
    assert forall|i: int| 0 <= i < after.len() implies has_id(cands, #[trigger] after[i]) by {
        if i < before.len() {
            assert(after[i] == before[i]);
        } else {
            assert(after[i] == x.id);
        }
    }
}

/// Once `m` are kept the rest makes no difference.
proof fn lemma_sifted_full(
    cands: Seq<Neighbor>,
    i: int,
    m: nat,
    pair: spec_fn(u64, u64) -> u32,
)
    requires
        0 <= i <= cands.len(),
        sifted(cands.take(i), m, pair).0.len() >= m,
    ensures
        sifted(cands, m, pair) == sifted(cands.take(i), m, pair),
    decreases cands.len() - i,
{
    if i == cands.len() {
        assert(cands.take(i) =~= cands);
    } else {
        assert(cands.take(i + 1).drop_last() =~= cands.take(i));
        lemma_sifted_full(cands, i + 1, m, pair);
    }
}

} // verus!
