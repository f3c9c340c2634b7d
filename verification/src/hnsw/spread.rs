//! What is chosen among candidates.

use crate::float32::{law_less_is_smaller, lt, smaller};
use crate::hnsw::select::{chosen, dominated, sifted};
use crate::storage::neighbor::Neighbor;
use vstd::prelude::*;

verus! {

/// Some positions below `n`, in order.
pub open spec fn rising(at: Seq<int>, n: nat) -> bool {
    &&& forall|i: int| 0 <= i < at.len() ==> 0 <= #[trigger] at[i] < n
    &&& forall|i: int, j: int| 0 <= i < j < at.len() ==> #[trigger] at[i] < #[trigger] at[j]
}

/// The distance between two candidates is a smaller number than that of the
/// first one from the base.
pub open spec fn hidden_by(
    cands: Seq<Neighbor>,
    pair: spec_fn(u64, u64) -> u32,
    at: int,
    by: int,
) -> bool {
    smaller(pair(cands[at].id, cands[by].id), cands[at].distance)
}

/// One of the candidates that come before and are kept hides this one.
pub open spec fn hidden(
    cands: Seq<Neighbor>,
    pair: spec_fn(u64, u64) -> u32,
    kept: Seq<int>,
    at: int,
) -> bool {
    exists|i: int|
        0 <= i < kept.len() && kept[i] < at && hidden_by(cands, pair, at, #[trigger] kept[i])
}

/// The candidates are divided into those that are kept and those that are passed
/// over until `m` are kept: nothing that is kept is nearer to something kept
/// before it than to the base, and all that is passed over is nearer to
/// something kept before it.
pub open spec fn sifts(
    kept: Seq<int>,
    passed: Seq<int>,
    cands: Seq<Neighbor>,
    m: nat,
    pair: spec_fn(u64, u64) -> u32,
) -> bool {
    &&& rising(kept, cands.len())
    &&& rising(passed, cands.len())
    &&& kept.len() <= m
    &&& forall|i: int, j: int|
        0 <= i < j < kept.len() ==> !hidden_by(cands, pair, #[trigger] kept[j], #[trigger] kept[i])
    &&& forall|j: int|
        0 <= j < passed.len() ==> hidden(cands, pair, kept, #[trigger] passed[j])
    &&& forall|at: int|
        0 <= at < cands.len() ==> #[trigger] kept.contains(at) || passed.contains(at) || (kept.len()
            == m && forall|i: int| 0 <= i < m ==> #[trigger] kept[i] < at)
    &&& forall|j: int|
        0 <= j < passed.len() && kept.len() == m ==> #[trigger] passed[j] < kept[m - 1]
}

/// The first `m` of the ids at the given positions, or all of them if there are
/// fewer.
pub open spec fn first_at(list: Seq<u64>, at: Seq<int>, cands: Seq<Neighbor>, m: nat) -> bool {
    &&& list.len() == m || list.len() < m && list.len() == at.len()
    &&& list.len() <= at.len()
    &&& forall|i: int| 0 <= i < list.len() ==> #[trigger] list[i] == cands[at[i]].id
}

/// The list holds what is kept of the candidates, and behind it as much of what
/// was passed over as there is room for.
pub open spec fn is_spread(
    list: Seq<u64>,
    cands: Seq<Neighbor>,
    m: nat,
    pair: spec_fn(u64, u64) -> u32,
) -> bool {
    exists|kept: Seq<int>, passed: Seq<int>| #[trigger]
        sifts(kept, passed, cands, m, pair) && first_at(list, kept + passed, cands, m)
}

proof fn lemma_sifts(cands: Seq<Neighbor>, m: nat, pair: spec_fn(u64, u64) -> u32) -> (r: (
    Seq<int>,
    Seq<int>,
))
    ensures
        sifts(r.0, r.1, cands, m, pair),
        r.0.len() == sifted(cands, m, pair).0.len(),
        r.1.len() == sifted(cands, m, pair).1.len(),
        forall|i: int|
            0 <= i < r.0.len() ==> (#[trigger] sifted(cands, m, pair).0[i]) == cands[r.0[i]],
        forall|i: int|
            0 <= i < r.1.len() ==> (#[trigger] sifted(cands, m, pair).1[i]) == cands[r.1[i]],
    decreases cands.len(),
{
    if cands.len() == 0 {
        (Seq::empty(), Seq::empty())
    } else {
        let front = cands.drop_last();
        let (k, p) = lemma_sifts(front, m, pair);
        let (kept, passed) = sifted(front, m, pair);
        let x = cands.last();
        let at = cands.len() - 1;
        assert forall|i: int, j: int| 0 <= i < at && 0 <= j < at implies hidden_by(
            cands,
            pair,
            i,
            j,
        ) == #[trigger] hidden_by(front, pair, i, j) by {}
        assert forall|i: int| 0 <= i < k.len() implies #[trigger] lt(
            pair(x.id, kept[i].id),
            x.distance,
        ) == hidden_by(cands, pair, at, k[i]) by {
            assert(kept[i] == front[k[i]]);
            law_less_is_smaller(pair(x.id, kept[i].id), x.distance);
        }
        if kept.len() >= m {
            lemma_sifts_more(k, p, front, cands, m, pair);
            (k, p)
        } else if dominated(kept, x, pair) {
            let q = p.push(at);
            let w = choose|i: int|
                0 <= i < kept.len() && lt(pair(x.id, (#[trigger] kept[i]).id), x.distance);
            assert(k[w] < q[p.len() as int] && hidden_by(cands, pair, q[p.len() as int], k[w]));
            lemma_sifts_passed(k, p, front, cands, m, pair);
            (k, q)
        } else {
            let q = k.push(at);
            assert forall|i: int| 0 <= i < k.len() implies !hidden_by(
                cands,
                pair,
                at,
                #[trigger] k[i],
            ) by {
                assert(!lt(pair(x.id, kept[i].id), x.distance));
            }
            lemma_sifts_kept(k, p, front, cands, m, pair);
            (q, p)
        }
    }
}

/// One more candidate when enough are kept.
proof fn lemma_sifts_more(
    k: Seq<int>,
    p: Seq<int>,
    front: Seq<Neighbor>,
    cands: Seq<Neighbor>,
    m: nat,
    pair: spec_fn(u64, u64) -> u32,
)
    requires
        cands.len() > 0,
        front == cands.drop_last(),
        sifts(k, p, front, m, pair),
        k.len() >= m,
    ensures
        sifts(k, p, cands, m, pair),
{
    assert forall|i: int, j: int| 0 <= i < j < k.len() implies !hidden_by(
        cands,
        pair,
        #[trigger] k[j],
        #[trigger] k[i],
    ) by {
        assert(!hidden_by(front, pair, k[j], k[i]));
    }
    assert forall|at: int| 0 <= at < cands.len() implies #[trigger] k.contains(at) || p.contains(at)
        || (k.len() == m && forall|i: int| 0 <= i < m ==> #[trigger] k[i] < at) by {
        if at == front.len() {
            assert(forall|i: int| 0 <= i < m ==> #[trigger] k[i] < at);
        }
    }
    assert forall|j: int| 0 <= j < p.len() implies hidden(cands, pair, k, #[trigger] p[j]) by {
        assert(hidden(front, pair, k, p[j]));
        let i = choose|i: int|
            0 <= i < k.len() && k[i] < p[j] && hidden_by(front, pair, p[j], #[trigger] k[i]);
        assert(hidden_by(cands, pair, p[j], k[i]));
    }
}

/// One more candidate that is passed over.
proof fn lemma_sifts_passed(
    k: Seq<int>,
    p: Seq<int>,
    front: Seq<Neighbor>,
    cands: Seq<Neighbor>,
    m: nat,
    pair: spec_fn(u64, u64) -> u32,
)
    requires
        cands.len() > 0,
        front == cands.drop_last(),
        sifts(k, p, front, m, pair),
        k.len() < m,
        exists|i: int|
            0 <= i < k.len() && hidden_by(cands, pair, cands.len() - 1, #[trigger] k[i]),
    ensures
        sifts(k, p.push(cands.len() - 1), cands, m, pair),
{
    let q = p.push(cands.len() - 1);
    assert forall|j: int| 0 <= j < q.len() implies hidden(cands, pair, k, #[trigger] q[j]) by {
        if j < p.len() {
            assert(hidden(front, pair, k, p[j]));
            let i = choose|i: int|
                0 <= i < k.len() && k[i] < p[j] && hidden_by(front, pair, p[j], #[trigger] k[i]);
            assert(hidden_by(cands, pair, q[j], k[i]));
        }
    }
    assert forall|at: int| 0 <= at < cands.len() implies #[trigger] k.contains(at) || q.contains(
        at,
    ) by {
        if at < front.len() {
            if !k.contains(at) {
                let i = p.index_of(at);
                assert(q[i] == at);
            }
        } else {
            assert(q[p.len() as int] == at);
        }
    }
}

/// One more candidate that is kept.
proof fn lemma_sifts_kept(
    k: Seq<int>,
    p: Seq<int>,
    front: Seq<Neighbor>,
    cands: Seq<Neighbor>,
    m: nat,
    pair: spec_fn(u64, u64) -> u32,
)
    requires
        cands.len() > 0,
        front == cands.drop_last(),
        sifts(k, p, front, m, pair),
        k.len() < m,
        forall|i: int|
            0 <= i < k.len() ==> !hidden_by(cands, pair, cands.len() - 1, #[trigger] k[i]),
    ensures
        sifts(k.push(cands.len() - 1), p, cands, m, pair),
{
    let q = k.push(cands.len() - 1);
    assert forall|i: int, j: int| 0 <= i < j < q.len() implies !hidden_by(
        cands,
        pair,
        #[trigger] q[j],
        #[trigger] q[i],
    ) by {
        if j < k.len() {
            assert(!hidden_by(front, pair, k[j], k[i]));
        } else {
            assert(!hidden_by(cands, pair, cands.len() - 1, k[i]));
        }
    }
    assert forall|j: int| 0 <= j < p.len() implies hidden(cands, pair, q, #[trigger] p[j]) by {
        assert(hidden(front, pair, k, p[j]));
        let i = choose|i: int|
            0 <= i < k.len() && k[i] < p[j] && hidden_by(front, pair, p[j], #[trigger] k[i]);
        assert(q[i] == k[i]);
        assert(hidden_by(cands, pair, p[j], q[i]));
    }
    assert forall|at: int| 0 <= at < cands.len() implies #[trigger] q.contains(at) || p.contains(
        at,
    ) by {
        if at < front.len() {
            if k.contains(at) {
                let i = k.index_of(at);
                assert(q[i] == at);
            }
        } else {
            assert(q[k.len() as int] == at);
        }
    }
}

/// What is chosen is spread out: no candidate that is kept is nearer to one kept
/// before it than to the base, every candidate that is passed over before `m`
/// are kept is, and the candidates that are passed over come last, in order, as
/// far as there is room. Nearer means a smaller number.
pub proof fn law_the_choice_is_spread(
    cands: Seq<Neighbor>,
    m: nat,
    pair: spec_fn(u64, u64) -> u32,
)
    ensures
        is_spread(chosen(cands, m, pair), cands, m, pair),
{
    let (k, p) = lemma_sifts(cands, m, pair);
    let (kept, passed) = sifted(cands, m, pair);
    let list = chosen(cands, m, pair);
    assert forall|i: int| 0 <= i < list.len() implies #[trigger] list[i] == cands[(k + p)[i]].id by {
        if i < k.len() {
            assert(list[i] == kept[i].id);
        } else {
            assert(list[i] == passed[i - k.len()].id);
        }
    }
    assert(first_at(list, k + p, cands, m));
}

} // verus!
