//! What inserting and opening leave in a database.

use crate::db::model::{
    all_stored, applied, base_image, batch_plan, batch_rows, by_metric, codes_padded, found_index,
    found_store, insert_plan, inserted, linked, logged, opened, quantized, recovered, replayed,
    row_stored, row_trouble, shows, storable_rows, stored, DbOptions, Functions, Image, Trouble,
};
use crate::db::write::batch_stored;
use crate::error::Error;
use crate::hnsw::insert::lemma_inserted_len;
use crate::io::{Disk, Target};
use crate::oracle::between;
use crate::pq::codebook::{all_codes, Quantizer};
use crate::pq::encoded;
use crate::pq::laws::law_codes_cover_the_vectors;
use crate::random::level_word;
use crate::wal::{lsn_after, scan, Entry, SyncPolicy};
use vstd::prelude::*;

verus! {

/// The code of a vector goes where its id says.
pub open spec fn has_code(
    codes: Seq<u8>,
    q: Quantizer,
    id: int,
    v: Seq<u32>,
    l2: spec_fn(Seq<u32>, Seq<u32>) -> u32,
) -> bool {
    &&& (id + 1) * q.m <= codes.len()
    &&& codes.subrange(id * q.m, (id + 1) * q.m) == encoded(q.centroids, q.m, q.sub_dim, v, l2)
}

/// An insert adds the vector behind all others, and a node for it; it takes one
/// sequence number if there is a log, and puts the vector's code in its place if
/// there are codes. The rest stays as it is.
pub proof fn law_an_insert_adds_one_vector(img: Image, v: Seq<u32>, by: Functions)
    requires
        img.rows.len() < u64::MAX,
        img.log matches Some(log) ==> log.next_lsn < u64::MAX,
    ensures
        ({
            let now = inserted(img, v, by);
            &&& now.rows.len() == img.rows.len() + 1
            &&& now.rows[img.rows.len() as int] == v
            &&& img.rows.is_prefix_of(now.rows)
            &&& now.graph.nodes.len() == now.rows.len()
            &&& now.dim == img.dim && now.stride == img.stride && now.config == img.config
            &&& now.log is Some <==> img.log is Some
            &&& img.log matches Some(log) ==> now.log->0.next_lsn == log.next_lsn + 1
                && now.log->0.policy == log.policy
            &&& now.pq is Some <==> img.pq is Some
            &&& img.pq matches Some(c) ==> now.pq->0.quantizer == c.quantizer && has_code(
                now.pq->0.codes,
                c.quantizer,
                img.rows.len() as int,
                v,
                by.l2,
            )
        }),
{
    let now = inserted(img, v, by);
    let id = img.rows.len() as u64;
    lemma_linked_len(logged(stored(img, v)), id, by);
    assert(img.rows.is_prefix_of(now.rows));
    if img.pq is Some {
        let c = img.pq->0;
        let m = c.quantizer.m as int;
        assert(0 <= id * m && (id + 1) * m == id * m + m) by (nonlinear_arith)
            requires
                0 <= m,
        ;
        let code = encoded(c.quantizer.centroids, c.quantizer.m, c.quantizer.sub_dim, v, by.l2);
        assert(now.pq->0.codes.subrange(id * m, (id + 1) * m) =~= code);
    }
}

proof fn lemma_linked_len(img: Image, id: u64, by: Functions)
    ensures
        linked(img.graph, img.config, img.rows, id, by).nodes.len() == id + 1,
{
    reveal(linked);
    lemma_inserted_len(
        img.graph,
        id,
        (by.level)(img.config.m, level_word(id)),
        img.config.m as nat,
        img.config.ef_construction as nat,
        between(
            by_metric(by.kernel, img.config.metric),
            img.rows.take(id + 1),
        ),
    );
}

/// Filling up the codes makes room for all vectors. Codes that were there stay, and
/// what is filled up is zero.
pub proof fn law_missing_codes_are_zero(img: Image, i: int)
    requires
        img.pq is Some,
    ensures
        ({
            let was = img.pq->0;
            let now = codes_padded(img).pq->0;
            &&& now.quantizer == was.quantizer
            &&& img.rows.len() * was.quantizer.m <= now.codes.len()
            &&& was.codes.len() <= now.codes.len()
            &&& now.codes.len() == was.codes.len() || now.codes.len() == img.rows.len()
                * was.quantizer.m
            &&& 0 <= i < was.codes.len() ==> now.codes[i] == was.codes[i]
            &&& was.codes.len() <= i < now.codes.len() ==> now.codes[i] == 0
            &&& codes_padded(img).rows == img.rows
            &&& codes_padded(img).graph == img.graph
        }),
{
    let m = img.pq->0.quantizer.m as int;
    assert(0 <= img.rows.len() * m) by (nonlinear_arith)
        requires
            0 <= m,
    ;
}

/// The vectors of a batch are its runs of `dim` words, end to end, and what is left
/// over is less than one.
pub proof fn law_a_batch_is_cut_into_its_rows(batch: Seq<u32>, dim: nat, i: int)
    requires
        dim > 0,
        0 <= i < batch_rows(batch, dim).len(),
    ensures
        batch_rows(batch, dim)[i] == batch.subrange(i * dim, (i + 1) * dim),
        batch_rows(batch, dim).len() * dim <= batch.len() < (batch_rows(batch, dim).len() + 1)
            * dim,
        (i + 1) * dim <= batch.len(),
{
    let n = batch.len() / dim;
    assert((i + 1) * dim == i * dim + dim && n * dim <= batch.len() < (n + 1) * dim && (i + 1) * dim
        <= n * dim) by (nonlinear_arith)
        requires
            dim > 0,
            0 <= i < n,
            n == batch.len() / dim,
    ;
}

/// Every record is synced as it is written if the log is always to be, and none
/// otherwise. Nothing but records is written.
pub proof fn law_records_are_synced_as_asked(img: Image, v: Seq<u32>, vs: Seq<Seq<u32>>)
    ensures
        forall|i: int|
            0 <= i < insert_plan(img, v).len() ==> #[trigger] insert_plan(img, v)[i].0
                == (Target::WalFrame { sync: img.log->0.policy == SyncPolicy::Always }),
        forall|i: int|
            0 <= i < batch_plan(img, vs).len() ==> #[trigger] batch_plan(img, vs)[i].0
                == (Target::WalFrame { sync: img.log->0.policy == SyncPolicy::Always }),
        img.log is Some ==> insert_plan(img, v).len() == 1,
        img.log is Some && storable_rows(img, vs, vs.len() as int) ==> batch_plan(img, vs).len()
            == vs.len(),
    decreases vs.len(),
{
    if vs.len() > 0 {
        let front = vs.drop_last();
        law_records_are_synced_as_asked(img, v, front);
        lemma_all_stored_policy(img, front);
        if storable_rows(img, vs, vs.len() as int) {
            assert(storable_rows(img, front, front.len() as int)) by {
                reveal(storable_rows);
                assert forall|i: int| 0 <= i < front.len() implies row_trouble(
                    all_stored(img, front.take(i)),
                    #[trigger] front[i],
                ) is None by {
                    assert(row_trouble(
                        all_stored(img, vs.take(i)),
                        vs[i],
                    ) is None);
                    assert(front.take(i) =~= vs.take(i));
                }
            }
        }
        let plan = batch_plan(img, vs);
        let before = batch_plan(img, front);
        assert forall|i: int| 0 <= i < plan.len() implies #[trigger] plan[i].0
            == (Target::WalFrame { sync: img.log->0.policy == SyncPolicy::Always }) by {
            if i < before.len() {
                assert(plan[i] == before[i]);
                assert(before[i].0 == (Target::WalFrame {
                    sync: img.log->0.policy == SyncPolicy::Always,
                }));
            }
        }
    }
}

proof fn lemma_all_stored_policy(img: Image, vs: Seq<Seq<u32>>)
    ensures
        all_stored(img, vs).log is Some <==> img.log is Some,
        img.log is Some ==> all_stored(img, vs).log->0.policy == img.log->0.policy,
    decreases vs.len(),
{
    if vs.len() > 0 {
        lemma_all_stored_policy(img, vs.drop_last());
    }
}

proof fn lemma_all_stored(img: Image, vs: Seq<Seq<u32>>)
    requires
        img.log matches Some(log) ==> log.next_lsn + vs.len() <= u64::MAX,
    ensures
        ({
            let now = all_stored(img, vs);
            &&& now.rows == img.rows + vs
            &&& now.graph == img.graph && now.pq == img.pq && now.config == img.config
            &&& now.dim == img.dim && now.stride == img.stride
            &&& now.log is Some <==> img.log is Some
            &&& img.log is Some ==> now.log->0.next_lsn == img.log->0.next_lsn + vs.len()
        }),
    decreases vs.len(),
{
    if vs.len() > 0 {
        lemma_all_stored(img, vs.drop_last());
        assert(all_stored(img, vs).rows =~= img.rows + vs);
    } else {
        assert(img.rows + vs =~= img.rows);
    }
}

/// What is left of a batch of which the first `kept` vectors were stored, and the
/// first `logged` of these were logged.
pub open spec fn keeps_first(
    img: Image,
    vs: Seq<Seq<u32>>,
    after: Image,
    logged: int,
    kept: int,
) -> bool {
    &&& after.rows == img.rows + vs.take(kept)
    &&& after.graph == img.graph && after.pq == img.pq && after.config == img.config
    &&& img.log is Some ==> after.log->0.next_lsn == img.log->0.next_lsn + logged
}

/// A batch that fails keeps its first vectors and links none. If a record could not
/// be written, the vectors before it are stored and logged, and its own is stored. If
/// a vector is refused, those before it are stored and logged, and the error says
/// why.
pub proof fn law_a_failed_batch_keeps_its_first_vectors(
    img: Image,
    vs: Seq<Seq<u32>>,
    written: int,
    answer: Result<(), Error>,
    e: Error,
    after: Image,
)
    requires
        batch_stored(img, vs, written, answer, Err(e), after),
        0 <= written < vs.len() || answer is Ok,
        img.log matches Some(log) ==> log.next_lsn + vs.len() <= u64::MAX,
    ensures
        answer is Err ==> answer == Err::<(), Error>(e) && keeps_first(
            img,
            vs,
            after,
            written,
            written + 1,
        ),
        answer is Ok ==> exists|k: int|
            0 <= k < vs.len() && keeps_first(img, vs, after, k, k) && row_trouble(
                after,
                #[trigger] vs[k],
            ) is Some && shows(e, row_trouble(after, vs[k])->0),
{
    if answer is Err {
        lemma_all_stored(img, vs.take(written));
        assert(after.rows =~= img.rows + vs.take(written + 1));
    } else {
        reveal(row_stored);
        let k = choose|k: int|
            0 <= k < vs.len() && storable_rows(img, vs, k) && row_stored(
                all_stored(img, vs.take(k)),
                #[trigger] vs[k],
                Ok(()),
                Err(e),
                after,
            );
        lemma_all_stored(img, vs.take(k));
        assert(after == all_stored(img, vs.take(k)));
        assert(keeps_first(img, vs, after, k, k));
    }
}

/// The record is not covered by the snapshot.
pub open spec fn counts(e: Entry, from: u64) -> bool {
    e.lsn >= from
}

/// The first record that counts and is for this id holds this vector.
pub open spec fn comes_from(entries: Seq<Entry>, from: u64, id: int, v: Seq<u32>) -> bool {
    exists|j: int|
        0 <= j < entries.len() && counts(#[trigger] entries[j], from) && entries[j].op.id == id
            && entries[j].op.vector == v && forall|i: int|
            0 <= i < j && counts(#[trigger] entries[i], from) ==> entries[i].op.id != id
}

/// What replaying a log has added to a database: every vector behind those that
/// were there is that of a record, and every record that counts has its vector
/// stored and linked.
pub open spec fn caught_up(
    img: Image,
    now: Image,
    entries: Seq<Entry>,
    from: u64,
) -> bool {
    &&& now.dim == img.dim && now.stride == img.stride && now.config == img.config
    &&& now.log == img.log && now.pq == img.pq
    &&& img.rows.is_prefix_of(now.rows)
    &&& img.graph.nodes.len() <= now.graph.nodes.len()
    &&& forall|id: int|
        img.rows.len() <= id < now.rows.len() ==> comes_from(
            entries,
            from,
            id,
            #[trigger] now.rows[id],
        ) && now.rows[id].len() == img.dim
    &&& forall|i: int|
        0 <= i < entries.len() && counts(#[trigger] entries[i], from) ==> entries[i].op.id
            < now.rows.len() && entries[i].op.id < now.graph.nodes.len()
}

proof fn lemma_comes_from_more(
    front: Seq<Entry>,
    entries: Seq<Entry>,
    from: u64,
    id: int,
    v: Seq<u32>,
)
    requires
        entries.len() > 0,
        front == entries.drop_last(),
        comes_from(front, from, id, v),
    ensures
        comes_from(entries, from, id, v),
{
    let j = choose|j: int|
        0 <= j < front.len() && counts(#[trigger] front[j], from) && front[j].op.id == id
            && front[j].op.vector == v && forall|i: int|
            0 <= i < j && counts(#[trigger] front[i], from) ==> front[i].op.id != id;
    assert(entries[j] == front[j]);
    assert forall|i: int| 0 <= i < j && counts(#[trigger] entries[i], from) implies entries[i].op.id
        != id by {
        assert(front[i] == entries[i]);
    }
}

/// Replaying stores and links the vector of every record that the snapshot does not
/// cover, in the place that its id says, and adds nothing else.
pub proof fn law_replay_stores_and_links_every_record(
    img: Image,
    entries: Seq<Entry>,
    from: u64,
    by: Functions,
)
    requires
        replayed(img, entries, from, by) is Ok,
    ensures
        caught_up(img, replayed(img, entries, from, by)->Ok_0, entries, from),
    decreases entries.len(),
{
    reveal(replayed);
    if entries.len() > 0 {
        let front = entries.drop_last();
        law_replay_stores_and_links_every_record(img, front, from, by);
        let was = replayed(img, front, from, by)->Ok_0;
        let now = replayed(img, entries, from, by)->Ok_0;
        let e = entries.last();
        lemma_applied(was, e, from, by);
        assert(applied(was, e, from, by) == Ok::<Image, Trouble>(now));
        assert(img.rows.is_prefix_of(now.rows)) by {
            assert forall|i: int| 0 <= i < img.rows.len() implies img.rows[i] == now.rows[i] by {
                assert(img.rows[i] == was.rows[i]);
            }
        }
        assert forall|id: int| img.rows.len() <= id < now.rows.len() implies comes_from(
            entries,
            from,
            id,
            #[trigger] now.rows[id],
        ) && now.rows[id].len() == img.dim by {
            if id < was.rows.len() {
                assert(now.rows[id] == was.rows[id]);
                lemma_comes_from_more(front, entries, from, id, was.rows[id]);
            } else {
                let j = entries.len() - 1;
                assert(entries[j] == e);
                assert forall|i: int| 0 <= i < j && counts(
                    #[trigger] entries[i],
                    from,
                ) implies entries[i].op.id != id by {
                    assert(front[i] == entries[i]);
                }
                assert(counts(entries[j], from));
            }
        }
        assert forall|i: int|
            0 <= i < entries.len() && counts(#[trigger] entries[i], from) implies entries[i].op.id
            < now.rows.len() && entries[i].op.id < now.graph.nodes.len() by {
            if i < front.len() {
                assert(front[i] == entries[i]);
            }
        }
    }
}

proof fn lemma_applied(img: Image, e: Entry, from: u64, by: Functions)
    requires
        applied(img, e, from, by) is Ok,
    ensures
        ({
            let now = applied(img, e, from, by)->Ok_0;
            &&& now.dim == img.dim && now.stride == img.stride && now.config == img.config
            &&& now.log == img.log && now.pq == img.pq
            &&& now.rows == img.rows || (counts(e, from) && e.op.id == img.rows.len() && now.rows
                == img.rows.push(e.op.vector) && e.op.vector.len() == img.dim)
            &&& img.graph.nodes.len() <= now.graph.nodes.len()
            &&& counts(e, from) ==> e.op.id < now.rows.len() && e.op.id < now.graph.nodes.len()
        }),
{
    reveal(applied);
    let now = if e.op.id == img.rows.len() {
        stored(img, e.op.vector)
    } else {
        img
    };
    lemma_linked_len(now, e.op.id, by);
}

/// What holds of every database that was opened: it has the dimension that was
/// asked for, no more nodes than vectors, the settings of the snapshot if there
/// is one, and codes of the same dimension if there is a codebook. The vectors of
/// the store are there. If the log is in use, it was not found damaged, the vectors
/// of its records are there too, and the next record gets a number behind all of
/// them and behind the snapshot.
pub proof fn law_an_opened_database_is_in_order(
    disk: Disk,
    dim: nat,
    opts: DbOptions,
    by: Functions,
)
    requires
        opened(disk, dim, opts, by) is Ok,
    ensures
        ({
            let now = opened(disk, dim, opts, by)->Ok_0;
            let s = found_store(disk, dim)->Ok_0;
            let x = found_index(disk, opts.config)->Ok_0;
            &&& now.dim == dim
            &&& s.dim == dim
            &&& now.graph.nodes.len() <= now.rows.len()
            &&& now.config == x.config
            &&& disk.snapshot is None ==> now.config == opts.config
            &&& s.rows.is_prefix_of(now.rows)
            &&& now.pq is Some <==> disk.codebook is Some
            &&& now.pq is Some ==> now.pq->0.quantizer.dim == dim
            &&& now.pq is Some ==> forall|id: int|
                0 <= id < now.rows.len() ==> has_code(
                    now.pq->0.codes,
                    now.pq->0.quantizer,
                    id,
                    #[trigger] now.rows[id],
                    by.l2,
                )
            &&& now.log is Some <==> opts.enable_wal
            &&& !opts.enable_wal ==> now.rows == s.rows && now.graph == x.graph
            &&& opts.enable_wal ==> {
                let found = scan(disk.log, 0);
                &&& found.damage is None
                &&& now.log->0.policy == opts.sync
                &&& now.log->0.next_lsn >= x.lsn
                &&& now.log->0.next_lsn >= lsn_after(found.entries)
                &&& forall|i: int|
                    0 <= i < found.entries.len() && counts(#[trigger] found.entries[i], x.lsn)
                        ==> found.entries[i].op.id < now.graph.nodes.len()
                &&& forall|id: int|
                    s.rows.len() <= id < now.rows.len() ==> comes_from(
                        found.entries,
                        x.lsn,
                        id,
                        #[trigger] now.rows[id],
                    )
            }
        }),
{
    reveal(recovered);
    reveal(quantized);
    let s = found_store(disk, dim)->Ok_0;
    let x = found_index(disk, opts.config)->Ok_0;
    let base = base_image(s, x);
    if opts.enable_wal {
        let found = scan(disk.log, 0);
        law_replay_stores_and_links_every_record(base, found.entries, x.lsn, by);
    }
    let now = opened(disk, dim, opts, by)->Ok_0;
    if now.pq is Some {
        let q = now.pq->0.quantizer;
        assert(now.pq->0.codes == all_codes(q, now.rows, by.l2));
        assert forall|id: int| 0 <= id < now.rows.len() implies has_code(
            now.pq->0.codes,
            q,
            id,
            #[trigger] now.rows[id],
            by.l2,
        ) by {
            law_codes_cover_the_vectors(q, now.rows, by.l2, id);
            let (n, m) = (now.rows.len() as int, q.m as int);
            assert((id + 1) * m == id * m + m && (id + 1) * m <= n * m) by (nonlinear_arith)
                requires
                    0 <= id < n,
                    0 <= m,
            ;
        }
    }
}

} // verus!
