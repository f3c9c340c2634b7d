//! What becomes of a database over many sessions.
//!
//! A history starts with an empty directory. The database is opened, vectors are
//! inserted, checkpoints are made, and at any time the process may be killed,
//! while it writes a record or between two writes of a checkpoint. Then it is
//! opened again.

use crate::db::laws::{
    all_covered, codebook_on_disk, codes_in_step, index_on_disk, insertable,
    law_acknowledged_inserts_survive_a_crash, law_codes_stay_in_step,
    law_each_insert_logs_its_record, law_inserts_keep_the_index_snapshotable, lemma_all_inserted,
    lemma_codebook_written, lemma_records_are_covered, records, snapshotable, store_on_disk,
};
use crate::db::model::{
    all_inserted, all_stored, frame_step, has_room, insert_plan, inserted, opened, record,
    row_trouble, Codes, DbOptions, Functions, Image, Log, Trouble,
};
use crate::db::write::{
    checkpoint_plan, codebook_plan, law_a_batch_is_so_many_inserts, reset_plan, snapshot_of,
};
use crate::doubling::{
    law_every_row_has_one_place, lemma_segments_grow, segment_of, MAX_SEGMENTS,
};
use crate::hnsw::graph::Graph;
use crate::hnsw::index::MAX_ID;
use crate::hnsw::persist::{LEVEL_LIMIT, M_LIMIT};
use crate::io::{after_write, lemma_performed_both, lemma_performed_one, performed, Disk, Target};
use crate::pq::codebook::{all_codes, Quantizer};
use crate::storage::laws::{law_a_flush_is_complete, law_every_step_of_flushing_is_safe};
use crate::storage::store::{addressable, flush_plan, stride_of, VectorStore};
use crate::wal::laws::{law_a_torn_tail_is_left_out, law_log_works_after_truncation};
use crate::wal::{found_at, scan, Entry, Op, SyncPolicy};
use vstd::prelude::*;

verus! {

/// What happens to a database.
pub ghost enum Event {
    /// It is opened, and a torn tail of its log is cut off.
    Open,
    /// A vector is inserted, and the insert is acknowledged.
    Insert(Seq<u32>),
    /// The record of an insert is written, and the process is killed before the
    /// insert is acknowledged.
    Unanswered(Seq<u32>),
    /// The process is killed. If it was writing a record, this is what it leaves
    /// behind the log.
    Killed(Seq<u8>),
    /// The first writes of a checkpoint of this store are performed: all of them,
    /// or as many as succeed.
    Checkpoint(VectorStore, int),
    /// Codes are trained.
    Train(Quantizer),
}

/// What is on disk, the database in memory while it is open, and the vectors
/// whose inserts were acknowledged, with their ids.
#[verifier::ext_equal]
pub ghost struct History {
    pub disk: Disk,
    pub live: Option<Image>,
    pub acknowledged: Seq<(u64, Seq<u32>)>,
}

/// How a database is used: its dimension, its options, and the functions that
/// its closures compute.
pub ghost struct Usage {
    pub dim: nat,
    pub opts: DbOptions,
    pub by: Functions,
}

/// Every insert is logged and synced, and index and store can be saved.
pub open spec fn durable(u: Usage) -> bool {
    &&& 0 < u.dim <= u32::MAX
    &&& addressable(stride_of(u.dim), 1)
    &&& u.opts.enable_wal
    &&& u.opts.sync == SyncPolicy::Always
    &&& 2 <= u.opts.config.m <= M_LIMIT
    &&& u.opts.config.ef_construction <= u32::MAX
    &&& forall|m: usize, word: u64| #[trigger] (u.by.level)(m, word) <= LEVEL_LIMIT
}

/// The database once codes are trained.
pub open spec fn trained(img: Image, q: Quantizer, by: Functions) -> Image {
    Image {
        pq: Some(Codes { quantizer: q, codes: all_codes(q, img.rows, by.l2) }),
        ..img
    }
}

/// An event can happen. Whatever is done to an open database needs one; a vector
/// that is inserted is not refused; what a killed process leaves of a record is
/// torn; a checkpoint is of the vectors of the database, and if it is the one
/// that makes the store file, it does not stop within that.
pub open spec fn may_happen(h: History, event: Event, u: Usage) -> bool {
    match event {
        Event::Open => true,
        Event::Insert(v) | Event::Unanswered(v) => h.live is Some && row_trouble(h.live->0, v)
            is None,
        Event::Killed(tail) => h.live is Some && (found_at(tail, 0) is Torn || found_at(
            tail,
            0,
        ) is Eof),
        Event::Checkpoint(store, n) => {
            &&& h.live is Some
            &&& store.wf()
            &&& store.spec_dim() == u.dim
            &&& store.spec_stride() == h.live->0.stride
            &&& store.rows() == h.live->0.rows
            &&& 0 <= n <= checkpoint_plan(store, h.live->0).len()
            &&& h.disk.store is Some || n == 0 || n >= flush_plan(store).len()
        },
        Event::Train(q) => h.live is Some && codes_in_step(trained(h.live->0, q, u.by), u.by),
    }
}

/// What an event leads to.
pub open spec fn after(h: History, event: Event, u: Usage) -> History {
    match event {
        Event::Open => History {
            disk: Disk { log: h.disk.log.take(scan(h.disk.log, 0).end), ..h.disk },
            live: match opened(h.disk, u.dim, u.opts, u.by) {
                Ok(img) => Some(img),
                Err(_) => None,
            },
            ..h
        },
        Event::Insert(v) => History {
            disk: performed(h.disk, insert_plan(h.live->0, v)),
            live: Some(inserted(h.live->0, v, u.by)),
            acknowledged: h.acknowledged.push((h.live->0.rows.len() as u64, v)),
        },
        Event::Unanswered(v) => History {
            disk: performed(h.disk, insert_plan(h.live->0, v)),
            live: None,
            ..h
        },
        Event::Killed(tail) => History {
            disk: Disk { log: h.disk.log + tail, ..h.disk },
            live: None,
            ..h
        },
        Event::Checkpoint(store, n) => History {
            disk: performed(h.disk, checkpoint_plan(store, h.live->0).take(n)),
            ..h
        },
        Event::Train(q) => History { live: Some(trained(h.live->0, q, u.by)), ..h },
    }
}

/// What some events lead to, from an empty directory on.
pub open spec fn history(events: Seq<Event>, u: Usage) -> History
    decreases events.len(),
{
    if events.len() == 0 {
        History {
            disk: Disk { store: None, snapshot: None, log: Seq::empty(), codebook: None },
            live: None,
            acknowledged: Seq::empty(),
        }
    } else {
        after(history(events.drop_last(), u), events.last(), u)
    }
}

/// Each of the events can happen after those before it.
pub open spec fn can_happen(events: Seq<Event>, u: Usage) -> bool
    decreases events.len(),
{
    events.len() > 0 ==> can_happen(events.drop_last(), u) && may_happen(
        history(events.drop_last(), u),
        events.last(),
        u,
    )
}

/// Where the files on disk come from: the database that the last snapshot is of,
/// the records in the log that it covers, the vectors that were inserted since,
/// and how many of them the store file has.
ghost struct Origin {
    img: Image,
    covered: Seq<Entry>,
    vs: Seq<Seq<u32>>,
    extra: int,
}

/// The database that the files on disk stand for.
spec fn stands_for(o: Origin, by: Functions) -> Image {
    all_inserted(o.img, o.vs, by)
}

/// The files on disk are of this origin.
#[verifier::opaque]
spec fn from_origin(disk: Disk, o: Origin, u: Usage) -> bool {
    &&& o.img.dim == u.dim
    &&& 0 < o.img.stride
    &&& insertable(o.img, o.vs)
    &&& o.img.graph.nodes.len() == o.img.rows.len()
    &&& o.img.log->0.next_lsn == o.img.rows.len()
    &&& snapshotable(o.img)
    &&& codes_in_step(o.img, u.by)
    &&& index_on_disk(disk, o.img, u.opts)
    &&& codebook_on_disk(disk, o.img)
    &&& 0 <= o.extra <= o.vs.len()
    &&& store_on_disk(disk, o.img, o.img.rows + o.vs.take(o.extra))
    &&& scan(disk.log, 0).damage is None
    &&& all_covered(o.covered, o.img.log->0.next_lsn)
    &&& scan(disk.log, 0).entries == o.covered + records(o.img, o.vs)
    &&& u.opts.sync == o.img.log->0.policy
}

/// Two databases differ in their codes at most.
spec fn same_but_codes(a: Image, b: Image) -> bool {
    a == (Image { pq: a.pq, ..b })
}

/// The database in memory is the one that the files on disk stand for, but for
/// codes that were trained since, and the log is clean.
#[verifier::opaque]
spec fn in_memory(disk: Disk, live: Image, o: Origin, u: Usage) -> bool {
    &&& same_but_codes(live, stands_for(o, u.by))
    &&& o.img.pq is Some ==> live.pq is Some
    &&& codes_in_step(live, u.by)
    &&& scan(disk.log, 0).end == disk.log.len()
}

/// The acknowledged vectors are among these, under their ids.
pub open spec fn all_among(acknowledged: Seq<(u64, Seq<u32>)>, rows: Seq<Seq<u32>>) -> bool {
    forall|i: int|
        0 <= i < acknowledged.len() ==> (#[trigger] acknowledged[i]).0 < rows.len()
            && rows[acknowledged[i].0 as int] == acknowledged[i].1
}

spec fn in_order_so_far(h: History, o: Origin, u: Usage) -> bool {
    &&& from_origin(h.disk, o, u)
    &&& h.live matches Some(live) ==> in_memory(h.disk, live, o, u)
    &&& all_among(h.acknowledged, o.img.rows + o.vs)
}

/// The codes have no bearing on anything else.
proof fn lemma_codes_aside(img: Image, pq: Option<Codes>, vs: Seq<Seq<u32>>, by: Functions)
    ensures
        same_but_codes(all_inserted(Image { pq, ..img }, vs, by), all_inserted(img, vs, by)),
    decreases vs.len(),
{
    if vs.len() > 0 {
        lemma_codes_aside(img, pq, vs.drop_last(), by);
        let a = all_inserted(Image { pq, ..img }, vs, by);
        assert(a =~= (Image { pq: a.pq, ..all_inserted(img, vs, by) }));
    } else {
        assert((Image { pq, ..img }) =~= (Image { pq, ..all_inserted(img, vs, by) }));
    }
}

/// What is known of the database that the files stand for.
proof fn lemma_stands_for(disk: Disk, o: Origin, u: Usage)
    requires
        durable(u),
        from_origin(disk, o, u),
    ensures
        opened(disk, u.dim, u.opts, u.by) == Ok::<Image, Trouble>(stands_for(o, u.by)),
        stands_for(o, u.by).rows == o.img.rows + o.vs,
        stands_for(o, u.by).dim == u.dim,
        stands_for(o, u.by).stride == o.img.stride,
        stands_for(o, u.by).config == o.img.config,
        stands_for(o, u.by).log == Some(
            Log { policy: u.opts.sync, next_lsn: (o.img.rows.len() + o.vs.len()) as u64 },
        ),
        stands_for(o, u.by).graph.nodes.len() == stands_for(o, u.by).rows.len(),
        snapshotable(stands_for(o, u.by)),
        codes_in_step(stands_for(o, u.by), u.by),
        stands_for(o, u.by).pq is Some <==> o.img.pq is Some,
        o.img.pq is Some ==> stands_for(o, u.by).pq->0.quantizer == o.img.pq->0.quantizer,
{
    reveal(from_origin);
    reveal(in_memory);
    law_acknowledged_inserts_survive_a_crash(
        disk,
        o.img,
        o.covered,
        o.vs,
        o.extra,
        u.opts,
        u.by,
    );
    lemma_all_inserted(o.img, o.vs, u.by);
    law_inserts_keep_the_index_snapshotable(o.img, o.vs, u.by);
    law_codes_stay_in_step(o.img, o.vs, u.by);
}

/// A store that has room for one more vector has far fewer than can be counted.
proof fn lemma_room_is_small(stride: nat, n: nat)
    requires
        addressable(stride, segment_of(n) + 1),
    ensures
        n + 1 < MAX_ID,
{
    law_every_row_has_one_place(n, segment_of(n));
    lemma_segments_grow(segment_of(n) + 1, MAX_SEGMENTS as nat);
    vstd::arithmetic::power2::lemma2_to64();
    vstd::arithmetic::power2::lemma2_to64_rest();
}

/// One more vector since the last snapshot.
spec fn with_vector(o: Origin, v: Seq<u32>) -> Origin {
    Origin { vs: o.vs.push(v), ..o }
}

/// The record of one more vector is written.
proof fn lemma_one_more(disk: Disk, live: Image, o: Origin, v: Seq<u32>, u: Usage)
    requires
        durable(u),
        from_origin(disk, o, u),
        in_memory(disk, live, o, u),
        row_trouble(live, v) is None,
    ensures
        from_origin(performed(disk, insert_plan(live, v)), with_vector(o, v), u),
        in_memory(
            performed(disk, insert_plan(live, v)),
            inserted(live, v, u.by),
            with_vector(o, v),
            u,
        ),
        live.rows.len() == o.img.rows.len() + o.vs.len() < u64::MAX,
{
    reveal(from_origin);
    reveal(in_memory);
    let w = with_vector(o, v);
    let by = u.by;
    let base = stands_for(o, by);
    lemma_stands_for(disk, o, u);
    lemma_room_is_small(live.stride, live.rows.len());
    lemma_more_is_insertable(o, v, u);
    lemma_performed_one(disk, frame_step(live, v));
    let n = o.vs.len() as int;
    assert(w.vs.take(n) =~= o.vs);
    assert(w.vs.drop_last() =~= o.vs);
    law_each_insert_logs_its_record(o.img, w.vs, n, by);
    let e = record(live, v);
    assert(e == records(o.img, w.vs)[n]);
    assert(records(o.img, w.vs) =~= records(o.img, o.vs).push(e));
    assert(disk.log.take(scan(disk.log, 0).end) =~= disk.log);
    law_log_works_after_truncation(disk.log, e);
    assert(o.covered + records(o.img, w.vs) =~= (o.covered + records(o.img, o.vs)).push(e));
    assert(w.vs.take(w.extra) =~= o.vs.take(o.extra));
    let now = inserted(live, v, by);
    assert(stands_for(w, by) == inserted(base, v, by));
    assert(now =~= (Image { pq: now.pq, ..inserted(base, v, by) }));
    assert(all_inserted(live, seq![v], by) == now) by {
        assert(seq![v].drop_last() =~= Seq::empty());
        assert(all_inserted(live, seq![v].drop_last(), by) == live);
    }
    law_codes_stay_in_step(live, seq![v], by);
}

proof fn lemma_more_is_insertable(o: Origin, v: Seq<u32>, u: Usage)
    requires
        insertable(o.img, o.vs),
        v.len() == o.img.dim,
        o.img.log->0.next_lsn == o.img.rows.len(),
        o.img.rows.len() + o.vs.len() + 1 < MAX_ID,
        addressable(o.img.stride, segment_of((o.img.rows.len() + o.vs.len()) as nat) + 1),
    ensures
        insertable(o.img, with_vector(o, v).vs),
{
    let vs = with_vector(o, v).vs;
    assert forall|i: int| 0 <= i < vs.len() implies #[trigger] has_room(
        all_stored(o.img, vs.take(i)),
    ) by {
        if i < o.vs.len() {
            assert(vs.take(i) =~= o.vs.take(i));
            assert(has_room(all_stored(o.img, o.vs.take(i))));
        } else {
            assert(vs.take(i) =~= o.vs);
            law_a_batch_is_so_many_inserts(o.img, o.vs, u.by);
            lemma_all_inserted(o.img, o.vs, u.by);
            lemma_stored_stride(o.img, o.vs);
        }
    }
}

proof fn lemma_stored_stride(img: Image, vs: Seq<Seq<u32>>)
    ensures
        all_stored(img, vs).stride == img.stride,
    decreases vs.len(),
{
    if vs.len() > 0 {
        lemma_stored_stride(img, vs.drop_last());
    }
}

/// Opening cuts off a torn tail, and gives what the files stand for.
proof fn lemma_after_opening(h: History, o: Origin, u: Usage)
    requires
        durable(u),
        in_order_so_far(h, o, u),
    ensures
        in_order_so_far(after(h, Event::Open, u), o, u),
{
    reveal(from_origin);
    reveal(in_memory);
    lemma_stands_for(h.disk, o, u);
    let next = after(h, Event::Open, u);
    let some = Entry { lsn: 0, op: Op { id: 0, vector: Seq::empty() } };
    law_log_works_after_truncation(h.disk.log, some);
    assert(next.live == Some(stands_for(o, u.by)));
    let live = stands_for(o, u.by);
    assert(live =~= (Image { pq: live.pq, ..live }));
}

/// What a killed process leaves behind the log.
proof fn lemma_after_a_kill(h: History, o: Origin, tail: Seq<u8>, u: Usage)
    requires
        durable(u),
        in_order_so_far(h, o, u),
        may_happen(h, Event::Killed(tail), u),
    ensures
        in_order_so_far(after(h, Event::Killed(tail), u), o, u),
{
    reveal(from_origin);
    reveal(in_memory);
    law_a_torn_tail_is_left_out(h.disk.log, tail);
}

/// The origin once the store file has all vectors.
spec fn flushed(o: Origin) -> Origin {
    Origin { extra: o.vs.len() as int, ..o }
}

/// The first writes of a checkpoint go to the store file.
proof fn lemma_while_flushing(
    disk: Disk,
    live: Image,
    o: Origin,
    store: VectorStore,
    n: int,
    u: Usage,
)
    requires
        durable(u),
        from_origin(disk, o, u),
        in_memory(disk, live, o, u),
        store.wf(),
        store.spec_dim() == u.dim,
        store.spec_stride() == live.stride,
        store.rows() == live.rows,
        0 <= n <= flush_plan(store).len(),
        disk.store is Some || n == 0 || n >= flush_plan(store).len(),
    ensures
        ({
            let now = performed(disk, flush_plan(store).take(n));
            let then = if n < flush_plan(store).len() {
                o
            } else {
                flushed(o)
            };
            &&& from_origin(now, then, u)
            &&& in_memory(now, live, then, u)
        }),
{
    reveal(from_origin);
    reveal(in_memory);
    lemma_stands_for(disk, o, u);
    let plan = flush_plan(store);
    let kept = (o.img.rows.len() + o.extra) as nat;
    assert(store.rows().take(kept as int) =~= o.img.rows + o.vs.take(o.extra));
    assert(o.vs.take(o.vs.len() as int) =~= o.vs);
    assert(store.rows().take(store.rows().len() as int) =~= store.rows());
    if n == 0 {
        assert(plan.take(n) =~= Seq::empty());
    } else if n < plan.len() {
        law_every_step_of_flushing_is_safe(disk, store, kept, n);
    } else {
        assert(plan.take(n) =~= plan);
        law_a_flush_is_complete(disk, store);
    }
}

/// The origin once the codebook of the database in memory is written.
spec fn with_codes(o: Origin, live: Image, by: Functions) -> Origin {
    Origin {
        img: Image {
            pq: match live.pq {
                None => None,
                Some(c) => Some(
                    Codes {
                        quantizer: c.quantizer,
                        codes: all_codes(c.quantizer, o.img.rows, by.l2),
                    },
                ),
            },
            ..o.img
        },
        ..o
    }
}

/// The codebook is written: then the files stand for just what is in memory.
proof fn lemma_with_codes(disk: Disk, live: Image, o: Origin, u: Usage)
    requires
        durable(u),
        from_origin(disk, o, u),
        in_memory(disk, live, o, u),
    ensures
        ({
            let now = performed(disk, codebook_plan(live));
            let then = with_codes(o, live, u.by);
            &&& from_origin(now, then, u)
            &&& in_memory(now, live, then, u)
            &&& stands_for(then, u.by) == live
        }),
{
    reveal(from_origin);
    reveal(in_memory);
    let then = with_codes(o, live, u.by);
    let by = u.by;
    lemma_stands_for(disk, o, u);
    lemma_codebook_written(disk, then.img, live);
    assert(records(then.img, o.vs) =~= records(o.img, o.vs));
    assert(insertable(then.img, o.vs)) by {
        assert forall|i: int| 0 <= i < o.vs.len() implies #[trigger] has_room(
            all_stored(then.img, o.vs.take(i)),
        ) by {
            assert(has_room(all_stored(o.img, o.vs.take(i))));
            lemma_stored_aside(o.img, then.img.pq, o.vs.take(i));
        }
    }
    let now = performed(disk, codebook_plan(live));
    assert(codes_in_step(then.img, by));
    assert(snapshot_of(then.img) == snapshot_of(o.img));
    assert(from_origin(now, then, u));
    lemma_stands_for(now, then, u);
    lemma_codes_aside(o.img, then.img.pq, o.vs, by);
    assert(stands_for(then, by) =~= live);
    assert(live =~= (Image { pq: live.pq, ..live }));
}

proof fn lemma_stored_aside(img: Image, pq: Option<Codes>, vs: Seq<Seq<u32>>)
    ensures
        all_stored(Image { pq, ..img }, vs) == (Image { pq, ..all_stored(img, vs) }),
    decreases vs.len(),
{
    if vs.len() > 0 {
        lemma_stored_aside(img, pq, vs.drop_last());
        assert(all_stored(Image { pq, ..img }, vs) =~= (Image { pq, ..all_stored(img, vs) }));
    } else {
        assert(all_stored(Image { pq, ..img }, vs) =~= (Image { pq, ..all_stored(img, vs) }));
    }
}

/// The origin once a snapshot of the database in memory is written.
spec fn anew(o: Origin, live: Image) -> Origin {
    Origin {
        img: live,
        covered: o.covered + records(o.img, o.vs),
        vs: Seq::empty(),
        extra: 0,
    }
}

/// The snapshot is written.
proof fn lemma_with_snapshot(disk: Disk, live: Image, o: Origin, u: Usage)
    requires
        durable(u),
        from_origin(disk, o, u),
        in_memory(disk, live, o, u),
        stands_for(o, u.by) == live,
        o.extra == o.vs.len(),
    ensures
        ({
            let now = after_write(disk, (Target::Snapshot, snapshot_of(live)));
            &&& from_origin(now, anew(o, live), u)
            &&& in_memory(now, live, anew(o, live), u)
        }),
{
    reveal(from_origin);
    reveal(in_memory);
    lemma_stands_for(disk, o, u);
    lemma_records_are_covered(o.img, o.covered, o.vs);
    let then = anew(o, live);
    assert(o.vs.take(o.extra) =~= o.vs);
    assert(then.img.rows + then.vs.take(0) =~= live.rows);
    assert(then.covered + records(live, then.vs) =~= then.covered);
    assert(live =~= (Image { pq: live.pq, ..live }));
}

/// The log is emptied.
proof fn lemma_with_empty_log(disk: Disk, live: Image, o: Origin, u: Usage)
    requires
        durable(u),
        from_origin(disk, o, u),
        in_memory(disk, live, o, u),
        o.vs.len() == 0,
    ensures
        ({
            let now = after_write(disk, (Target::WalReset, Seq::<u8>::empty()));
            let then = Origin { covered: Seq::empty(), ..o };
            &&& from_origin(now, then, u)
            &&& in_memory(now, live, then, u)
        }),
{
    reveal(from_origin);
    reveal(in_memory);
    let none = Seq::<u8>::empty();
    assert(scan(none, 0).entries =~= Seq::empty());
    assert(Seq::<Entry>::empty() + records(o.img, o.vs) =~= Seq::empty());
}

/// What is known of the database in memory.
proof fn lemma_in_memory(disk: Disk, live: Image, o: Origin, u: Usage)
    requires
        durable(u),
        from_origin(disk, o, u),
        in_memory(disk, live, o, u),
    ensures
        live.rows == o.img.rows + o.vs,
        live.log is Some,
{
    reveal(in_memory);
    lemma_stands_for(disk, o, u);
}

/// Any of the writes of a checkpoint, in their order.
proof fn lemma_after_a_checkpoint(h: History, o: Origin, store: VectorStore, n: int, u: Usage)
    requires
        durable(u),
        in_order_so_far(h, o, u),
        may_happen(h, Event::Checkpoint(store, n), u),
    ensures
        exists|then: Origin| #[trigger]
            in_order_so_far(after(h, Event::Checkpoint(store, n), u), then, u),
{
    let live = h.live->0;
    let next = after(h, Event::Checkpoint(store, n), u);
    let (a, b) = (flush_plan(store), codebook_plan(live));
    let snap = (Target::Snapshot, snapshot_of(live));
    let reset = (Target::WalReset, Seq::<u8>::empty());
    let tail = seq![snap] + reset_plan(live);
    let part = checkpoint_plan(store, live).take(n);
    lemma_in_memory(h.disk, live, o, u);
    assert(checkpoint_plan(store, live) =~= a + (b + tail));
    if n < a.len() {
        assert(part =~= a.take(n));
        lemma_while_flushing(h.disk, live, o, store, n, u);
        assert(in_order_so_far(next, o, u));
    } else {
        let i = n - a.len();
        lemma_while_flushing(h.disk, live, o, store, a.len() as int, u);
        assert(a.take(a.len() as int) =~= a);
        assert(part =~= a + (b + tail).take(i));
        lemma_performed_both(h.disk, a, (b + tail).take(i));
        let one = performed(h.disk, a);
        let p = flushed(o);
        if i == 0 {
            assert((b + tail).take(i) =~= Seq::empty());
            assert(in_order_so_far(next, p, u));
        } else {
            lemma_with_codes(one, live, p, u);
            let two = performed(one, b);
            let q = with_codes(p, live, u.by);
            if i <= b.len() {
                assert((b + tail).take(i) =~= b);
                assert(in_order_so_far(next, q, u));
            } else {
                let j = i - b.len();
                assert((b + tail).take(i) =~= b + tail.take(j));
                lemma_performed_both(one, b, tail.take(j));
                lemma_performed_one(two, snap);
                let three = after_write(two, snap);
                lemma_with_snapshot(two, live, q, u);
                let r = anew(q, live);
                assert(r.img.rows + r.vs =~= o.img.rows + o.vs);
                if j == 1 {
                    assert(tail.take(j) =~= seq![snap]);
                    assert(in_order_so_far(next, r, u));
                } else {
                    assert(tail.take(j) =~= seq![snap] + seq![reset]);
                    lemma_performed_both(two, seq![snap], seq![reset]);
                    lemma_performed_one(three, reset);
                    lemma_with_empty_log(three, live, r, u);
                    assert(in_order_so_far(next, Origin { covered: Seq::empty(), ..r }, u));
                }
            }
        }
    }
}

/// Every event keeps the files in order.
proof fn lemma_next(h: History, o: Origin, event: Event, u: Usage)
    requires
        durable(u),
        in_order_so_far(h, o, u),
        may_happen(h, event, u),
    ensures
        exists|then: Origin| #[trigger] in_order_so_far(after(h, event, u), then, u),
{
    reveal(from_origin);
    reveal(in_memory);
    let next = after(h, event, u);
    match event {
        Event::Open => {
            lemma_after_opening(h, o, u);
            assert(in_order_so_far(next, o, u));
        },
        Event::Insert(v) | Event::Unanswered(v) => {
            let w = with_vector(o, v);
            lemma_one_more(h.disk, h.live->0, o, v, u);
            lemma_stands_for(h.disk, o, u);
            assert(w.img.rows + w.vs =~= (o.img.rows + o.vs).push(v));
            assert(in_order_so_far(next, w, u));
        },
        Event::Killed(tail) => {
            lemma_after_a_kill(h, o, tail, u);
            assert(in_order_so_far(next, o, u));
        },
        Event::Checkpoint(store, n) => {
            lemma_after_a_checkpoint(h, o, store, n, u);
        },
        Event::Train(q) => {
            lemma_stands_for(h.disk, o, u);
            let live = trained(h.live->0, q, u.by);
            assert(live =~= (Image { pq: live.pq, ..stands_for(o, u.by) }));
            assert(in_order_so_far(next, o, u));
        },
    }
}

proof fn lemma_always_in_order(events: Seq<Event>, u: Usage) -> (o: Origin)
    requires
        durable(u),
        can_happen(events, u),
    ensures
        in_order_so_far(history(events, u), o, u),
    decreases events.len(),
{
    reveal(from_origin);
    reveal(in_memory);
    if events.len() == 0 {
        let o = Origin {
            img: Image {
                dim: u.dim,
                stride: stride_of(u.dim),
                rows: Seq::empty(),
                config: u.opts.config,
                graph: Graph { nodes: Seq::empty(), entry: None },
                log: Some(Log { policy: u.opts.sync, next_lsn: 0 }),
                pq: None,
            },
            covered: Seq::empty(),
            vs: Seq::empty(),
            extra: 0,
        };
        let h = history(events, u);
        assert(scan(h.disk.log, 0).entries =~= Seq::empty());
        assert(o.covered + records(o.img, o.vs) =~= Seq::empty());
        assert(o.img.rows + o.vs.take(0) =~= Seq::empty());
        o
    } else {
        let before = lemma_always_in_order(events.drop_last(), u);
        let h = history(events.drop_last(), u);
        lemma_next(h, before, events.last(), u);
        choose|then: Origin| #[trigger] in_order_so_far(after(h, events.last(), u), then, u)
    }
}

/// Whatever happens, and whenever it ends, opening gives a database that holds
/// every vector whose insert was acknowledged, under its id. All its vectors are
/// in the index, so its length is the id that the next insert returns. And while
/// it is open, the database in memory holds the same vectors.
pub proof fn law_acknowledged_vectors_are_found(events: Seq<Event>, u: Usage)
    requires
        durable(u),
        can_happen(events, u),
    ensures
        ({
            let h = history(events, u);
            &&& opened(h.disk, u.dim, u.opts, u.by) matches Ok(img) && {
                &&& all_among(h.acknowledged, img.rows)
                &&& img.graph.nodes.len() == img.rows.len()
                &&& h.live matches Some(live) ==> live.rows == img.rows && live.graph == img.graph
            }
        }),
{
    reveal(from_origin);
    reveal(in_memory);
    let o = lemma_always_in_order(events, u);
    lemma_stands_for(history(events, u).disk, o, u);
}

} // verus!
