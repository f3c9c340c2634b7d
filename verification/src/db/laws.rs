//! What holds of the database as a whole: what was acknowledged is there again
//! after a crash, wherever it struck.

use crate::db::model::{
    all_inserted, all_stored, applied, base_image, batch_plan, by_metric, found_index, found_store,
    frame_step, frame_target, has_room, insert_plan, linked, logged, opened, quantized, record,
    recovered, replayed, row_trouble,
    storable_rows, stored, DbOptions, Functions, Image, Indexed, Log, Trouble,
};
use crate::db::recover::lemma_linked_len;
use crate::db::write::{
    checkpoint_lsn, checkpoint_plan, codebook_plan, law_a_batch_is_so_many_inserts, reset_plan,
    snapshot_of,
};
use crate::hnsw::graph::{bare_node, on_layer, sound, with_node, Graph};
use crate::hnsw::index::{HnswConfig, MAX_ID};
use crate::hnsw::laws::law_insert_keeps_the_graph_sound;
use crate::hnsw::persist::{LEVEL_LIMIT, M_LIMIT};
use crate::hnsw::persist_laws::law_snapshot_round_trip;
use crate::io::{
    after_write, lemma_performed_both, lemma_performed_one, performed, Disk, Target,
};
use crate::oracle::between;
use crate::pq::codebook::{all_codes, book_bytes};
use crate::pq::laws::{law_codebook_round_trip, law_codes_keep_up_with_inserts, storable};
use crate::pq::K;
use crate::random::level_word;
use crate::storage::laws::{
    law_a_flush_is_complete, law_every_step_of_flushing_is_safe, law_reopening_gives_the_rows_back,
};
use crate::storage::store::{flush_plan, Stored, VectorStore};
use crate::wal::laws::frames;
use crate::wal::{frame_bytes, lsn_after, payload_len, scan, Entry, Op};
use vstd::prelude::*;

verus! {

/// The records that inserting these vectors writes to the log.
pub open spec fn records(img: Image, vs: Seq<Seq<u32>>) -> Seq<Entry> {
    Seq::new(
        vs.len(),
        |i: int|
            Entry {
                lsn: (img.log->0.next_lsn + i) as u64,
                op: Op { id: (img.rows.len() + i) as u64, vector: vs[i] },
            },
    )
}

/// These vectors can be inserted: they have the right dimension, and there is
/// room for them and for their records.
pub open spec fn insertable(img: Image, vs: Seq<Seq<u32>>) -> bool {
    &&& img.log is Some
    &&& img.log->0.next_lsn + vs.len() < u64::MAX
    &&& img.rows.len() + vs.len() < MAX_ID
    &&& forall|i: int| 0 <= i < vs.len() ==> (#[trigger] vs[i]).len() == img.dim
    &&& forall|i: int|
        0 <= i < vs.len() ==> #[trigger] has_room(all_stored(img, vs.take(i)))
}

/// What inserting changes, and what it does not.
pub proof fn lemma_all_inserted(img: Image, vs: Seq<Seq<u32>>, by: Functions)
    requires
        img.rows.len() + vs.len() <= u64::MAX,
        img.log matches Some(log) ==> log.next_lsn + vs.len() <= u64::MAX,
    ensures
        all_inserted(img, vs, by).rows == img.rows + vs,
        all_inserted(img, vs, by).dim == img.dim,
        all_inserted(img, vs, by).stride == img.stride,
        all_inserted(img, vs, by).config == img.config,
        all_inserted(img, vs, by).log is Some <==> img.log is Some,
        img.log matches Some(log) ==> all_inserted(img, vs, by).log == Some(
            Log { policy: log.policy, next_lsn: (log.next_lsn + vs.len()) as u64 },
        ),
        all_inserted(img, vs, by).graph.nodes.len() == if vs.len() == 0 {
            img.graph.nodes.len()
        } else {
            img.rows.len() + vs.len()
        },
        all_inserted(img, vs, by).pq is Some <==> img.pq is Some,
        img.pq is Some ==> all_inserted(img, vs, by).pq->0.quantizer == img.pq->0.quantizer,
    decreases vs.len(),
{
    if vs.len() > 0 {
        let front = vs.drop_last();
        lemma_all_inserted(img, front, by);
        let before = all_inserted(img, front, by);
        let mid = logged(stored(before, vs.last()));
        lemma_linked_len(mid.graph, mid.config, mid.rows, before.rows.len() as u64, by);
        assert(img.rows + vs =~= (img.rows + front).push(vs.last()));
    } else {
        assert(img.rows + vs =~= img.rows);
    }
}

/// The record that each insert hands to the log is the one that is counted
/// here.
pub proof fn law_each_insert_logs_its_record(
    img: Image,
    vs: Seq<Seq<u32>>,
    i: int,
    by: Functions,
)
    requires
        insertable(img, vs),
        0 <= i < vs.len(),
    ensures
        record(all_inserted(img, vs.take(i), by), vs[i]) == records(img, vs)[i],
{
    lemma_all_inserted(img, vs.take(i), by);
}

/// Linking a row depends on no later one.
proof fn lemma_linked_rows(
    graph: Graph,
    config: HnswConfig,
    a: Seq<Seq<u32>>,
    b: Seq<Seq<u32>>,
    id: u64,
    by: Functions,
)
    requires
        a.take(id + 1) == b.take(id + 1),
    ensures
        linked(graph, config, a, id, by) == linked(graph, config, b, id, by),
{
    reveal(linked);
}

/// The later of two counts.
spec fn later(a: int, b: int) -> int {
    if a < b {
        b
    } else {
        a
    }
}

/// A database that lags behind: its store has the first `extra` vectors, its
/// graph none.
pub open spec fn behind(img: Image, vs: Seq<Seq<u32>>, extra: int) -> Image {
    Image { rows: img.rows + vs.take(extra), log: None, pq: None, ..img }
}

proof fn lemma_replay_catches_up(
    img: Image,
    vs: Seq<Seq<u32>>,
    extra: int,
    i: int,
    by: Functions,
)
    requires
        insertable(img, vs),
        img.graph.nodes.len() <= img.rows.len(),
        0 <= extra <= vs.len(),
        0 <= i <= vs.len(),
    ensures
        replayed(
            behind(img, vs, extra),
            records(img, vs).take(i),
            img.log->0.next_lsn,
            by,
        ) == Ok::<Image, Trouble>(
            Image {
                graph: all_inserted(img, vs.take(i), by).graph,
                ..behind(img, vs, later(i, extra))
            },
        ),
    decreases i,
{
    reveal(replayed);
    let base = behind(img, vs, extra);
    let entries = records(img, vs);
    let from = img.log->0.next_lsn;
    if i == 0 {
        assert(entries.take(0) =~= Seq::empty());
        assert(vs.take(0) =~= Seq::empty());
        assert(base =~= (Image {
            graph: all_inserted(img, vs.take(0), by).graph,
            ..behind(img, vs, later(0, extra))
        }));
    } else {
        let k = i - 1;
        lemma_replay_catches_up(img, vs, extra, k, by);
        assert(entries.take(i).drop_last() =~= entries.take(k));
        let e = entries[k];
        assert(entries.take(i).last() == e);
        let live = all_inserted(img, vs.take(k), by);
        lemma_all_inserted(img, vs.take(k), by);
        law_a_batch_is_so_many_inserts(img, vs.take(k), by);
        let was = Image { graph: live.graph, ..behind(img, vs, later(k, extra)) };
        let id = e.op.id;
        assert(id == img.rows.len() + k);
        assert(vs.take(i).drop_last() =~= vs.take(k));
        assert(vs.take(i).last() == vs[k]);
        let now = Image {
            graph: all_inserted(img, vs.take(i), by).graph,
            ..behind(img, vs, later(i, extra))
        };
        let then = if id == was.rows.len() {
            stored(was, vs[k])
        } else {
            was
        };
        if k >= extra {
            assert(has_room(all_stored(img, vs.take(k))));
            lemma_same_stride(img, vs.take(k));
            assert(img.rows + vs.take(i) =~= (img.rows + vs.take(k)).push(vs[k]));
        }
        assert(then.rows == img.rows + vs.take(later(i, extra)));
        let mid = logged(stored(live, vs[k]));
        assert(mid.rows.take(id + 1) =~= then.rows.take(id + 1));
        lemma_linked_rows(live.graph, img.config, mid.rows, then.rows, id, by);
        reveal(applied);
        assert(applied(was, e, from, by) == Ok::<Image, Trouble>(
            Image { graph: linked(then.graph, then.config, then.rows, id, by), ..then },
        ));
        assert(now =~= (Image {
            graph: linked(then.graph, then.config, then.rows, id, by),
            ..then
        }));
    }
}

proof fn lemma_same_stride(img: Image, vs: Seq<Seq<u32>>)
    ensures
        all_stored(img, vs).stride == img.stride,
    decreases vs.len(),
{
    if vs.len() > 0 {
        lemma_same_stride(img, vs.drop_last());
    }
}

/// Replay catches up, however much of it the store had on disk already: a
/// database that lags behind ends up with the vectors and the graph that the
/// inserts left.
pub proof fn law_replay_repeats_the_inserts(
    img: Image,
    vs: Seq<Seq<u32>>,
    extra: int,
    by: Functions,
)
    requires
        insertable(img, vs),
        img.graph.nodes.len() <= img.rows.len(),
        0 <= extra <= vs.len(),
    ensures
        replayed(behind(img, vs, extra), records(img, vs), img.log->0.next_lsn, by) == Ok::<
            Image,
            Trouble,
        >(Image { log: None, pq: None, ..all_inserted(img, vs, by) }),
{
    let n = vs.len() as int;
    lemma_replay_catches_up(img, vs, extra, n, by);
    lemma_all_inserted(img, vs, by);
    assert(records(img, vs).take(n) =~= records(img, vs));
    assert(vs.take(n) =~= vs);
    assert((Image {
        graph: all_inserted(img, vs, by).graph,
        ..behind(img, vs, later(n, extra))
    }) =~= (Image { log: None, pq: None, ..all_inserted(img, vs, by) }));
}

/// The snapshot covers all of these records.
pub open spec fn all_covered(entries: Seq<Entry>, from: u64) -> bool {
    forall|i: int| 0 <= i < entries.len() ==> (#[trigger] entries[i]).lsn < from
}

/// Records that the snapshot covers are passed over.
pub proof fn law_covered_records_are_skipped(
    img: Image,
    entries: Seq<Entry>,
    from: u64,
    by: Functions,
)
    requires
        all_covered(entries, from),
    ensures
        replayed(img, entries, from, by) == Ok::<Image, Trouble>(img),
    decreases entries.len(),
{
    reveal(replayed);
    reveal(applied);
    if entries.len() > 0 {
        law_covered_records_are_skipped(img, entries.drop_last(), from, by);
        assert(entries[entries.len() - 1].lsn < from);
    }
}

/// Records that the snapshot covers change nothing, whatever follows them.
proof fn lemma_covered_records_change_nothing(
    img: Image,
    covered: Seq<Entry>,
    entries: Seq<Entry>,
    from: u64,
    by: Functions,
)
    requires
        all_covered(covered, from),
    ensures
        replayed(img, covered + entries, from, by) == replayed(img, entries, from, by),
    decreases entries.len(),
{
    reveal(replayed);
    let all = covered + entries;
    if entries.len() == 0 {
        assert(all =~= covered);
        law_covered_records_are_skipped(img, covered, from, by);
    } else {
        assert(all.drop_last() =~= covered + entries.drop_last());
        assert(all.last() == entries.last());
        lemma_covered_records_change_nothing(img, covered, entries.drop_last(), from, by);
    }
}

/// The codes are those of the vectors, and their codebook survives being
/// stored.
pub open spec fn codes_in_step(img: Image, by: Functions) -> bool {
    img.pq matches Some(c) ==> {
        &&& c.quantizer.dim == img.dim
        &&& 0 < c.quantizer.dim
        &&& 0 < c.quantizer.m
        &&& c.quantizer.sub_dim * c.quantizer.m == c.quantizer.dim
        &&& c.quantizer.centroids.len() == (c.quantizer.m * K as nat) * c.quantizer.sub_dim
        &&& c.quantizer.centroids.len() <= usize::MAX
        &&& storable(c.quantizer.dim)
        &&& storable(c.quantizer.m)
        &&& storable(c.quantizer.sub_dim)
        &&& c.codes == all_codes(c.quantizer, img.rows, by.l2)
    }
}

/// Codes that are in step with the vectors stay so.
pub proof fn law_codes_stay_in_step(img: Image, vs: Seq<Seq<u32>>, by: Functions)
    requires
        codes_in_step(img, by),
        img.rows.len() + vs.len() <= u64::MAX,
        img.log matches Some(log) ==> log.next_lsn + vs.len() <= u64::MAX,
    ensures
        codes_in_step(all_inserted(img, vs, by), by),
    decreases vs.len(),
{
    if vs.len() > 0 {
        let front = vs.drop_last();
        law_codes_stay_in_step(img, front, by);
        lemma_all_inserted(img, front, by);
        let before = all_inserted(img, front, by);
        if let Some(c) = before.pq {
            law_codes_keep_up_with_inserts(c.quantizer, before.rows, vs.last(), by.l2);
        }
    }
}

/// A graph that a snapshot can hold: well-built, and within the limits that
/// loading sets.
pub open spec fn snapshotable(img: Image) -> bool {
    &&& sound(img.graph, img.config.m as nat)
    &&& 2 <= img.config.m <= M_LIMIT
    &&& img.config.ef_construction <= u32::MAX
    &&& img.graph.nodes.len() <= MAX_ID
    &&& forall|i: int|
        0 <= i < img.graph.nodes.len() ==> (#[trigger] img.graph.nodes[i]).len() <= LEVEL_LIMIT + 1
}

/// Inserting keeps a graph well-built and within the limits that loading sets,
/// if levels stay within them.
pub proof fn law_inserts_keep_the_index_snapshotable(
    img: Image,
    vs: Seq<Seq<u32>>,
    by: Functions,
)
    requires
        snapshotable(img),
        img.graph.nodes.len() <= img.rows.len(),
        img.rows.len() + vs.len() <= MAX_ID,
        img.log matches Some(log) ==> log.next_lsn + vs.len() <= u64::MAX,
        forall|m: usize, word: u64| #[trigger] (by.level)(m, word) <= LEVEL_LIMIT,
    ensures
        snapshotable(all_inserted(img, vs, by)),
        all_inserted(img, vs, by).graph.nodes.len() <= all_inserted(img, vs, by).rows.len(),
    decreases vs.len(),
{
    if vs.len() > 0 {
        let front = vs.drop_last();
        law_inserts_keep_the_index_snapshotable(img, front, by);
        lemma_all_inserted(img, front, by);
        let before = all_inserted(img, front, by);
        let mid = logged(stored(before, vs.last()));
        let id = before.rows.len() as u64;
        let level = (by.level)(mid.config.m, level_word(id));
        let m = mid.config.m as nat;
        let pair = between(by_metric(by.kernel, mid.config.metric), mid.rows.take(id + 1));
        reveal(linked);
        law_insert_keeps_the_graph_sound(
            mid.graph,
            id,
            level,
            m,
            mid.config.ef_construction as nat,
            pair,
        );
        let g = all_inserted(img, vs, by).graph;
        let h = with_node(mid.graph, id, level);
        assert forall|i: int| 0 <= i < g.nodes.len() implies (#[trigger] g.nodes[i]).len()
            <= LEVEL_LIMIT + 1 by {
            let x = i as u64;
            let top = (LEVEL_LIMIT + 1) as nat;
            assert(on_layer(g, x, top) <==> on_layer(h, x, top));
            if i < mid.graph.nodes.len() {
                assert(h.nodes[i] == mid.graph.nodes[i]);
            } else if i < id {
                assert(h.nodes[i] == bare_node(0));
            } else {
                assert(h.nodes[i] == bare_node(level));
            }
        }
    }
}

/// The index on disk: the snapshot of a checkpoint, or none if there was no
/// checkpoint yet.
pub open spec fn index_on_disk(disk: Disk, img: Image, opts: DbOptions) -> bool {
    match disk.snapshot {
        Some(file) => snapshotable(img) && file == snapshot_of(img),
        None => img.graph == (Graph { nodes: Seq::empty(), entry: None }) && img.log->0.next_lsn
            == 0 && img.config == opts.config,
    }
}

/// The codebook on disk, if there is one.
pub open spec fn codebook_on_disk(disk: Disk, img: Image) -> bool {
    disk.codebook == match img.pq {
        None => None,
        Some(c) => Some(book_bytes(c.quantizer)),
    }
}

proof fn lemma_index_found(disk: Disk, img: Image, opts: DbOptions)
    requires
        img.log is Some,
        index_on_disk(disk, img, opts),
    ensures
        found_index(disk, opts.config) == Ok::<Indexed, Trouble>(
            Indexed {
                config: img.config,
                graph: img.graph,
                lsn: img.log->0.next_lsn,
            },
        ),
{
    if disk.snapshot is Some {
        let m = img.config.m as nat;
        let g = img.graph;
        law_snapshot_round_trip(img.config, checkpoint_lsn(img), g);
    }
}

/// The store on disk reads as these vectors.
pub open spec fn store_on_disk(disk: Disk, img: Image, rows: Seq<Seq<u32>>) -> bool {
    found_store(disk, img.dim) == Ok::<Stored, Trouble>(
        Stored { dim: img.dim, stride: img.stride, rows },
    )
}

proof fn lemma_lsn_after_records(img: Image, covered: Seq<Entry>, vs: Seq<Seq<u32>>, i: int)
    requires
        insertable(img, vs),
        all_covered(covered, img.log->0.next_lsn),
        0 <= i <= vs.len(),
    ensures
        lsn_after(covered + records(img, vs).take(i)) <= img.log->0.next_lsn + i,
        i > 0 ==> lsn_after(covered + records(img, vs).take(i)) == img.log->0.next_lsn + i,
    decreases i,
{
    let entries = records(img, vs);
    let all = covered + entries.take(i);
    if i > 0 {
        lemma_lsn_after_records(img, covered, vs, i - 1);
        assert(all.drop_last() =~= covered + entries.take(i - 1));
        assert(all.last() == entries[i - 1]);
    } else {
        assert(all =~= covered);
        lemma_lsn_after_bound(covered, img.log->0.next_lsn);
    }
}

/// Every insert that was acknowledged since the last checkpoint survives a
/// crash, and the database is the one that the inserts left: the same vectors,
/// the same graph, the same codes, the same next sequence number. The store on
/// disk may have none of the new vectors or some of them; if there was none
/// before, there need not be a file. The log may still
/// begin with records that the checkpoint covers, and it may end in a torn
/// record: it is enough that its other intact records are those of the inserts.
pub proof fn law_acknowledged_inserts_survive_a_crash(
    disk: Disk,
    img: Image,
    covered: Seq<Entry>,
    vs: Seq<Seq<u32>>,
    extra: int,
    opts: DbOptions,
    by: Functions,
)
    requires
        insertable(img, vs),
        img.graph.nodes.len() <= img.rows.len(),
        codes_in_step(img, by),
        index_on_disk(disk, img, opts),
        codebook_on_disk(disk, img),
        0 <= extra <= vs.len(),
        store_on_disk(disk, img, img.rows + vs.take(extra)),
        scan(disk.log, 0).damage is None,
        all_covered(covered, img.log->0.next_lsn),
        scan(disk.log, 0).entries == covered + records(img, vs),
        opts.enable_wal,
        opts.sync == img.log->0.policy,
    ensures
        opened(disk, img.dim, opts, by) == Ok::<Image, Trouble>(all_inserted(img, vs, by)),
{
    lemma_index_found(disk, img, opts);
    let base = behind(img, vs, extra);
    let s = found_store(disk, img.dim)->Ok_0;
    let x = found_index(disk, opts.config)->Ok_0;
    assert(base_image(s, x) =~= base);
    law_replay_repeats_the_inserts(img, vs, extra, by);
    let end = all_inserted(img, vs, by);
    lemma_all_inserted(img, vs, by);
    let log = img.log->0;
    lemma_lsn_after_records(img, covered, vs, vs.len() as int);
    assert(records(img, vs).take(vs.len() as int) =~= records(img, vs));
    lemma_covered_records_change_nothing(base, covered, records(img, vs), log.next_lsn, by);
    assert(recovered(base, disk.log, log.next_lsn, opts.sync, by) == Ok::<Image, Trouble>(
        Image { pq: None, ..end },
    )) by {
        reveal(recovered);
        assert((Image { pq: None, ..end }) =~= (Image {
            log: Some(Log { policy: opts.sync, next_lsn: (log.next_lsn + vs.len()) as u64 }),
            ..(Image { log: None, pq: None, ..end })
        }));
    }
    law_codes_stay_in_step(img, vs, by);
    assert(quantized(Image { pq: None, ..end }, disk.codebook, by) == Ok::<Image, Trouble>(
        end,
    )) by {
        reveal(quantized);
        if let Some(c) = img.pq {
            law_codebook_round_trip(c.quantizer);
        }
        assert(end =~= (Image { pq: end.pq, ..(Image { pq: None, ..end }) }));
    }
}

/// A checkpoint makes everything permanent: opening what it left on disk gives
/// the same database. That holds whether or not it got to emptying the log,
/// and the next sequence number is kept, so no later record is mistaken for
/// one that the snapshot covers.
pub proof fn law_a_checkpoint_is_permanent(
    disk: Disk,
    img: Image,
    opts: DbOptions,
    by: Functions,
)
    requires
        img.log is Some,
        img.graph.nodes.len() <= img.rows.len(),
        codes_in_step(img, by),
        snapshotable(img),
        disk.snapshot == Some(snapshot_of(img)),
        codebook_on_disk(disk, img),
        store_on_disk(disk, img, img.rows),
        scan(disk.log, 0).damage is None,
        all_covered(scan(disk.log, 0).entries, img.log->0.next_lsn),
        opts.enable_wal,
        opts.sync == img.log->0.policy,
    ensures
        opened(disk, img.dim, opts, by) == Ok::<Image, Trouble>(img),
{
    lemma_index_found(disk, img, opts);
    let log = img.log->0;
    let base = Image { log: None, pq: None, ..img };
    let s = found_store(disk, img.dim)->Ok_0;
    let x = found_index(disk, opts.config)->Ok_0;
    assert(base_image(s, x) =~= base);
    let entries = scan(disk.log, 0).entries;
    law_covered_records_are_skipped(base, entries, log.next_lsn, by);
    lemma_lsn_after_bound(entries, log.next_lsn);
    assert(recovered(base, disk.log, log.next_lsn, opts.sync, by) == Ok::<Image, Trouble>(
        Image { pq: None, ..img },
    )) by {
        reveal(recovered);
        assert((Image { pq: None, ..img }) =~= (Image {
            log: Some(Log { policy: opts.sync, next_lsn: log.next_lsn }),
            ..base
        }));
    }
    assert(quantized(Image { pq: None, ..img }, disk.codebook, by) == Ok::<Image, Trouble>(
        img,
    )) by {
        reveal(quantized);
        if let Some(c) = img.pq {
            law_codebook_round_trip(c.quantizer);
        }
        assert(img =~= (Image { pq: img.pq, ..(Image { pq: None, ..img }) }));
    }
}

/// Without a log a checkpoint is permanent too.
pub proof fn law_a_checkpoint_is_permanent_without_a_log(
    disk: Disk,
    img: Image,
    opts: DbOptions,
    by: Functions,
)
    requires
        img.log is None,
        img.graph.nodes.len() <= img.rows.len(),
        codes_in_step(img, by),
        snapshotable(img),
        disk.snapshot == Some(snapshot_of(img)),
        codebook_on_disk(disk, img),
        store_on_disk(disk, img, img.rows),
        !opts.enable_wal,
    ensures
        opened(disk, img.dim, opts, by) == Ok::<Image, Trouble>(img),
{
    law_snapshot_round_trip(img.config, 0, img.graph);
    let s = found_store(disk, img.dim)->Ok_0;
    let x = found_index(disk, opts.config)->Ok_0;
    let base = Image { pq: None, ..img };
    assert(base_image(s, x) =~= base);
    assert(quantized(base, disk.codebook, by) == Ok::<Image, Trouble>(img)) by {
        reveal(quantized);
        if let Some(c) = img.pq {
            law_codebook_round_trip(c.quantizer);
        }
        assert(img =~= (Image { pq: img.pq, ..base }));
    }
}

/// The file of a flushed store reads as the store's vectors.
pub proof fn law_a_flushed_store_is_found(disk: Disk, store: VectorStore)
    requires
        store.wf(),
        store.spec_dim() <= u32::MAX,
        disk.store == Some(store.file()),
    ensures
        found_store(disk, store.spec_dim()) == Ok::<Stored, Trouble>(
            Stored {
                dim: store.spec_dim(),
                stride: store.spec_stride(),
                rows: store.rows(),
            },
        ),
{
    law_reopening_gives_the_rows_back(store);
}

/// Vectors that can be inserted, and whose records fit in frames.
pub open spec fn loggable(img: Image, vs: Seq<Seq<u32>>) -> bool {
    &&& insertable(img, vs)
    &&& vs.len() > 0 ==> payload_len(img.dim) <= u32::MAX
}

proof fn lemma_loggable_prefix(img: Image, vs: Seq<Seq<u32>>, n: int)
    requires
        loggable(img, vs),
        0 <= n <= vs.len(),
    ensures
        loggable(img, vs.take(n)),
        records(img, vs.take(n)) == records(img, vs).take(n),
{
    let part = vs.take(n);
    assert forall|i: int| 0 <= i < part.len() implies #[trigger] has_room(
        all_stored(img, part.take(i)),
    ) by {
        assert(part.take(i) =~= vs.take(i));
        assert(has_room(all_stored(img, vs.take(i))));
    }
    assert forall|i: int| 0 <= i < part.len() implies (#[trigger] part[i]).len() == img.dim by {
        assert(vs[i].len() == img.dim);
    }
    assert(records(img, part) =~= records(img, vs).take(n));
}

/// The next record of a batch.
proof fn lemma_next_record(img: Image, vs: Seq<Seq<u32>>, i: int)
    requires
        loggable(img, vs),
        0 <= i < vs.len(),
    ensures
        row_trouble(all_stored(img, vs.take(i)), vs[i]) is None,
        frame_step(all_stored(img, vs.take(i)), vs[i]) == (
            frame_target(all_stored(img, vs.take(i))),
            frame_bytes(records(img, vs)[i]),
        ),
{
    lemma_stored_counts(img, vs.take(i));
    assert(has_room(all_stored(img, vs.take(i))));
    assert(vs[i].len() == img.dim);
    assert(record(all_stored(img, vs.take(i)), vs[i]) == records(img, vs)[i]);
}

proof fn lemma_loggable_is_storable(img: Image, vs: Seq<Seq<u32>>)
    requires
        loggable(img, vs),
    ensures
        storable_rows(img, vs, vs.len() as int),
{
    reveal(storable_rows);
    assert forall|i: int| 0 <= i < vs.len() implies row_trouble(
        all_stored(img, vs.take(i)),
        #[trigger] vs[i],
    ) is None by {
        lemma_next_record(img, vs, i);
    }
}

/// Writing the records of a batch adds exactly their frames to the log, in the
/// order of the ids, and touches nothing else.
pub proof fn law_a_batch_logs_its_records(disk: Disk, img: Image, vs: Seq<Seq<u32>>)
    requires
        loggable(img, vs),
    ensures
        performed(disk, batch_plan(img, vs)) == (Disk {
            log: disk.log + frames(records(img, vs)),
            ..disk
        }),
    decreases vs.len(),
{
    let entries = records(img, vs);
    if vs.len() == 0 {
        assert(entries =~= Seq::empty());
        assert(disk.log + frames(entries) =~= disk.log);
    } else {
        let n = vs.len() - 1;
        let front = vs.take(n);
        assert(vs.drop_last() =~= front);
        lemma_loggable_prefix(img, vs, n);
        law_a_batch_logs_its_records(disk, img, front);
        lemma_loggable_is_storable(img, vs);
        lemma_next_record(img, vs, n);
        let step = frame_step(all_stored(img, front), vs[n]);
        assert(batch_plan(img, vs) == batch_plan(img, front).push(step));
        assert(batch_plan(img, vs).drop_last() =~= batch_plan(img, front));
        assert(entries.drop_last() =~= entries.take(n));
        assert(disk.log + frames(entries.take(n)) + frame_bytes(entries[n]) =~= disk.log + frames(
            entries,
        ));
    }
}

/// Without a log an insert or a batch writes nothing.
pub proof fn law_nothing_is_written_without_a_log(img: Image, vs: Seq<Seq<u32>>, v: Seq<u32>)
    requires
        img.log is None,
    ensures
        insert_plan(img, v) == Seq::<(Target, Seq<u8>)>::empty(),
        batch_plan(img, vs) == Seq::<(Target, Seq<u8>)>::empty(),
    decreases vs.len(),
{
    if vs.len() > 0 {
        law_nothing_is_written_without_a_log(img, vs.drop_last(), v);
    }
}

proof fn lemma_stored_counts(img: Image, vs: Seq<Seq<u32>>)
    requires
        img.log is Some,
        img.log->0.next_lsn + vs.len() <= u64::MAX,
    ensures
        all_stored(img, vs).log is Some,
        all_stored(img, vs).log->0.next_lsn == img.log->0.next_lsn + vs.len(),
        all_stored(img, vs).rows.len() == img.rows.len() + vs.len(),
        all_stored(img, vs).dim == img.dim,
    decreases vs.len(),
{
    if vs.len() > 0 {
        lemma_stored_counts(img, vs.drop_last());
    }
}

/// What is on disk before a checkpoint: the state of the last one, and the
/// records of the inserts since.
pub open spec fn disk_before(
    disk: Disk,
    img: Image,
    covered: Seq<Entry>,
    vs: Seq<Seq<u32>>,
    opts: DbOptions,
) -> bool {
    &&& insertable(img, vs)
    &&& img.graph.nodes.len() <= img.rows.len()
    &&& index_on_disk(disk, img, opts)
    &&& scan(disk.log, 0).damage is None
    &&& all_covered(covered, img.log->0.next_lsn)
    &&& scan(disk.log, 0).entries == covered + records(img, vs)
    &&& opts.enable_wal
    &&& opts.sync == img.log->0.policy
}

/// A crash once the snapshot of a checkpoint is written, before or after the
/// log is emptied.
proof fn lemma_behind_the_snapshot(
    disk: Disk,
    img: Image,
    covered: Seq<Entry>,
    vs: Seq<Seq<u32>>,
    opts: DbOptions,
    by: Functions,
    i: int,
)
    requires
        disk_before(disk, img, covered, vs, opts),
        codebook_on_disk(disk, img),
        codes_in_step(img, by),
        store_on_disk(disk, img, img.rows + vs),
        snapshotable(all_inserted(img, vs, by)),
        1 <= i <= 2,
    ensures
        opened(
            performed(
                disk,
                (seq![(Target::Snapshot, snapshot_of(all_inserted(img, vs, by)))] + reset_plan(
                    all_inserted(img, vs, by),
                )).take(i),
            ),
            img.dim,
            opts,
            by,
        ) == Ok::<Image, Trouble>(all_inserted(img, vs, by)),
{
    let live = all_inserted(img, vs, by);
    lemma_all_inserted(img, vs, by);
    law_codes_stay_in_step(img, vs, by);
    let snap = (Target::Snapshot, snapshot_of(live));
    let reset = (Target::WalReset, Seq::<u8>::empty());
    let tail = seq![snap] + reset_plan(live);
    assert(live.graph.nodes.len() <= live.rows.len());
    lemma_performed_one(disk, snap);
    let saved = after_write(disk, snap);
    if i == 1 {
        assert(tail.take(i) =~= seq![snap]);
        lemma_records_are_covered(img, covered, vs);
        law_a_checkpoint_is_permanent(saved, live, opts, by);
    } else {
        assert(tail.take(i) =~= seq![snap] + seq![reset]);
        lemma_performed_both(disk, seq![snap], seq![reset]);
        lemma_performed_one(saved, reset);
        let now = after_write(saved, reset);
        assert(scan(now.log, 0).entries =~= Seq::empty());
        law_a_checkpoint_is_permanent(now, live, opts, by);
    }
}

/// A crash once the store is flushed.
proof fn lemma_behind_the_flush(
    disk: Disk,
    img: Image,
    covered: Seq<Entry>,
    vs: Seq<Seq<u32>>,
    opts: DbOptions,
    by: Functions,
    i: int,
)
    requires
        disk_before(disk, img, covered, vs, opts),
        codebook_on_disk(disk, img) || img.pq is Some && i > 0,
        codes_in_step(img, by),
        store_on_disk(disk, img, img.rows + vs),
        snapshotable(all_inserted(img, vs, by)),
        0 <= i <= codebook_plan(all_inserted(img, vs, by)).len() + 1 + reset_plan(
            all_inserted(img, vs, by),
        ).len(),
    ensures
        opened(
            performed(
                disk,
                (codebook_plan(all_inserted(img, vs, by)) + (seq![
                    (Target::Snapshot, snapshot_of(all_inserted(img, vs, by))),
                ] + reset_plan(all_inserted(img, vs, by)))).take(i),
            ),
            img.dim,
            opts,
            by,
        ) == Ok::<Image, Trouble>(all_inserted(img, vs, by)),
{
    let live = all_inserted(img, vs, by);
    let b = codebook_plan(live);
    let tail = seq![(Target::Snapshot, snapshot_of(live))] + reset_plan(live);
    lemma_all_inserted(img, vs, by);
    assert(vs.take(vs.len() as int) =~= vs);
    let saved = performed(disk, b);
    lemma_codebook_written(disk, img, live);
    let n = vs.len() as int;
    if i == 0 {
        assert((b + tail).take(i) =~= Seq::empty());
        law_acknowledged_inserts_survive_a_crash(disk, img, covered, vs, n, opts, by);
    } else if i <= b.len() {
        assert((b + tail).take(i) =~= b);
        law_acknowledged_inserts_survive_a_crash(saved, img, covered, vs, n, opts, by);
    } else {
        assert((b + tail).take(i) =~= b + tail.take(i - b.len()));
        lemma_performed_both(disk, b, tail.take(i - b.len()));
        lemma_behind_the_snapshot(saved, img, covered, vs, opts, by, i - b.len());
    }
}

/// A checkpoint is safe at every step: wherever a crash stops it, opening what
/// is on disk gives the database that the checkpoint is of. Codes that were
/// trained since the last one are there once the codebook is written. If there
/// was no store file, the one that the first steps make is one once they are
/// all done.
pub proof fn law_every_step_of_a_checkpoint_is_safe(
    disk: Disk,
    img: Image,
    covered: Seq<Entry>,
    vs: Seq<Seq<u32>>,
    extra: int,
    store: VectorStore,
    opts: DbOptions,
    by: Functions,
    j: int,
)
    requires
        disk_before(disk, img, covered, vs, opts),
        codebook_on_disk(disk, img) || img.pq is Some && j > flush_plan(store).len(),
        codes_in_step(img, by),
        0 <= extra <= vs.len(),
        disk.store is Some || j == 0 || j >= flush_plan(store).len(),
        store_on_disk(disk, img, img.rows + vs.take(extra)),
        store.wf(),
        store.spec_dim() == img.dim <= u32::MAX,
        store.spec_stride() == img.stride,
        store.rows() == img.rows + vs,
        snapshotable(all_inserted(img, vs, by)),
        0 <= j <= checkpoint_plan(store, all_inserted(img, vs, by)).len(),
    ensures
        opened(
            performed(disk, checkpoint_plan(store, all_inserted(img, vs, by)).take(j)),
            img.dim,
            opts,
            by,
        ) == Ok::<Image, Trouble>(all_inserted(img, vs, by)),
{
    let live = all_inserted(img, vs, by);
    let (a, b) = (flush_plan(store), codebook_plan(live));
    let tail = seq![(Target::Snapshot, snapshot_of(live))] + reset_plan(live);
    let part = checkpoint_plan(store, live).take(j);
    let kept = (img.rows.len() + extra) as nat;
    assert(store.rows().take(kept as int) =~= img.rows + vs.take(extra));
    assert(vs.take(vs.len() as int) =~= vs);
    assert(checkpoint_plan(store, live) =~= a + (b + tail));
    lemma_all_inserted(img, vs, by);
    if j == 0 {
        assert(part =~= Seq::empty());
        law_acknowledged_inserts_survive_a_crash(disk, img, covered, vs, extra, opts, by);
    } else if j < a.len() {
        assert(part =~= a.take(j));
        law_every_step_of_flushing_is_safe(disk, store, kept, j);
        let now = performed(disk, part);
        law_acknowledged_inserts_survive_a_crash(now, img, covered, vs, extra, opts, by);
    } else {
        law_a_flush_is_complete(disk, store);
        assert(store.rows().take(store.rows().len() as int) =~= store.rows());
        let flushed = performed(disk, a);
        assert(store_on_disk(flushed, img, img.rows + vs));
        let i = j - a.len();
        assert(part =~= a + (b + tail).take(i));
        lemma_performed_both(disk, a, (b + tail).take(i));
        lemma_behind_the_flush(flushed, img, covered, vs, opts, by, i);
    }
}

/// Writing the codebook.
pub proof fn lemma_codebook_written(disk: Disk, img: Image, live: Image)
    requires
        codebook_on_disk(disk, img) || img.pq is Some,
        live.pq is Some <==> img.pq is Some,
        img.pq is Some ==> live.pq->0.quantizer == img.pq->0.quantizer,
    ensures
        performed(disk, codebook_plan(live)) == (Disk {
            codebook: performed(disk, codebook_plan(live)).codebook,
            ..disk
        }),
        codebook_on_disk(performed(disk, codebook_plan(live)), img),
{
    if let Some(c) = live.pq {
        lemma_performed_one(disk, (Target::Codebook, book_bytes(c.quantizer)));
    }
}

/// A snapshot that is taken now covers all records.
pub proof fn lemma_records_are_covered(img: Image, covered: Seq<Entry>, vs: Seq<Seq<u32>>)
    requires
        insertable(img, vs),
        all_covered(covered, img.log->0.next_lsn),
    ensures
        all_covered(covered + records(img, vs), (img.log->0.next_lsn + vs.len()) as u64),
{
    let all = covered + records(img, vs);
    let from = (img.log->0.next_lsn + vs.len()) as u64;
    assert forall|i: int| 0 <= i < all.len() implies (#[trigger] all[i]).lsn < from by {
        if i < covered.len() {
            assert(covered[i].lsn < img.log->0.next_lsn);
        }
    }
}

proof fn lemma_lsn_after_bound(entries: Seq<Entry>, from: u64)
    requires
        all_covered(entries, from),
    ensures
        lsn_after(entries) <= from,
    decreases entries.len(),
{
    if entries.len() > 0 {
        lemma_lsn_after_bound(entries.drop_last(), from);
        assert(entries[entries.len() - 1].lsn < from);
    }
}

} // verus!
