//! The database, as a mathematical object.

use crate::distance::Metric;
use crate::doubling::segment_of;
use crate::error::{decimal, is_corrupt, Error};
use crate::hnsw::graph::Graph;
use crate::hnsw::index::HnswConfig;
use crate::hnsw::insert::inserted_into;
use crate::hnsw::persist::{config_in, graph_in, lsn_in, Refusal, LEVEL_LIMIT};
use crate::io::{Disk, Target};
use crate::oracle::{between, computes};
use crate::pq::codebook::{all_codes, book_in, code_put, Quantizer};
use crate::pq::{encoded, piece};
use crate::random::{assigns, level_word, levels_below};
use crate::storage::store::{addressable, open_refusal, stored_in, stride_of, Stored};
use crate::wal::{
    fits_frame, frame_bytes, is_too_long, lsn_after, refusal, scan, Entry, Op, SyncPolicy,
};
use vstd::prelude::*;

verus! {

/// How a database is opened.
pub struct DbOptions {
    /// How the index is built, if there is no snapshot of one.
    pub config: HnswConfig,
    /// When the log is synced.
    pub sync: SyncPolicy,
    /// Whether inserts are logged. Without the log they are lost in a crash
    /// unless a checkpoint follows.
    pub enable_wal: bool,
}

impl Default for DbOptions {
    fn default() -> (opts: DbOptions)
        ensures
            opts.config.m == 16,
            opts.config.ef_construction == 200,
            opts.config.metric == Metric::L2,
            opts.sync == SyncPolicy::Always,
            opts.enable_wal,
    {
        DbOptions { config: HnswConfig::default(), sync: SyncPolicy::Always, enable_wal: true }
    }
}

/// The log of a database.
pub ghost struct Log {
    pub policy: SyncPolicy,
    pub next_lsn: u64,
}

/// The codes of a database.
#[verifier::ext_equal]
pub ghost struct Codes {
    pub quantizer: Quantizer,
    pub codes: Seq<u8>,
}

/// Everything that a database holds.
#[verifier::ext_equal]
pub ghost struct Image {
    pub dim: nat,
    pub stride: nat,
    pub rows: Seq<Seq<u32>>,
    pub config: HnswConfig,
    pub graph: Graph,
    pub log: Option<Log>,
    pub pq: Option<Codes>,
}

/// The functions that a database's closures compute.
pub ghost struct Functions {
    /// The distance of two vectors.
    pub kernel: spec_fn(Metric, Seq<u32>, Seq<u32>) -> u32,
    /// The level that a word stands for in an index with this link bound.
    pub level: spec_fn(usize, u64) -> nat,
    /// The distance of parts of vectors.
    pub l2: spec_fn(Seq<u32>, Seq<u32>) -> u32,
}

/// Every answer of `kernel` is the value of `f`.
pub open spec fn measures<K: Fn(Metric, &[u32], &[u32]) -> u32>(
    kernel: K,
    f: spec_fn(Metric, Seq<u32>, Seq<u32>) -> u32,
) -> bool {
    forall|metric: Metric, a: &[u32], b: &[u32], r: u32| #[trigger]
        call_ensures(kernel, (metric, a, b), r) ==> r == f(metric, a@, b@)
}

/// `kernel` can be called with any two vectors of the same length.
pub open spec fn measures_all<K: Fn(Metric, &[u32], &[u32]) -> u32>(kernel: K) -> bool {
    forall|metric: Metric, a: &[u32], b: &[u32]|
        a@.len() == b@.len() ==> #[trigger] call_requires(kernel, (metric, a, b))
}

/// `l2` can be called with any two vectors of the same length.
pub open spec fn scores_all<L: Fn(&[u32], &[u32]) -> u32>(l2: L) -> bool {
    forall|a: &[u32], b: &[u32]|
        a@.len() == b@.len() ==> #[trigger] call_requires(l2, (a, b))
}

/// The closures compute these functions.
pub open spec fn performs<
    K: Fn(Metric, &[u32], &[u32]) -> u32,
    V: Fn(usize, u64) -> usize,
    L: Fn(&[u32], &[u32]) -> u32,
>(kernel: K, level: V, l2: L, by: Functions) -> bool {
    &&& measures(kernel, by.kernel)
    &&& assigns(level, by.level)
    &&& computes(l2, by.l2)
}

/// The closures can be called wherever they are called.
pub open spec fn callable<
    K: Fn(Metric, &[u32], &[u32]) -> u32,
    V: Fn(usize, u64) -> usize,
    L: Fn(&[u32], &[u32]) -> u32,
>(kernel: K, level: V, l2: L) -> bool {
    &&& measures_all(kernel)
    &&& levels_below(level, LEVEL_LIMIT as nat)
    &&& scores_all(l2)
}

/// The distance by one metric.
pub open spec fn by_metric(
    f: spec_fn(Metric, Seq<u32>, Seq<u32>) -> u32,
    metric: Metric,
) -> spec_fn(Seq<u32>, Seq<u32>) -> u32 {
    |a: Seq<u32>, b: Seq<u32>| f(metric, a, b)
}

/// The graph once the row with this id is linked into it.
#[verifier::opaque]
pub open spec fn linked(
    graph: Graph,
    config: HnswConfig,
    rows: Seq<Seq<u32>>,
    id: u64,
    by: Functions,
) -> Graph {
    inserted_into(
        graph,
        id,
        (by.level)(config.m, level_word(id)),
        config.m as nat,
        config.ef_construction as nat,
        between(by_metric(by.kernel, config.metric), rows.take(id + 1)),
    )
}

/// One more vector fits.
pub open spec fn has_room(img: Image) -> bool {
    addressable(img.stride, segment_of(img.rows.len()) + 1)
}

/// The database once a vector is stored, and nothing else is done yet.
pub open spec fn stored(img: Image, v: Seq<u32>) -> Image {
    Image { rows: img.rows.push(v), ..img }
}

/// The database once a vector is logged.
pub open spec fn logged(img: Image) -> Image {
    match img.log {
        None => img,
        Some(log) => Image {
            log: Some(Log { policy: log.policy, next_lsn: (log.next_lsn + 1) as u64 }),
            ..img
        },
    }
}

/// The database once a stored vector is linked into the graph and encoded.
pub open spec fn indexed(img: Image, id: u64, by: Functions) -> Image {
    Image {
        graph: linked(img.graph, img.config, img.rows, id, by),
        pq: match img.pq {
            None => None,
            Some(c) => Some(
                Codes {
                    quantizer: c.quantizer,
                    codes: code_put(
                        c.codes,
                        id * c.quantizer.m,
                        encoded(
                            c.quantizer.centroids,
                            c.quantizer.m,
                            c.quantizer.sub_dim,
                            img.rows[id as int],
                            by.l2,
                        ),
                    ),
                },
            ),
        },
        ..img
    }
}

/// The database once a vector is inserted.
pub open spec fn inserted(img: Image, v: Seq<u32>, by: Functions) -> Image {
    indexed(logged(stored(img, v)), img.rows.len() as u64, by)
}

/// The database once some vectors are inserted, one after the other.
pub open spec fn all_inserted(img: Image, vs: Seq<Seq<u32>>, by: Functions) -> Image
    decreases vs.len(),
{
    if vs.len() == 0 {
        img
    } else {
        inserted(all_inserted(img, vs.drop_last(), by), vs.last(), by)
    }
}

/// The database once some vectors are stored and logged.
pub open spec fn all_stored(img: Image, vs: Seq<Seq<u32>>) -> Image
    decreases vs.len(),
{
    if vs.len() == 0 {
        img
    } else {
        logged(stored(all_stored(img, vs.drop_last()), vs.last()))
    }
}

/// The database once `n` stored vectors from number `base` on are linked and
/// encoded.
pub open spec fn all_indexed(img: Image, base: int, n: nat, by: Functions) -> Image
    decreases n,
{
    if n == 0 {
        img
    } else {
        indexed(all_indexed(img, base, (n - 1) as nat, by), (base + n - 1) as u64, by)
    }
}

/// The database with a code for every stored vector. Those that had none, since
/// their inserts failed, get one of zeros.
pub open spec fn codes_padded(img: Image) -> Image {
    Image {
        pq: match img.pq {
            None => None,
            Some(c) => Some(
                Codes {
                    quantizer: c.quantizer,
                    codes: code_put(
                        c.codes,
                        (img.rows.len() * c.quantizer.m) as int,
                        Seq::empty(),
                    ),
                },
            ),
        },
        ..img
    }
}

/// The record of a vector that is stored next.
pub open spec fn record(img: Image, v: Seq<u32>) -> Entry {
    Entry { lsn: img.log->0.next_lsn, op: Op { id: img.rows.len() as u64, vector: v } }
}

/// Where the record of a vector goes.
pub open spec fn frame_target(img: Image) -> Target {
    Target::WalFrame { sync: img.log->0.policy == SyncPolicy::Always }
}

/// Why a vector is refused, whatever comes of writing: it has the wrong
/// dimension, there is no room for it, or it is too long for the log.
pub open spec fn row_trouble(img: Image, v: Seq<u32>) -> Option<Trouble> {
    if v.len() != img.dim {
        Some(Trouble::Mismatch { expected: img.dim, got: v.len() })
    } else if !has_room(img) {
        Some(Trouble::Bad("store exceeds maximum size"@))
    } else if img.log is Some && !fits_frame(record(img, v).op) {
        Some(Trouble::TooLong)
    } else {
        None
    }
}

/// The write of the record of a vector that is stored next.
pub open spec fn frame_step(img: Image, v: Seq<u32>) -> (Target, Seq<u8>) {
    (frame_target(img), frame_bytes(record(img, v)))
}

/// What inserting a vector writes: its record, if there is a log.
pub open spec fn insert_plan(img: Image, v: Seq<u32>) -> Seq<(Target, Seq<u8>)> {
    if img.log is Some {
        seq![frame_step(img, v)]
    } else {
        Seq::empty()
    }
}

/// What comes of storing and logging a vector. A vector that is refused changes
/// nothing. One whose record could not be written is stored and not logged.
#[verifier::opaque]
pub open spec fn row_stored(
    img: Image,
    v: Seq<u32>,
    answer: Result<(), Error>,
    r: Result<u64, Error>,
    after: Image,
) -> bool {
    match row_trouble(img, v) {
        Some(trouble) => {
            &&& after == img
            &&& r matches Err(e)
            &&& shows(e, trouble)
        },
        None => if img.log is Some && answer is Err {
            &&& after == stored(img, v)
            &&& r == Err::<u64, Error>(answer->Err_0)
        } else {
            &&& after == logged(stored(img, v))
            &&& r matches Ok(id)
            &&& id == img.rows.len()
        },
    }
}

/// The rows of `dim` words that a batch is made of.
pub open spec fn batch_rows(batch: Seq<u32>, dim: nat) -> Seq<Seq<u32>> {
    Seq::new(batch.len() / dim, |i: int| piece(batch, i, dim))
}

/// The first `k` vectors can be stored and logged, one after the other.
#[verifier::opaque]
pub open spec fn storable_rows(img: Image, vs: Seq<Seq<u32>>, k: int) -> bool {
    forall|i: int|
        0 <= i < k ==> row_trouble(all_stored(img, vs.take(i)), #[trigger] vs[i]) is None
}

/// What inserting a batch writes: the records of its vectors in order, up to
/// the first that is refused, or nothing if there is no log.
pub open spec fn batch_plan(img: Image, vs: Seq<Seq<u32>>) -> Seq<(Target, Seq<u8>)>
    decreases vs.len(),
{
    if vs.len() == 0 {
        Seq::empty()
    } else {
        let front = batch_plan(img, vs.drop_last());
        if img.log is Some && storable_rows(img, vs, vs.len() as int) {
            front.push(frame_step(all_stored(img, vs.drop_last()), vs.last()))
        } else {
            front
        }
    }
}

/// The record of vector `k` is among what inserting a batch writes.
pub open spec fn row_is_written(img: Image, vs: Seq<Seq<u32>>, k: int) -> bool {
    img.log is Some && 0 <= k < vs.len() && storable_rows(img, vs, k + 1)
}

/// Why a database cannot be opened.
pub ghost enum Trouble {
    /// A vector or the store has another dimension.
    Mismatch { expected: nat, got: nat },
    /// A file ends too early.
    Short,
    /// A vector is too long for the log.
    TooLong,
    /// Something in a file is wrong.
    Bad(Seq<char>),
}

/// The error that reports a trouble.
pub open spec fn shows(e: Error, trouble: Trouble) -> bool {
    match trouble {
        Trouble::Mismatch { expected, got } => e matches Error::DimensionMismatch {
            expected: x,
            got: y,
        } && x == expected && y == got,
        Trouble::TooLong => is_too_long(e),
        Trouble::Short => e matches Error::Io(s) && s@ == "failed to fill whole buffer"@,
        Trouble::Bad(text) => is_corrupt(e, text),
    }
}

/// The store on disk, or a new one if there is none.
pub open spec fn found_store(disk: Disk, dim: nat) -> Result<Stored, Trouble> {
    match disk.store {
        Some(file) => match open_refusal(file) {
            Some(text) => Err(Trouble::Bad(text)),
            None => if stored_in(file).dim != dim {
                Err(Trouble::Mismatch { expected: stored_in(file).dim, got: dim })
            } else {
                Ok(stored_in(file))
            },
        },
        None => if addressable(stride_of(dim), 1) {
            Ok(Stored { dim, stride: stride_of(dim), rows: Seq::empty() })
        } else {
            Err(Trouble::Bad("store exceeds maximum size"@))
        },
    }
}

/// An index: how it is built, its graph, and the log position that replay
/// resumes from.
pub ghost struct Indexed {
    pub config: HnswConfig,
    pub graph: Graph,
    pub lsn: u64,
}

/// The index on disk, or a new one if there is none.
pub open spec fn found_index(disk: Disk, config: HnswConfig) -> Result<Indexed, Trouble> {
    match disk.snapshot {
        Some(file) => match graph_in(file) {
            Err(Refusal::Short) => Err(Trouble::Short),
            Err(Refusal::Bad(text)) => Err(Trouble::Bad(text)),
            Ok(graph) => Ok(Indexed { config: config_in(file), graph, lsn: lsn_in(file) }),
        },
        None => Ok(Indexed { config, graph: Graph { nodes: Seq::empty(), entry: None }, lsn: 0 }),
    }
}

/// One record of the log applied. A record that the snapshot covers is passed
/// over; a vector that the store has is not stored again, nor one that the
/// index has linked again.
#[verifier::opaque]
pub open spec fn applied(img: Image, e: Entry, from: u64, by: Functions) -> Result<
    Image,
    Trouble,
> {
    let id = e.op.id;
    if e.lsn < from {
        Ok(img)
    } else if id > img.rows.len() {
        Err(Trouble::Bad("WAL skips store id "@ + decimal(img.rows.len())))
    } else if id == img.rows.len() && e.op.vector.len() != img.dim {
        Err(Trouble::Mismatch { expected: img.dim, got: e.op.vector.len() })
    } else if id == img.rows.len() && !has_room(img) {
        Err(Trouble::Bad("store exceeds maximum size"@))
    } else {
        let now = if id == img.rows.len() {
            stored(img, e.op.vector)
        } else {
            img
        };
        if id >= img.graph.nodes.len() {
            Ok(Image { graph: linked(now.graph, now.config, now.rows, id, by), ..now })
        } else {
            Ok(now)
        }
    }
}

/// The records of the log applied one after the other.
#[verifier::opaque]
pub open spec fn replayed(img: Image, entries: Seq<Entry>, from: u64, by: Functions) -> Result<
    Image,
    Trouble,
>
    decreases entries.len(),
{
    if entries.len() == 0 {
        Ok(img)
    } else {
        match replayed(img, entries.drop_last(), from, by) {
            Err(trouble) => Err(trouble),
            Ok(so_far) => applied(so_far, entries.last(), from, by),
        }
    }
}

/// The database with its log replayed.
#[verifier::opaque]
pub open spec fn recovered(
    img: Image,
    log: Seq<u8>,
    from: u64,
    policy: SyncPolicy,
    by: Functions,
) -> Result<Image, Trouble> {
    let found = scan(log, 0);
    match found.damage {
        Some(damage) => Err(
            Trouble::Bad(refusal(damage, found.end as nat, found.entries.len())),
        ),
        None => match replayed(img, found.entries, from, by) {
            Err(trouble) => Err(trouble),
            Ok(now) => {
                let after = lsn_after(found.entries);
                let next_lsn = if after < from {
                    from
                } else {
                    after
                };
                Ok(Image { log: Some(Log { policy, next_lsn }), ..now })
            },
        },
    }
}

/// The database with its vectors encoded by the codebook on disk, if there is
/// one.
#[verifier::opaque]
pub open spec fn quantized(img: Image, codebook: Option<Seq<u8>>, by: Functions) -> Result<
    Image,
    Trouble,
> {
    match codebook {
        None => Ok(img),
        Some(raw) => match book_in(raw) {
            Err(text) => Err(Trouble::Bad(text)),
            Ok(q) => if q.dim != img.dim {
                Err(
                    Trouble::Bad(
                        "pq.codebook is for dim "@ + decimal(q.dim) + ", store has "@ + decimal(
                            img.dim,
                        ),
                    ),
                )
            } else {
                Ok(
                    Image {
                        pq: Some(
                            Codes { quantizer: q, codes: all_codes(q, img.rows, by.l2) },
                        ),
                        ..img
                    },
                )
            },
        },
    }
}

/// The database before its log is replayed.
pub open spec fn base_image(s: Stored, x: Indexed) -> Image {
    Image {
        dim: s.dim,
        stride: s.stride,
        rows: s.rows,
        config: x.config,
        graph: x.graph,
        log: None,
        pq: None,
    }
}

/// The database that opening gives, or why it fails.
pub open spec fn opened(disk: Disk, dim: nat, opts: DbOptions, by: Functions) -> Result<
    Image,
    Trouble,
> {
    match found_store(disk, dim) {
        Err(trouble) => Err(trouble),
        Ok(s) => match found_index(disk, opts.config) {
            Err(trouble) => Err(trouble),
            Ok(x) => {
                let base = base_image(s, x);
                let now = if opts.enable_wal {
                    recovered(base, disk.log, x.lsn, opts.sync, by)
                } else {
                    Ok(base)
                };
                match now {
                    Err(trouble) => Err(trouble),
                    Ok(img) => if img.graph.nodes.len() > img.rows.len() {
                        Err(Trouble::Bad("index ahead of vector store"@))
                    } else {
                        quantized(img, disk.codebook, by)
                    },
                }
            },
        },
    }
}

} // verus!
