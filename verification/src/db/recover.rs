//! Opening a database.

use crate::db::model::{
    applied, base_image, by_metric, callable, found_index, found_store, has_room, linked, measures,
    measures_all, opened, performs, quantized, recovered, replayed, scores_all, shows, stored,
    DbOptions, Functions, Image, Indexed, Trouble,
};
use crate::db::{codes_of, link, log_of, Db, Files, PqState};
use crate::distance::Metric;
use crate::error::{append_decimal, corrupt, decimal, Error};
use crate::hnsw::graph::Graph;
use crate::hnsw::index::{Hnsw, HnswConfig};
use crate::hnsw::insert::lemma_inserted_len;
use crate::hnsw::persist::{LEVEL_LIMIT, MAX_NODES};
use crate::hnsw::scratch::VisitedSet;
use crate::oracle::{between, computes};
use crate::pq::codebook::{all_codes, encode_all, load_codebook};
use crate::pq::laws::lemma_all_codes_len;
use crate::random::{assigns, level_word, levels_below};
use crate::storage::store::{Stored, VectorStore};
use crate::wal::{entries_of, scan, Entry, SyncPolicy, Wal, WalOp};
use vstd::prelude::*;
use vstd::string::StringExecFns;

verus! {

/// The same but for how the graph is linked and what the codes say, which
/// depend on distances.
pub open spec fn alike(a: Image, b: Image) -> bool {
    &&& a.dim == b.dim
    &&& a.stride == b.stride
    &&& a.rows == b.rows
    &&& a.config == b.config
    &&& a.graph.nodes.len() == b.graph.nodes.len()
    &&& a.log == b.log
    &&& match (a.pq, b.pq) {
        (None, None) => true,
        (Some(x), Some(y)) => x.quantizer == y.quantizer && x.codes.len() == y.codes.len(),
        _ => false,
    }
}

/// `got` is what `want` says: the same trouble, or a database that is alike,
/// and the same one if `exact` holds.
#[verifier::opaque]
pub open spec fn as_wanted(
    want: Result<Image, Trouble>,
    got: Result<Image, Error>,
    exact: bool,
) -> bool {
    match want {
        Err(trouble) => got matches Err(e) && shows(e, trouble),
        Ok(img) => got matches Ok(x) && alike(img, x) && (exact ==> img == x),
    }
}

/// What came of a step: an error, or this database.
pub open spec fn outcome(r: Result<(), Error>, img: Image) -> Result<Image, Error> {
    match r {
        Ok(_) => Ok(img),
        Err(e) => Err(e),
    }
}

/// The closures compute these functions, as far as the graph depends on them.
pub open spec fn builds<K: Fn(Metric, &[u32], &[u32]) -> u32, V: Fn(usize, u64) -> usize>(
    kernel: K,
    level: V,
    by: Functions,
) -> bool {
    measures(kernel, by.kernel) && assigns(level, by.level)
}

/// The database with these codes, or the error that came instead.
spec fn with_codes(r: Result<Option<PqState>, Error>, img: Image) -> Result<Image, Error> {
    match r {
        Ok(pq) => Ok(Image { pq: codes_of(pq), ..img }),
        Err(e) => Err(e),
    }
}

/// A store and an index.
spec fn parts(store: VectorStore, index: Hnsw) -> Image {
    base_image(
        Stored { dim: store.spec_dim(), stride: store.spec_stride(), rows: store.rows() },
        Indexed { config: index.spec_config(), graph: index.graph(), lsn: 0 },
    )
}

proof fn lemma_applied_alike(a: Image, b: Image, e: Entry, from: u64, by: Functions, to: Functions)
    requires
        alike(a, b),
    ensures
        match applied(a, e, from, by) {
            Err(trouble) => applied(b, e, from, to) == Err::<Image, Trouble>(trouble),
            Ok(x) => applied(b, e, from, to) matches Ok(y) && alike(x, y),
        },
{
    reveal(applied);
    let id = e.op.id;
    let now = if id == a.rows.len() {
        stored(a, e.op.vector)
    } else {
        a
    };
    let then = if id == b.rows.len() {
        stored(b, e.op.vector)
    } else {
        b
    };
    lemma_linked_len(now.graph, now.config, now.rows, id, by);
    lemma_linked_len(then.graph, then.config, then.rows, id, to);
}

/// Linking a row adds a node for it.
pub proof fn lemma_linked_len(
    graph: Graph,
    config: HnswConfig,
    rows: Seq<Seq<u32>>,
    id: u64,
    by: Functions,
)
    ensures
        linked(graph, config, rows, id, by).nodes.len() == id + 1,
{
    reveal(linked);
    lemma_inserted_len(
        graph,
        id,
        (by.level)(config.m, level_word(id)),
        config.m as nat,
        config.ef_construction as nat,
        between(by_metric(by.kernel, config.metric), rows.take(id + 1)),
    );
}

proof fn lemma_replay_stops(img: Image, entries: Seq<Entry>, i: int, from: u64, by: Functions)
    requires
        0 <= i <= entries.len(),
        replayed(img, entries.take(i), from, by) is Err,
    ensures
        replayed(img, entries, from, by) == replayed(img, entries.take(i), from, by),
    decreases entries.len() - i,
{
    reveal(replayed);
    if i == entries.len() {
        assert(entries.take(i) =~= entries);
    } else {
        assert(entries.take(i + 1).drop_last() =~= entries.take(i));
        lemma_replay_stops(img, entries, i + 1, from, by);
    }
}

/// The text of an error about a skipped id.
fn skipped(id: u64) -> (e: Error)
    ensures
        shows(e, Trouble::Bad("WAL skips store id "@ + decimal(id as nat))),
{
    let mut text: String = String::new();
    text.append("WAL skips store id ");
    append_decimal(&mut text, id);
    assert(text@ =~= "WAL skips store id "@ + decimal(id as nat));
    Error::Corrupt(text)
}

/// Applies one record of the log.
fn apply<K: Fn(Metric, &[u32], &[u32]) -> u32, V: Fn(usize, u64) -> usize>(
    store: &mut VectorStore,
    index: &mut Hnsw,
    lsn: u64,
    op: &WalOp,
    from: u64,
    kernel: &K,
    level: &V,
    visited: &mut VisitedSet,
) -> (r: Result<(), Error>)
    requires
        old(store).wf(),
        old(index).wf(),
        old(visited).wf(),
        measures_all(*kernel),
        levels_below(*level, LEVEL_LIMIT as nat),
    ensures
        final(store).wf(),
        final(index).wf(),
        final(visited).wf(),
        forall|by: Functions|
            as_wanted(
                #[trigger] applied(
                    parts(*old(store), *old(index)),
                    Entry { lsn, op: op@ },
                    from,
                    by,
                ),
                outcome(r, parts(*final(store), *final(index))),
                builds(*kernel, *level, by),
            ),
{
    let ghost img = parts(*store, *index);
    proof {
        reveal(applied);
        reveal(as_wanted);
    }
    if lsn < from {
        return Ok(());
    }
    let WalOp::Insert { id, vector } = op;
    let id: u64 = *id;
    let n: u64 = store.len() as u64;
    if id > n {
        return Err(skipped(n));
    }
    if id == n {
        match store.append(vector.as_slice()) {
            Err(e) => {
                assert(has_room(img) == old(store).has_room());
                return Err(e);
            },
            Ok(_) => {
                assert(has_room(img) == old(store).has_room());
            },
        }
    }
    let ghost now = parts(*store, *index);
    proof {
        assert(now =~= if id == n {
            stored(img, vector@)
        } else {
            img
        });
    }
    if id >= index.len() as u64 {
        link(index, store, id, kernel, level, visited);
        proof {
            assert forall|by: Functions| #[trigger] applied(
                img,
                Entry { lsn, op: op@ },
                from,
                by,
            ) == Ok::<Image, Trouble>(
                Image { graph: linked(now.graph, now.config, now.rows, id, by), ..now },
            ) by {}
            assert forall|by: Functions| (#[trigger] linked(
                now.graph,
                now.config,
                now.rows,
                id,
                by,
            )).nodes.len() == id + 1 by {
                lemma_linked_len(now.graph, now.config, now.rows, id, by);
            }
            let end = parts(*store, *index);
            assert forall|by: Functions|
                measures(*kernel, by.kernel) && assigns(*level, by.level) implies end == (Image {
                graph: #[trigger] linked(now.graph, now.config, now.rows, id, by),
                ..now
            }) by {
                assert(end =~= (Image {
                    graph: linked(now.graph, now.config, now.rows, id, by),
                    ..now
                }));
            }
        }
    }
    Ok(())
}

proof fn lemma_replay_step(
    base: Image,
    entries: Seq<Entry>,
    i: int,
    from: u64,
    by: Functions,
    before: Image,
    after: Result<Image, Error>,
    exact: bool,
)
    requires
        0 <= i < entries.len(),
        as_wanted(replayed(base, entries.take(i), from, by), Ok(before), exact),
        as_wanted(applied(before, entries[i], from, by), after, exact),
    ensures
        as_wanted(replayed(base, entries.take(i + 1), from, by), after, exact),
{
    reveal(replayed);
    reveal(as_wanted);
    let part = entries.take(i + 1);
    assert(part.drop_last() =~= entries.take(i));
    assert(part.last() == entries[i]);
    let so_far = replayed(base, entries.take(i), from, by)->Ok_0;
    lemma_applied_alike(so_far, before, entries[i], from, by, by);
}

proof fn lemma_replay_failed(
    base: Image,
    entries: Seq<Entry>,
    i: int,
    from: u64,
    by: Functions,
    e: Error,
    exact: bool,
)
    requires
        0 <= i <= entries.len(),
        as_wanted(replayed(base, entries.take(i), from, by), Err(e), exact),
    ensures
        as_wanted(replayed(base, entries, from, by), Err(e), exact),
{
    reveal(as_wanted);
    lemma_replay_stops(base, entries, i, from, by);
}

/// The replay of some records gave this database, or failed with this error.
#[verifier::opaque]
spec fn replay_gives<K: Fn(Metric, &[u32], &[u32]) -> u32, V: Fn(usize, u64) -> usize>(
    base: Image,
    entries: Seq<Entry>,
    from: u64,
    kernel: K,
    level: V,
    got: Result<Image, Error>,
) -> bool {
    forall|by: Functions|
        as_wanted(
            #[trigger] replayed(base, entries, from, by),
            got,
            builds(kernel, level, by),
        )
}

proof fn lemma_replay_gives_more<
    K: Fn(Metric, &[u32], &[u32]) -> u32,
    V: Fn(usize, u64) -> usize,
>(
    base: Image,
    entries: Seq<Entry>,
    i: int,
    from: u64,
    kernel: K,
    level: V,
    before: Image,
    after: Result<Image, Error>,
)
    requires
        0 <= i < entries.len(),
        replay_gives(base, entries.take(i), from, kernel, level, Ok(before)),
        forall|by: Functions|
            as_wanted(
                #[trigger] applied(before, entries[i], from, by),
                after,
                builds(kernel, level, by),
            ),
    ensures
        replay_gives(base, entries.take(i + 1), from, kernel, level, after),
        after is Err ==> replay_gives(base, entries, from, kernel, level, after),
{
    reveal(replay_gives);
    assert forall|by: Functions| as_wanted(
        #[trigger] replayed(base, entries.take(i + 1), from, by),
        after,
        builds(kernel, level, by),
    ) by {
        let exact = builds(kernel, level, by);
        assert(as_wanted(replayed(base, entries.take(i), from, by), Ok(before), exact));
        assert(as_wanted(applied(before, entries[i], from, by), after, exact));
        lemma_replay_step(base, entries, i, from, by, before, after, exact);
    }
    if let Err(e) = after {
        assert forall|by: Functions| as_wanted(
            #[trigger] replayed(base, entries, from, by),
            after,
            builds(kernel, level, by),
        ) by {
            let exact = builds(kernel, level, by);
            assert(as_wanted(replayed(base, entries.take(i + 1), from, by), after, exact));
            lemma_replay_failed(base, entries, i + 1, from, by, e, exact);
        }
    }
}

proof fn lemma_replay_of_nothing<
    K: Fn(Metric, &[u32], &[u32]) -> u32,
    V: Fn(usize, u64) -> usize,
>(base: Image, entries: Seq<Entry>, from: u64, kernel: K, level: V)
    ensures
        replay_gives(base, entries.take(0), from, kernel, level, Ok(base)),
{
    reveal(replay_gives);
    reveal(replayed);
    reveal(as_wanted);
    assert(entries.take(0) =~= Seq::empty());
}

/// Replays the records of a log.
fn replay<K: Fn(Metric, &[u32], &[u32]) -> u32, V: Fn(usize, u64) -> usize>(
    store: &mut VectorStore,
    index: &mut Hnsw,
    records: &Vec<(u64, WalOp)>,
    from: u64,
    kernel: &K,
    level: &V,
) -> (r: Result<(), Error>)
    requires
        old(store).wf(),
        old(index).wf(),
        measures_all(*kernel),
        levels_below(*level, LEVEL_LIMIT as nat),
    ensures
        final(store).wf(),
        final(index).wf(),
        replay_gives(
            parts(*old(store), *old(index)),
            entries_of(records@),
            from,
            *kernel,
            *level,
            outcome(r, parts(*final(store), *final(index))),
        ),
{
    let ghost base = parts(*store, *index);
    let ghost entries = entries_of(records@);
    let mut visited: VisitedSet = VisitedSet::new();
    let mut i: usize = 0;
    proof {
        lemma_replay_of_nothing(base, entries, from, *kernel, *level);
    }
    while i < records.len()
        invariant
            i <= records@.len(),
            base == parts(*old(store), *old(index)),
            entries == entries_of(records@),
            store.wf(),
            index.wf(),
            visited.wf(),
            measures_all(*kernel),
            levels_below(*level, LEVEL_LIMIT as nat),
            replay_gives(
                base,
                entries.take(i as int),
                from,
                *kernel,
                *level,
                Ok(parts(*store, *index)),
            ),
        decreases records@.len() - i,
    {
        let ghost before = parts(*store, *index);
        let step: Result<(), Error> = apply(
            store,
            index,
            records[i].0,
            &records[i].1,
            from,
            kernel,
            level,
            &mut visited,
        );
        proof {
            assert(entries[i as int] == (Entry {
                lsn: records@[i as int].0,
                op: records@[i as int].1@,
            }));
            lemma_replay_gives_more(
                base,
                entries,
                i as int,
                from,
                *kernel,
                *level,
                before,
                outcome(step, parts(*store, *index)),
            );
        }
        match step {
            Err(e) => {
                return Err(e);
            },
            Ok(_) => {},
        }
        i = i + 1;
    }
    assert(entries.take(i as int) =~= entries);
    Ok(())
}

/// The store on disk, or a new one.
fn find_store(files: &Files, dim: usize) -> (r: Result<VectorStore, Error>)
    requires
        files.store is None ==> 0 < dim && 4 * dim + 63 <= usize::MAX,
    ensures
        match found_store(files@, dim as nat) {
            Err(trouble) => r matches Err(e) && shows(e, trouble),
            Ok(s) => r matches Ok(store) && store.wf() && s == (Stored {
                dim: store.spec_dim(),
                stride: store.spec_stride(),
                rows: store.rows(),
            }),
        },
{
    match files.store {
        None => VectorStore::create(dim),
        Some(file) => match VectorStore::open(file) {
            Err(e) => Err(e),
            Ok(store) => {
                let has: usize = store.dim();
                if has != dim {
                    Err(Error::DimensionMismatch { expected: has, got: dim })
                } else {
                    Ok(store)
                }
            },
        },
    }
}

/// The index on disk, or a new one, and the log position that replay resumes
/// from.
fn find_index(files: &Files, config: HnswConfig) -> (r: Result<(Hnsw, u64), Error>)
    requires
        match files.snapshot {
            None => 2 <= config.m <= usize::MAX / 2,
            Some(file) => file@.len() / 8 <= MAX_NODES,
        },
    ensures
        match found_index(files@, config) {
            Err(trouble) => r matches Err(e) && shows(e, trouble),
            Ok(x) => r matches Ok((index, lsn)) && index.wf() && x == (Indexed {
                config: index.spec_config(),
                graph: index.graph(),
                lsn,
            }),
        },
{
    match files.snapshot {
        None => Ok((Hnsw::new(config), 0)),
        Some(file) => Hnsw::load(file),
    }
}

/// The text of an error about a codebook for another dimension.
fn wrong_codebook(has: usize, dim: usize) -> (e: Error)
    ensures
        shows(
            e,
            Trouble::Bad(
                "pq.codebook is for dim "@ + decimal(has as nat) + ", store has "@ + decimal(
                    dim as nat,
                ),
            ),
        ),
{
    let mut text: String = String::new();
    text.append("pq.codebook is for dim ");
    append_decimal(&mut text, has as u64);
    text.append(", store has ");
    append_decimal(&mut text, dim as u64);
    assert(text@ =~= "pq.codebook is for dim "@ + decimal(has as nat) + ", store has "@ + decimal(
        dim as nat,
    ));
    Error::Corrupt(text)
}

/// Encodes the vectors of a store by the codebook on disk, if there is one.
fn find_codes<L: Fn(&[u32], &[u32]) -> u32>(
    files: &Files,
    store: &VectorStore,
    l2: &L,
    Ghost(img): Ghost<Image>,
) -> (r: Result<Option<PqState>, Error>)
    requires
        store.wf(),
        img.dim == store.spec_dim(),
        img.rows == store.rows(),
        scores_all(*l2),
        img.pq is None,
    ensures
        r matches Ok(Some(state)) ==> state.pq.wf() && state.pq@.dim == store.spec_dim()
            && state.codes@.len() == store.rows().len() * state.pq@.m,
        forall|by: Functions|
            as_wanted(
                #[trigger] quantized(img, files@.codebook, by),
                with_codes(r, img),
                computes(*l2, by.l2),
            ),
{
    proof {
        reveal(quantized);
        reveal(as_wanted);
    }
    match files.codebook {
        None => {
            assert(img =~= (Image { pq: codes_of(None), ..img }));
            Ok(None)
        },
        Some(raw) => match load_codebook(raw) {
            Err(e) => Err(e),
            Ok(pq) => {
                let dim: usize = store.dim();
                if pq.dim() != dim {
                    return Err(wrong_codebook(pq.dim(), dim));
                }
                let codes: Vec<u8> = encode_all(&pq, store, l2);
                proof {
                    assert forall|by: Functions| (#[trigger] all_codes(
                        pq@,
                        img.rows,
                        by.l2,
                    )).len() == codes@.len() by {
                        lemma_all_codes_len(pq@, img.rows, by.l2);
                    }
                }
                Ok(Some(PqState { pq, codes }))
            },
        },
    }
}

/// Replays the log, if there is one.
fn recover<K: Fn(Metric, &[u32], &[u32]) -> u32, V: Fn(usize, u64) -> usize>(
    store: &mut VectorStore,
    index: &mut Hnsw,
    log: &[u8],
    from: u64,
    policy: SyncPolicy,
    kernel: &K,
    level: &V,
) -> (r: Result<Wal, Error>)
    requires
        old(store).wf(),
        old(index).wf(),
        measures_all(*kernel),
        levels_below(*level, LEVEL_LIMIT as nat),
    ensures
        final(store).wf(),
        final(index).wf(),
        r matches Ok(wal) ==> wal.spec_intact_len() == scan(log@, 0).end,
        forall|by: Functions|
            as_wanted(
                #[trigger] recovered(parts(*old(store), *old(index)), log@, from, policy, by),
                match r {
                    Ok(wal) => Ok(
                        Image {
                            log: log_of(Some(wal)),
                            ..parts(*final(store), *final(index))
                        },
                    ),
                    Err(e) => Err(e),
                },
                builds(*kernel, *level, by),
            ),
{
    let ghost base = parts(*store, *index);
    proof {
        reveal(recovered);
        reveal(as_wanted);
    }
    match Wal::open(log, policy) {
        Err(e) => Err(e),
        Ok((wal, records)) => {
            let mut wal: Wal = wal;
            wal.ensure_lsn_at_least(from);
            let done: Result<(), Error> = replay(store, index, &records, from, kernel, level);
            proof {
                reveal(replay_gives);
                assert forall|by: Functions| as_wanted(
                    #[trigger] recovered(base, log@, from, policy, by),
                    match done {
                        Ok(_) => Ok(
                            Image { log: log_of(Some(wal)), ..parts(*store, *index) },
                        ),
                        Err(e) => Err(e),
                    },
                    builds(*kernel, *level, by),
                ) by {
                    assert(as_wanted(
                        replayed(base, entries_of(records@), from, by),
                        outcome(done, parts(*store, *index)),
                        builds(*kernel, *level, by),
                    ));
                }
            }
            match done {
                Ok(_) => Ok(wal),
                Err(e) => Err(e),
            }
        },
    }
}

proof fn lemma_quantized_alike(
    a: Image,
    b: Image,
    codebook: Option<Seq<u8>>,
    got: Result<Image, Error>,
    by: Functions,
    built: bool,
    coded: bool,
)
    requires
        as_wanted(Ok(a), Ok(b), built),
        as_wanted(quantized(b, codebook, by), got, coded),
    ensures
        as_wanted(quantized(a, codebook, by), got, built && coded),
{
    reveal(quantized);
    reveal(as_wanted);
}

impl Db {
    /// Opens or creates a database. `files` is what is on disk, `dim` the
    /// dimension of its vectors. The caller cuts a torn tail off the log, see
    /// [`Db::intact_log_len`].
    pub fn open<
        K: Fn(Metric, &[u32], &[u32]) -> u32,
        V: Fn(usize, u64) -> usize,
        L: Fn(&[u32], &[u32]) -> u32,
    >(
        files: &Files,
        dim: usize,
        opts: DbOptions,
        kernel: &K,
        level: &V,
        l2: &L,
    ) -> (r: Result<Db, Error>)
        requires
            files.store is None ==> 0 < dim && 4 * dim + 63 <= usize::MAX,
            match files.snapshot {
                None => 2 <= opts.config.m <= usize::MAX / 2,
                Some(file) => file@.len() / 8 <= MAX_NODES,
            },
            callable(*kernel, *level, *l2),
        ensures
            r matches Ok(db) ==> db.wf(),
            r matches Ok(db) ==> if opts.enable_wal {
                db.spec_intact_log_len() matches Some(len) && len == scan(files.log@, 0).end
            } else {
                db.spec_intact_log_len() is None
            },
            forall|by: Functions|
                as_wanted(
                    #[trigger] opened(files@, dim as nat, opts, by),
                    match r {
                        Ok(db) => Ok(db@),
                        Err(e) => Err(e),
                    },
                    performs(*kernel, *level, *l2, by),
                ),
    {
        proof {
            reveal(as_wanted);
        }
        let mut store: VectorStore = match find_store(files, dim) {
            Err(e) => {
                return Err(e);
            },
            Ok(store) => store,
        };
        let (mut index, from) = match find_index(files, opts.config) {
            Err(e) => {
                return Err(e);
            },
            Ok(found) => found,
        };
        let ghost base = parts(store, index);
        let ghost s = found_store(files@, dim as nat)->Ok_0;
        let ghost x = found_index(files@, opts.config)->Ok_0;
        assert(base_image(s, x) =~= base);
        let wal: Option<Wal> = if opts.enable_wal {
            match recover(
                &mut store,
                &mut index,
                files.log,
                from,
                opts.sync,
                kernel,
                level,
            ) {
                Err(e) => {
                    assert forall|by: Functions| as_wanted(
                        #[trigger] opened(files@, dim as nat, opts, by),
                        Err(e),
                        performs(*kernel, *level, *l2, by),
                    ) by {
                        assert(as_wanted(
                            recovered(base, files@.log, from, opts.sync, by),
                            Err(e),
                            builds(*kernel, *level, by),
                        ));
                    }
                    return Err(e);
                },
                Ok(wal) => Some(wal),
            }
        } else {
            None
        };
        let ghost img = Image { log: log_of(wal), ..parts(store, index) };
        assert(!opts.enable_wal ==> img =~= base);
        if index.len() > store.len() {
            assert forall|by: Functions| (#[trigger] opened(files@, dim as nat, opts, by)) == Err::<
                Image,
                Trouble,
            >(Trouble::Bad("index ahead of vector store"@)) by {
                let now = recovered(base, files@.log, from, opts.sync, by);
                assert(opts.enable_wal ==> as_wanted(now, Ok(img), builds(*kernel, *level, by)));
            }
            return Err(corrupt("index ahead of vector store"));
        }
        let coded: Result<Option<PqState>, Error> = find_codes(files, &store, l2, Ghost(img));
        let ghost got = with_codes(coded, img);
        proof {
            assert forall|by: Functions| as_wanted(
                #[trigger] opened(files@, dim as nat, opts, by),
                got,
                performs(*kernel, *level, *l2, by),
            ) by {
                let built = builds(*kernel, *level, by);
                let now = recovered(base, files@.log, from, opts.sync, by);
                assert(opts.enable_wal ==> as_wanted(now, Ok(img), built));
                let a = if opts.enable_wal {
                    now->Ok_0
                } else {
                    img
                };
                assert(as_wanted(
                    quantized(img, files@.codebook, by),
                    got,
                    computes(*l2, by.l2),
                ));
                lemma_quantized_alike(
                    a,
                    img,
                    files@.codebook,
                    got,
                    by,
                    built,
                    computes(*l2, by.l2),
                );
            }
        }
        match coded {
            Err(e) => Err(e),
            Ok(pq) => {
                let ghost found = pq;
                let db = Db { store, index, wal, pq };
                proof {
                    assert(db@ =~= (Image { pq: codes_of(found), ..img }));
                    if let Some(state) = found {
                        let (a, b, m) = (
                            img.graph.nodes.len() as int,
                            img.rows.len() as int,
                            state.pq@.m as int,
                        );
                        assert(a * m <= b * m) by (nonlinear_arith)
                            requires
                                a <= b,
                                m >= 0,
                        ;
                    }
                }
                Ok(db)
            },
        }
    }
}

} // verus!
