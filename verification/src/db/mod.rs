//! The database: vector store, graph index and log.
//!
//! An insert stores the vector, logs it, and once the log has it links it into
//! the graph. Recovery loads the snapshot of the index if there is one, then
//! replays the records of the log that it does not cover: vectors that the
//! store had not flushed are stored again, nodes that the snapshot lacks are
//! linked again.

pub mod contents;
pub mod history;
pub mod laws;
pub mod model;
pub mod quantize;
pub mod query;
pub mod recover;
pub mod search_laws;
pub mod write;

use crate::db::model::{
    by_metric, linked, measures, measures_all, Codes, Functions, Image, Log,
};
use crate::distance::Metric;
use crate::hnsw::index::{Hnsw, HnswConfig};
use crate::hnsw::persist::LEVEL_LIMIT;
use crate::hnsw::scratch::VisitedSet;
use crate::io::Disk;
use crate::oracle::computes;
use crate::pq::ProductQuantizer;
use crate::random::{assigns, draw_level, levels_below};
use crate::storage::store::VectorStore;
use crate::wal::Wal;
use vstd::prelude::*;

pub use model::DbOptions;

verus! {

/// The codes of the stored vectors.
pub(crate) struct PqState {
    pq: ProductQuantizer,
    /// The code of vector `id` stands at `id * m`.
    codes: Vec<u8>,
}

/// A database.
pub struct Db {
    store: VectorStore,
    index: Hnsw,
    wal: Option<Wal>,
    pq: Option<PqState>,
}

/// What is on disk. A log that is not there is empty.
pub struct Files<'a> {
    pub store: Option<&'a [u8]>,
    pub snapshot: Option<&'a [u8]>,
    pub log: &'a [u8],
    pub codebook: Option<&'a [u8]>,
}

/// The bytes of a file that may be missing.
pub open spec fn bytes_of(file: Option<&[u8]>) -> Option<Seq<u8>> {
    match file {
        None => None,
        Some(bytes) => Some(bytes@),
    }
}

impl<'a> View for Files<'a> {
    type V = Disk;

    open spec fn view(&self) -> Disk {
        Disk {
            store: bytes_of(self.store),
            snapshot: bytes_of(self.snapshot),
            log: self.log@,
            codebook: bytes_of(self.codebook),
        }
    }
}

pub(crate) closed spec fn log_of(wal: Option<Wal>) -> Option<Log> {
    match wal {
        None => None,
        Some(wal) => Some(Log { policy: wal.spec_policy(), next_lsn: wal.spec_next_lsn() }),
    }
}

pub(crate) closed spec fn codes_of(pq: Option<PqState>) -> Option<Codes> {
    match pq {
        None => None,
        Some(state) => Some(Codes { quantizer: state.pq@, codes: state.codes@ }),
    }
}

impl View for Db {
    type V = Image;

    closed spec fn view(&self) -> Image {
        Image {
            dim: self.store.spec_dim(),
            stride: self.store.spec_stride(),
            rows: self.store.rows(),
            config: self.index.spec_config(),
            graph: self.index.graph(),
            log: log_of(self.wal),
            pq: codes_of(self.pq),
        }
    }
}

impl Db {
    /// The parts are sound, no node lacks its vector, and every vector of a
    /// node has a code if there are codes.
    pub closed spec fn wf(&self) -> bool {
        &&& self.store.wf()
        &&& self.index.wf()
        &&& self.index.graph().nodes.len() <= self.store.rows().len()
        &&& self.pq matches Some(state) ==> {
            &&& state.pq.wf()
            &&& state.pq@.dim == self.store.spec_dim()
            &&& self.index.graph().nodes.len() * state.pq@.m <= state.codes@.len()
            &&& state.codes@.len() <= self.store.rows().len() * state.pq@.m
        }
    }

    /// The store.
    pub closed spec fn spec_store(&self) -> VectorStore {
        self.store
    }

    /// The store is sound, and holds the vectors of the database.
    pub proof fn lemma_store(&self)
        requires
            self.wf(),
        ensures
            self.spec_store().wf(),
            self.spec_store().rows() == self@.rows,
            self.spec_store().spec_dim() == self@.dim,
            self.spec_store().spec_stride() == self@.stride,
    {
    }

    /// The length of the intact part of the log that was opened, if there is a
    /// log.
    pub closed spec fn spec_intact_log_len(&self) -> Option<u64> {
        match self.wal {
            None => None,
            Some(wal) => Some(wal.spec_intact_len()),
        }
    }

    /// The length of the intact part of the log that was opened. The rest is a
    /// torn tail, to be cut off.
    pub fn intact_log_len(&self) -> (len: Option<u64>)
        ensures
            len == self.spec_intact_log_len(),
    {
        match &self.wal {
            None => None,
            Some(wal) => Some(wal.intact_len()),
        }
    }
}

/// A distance by one metric, as it is computed by all.
pub(crate) proof fn lemma_by_metric<
    K: Fn(Metric, &[u32], &[u32]) -> u32,
    G: Fn(&[u32], &[u32]) -> u32,
>(kernel: K, one: G, metric: Metric)
    requires
        forall|a: &[u32], b: &[u32], d: u32| #[trigger]
            call_ensures(one, (a, b), d) ==> call_ensures(kernel, (metric, a, b), d),
    ensures
        forall|f: spec_fn(Metric, Seq<u32>, Seq<u32>) -> u32| #[trigger]
            measures(kernel, f) ==> computes(one, by_metric(f, metric)),
{
}

/// Links a row into the graph.
pub(crate) fn link<K: Fn(Metric, &[u32], &[u32]) -> u32, V: Fn(usize, u64) -> usize>(
    index: &mut Hnsw,
    store: &VectorStore,
    id: u64,
    kernel: &K,
    level: &V,
    visited: &mut VisitedSet,
)
    requires
        old(index).wf(),
        store.wf(),
        old(visited).wf(),
        old(index).graph().nodes.len() <= id < store.rows().len(),
        measures_all(*kernel),
        levels_below(*level, LEVEL_LIMIT as nat),
    ensures
        final(index).wf(),
        final(visited).wf(),
        final(index).spec_config() == old(index).spec_config(),
        final(index).graph().nodes.len() == id + 1,
        final(index).graph().entry is Some,
        forall|by: Functions|
            measures(*kernel, by.kernel) && assigns(*level, by.level) ==> final(index).graph()
                == #[trigger] linked(
                old(index).graph(),
                old(index).spec_config(),
                store.rows(),
                id,
                by,
            ),
{
    let config: HnswConfig = *index.config();
    let metric: Metric = config.metric;
    let word: u64 = draw_level(id);
    let height: usize = level(config.m, word);
    let one = |a: &[u32], b: &[u32]| -> (d: u32)
        requires
            a@.len() == b@.len(),
        ensures
            call_ensures(*kernel, (metric, a, b), d),
        { kernel(metric, a, b) };
    proof {
        reveal(linked);
        lemma_by_metric(*kernel, one, metric);
    }
    index.insert(store, id, height, &one, visited);
}

} // verus!
