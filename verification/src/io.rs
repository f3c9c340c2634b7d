//! How the engine asks for its bytes to be made durable.
//!
//! The engine decides what is written, and in which order: it hands out a
//! *plan*, a list of writes. The caller performs them one after the other,
//! stops at the first that fails, and reports how far it came where the engine
//! has to know.

use crate::doubling::rows_in;
use crate::storage::store::segment_offset;
use vstd::prelude::*;

verus! {

/// What a run of bytes is for.
#[derive(Debug, Clone, Copy, PartialEq, Eq, Structural)]
pub enum Target {
    /// The rows of one segment of the vector store.
    StoreSegment(usize),
    /// The header page of the vector store.
    StoreHeader,
    /// The whole codebook file, replaced atomically.
    Codebook,
    /// The whole index snapshot, replaced atomically.
    Snapshot,
    /// A frame at the end of the log, synced to disk if `sync` is set.
    WalFrame { sync: bool },
    /// The log, emptied and synced. There are no bytes.
    WalReset,
    /// The log, synced as it stands. There are no bytes.
    WalSync,
}

/// A plan, as values.
pub open spec fn steps(plan: Seq<(Target, Vec<u8>)>) -> Seq<(Target, Seq<u8>)> {
    plan.map_values(|w: (Target, Vec<u8>)| (w.0, w.1@))
}

/// What is on disk. A log that is not there is empty.
#[verifier::ext_equal]
pub ghost struct Disk {
    pub store: Option<Seq<u8>>,
    pub snapshot: Option<Seq<u8>>,
    pub log: Seq<u8>,
    pub codebook: Option<Seq<u8>>,
}

/// A file with some bytes written into it at `at`. Where it was too short it is
/// filled up with zeros.
pub open spec fn placed(file: Seq<u8>, at: int, bytes: Seq<u8>) -> Seq<u8> {
    let end = at + bytes.len();
    Seq::new(
        (if file.len() < end {
            end
        } else {
            file.len() as int
        }) as nat,
        |i: int|
            if at <= i < end {
                bytes[i - at]
            } else if i < file.len() {
                file[i]
            } else {
                0u8
            },
    )
}

/// Where the bytes of a segment go in the file of the store.
pub open spec fn segment_at(seg: usize, bytes: Seq<u8>) -> int {
    segment_offset(bytes.len() / rows_in(seg as nat), seg as nat)
}

/// The contents of a file that may be missing.
pub open spec fn contents(file: Option<Seq<u8>>) -> Seq<u8> {
    match file {
        None => Seq::empty(),
        Some(bytes) => bytes,
    }
}

/// The disk once one write is performed.
pub open spec fn after_write(disk: Disk, step: (Target, Seq<u8>)) -> Disk {
    let (target, bytes) = step;
    match target {
        Target::StoreSegment(seg) => Disk {
            store: Some(placed(contents(disk.store), segment_at(seg, bytes), bytes)),
            ..disk
        },
        Target::StoreHeader => Disk {
            store: Some(placed(contents(disk.store), 0, bytes)),
            ..disk
        },
        Target::Codebook => Disk { codebook: Some(bytes), ..disk },
        Target::Snapshot => Disk { snapshot: Some(bytes), ..disk },
        Target::WalFrame { sync } => Disk { log: disk.log + bytes, ..disk },
        Target::WalReset => Disk { log: Seq::empty(), ..disk },
        Target::WalSync => disk,
    }
}

/// The disk once the writes of a plan are performed, in order.
pub open spec fn performed(disk: Disk, plan: Seq<(Target, Seq<u8>)>) -> Disk
    decreases plan.len(),
{
    if plan.len() == 0 {
        disk
    } else {
        after_write(performed(disk, plan.drop_last()), plan.last())
    }
}

/// Performing two plans one after the other.
pub proof fn lemma_performed_both(
    disk: Disk,
    a: Seq<(Target, Seq<u8>)>,
    b: Seq<(Target, Seq<u8>)>,
)
    ensures
        performed(disk, a + b) == performed(performed(disk, a), b),
    decreases b.len(),
{
    if b.len() == 0 {
        assert(a + b =~= a);
    } else {
        assert((a + b).drop_last() =~= a + b.drop_last());
        lemma_performed_both(disk, a, b.drop_last());
    }
}

/// Performing a plan of one write.
pub proof fn lemma_performed_one(disk: Disk, step: (Target, Seq<u8>))
    ensures
        performed(disk, seq![step]) == after_write(disk, step),
{
    assert(seq![step].drop_last() =~= Seq::empty());
    assert(performed(disk, Seq::empty()) == disk);
}

} // verus!
