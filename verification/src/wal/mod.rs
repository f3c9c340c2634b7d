//! Write-ahead log.
//!
//! Record framing:
//!   [len: u32][crc32: u32][payload: len bytes]
//!   payload = [lsn: u64][op: u8][op body]
//! The checksum covers the payload. Recovery walks records until the end of
//! the log and then has to decide, for anything that is not a clean record,
//! whether it is *torn* or *corrupt*, because the two call for opposite
//! responses:
//!
//! - **Torn**: the bad frame is the last thing in the log. A crash in the
//!   middle of a write can leave a partial header, a partial payload, or a
//!   frame of full length with garbage inside. None of it was ever
//!   acknowledged, since an acknowledgement comes only after a sync.
//!   Truncating is correct and lossless.
//! - **Corrupt**: the bad frame has data after it, so it was fully written and
//!   synced, and something damaged it later. Truncating here would destroy
//!   every acknowledged record that follows, so recovery refuses to open.
//!
//! A length that was damaged can make a frame seem to be the last thing: it
//! reaches to the end of the log, or past it. Such a frame is corrupt if what
//! there is of its payload contradicts the length and an intact record lies
//! behind. With nothing intact behind it, it is torn.

pub mod canonical;
pub mod laws;

use crate::bytes::{
    le32, le64, put_bytes, put_u32, put_u64, put_words, read_u32, read_u64, read_words, u32_at,
    u64_at, words_at, words_bytes,
};
use crate::checksum::{checksum, crc32, one_byte_off};
use crate::error::{append_decimal, decimal, is_corrupt, Error};
use crate::io::{steps, Target};
use crate::wal::laws::{damaged_in_one_byte, frames, lemma_damage_is_found};
use vstd::prelude::*;
use vstd::string::StringExecFns;

verus! {

broadcast use {crate::bytes::lemma_le32_len, crate::bytes::lemma_le64_len};

/// The tag of an insert record.
pub const OP_INSERT: u8 = 1;

/// When the log is synced.
#[derive(Debug, Clone, Copy, PartialEq, Eq, Structural)]
pub enum SyncPolicy {
    /// After every record: an acknowledged insert survives any crash.
    Always,
    /// Never (bulk loads where the caller checkpoints at the end).
    Never,
}

/// An operation of the log.
#[derive(Debug, Clone, PartialEq)]
pub enum WalOp {
    /// The vector with this id, as the bit patterns of its components.
    Insert { id: u64, vector: Vec<u32> },
}

/// An operation, as a value.
#[verifier::ext_equal]
pub ghost struct Op {
    pub id: u64,
    pub vector: Seq<u32>,
}

/// A record of the log, as a value.
#[verifier::ext_equal]
pub ghost struct Entry {
    pub lsn: u64,
    pub op: Op,
}

impl View for WalOp {
    type V = Op;

    open spec fn view(&self) -> Op {
        match self {
            WalOp::Insert { id, vector } => Op { id: *id, vector: vector@ },
        }
    }
}

/// What a frame can be found to suffer from.
#[derive(Debug, Clone, Copy, PartialEq, Eq, Structural)]
pub enum Damage {
    ImpossibleLength,
    ChecksumMismatch,
    InsertTooShort,
    DimDisagrees,
    UnknownOp,
}

/// The damage in words.
pub open spec fn damage_text(d: Damage) -> Seq<char> {
    match d {
        Damage::ImpossibleLength => "impossible record length"@,
        Damage::ChecksumMismatch => "checksum mismatch"@,
        Damage::InsertTooShort => "insert record too short"@,
        Damage::DimDisagrees => "insert record length disagrees with its dim"@,
        Damage::UnknownOp => "unknown op tag"@,
    }
}

impl Damage {
    fn text(self) -> (text: &'static str)
        ensures
            text@ == damage_text(self),
    {
        match self {
            Damage::ImpossibleLength => "impossible record length",
            Damage::ChecksumMismatch => "checksum mismatch",
            Damage::InsertTooShort => "insert record too short",
            Damage::DimDisagrees => "insert record length disagrees with its dim",
            Damage::UnknownOp => "unknown op tag",
        }
    }
}

/// The payload of a record.
pub open spec fn payload_bytes(e: Entry) -> Seq<u8> {
    le64(e.lsn) + seq![OP_INSERT] + le64(e.op.id) + le32(e.op.vector.len() as u32) + words_bytes(
        e.op.vector,
    )
}

/// The frame of a record, as it is written to the log.
pub open spec fn frame_bytes(e: Entry) -> Seq<u8> {
    let payload = payload_bytes(e);
    le32(payload.len() as u32) + le32(crc32(payload)) + payload
}

/// The length of the payload of a record that holds `dim` components.
pub open spec fn payload_len(dim: nat) -> nat {
    21 + 4 * dim
}

/// `op` is small enough for the length field of a frame.
pub open spec fn fits_frame(op: Op) -> bool {
    payload_len(op.vector.len()) <= u32::MAX
}

/// The payload `p` is checked out as a record, or found damaged.
pub open spec fn parse_payload(p: Seq<u8>) -> Result<Entry, Damage> {
    if p[8] != OP_INSERT {
        Err(Damage::UnknownOp)
    } else if p.len() < 21 {
        Err(Damage::InsertTooShort)
    } else if p.len() != payload_len(u32_at(p, 17) as nat) {
        Err(Damage::DimDisagrees)
    } else {
        Ok(
            Entry {
                lsn: u64_at(p, 0),
                op: Op { id: u64_at(p, 9), vector: words_at(p, 21, u32_at(p, 17) as nat) },
            },
        )
    }
}

/// What lies at one position of the log.
pub ghost enum Found {
    /// An intact record and the bytes that its frame takes.
    Record { consumed: nat, entry: Entry },
    /// The clean end of the log.
    Eof,
    /// An incomplete or damaged frame that is the last thing in the log.
    Torn,
    /// A damaged frame with more data after it.
    Corrupt(Damage),
}

/// As far as the payload of the frame at `pos` is there, it is that of a record
/// of just the length that the frame states.
pub open spec fn length_agrees(log: Seq<u8>, pos: int) -> bool {
    let len = u32_at(log, pos) as nat;
    let have = log.len() - pos - 8;
    &&& have >= 9 ==> log[pos + 16] == OP_INSERT
    &&& have >= 21 ==> len == payload_len(u32_at(log, pos + 25) as nat)
}

/// An intact record lies at `pos`.
pub open spec fn whole_record_at(log: Seq<u8>, pos: int) -> bool {
    let len = u32_at(log, pos) as nat;
    let payload = log.subrange(pos + 8, pos + 8 + len);
    &&& 0 <= pos && pos + 8 + len <= log.len()
    &&& 9 <= len
    &&& crc32(payload) == u32_at(log, pos + 4)
    &&& parse_payload(payload) is Ok
}

/// An intact record lies somewhere behind `pos`.
#[verifier::opaque]
pub open spec fn record_behind(log: Seq<u8>, pos: int) -> bool {
    exists|at: int| pos < at && #[trigger] whole_record_at(log, at)
}

/// What a bad frame is that reaches to the end of the log or past it. If its
/// payload contradicts its length and an intact record lies behind, then the
/// length is damaged, and records that were acknowledged follow. Else it is the
/// last thing in the log.
pub open spec fn bad_end(log: Seq<u8>, pos: int) -> Found {
    if !length_agrees(log, pos) && record_behind(log, pos) {
        Found::Corrupt(Damage::ImpossibleLength)
    } else {
        Found::Torn
    }
}

/// What lies at `pos`.
pub open spec fn found_at(log: Seq<u8>, pos: int) -> Found {
    if pos == log.len() {
        Found::Eof
    } else if pos + 8 > log.len() {
        Found::Torn
    } else {
        let len = u32_at(log, pos) as nat;
        if len < 9 {
            if pos + 8 == log.len() {
                Found::Torn
            } else {
                Found::Corrupt(Damage::ImpossibleLength)
            }
        } else if pos + 8 + len > log.len() {
            bad_end(log, pos)
        } else {
            let payload = log.subrange(pos + 8, pos + 8 + len);
            let parsed = if crc32(payload) != u32_at(log, pos + 4) {
                Err(Damage::ChecksumMismatch)
            } else {
                parse_payload(payload)
            };
            match parsed {
                Ok(entry) => Found::Record { consumed: 8 + len, entry },
                Err(damage) => if pos + 8 + len == log.len() {
                    bad_end(log, pos)
                } else {
                    Found::Corrupt(damage)
                },
            }
        }
    }
}

/// The outcome of walking the log from some position on.
#[verifier::ext_equal]
pub ghost struct Scan {
    /// The intact records, in order.
    pub entries: Seq<Entry>,
    /// Where the last of them ends.
    pub end: int,
    /// The damage that stopped the walk, if it was not the end or a torn tail.
    pub damage: Option<Damage>,
}

/// The records from `pos` on, up to the first thing that is not one.
pub open spec fn scan(log: Seq<u8>, pos: int) -> Scan
    decreases log.len() - pos,
{
    match found_at(log, pos) {
        Found::Record { consumed, entry } => if 0 <= pos <= log.len() {
            let rest = scan(log, pos + consumed);
            Scan { entries: seq![entry] + rest.entries, end: rest.end, damage: rest.damage }
        } else {
            Scan { entries: Seq::empty(), end: pos, damage: None }
        },
        Found::Eof | Found::Torn => Scan { entries: Seq::empty(), end: pos, damage: None },
        Found::Corrupt(d) => Scan { entries: Seq::empty(), end: pos, damage: Some(d) },
    }
}

/// A walk of the log from `from` on comes by `pos`.
pub open spec fn comes_by(log: Seq<u8>, from: int, pos: int) -> bool
    decreases log.len() - from,
{
    ||| pos == from
    ||| match found_at(log, from) {
        Found::Record { consumed, .. } => 0 <= from <= log.len() && comes_by(
            log,
            from + consumed,
            pos,
        ),
        _ => false,
    }
}

/// The checksum tells the payload of the frame at `pos`, if all of it is there,
/// from every other that differs from it in one byte.
pub open spec fn told_apart(log: Seq<u8>, pos: int) -> bool {
    let len = u32_at(log, pos) as nat;
    let payload = log.subrange(pos + 8, pos + 8 + len);
    9 <= len && pos + 8 + len <= log.len() ==> forall|other: Seq<u8>| #[trigger]
        one_byte_off(payload, other) ==> crc32(other) != crc32(payload)
}

/// The first sequence number above those of all `entries`.
pub open spec fn lsn_after(entries: Seq<Entry>) -> u64
    decreases entries.len(),
{
    if entries.len() == 0 {
        0
    } else {
        let before = lsn_after(entries.drop_last());
        let here = if entries.last().lsn < u64::MAX {
            (entries.last().lsn + 1) as u64
        } else {
            u64::MAX
        };
        if here > before {
            here
        } else {
            before
        }
    }
}

/// The complaint about a log that is damaged before its tail.
pub open spec fn refusal(damage: Damage, end: nat, intact: nat) -> Seq<char> {
    "wal: "@ + damage_text(damage) + " at byte offset "@ + decimal(end) + ", with "@ + decimal(
        intact,
    )
        + " intact record(s) before it and more data after it; this is damage to already-acked records, not a torn tail from a crash. Refusing to truncate."@
}

/// The records of a scan, as values.
pub open spec fn entries_of(records: Seq<(u64, WalOp)>) -> Seq<Entry> {
    records.map_values(|r: (u64, WalOp)| Entry { lsn: r.0, op: r.1@ })
}

enum Stop {
    Eof,
    Torn,
    Corrupt(Damage),
}

enum Step {
    Record { consumed: usize, lsn: u64, op: WalOp },
    Stopped(Stop),
}

spec fn step_found(s: Step) -> Found {
    match s {
        Step::Record { consumed, lsn, op } => Found::Record {
            consumed: consumed as nat,
            entry: Entry { lsn, op: op@ },
        },
        Step::Stopped(Stop::Eof) => Found::Eof,
        Step::Stopped(Stop::Torn) => Found::Torn,
        Step::Stopped(Stop::Corrupt(d)) => Found::Corrupt(d),
    }
}

/// Whether an intact record lies at `pos`.
fn is_whole_record(log: &[u8], pos: usize) -> (r: bool)
    requires
        pos + 29 <= log@.len(),
    ensures
        r == whole_record_at(log@, pos as int),
{
    let rest: usize = log.len() - pos;
    let len32: u32 = read_u32(log, pos);
    if len32 < 21 || len32 as u64 > (rest - 8) as u64 {
        return false;
    }
    let len: usize = len32 as usize;
    let payload: &[u8] = vstd::slice::slice_subrange(log, pos + 8, pos + 8 + len);
    let dim: u32 = read_u32(payload, 17);
    payload[8] == OP_INSERT && len as u64 == 21 + 4 * (dim as u64) && checksum(payload) == read_u32(
        log,
        pos + 4,
    )
}

/// Whether an intact record lies behind `pos`.
fn finds_record_behind(log: &[u8], pos: usize) -> (r: bool)
    requires
        pos < log@.len(),
    ensures
        r == record_behind(log@, pos as int),
{
    let n: usize = log.len();
    let mut at: usize = pos + 1;
    while n - at >= 29
        invariant
            pos < at <= n,
            n == log@.len(),
            forall|i: int| pos < i < at ==> !#[trigger] whole_record_at(log@, i),
        decreases n - at,
    {
        if is_whole_record(log, at) {
            proof {
                reveal(record_behind);
                assert(whole_record_at(log@, at as int));
            }
            return true;
        }
        at = at + 1;
    }
    reveal(record_behind);
    false
}

/// A bad frame that reaches to the end of the log or past it.
fn at_the_end(log: &[u8], pos: usize) -> (s: Step)
    requires
        pos + 8 <= log@.len(),
    ensures
        step_found(s) == bad_end(log@, pos as int),
{
    let have: usize = log.len() - pos - 8;
    let len32: u32 = read_u32(log, pos);
    let agrees: bool = (have < 9 || log[pos + 16] == OP_INSERT) && (have < 21 || len32 as u64 == 21
        + 4 * (read_u32(log, pos + 25) as u64));
    if !agrees && finds_record_behind(log, pos) {
        Step::Stopped(Stop::Corrupt(Damage::ImpossibleLength))
    } else {
        Step::Stopped(Stop::Torn)
    }
}

/// A damaged frame that lies wholly inside the log.
fn damaged(log: &[u8], pos: usize, is_tail: bool, why: Damage) -> (s: Step)
    requires
        pos + 8 <= log@.len(),
    ensures
        step_found(s) == (if is_tail {
            bad_end(log@, pos as int)
        } else {
            Found::Corrupt(why)
        }),
{
    if is_tail {
        at_the_end(log, pos)
    } else {
        Step::Stopped(Stop::Corrupt(why))
    }
}

/// Reads the record that starts at `pos`, or says why there is none.
fn read_record(log: &[u8], pos: usize) -> (s: Step)
    requires
        pos <= log@.len(),
    ensures
        step_found(s) == found_at(log@, pos as int),
        told_apart(log@, pos as int),
{
    let rest: usize = log.len() - pos;
    if rest == 0 {
        return Step::Stopped(Stop::Eof);
    }
    if rest < 8 {
        return Step::Stopped(Stop::Torn);
    }
    let len32: u32 = read_u32(log, pos);
    let crc: u32 = read_u32(log, pos + 4);

    // A length that cannot be real means that the header itself is damaged.
    // It cannot be trusted to tell where this frame ends, so all there is to
    // ask is whether anything follows the header at all.
    if len32 < 9 {
        return Step::Stopped(
            if rest == 8 {
                Stop::Torn
            } else {
                Stop::Corrupt(Damage::ImpossibleLength)
            },
        );
    }
    if len32 as u64 > (rest - 8) as u64 {
        return at_the_end(log, pos);
    }
    let len: usize = len32 as usize;
    // The frame lies wholly inside the log. From here on, being the last one
    // is what separates a torn tail from damage.
    let is_tail: bool = rest - 8 == len;
    let payload: &[u8] = vstd::slice::slice_subrange(log, pos + 8, pos + 8 + len);
    if checksum(payload) != crc {
        return damaged(log, pos, is_tail, Damage::ChecksumMismatch);
    }
    let lsn: u64 = read_u64(payload, 0);
    if payload[8] != OP_INSERT {
        return damaged(log, pos, is_tail, Damage::UnknownOp);
    }
    if len < 21 {
        return damaged(log, pos, is_tail, Damage::InsertTooShort);
    }
    let id: u64 = read_u64(payload, 9);
    let dim: u32 = read_u32(payload, 17);
    if len as u64 != 21 + 4 * (dim as u64) {
        return damaged(log, pos, is_tail, Damage::DimDisagrees);
    }
    let vector: Vec<u32> = read_words(payload, 21, dim as usize);
    Step::Record { consumed: 8 + len, lsn, op: WalOp::Insert { id, vector } }
}

/// The complaint about a log that is damaged before its tail.
fn refuse(why: Damage, end: usize, intact: usize) -> (e: Error)
    ensures
        is_corrupt(e, refusal(why, end as nat, intact as nat)),
{
    let mut text: String = String::new();
    text.append("wal: ");
    text.append(why.text());
    text.append(" at byte offset ");
    append_decimal(&mut text, end as u64);
    text.append(", with ");
    append_decimal(&mut text, intact as u64);
    text.append(
        " intact record(s) before it and more data after it; this is damage to already-acked records, not a torn tail from a crash. Refusing to truncate.",
    );
    assert(text@ =~= refusal(why, end as nat, intact as nat));
    Error::Corrupt(text)
}

/// `e` says that a vector is too long for the length field of a frame.
pub open spec fn is_too_long(e: Error) -> bool {
    e matches Error::InvalidArgument(s) && s@ == "vector too long for the log"@
}

pub(crate) fn too_long() -> (e: Error)
    ensures
        is_too_long(e),
{
    Error::InvalidArgument("vector too long for the log".to_string())
}

/// Whether a record with a vector of this length fits in a frame.
pub(crate) fn vector_fits(len: usize) -> (r: bool)
    ensures
        r == (payload_len(len as nat) <= u32::MAX),
{
    len as u64 <= (u32::MAX as u64 - 21) / 4
}

fn encode_payload(lsn: u64, id: u64, vector: &[u32]) -> (payload: Vec<u8>)
    requires
        fits_frame(Op { id, vector: vector@ }),
    ensures
        payload@ == payload_bytes(Entry { lsn, op: Op { id, vector: vector@ } }),
{
    let mut payload: Vec<u8> = Vec::new();
    put_u64(&mut payload, lsn);
    payload.push(OP_INSERT);
    put_u64(&mut payload, id);
    put_u32(&mut payload, vector.len() as u32);
    put_words(&mut payload, vector);
    assert(payload@ =~= payload_bytes(Entry { lsn, op: Op { id, vector: vector@ } }));
    payload
}

fn encode_frame(lsn: u64, id: u64, vector: &[u32]) -> (frame: Vec<u8>)
    requires
        fits_frame(Op { id, vector: vector@ }),
    ensures
        frame@ == frame_bytes(Entry { lsn, op: Op { id, vector: vector@ } }),
{
    let payload: Vec<u8> = encode_payload(lsn, id, vector);
    proof {
        lemma_payload_len(Entry { lsn, op: Op { id, vector: vector@ } });
    }
    let crc: u32 = checksum(payload.as_slice());
    let mut frame: Vec<u8> = Vec::new();
    put_u32(&mut frame, payload.len() as u32);
    put_u32(&mut frame, crc);
    put_bytes(&mut frame, payload.as_slice());
    assert(frame@ =~= frame_bytes(Entry { lsn, op: Op { id, vector: vector@ } }));
    frame
}

/// The write-ahead log, positioned for appending.
pub struct Wal {
    policy: SyncPolicy,
    next_lsn: u64,
    intact_len: u64,
}

impl Wal {
    /// When the log is synced.
    pub closed spec fn spec_policy(&self) -> SyncPolicy {
        self.policy
    }

    /// The sequence number of the next record.
    pub closed spec fn spec_next_lsn(&self) -> u64 {
        self.next_lsn
    }

    /// The length of the log up to the last record that was found intact when
    /// it was opened.
    pub closed spec fn spec_intact_len(&self) -> u64 {
        self.intact_len
    }

    /// Scans a log for intact records and returns the log positioned for
    /// appending, together with them. A torn tail is left out of
    /// [`Wal::intact_len`], for the caller to cut off. A record of which a byte
    /// was changed is never taken for an intact one: with more behind it the log
    /// is refused, at the end it is a torn tail (unless it holds an intact record
    /// and contradicts its own length).
    pub fn open(log: &[u8], policy: SyncPolicy) -> (opened: Result<(Wal, Vec<(u64, WalOp)>), Error>)
        ensures
            match scan(log@, 0).damage {
                None => opened matches Ok((wal, records)) && {
                    &&& entries_of(records@) == scan(log@, 0).entries
                    &&& wal.spec_policy() == policy
                    &&& wal.spec_next_lsn() == lsn_after(scan(log@, 0).entries)
                    &&& wal.spec_intact_len() == scan(log@, 0).end
                },
                Some(damage) => opened matches Err(e) && is_corrupt(
                    e,
                    refusal(damage, scan(log@, 0).end as nat, scan(log@, 0).entries.len()),
                ),
            },
            forall|before: Seq<Entry>, e: Entry, after: Seq<u8>| #[trigger]
                damaged_in_one_byte(log@, before, e, after) ==> if after.len() > 0 {
                    opened is Err && is_corrupt(
                        opened->Err_0,
                        refusal(Damage::ChecksumMismatch, frames(before).len(), before.len()),
                    )
                } else {
                    length_agrees(log@, frames(before).len() as int) || !record_behind(
                        log@,
                        frames(before).len() as int,
                    ) ==> opened is Ok && entries_of(opened->Ok_0.1@) == before
                },
    {
        let mut records: Vec<(u64, WalOp)> = Vec::new();
        let mut good_end: usize = 0;
        let mut next_lsn: u64 = 0;
        assert(entries_of(records@) + scan(log@, 0).entries =~= scan(log@, 0).entries);
        loop
            invariant
                good_end <= log@.len(),
                scan(log@, 0).entries == entries_of(records@) + scan(log@, good_end as int).entries,
                scan(log@, 0).end == scan(log@, good_end as int).end,
                scan(log@, 0).damage == scan(log@, good_end as int).damage,
                next_lsn == lsn_after(entries_of(records@)),
                forall|pos: int| #[trigger]
                    comes_by(log@, 0, pos) ==> told_apart(log@, pos) || comes_by(
                        log@,
                        good_end as int,
                        pos,
                    ),
            decreases log@.len() - good_end,
        {
            match read_record(log, good_end) {
                Step::Record { consumed, lsn, op } => {
                    let ghost before = entries_of(records@);
                    let ghost entry = Entry { lsn, op: op@ };
                    let after: u64 = if lsn < u64::MAX {
                        lsn + 1
                    } else {
                        u64::MAX
                    };
                    if after > next_lsn {
                        next_lsn = after;
                    }
                    records.push((lsn, op));
                    proof {
                        assert(entries_of(records@) =~= before.push(entry));
                        assert(entries_of(records@).drop_last() =~= before);
                        assert(before + (seq![entry] + scan(log@, good_end + consumed).entries)
                            =~= before.push(entry) + scan(log@, good_end + consumed).entries);
                    }
                    assert(good_end + consumed <= log.len());
                    good_end = good_end + consumed;
                },
                Step::Stopped(Stop::Corrupt(why)) => {
                    // The records after this one were acknowledged, and
                    // truncating here would destroy them.
                    assert(scan(log@, 0).entries =~= entries_of(records@));
                    proof {
                        lemma_damage_is_found(log@);
                    }
                    return Err(refuse(why, good_end, records.len()));
                },
                Step::Stopped(Stop::Eof) | Step::Stopped(Stop::Torn) => {
                    assert(scan(log@, 0).entries =~= entries_of(records@));
                    proof {
                        lemma_damage_is_found(log@);
                    }
                    return Ok((Wal { policy, next_lsn, intact_len: good_end as u64 }, records));
                },
            }
        }
    }

    /// The sequence number of the next record.
    pub fn next_lsn(&self) -> (lsn: u64)
        ensures
            lsn == self.spec_next_lsn(),
    {
        self.next_lsn
    }

    /// The length of the intact part of the log that was opened.
    pub fn intact_len(&self) -> (len: u64)
        ensures
            len == self.spec_intact_len(),
    {
        self.intact_len
    }

    /// Raises the sequence number to at least `min`. Called with the snapshot
    /// watermark on opening: a checkpoint empties the log, and without the
    /// floor a later recovery would skip new records as already covered.
    pub fn ensure_lsn_at_least(&mut self, min: u64)
        ensures
            final(self).spec_next_lsn() == (if old(self).spec_next_lsn() < min {
                min
            } else {
                old(self).spec_next_lsn()
            }),
            final(self).spec_policy() == old(self).spec_policy(),
            final(self).spec_intact_len() == old(self).spec_intact_len(),
    {
        if self.next_lsn < min {
            self.next_lsn = min;
        }
    }

    /// The write of a record that comes `ahead` records after the next.
    pub(crate) fn frame_ahead(&self, ahead: u64, id: u64, vector: &[u32]) -> (w: (Target, Vec<u8>))
        requires
            fits_frame(Op { id, vector: vector@ }),
            self.spec_next_lsn() + ahead <= u64::MAX,
        ensures
            w.0 == (Target::WalFrame { sync: self.spec_policy() == SyncPolicy::Always }),
            w.1@ == frame_bytes(
                Entry {
                    lsn: (self.spec_next_lsn() + ahead) as u64,
                    op: Op { id, vector: vector@ },
                },
            ),
    {
        let frame: Vec<u8> = encode_frame(self.next_lsn + ahead, id, vector);
        let sync: bool = match self.policy {
            SyncPolicy::Always => true,
            SyncPolicy::Never => false,
        };
        (Target::WalFrame { sync }, frame)
    }

    /// What appending a record writes: its frame, at the end of the log, synced
    /// if the policy asks for it.
    pub fn append_writes(&self, op: &WalOp) -> (r: Result<Vec<(Target, Vec<u8>)>, Error>)
        ensures
            match r {
                Ok(plan) => fits_frame(op@) && steps(plan@) == seq![
                    (
                        Target::WalFrame { sync: self.spec_policy() == SyncPolicy::Always },
                        frame_bytes(Entry { lsn: self.spec_next_lsn(), op: op@ }),
                    ),
                ],
                Err(e) => !fits_frame(op@) && is_too_long(e),
            },
    {
        let WalOp::Insert { id, vector } = op;
        if !vector_fits(vector.len()) {
            return Err(too_long());
        }
        let w: (Target, Vec<u8>) = self.frame_ahead(0, *id, vector.as_slice());
        let mut plan: Vec<(Target, Vec<u8>)> = Vec::with_capacity(1);
        plan.push(w);
        proof {
            assert(op@ =~= (Op { id: *id, vector: vector@ }));
            assert(steps(plan@) =~= seq![
                (
                    Target::WalFrame { sync: self.spec_policy() == SyncPolicy::Always },
                    frame_bytes(Entry { lsn: self.spec_next_lsn(), op: op@ }),
                ),
            ]);
        }
        Ok(plan)
    }

    /// Appends one record and returns its sequence number. `answer` is what
    /// performing [`Wal::append_writes`] has come to.
    pub fn append(&mut self, op: &WalOp, answer: Result<(), Error>) -> (appended: Result<
        u64,
        Error,
    >)
        requires
            old(self).spec_next_lsn() < u64::MAX,
        ensures
            final(self).spec_policy() == old(self).spec_policy(),
            final(self).spec_intact_len() == old(self).spec_intact_len(),
            appended is Ok <==> fits_frame(op@) && answer is Ok,
            match appended {
                Ok(n) => {
                    &&& n == old(self).spec_next_lsn()
                    &&& final(self).spec_next_lsn() == old(self).spec_next_lsn() + 1
                },
                Err(e) => {
                    &&& *final(self) == *old(self)
                    &&& if fits_frame(op@) {
                        answer == Err::<(), Error>(e)
                    } else {
                        is_too_long(e)
                    }
                },
            },
    {
        let lsn: u64 = self.next_lsn;
        let WalOp::Insert { id: _, vector } = op;
        if !vector_fits(vector.len()) {
            return Err(too_long());
        }
        match answer {
            Ok(_) => {
                self.next_lsn = lsn + 1;
                Ok(lsn)
            },
            Err(e) => Err(e),
        }
    }

    /// What discarding all records writes, once a checkpoint has made them
    /// redundant. Sequence numbers keep increasing across resets, so that the
    /// snapshot watermark stays unambiguous.
    pub fn reset(&self) -> (plan: Vec<(Target, Vec<u8>)>)
        ensures
            steps(plan@) == seq![(Target::WalReset, Seq::<u8>::empty())],
    {
        let mut plan: Vec<(Target, Vec<u8>)> = Vec::with_capacity(1);
        plan.push((Target::WalReset, Vec::new()));
        assert(steps(plan@) =~= seq![(Target::WalReset, Seq::<u8>::empty())]);
        plan
    }

    /// What syncing the log writes.
    pub fn sync(&self) -> (plan: Vec<(Target, Vec<u8>)>)
        ensures
            steps(plan@) == seq![(Target::WalSync, Seq::<u8>::empty())],
    {
        let mut plan: Vec<(Target, Vec<u8>)> = Vec::with_capacity(1);
        plan.push((Target::WalSync, Vec::new()));
        assert(steps(plan@) =~= seq![(Target::WalSync, Seq::<u8>::empty())]);
        plan
    }
}

pub(crate) proof fn lemma_payload_len(e: Entry)
    ensures
        payload_bytes(e).len() == payload_len(e.op.vector.len()),
{
    crate::bytes::lemma_words_bytes_len(e.op.vector);
}

} // verus!
