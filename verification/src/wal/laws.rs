//! What the log promises as a whole: records read back, a torn tail costs
//! nothing that was acknowledged, and damage before the tail is never taken
//! for one.

use super::{
    comes_by, fits_frame, found_at, frame_bytes, lemma_payload_len, length_agrees, lsn_after,
    parse_payload, payload_bytes, payload_len, record_behind, scan, told_apart, whole_record_at,
    Damage, Entry, Found, Scan, OP_INSERT,
};
use crate::bytes::{
    le32, le64, lemma_u32_at, lemma_u64_at, lemma_words_at, lemma_words_bytes_len, u32_at,
    words_bytes,
};
use crate::checksum::{crc32, differ_at, one_byte_off};
use vstd::prelude::*;

verus! {

broadcast use {crate::bytes::lemma_le32_len, crate::bytes::lemma_le64_len};

/// A log that holds exactly these records.
pub open spec fn frames(entries: Seq<Entry>) -> Seq<u8>
    decreases entries.len(),
{
    if entries.len() == 0 {
        Seq::empty()
    } else {
        frames(entries.drop_last()) + frame_bytes(entries.last())
    }
}

/// Every record fits in a frame.
pub open spec fn all_fit(entries: Seq<Entry>) -> bool {
    forall|i: int| 0 <= i < entries.len() ==> fits_frame(#[trigger] entries[i].op)
}

/// A payload parses to the record that it was made of.
proof fn lemma_parse_payload(e: Entry)
    requires
        fits_frame(e.op),
    ensures
        parse_payload(payload_bytes(e)) == Ok::<Entry, Damage>(e),
{
    let p = payload_bytes(e);
    let n = e.op.vector.len();
    lemma_payload_len(e);
    lemma_words_bytes_len(e.op.vector);
    let (a, b, c, d) = (le64(e.lsn), seq![OP_INSERT], le64(e.op.id), le32(n as u32));
    assert(p.subrange(0, 8) =~= a);
    lemma_u64_at(p, 0, e.lsn);
    assert(p[8] == OP_INSERT);
    assert(p.subrange(9, 17) =~= c);
    lemma_u64_at(p, 9, e.op.id);
    assert(p.subrange(17, 21) =~= d);
    lemma_u32_at(p, 17, n as u32);
    assert(p.subrange(21, 21 + 4 * n as int) =~= words_bytes(e.op.vector));
    lemma_words_at(p, 21, e.op.vector);
}

/// The frame of a record is found as that record, whatever surrounds it.
pub proof fn lemma_found_frame(log: Seq<u8>, pos: int, e: Entry)
    requires
        fits_frame(e.op),
        0 <= pos,
        pos + frame_bytes(e).len() <= log.len(),
        log.subrange(pos, pos + frame_bytes(e).len()) == frame_bytes(e),
    ensures
        found_at(log, pos) == (Found::Record { consumed: frame_bytes(e).len(), entry: e }),
        frame_bytes(e).len() == 8 + payload_len(e.op.vector.len()),
{
    let f = frame_bytes(e);
    let p = payload_bytes(e);
    lemma_payload_len(e);
    assert(log.subrange(pos, pos + 4) =~= f.subrange(0, 4));
    assert(f.subrange(0, 4) =~= le32(p.len() as u32));
    lemma_u32_at(log, pos, p.len() as u32);
    assert(log.subrange(pos + 4, pos + 8) =~= f.subrange(4, 8));
    assert(f.subrange(4, 8) =~= le32(crc32(p)));
    lemma_u32_at(log, pos + 4, crc32(p));
    assert(log.subrange(pos + 8, pos + 8 + p.len()) =~= f.subrange(8, 8 + p.len() as int));
    assert(f.subrange(8, 8 + p.len() as int) =~= p);
    lemma_parse_payload(e);
}

/// An intact record is found in any log that has the same bytes there.
proof fn lemma_record_is_local(log: Seq<u8>, other: Seq<u8>, pos: int, end: int)
    requires
        0 <= pos <= end <= log.len(),
        end <= other.len(),
        other.take(end) == log.take(end),
        found_at(log, pos) matches Found::Record { consumed, .. } && pos + consumed <= end,
    ensures
        found_at(other, pos) == found_at(log, pos),
{
    assert forall|i: int| 0 <= i < end implies other[i] == log[i] by {
        assert(other.take(end)[i] == other[i]);
        assert(log.take(end)[i] == log[i]);
    }
    let len = u32_at(log, pos) as nat;
    assert(u32_at(other, pos) == u32_at(log, pos));
    assert(u32_at(other, pos + 4) == u32_at(log, pos + 4));
    assert(other.subrange(pos + 8, pos + 8 + len) =~= log.subrange(pos + 8, pos + 8 + len));
}

/// A walk stays within the log and ends no earlier than it starts.
pub proof fn lemma_scan_bounds(log: Seq<u8>, pos: int)
    requires
        0 <= pos <= log.len(),
    ensures
        pos <= scan(log, pos).end <= log.len(),
    decreases log.len() - pos,
{
    if let Found::Record { consumed, entry } = found_at(log, pos) {
        lemma_scan_bounds(log, pos + consumed);
    }
}

/// The records that a walk finds depend only on the bytes up to where it
/// ends: in another log with those bytes they are found again, and the walk
/// goes on behind them.
pub proof fn lemma_scan_is_local(log: Seq<u8>, other: Seq<u8>, pos: int)
    requires
        0 <= pos <= log.len(),
        scan(log, pos).end <= other.len(),
        other.take(scan(log, pos).end) == log.take(scan(log, pos).end),
    ensures
        ({
            let end = scan(log, pos).end;
            &&& scan(other, pos).entries == scan(log, pos).entries + scan(other, end).entries
            &&& scan(other, pos).end == scan(other, end).end
            &&& scan(other, pos).damage == scan(other, end).damage
        }),
    decreases log.len() - pos,
{
    let end = scan(log, pos).end;
    lemma_scan_bounds(log, pos);
    match found_at(log, pos) {
        Found::Record { consumed, entry } => {
            lemma_scan_bounds(log, pos + consumed);
            lemma_record_is_local(log, other, pos, end);
            lemma_scan_is_local(log, other, pos + consumed);
            let rest = scan(log, pos + consumed).entries;
            assert(scan(other, pos).entries == seq![entry] + (rest + scan(other, end).entries));
            assert(seq![entry] + (rest + scan(other, end).entries) =~= (seq![entry] + rest)
                + scan(other, end).entries);
        },
        _ => {
            assert(scan(log, pos).entries + scan(other, end).entries =~= scan(other, end).entries);
        },
    }
}

/// Whether an intact record lies at a position does not depend on what lies
/// before it.
proof fn lemma_whole_is_shift(front: Seq<u8>, tail: Seq<u8>, at: int)
    requires
        0 <= at,
    ensures
        whole_record_at(front + tail, front.len() + at) == whole_record_at(tail, at),
{
    let log = front + tail;
    let pos = front.len() + at;
    if at + 8 <= tail.len() {
        assert(u32_at(log, pos) == u32_at(tail, at));
        assert(u32_at(log, pos + 4) == u32_at(tail, at + 4));
        let len = u32_at(tail, at) as nat;
        if at + 8 + len <= tail.len() {
            assert(log.subrange(pos + 8, pos + 8 + len) =~= tail.subrange(
                at + 8,
                at + 8 + len as int,
            ));
        }
    }
}

proof fn lemma_behind_is_shift(front: Seq<u8>, tail: Seq<u8>)
    ensures
        record_behind(front + tail, front.len() as int) == record_behind(tail, 0),
{
    reveal(record_behind);
    let log = front + tail;
    let pos = front.len() as int;
    if record_behind(log, pos) {
        let at = choose|at: int| pos < at && #[trigger] whole_record_at(log, at);
        lemma_whole_is_shift(front, tail, at - pos);
        assert(whole_record_at(tail, at - pos));
    }
    if record_behind(tail, 0) {
        let at = choose|at: int| 0 < at && #[trigger] whole_record_at(tail, at);
        lemma_whole_is_shift(front, tail, at);
        assert(whole_record_at(log, pos + at));
    }
}

/// What lies at a position does not depend on what lies before it.
proof fn lemma_found_is_shift(front: Seq<u8>, tail: Seq<u8>)
    ensures
        found_at(front + tail, front.len() as int) == found_at(tail, 0),
{
    let log = front + tail;
    let pos = front.len() as int;
    if tail.len() >= 8 {
        assert(u32_at(log, pos) == u32_at(tail, 0));
        assert(u32_at(log, pos + 4) == u32_at(tail, 4));
        let len = u32_at(tail, 0) as nat;
        if 8 + len <= tail.len() {
            assert(log.subrange(pos + 8, pos + 8 + len) =~= tail.subrange(8, 8 + len as int));
        }
        lemma_behind_is_shift(front, tail);
        if tail.len() >= 29 {
            assert(u32_at(log, pos + 25) == u32_at(tail, 25));
        }
    }
}

/// One more intact frame behind a clean log is one more record.
proof fn lemma_scan_one_more(front: Seq<u8>, frame: Seq<u8>, e: Entry)
    requires
        scan(front, 0).end == front.len(),
        found_at(front + frame, front.len() as int) == (Found::Record {
            consumed: frame.len(),
            entry: e,
        }),
    ensures
        scan(front + frame, 0) == (Scan {
            entries: scan(front, 0).entries.push(e),
            end: (front + frame).len() as int,
            damage: None,
        }),
{
    let log = front + frame;
    assert(log.take(front.len() as int) =~= front.take(front.len() as int));
    lemma_scan_is_local(front, log, 0);
    assert(scan(log, log.len() as int).entries =~= Seq::empty());
    assert(scan(log, front.len() as int).entries =~= seq![e]);
    assert(scan(front, 0).entries + seq![e] =~= scan(front, 0).entries.push(e));
}

/// The frame of a record behind any bytes.
proof fn lemma_found_frame_behind(front: Seq<u8>, e: Entry)
    requires
        fits_frame(e.op),
    ensures
        found_at(front + frame_bytes(e), front.len() as int) == (Found::Record {
            consumed: frame_bytes(e).len(),
            entry: e,
        }),
{
    let f = frame_bytes(e);
    assert((front + f).subrange(front.len() as int, (front + f).len() as int) =~= f);
    lemma_found_frame(front + f, front.len() as int, e);
}

/// A log gives back the records that were written to it, in order.
pub proof fn law_records_read_back(entries: Seq<Entry>)
    requires
        all_fit(entries),
    ensures
        scan(frames(entries), 0) == (Scan {
            entries,
            end: frames(entries).len() as int,
            damage: None,
        }),
    decreases entries.len(),
{
    let log = frames(entries);
    if entries.len() > 0 {
        let front = frames(entries.drop_last());
        let e = entries.last();
        assert(all_fit(entries.drop_last()));
        law_records_read_back(entries.drop_last());
        lemma_found_frame_behind(front, e);
        lemma_scan_one_more(front, frame_bytes(e), e);
        assert(entries.drop_last().push(e) =~= entries);
    } else {
        assert(scan(log, 0).entries =~= entries);
    }
}

/// Once a log has been cut down to its intact records it is clean, and a
/// record appended to it reads back behind them.
pub proof fn law_log_works_after_truncation(log: Seq<u8>, e: Entry)
    requires
        fits_frame(e.op),
    ensures
        ({
            let kept = log.take(scan(log, 0).end);
            &&& scan(kept, 0) == (Scan {
                entries: scan(log, 0).entries,
                end: kept.len() as int,
                damage: None,
            })
            &&& scan(kept + frame_bytes(e), 0) == (Scan {
                entries: scan(log, 0).entries.push(e),
                end: (kept + frame_bytes(e)).len() as int,
                damage: None,
            })
        }),
{
    let end = scan(log, 0).end;
    lemma_scan_bounds(log, 0);
    let kept = log.take(end);
    assert(kept.take(end) =~= log.take(end));
    lemma_scan_is_local(log, kept, 0);
    assert(scan(kept, end).entries =~= Seq::empty());
    assert(scan(kept, 0).entries =~= scan(log, 0).entries);
    lemma_found_frame_behind(kept, e);
    lemma_scan_one_more(kept, frame_bytes(e), e);
}

/// Behind a clean log a torn tail is left out, whatever it is.
pub proof fn law_a_torn_tail_is_left_out(log: Seq<u8>, tail: Seq<u8>)
    requires
        scan(log, 0).end == log.len(),
        found_at(tail, 0) is Torn || found_at(tail, 0) is Eof,
    ensures
        scan(log + tail, 0) == (Scan {
            entries: scan(log, 0).entries,
            end: log.len() as int,
            damage: None,
        }),
{
    let all = log + tail;
    assert(all.take(log.len() as int) =~= log.take(log.len() as int));
    lemma_scan_is_local(log, all, 0);
    lemma_found_is_shift(log, tail);
    assert(scan(all, log.len() as int).entries =~= Seq::empty());
    assert(scan(all, 0).entries =~= scan(log, 0).entries);
}

proof fn lemma_scan_of_bad_tail(entries: Seq<Entry>, tail: Seq<u8>)
    requires
        all_fit(entries),
        !(found_at(tail, 0) is Record),
    ensures
        scan(frames(entries) + tail, 0) == (Scan {
            entries,
            end: frames(entries).len() as int,
            damage: match found_at(tail, 0) {
                Found::Corrupt(d) => Some(d),
                _ => None,
            },
        }),
{
    let front = frames(entries);
    let log = front + tail;
    law_records_read_back(entries);
    assert(log.take(front.len() as int) =~= front.take(front.len() as int));
    lemma_scan_is_local(front, log, 0);
    lemma_found_is_shift(front, tail);
    assert(scan(log, front.len() as int).entries =~= Seq::empty());
    assert(scan(log, 0).entries =~= entries);
}

proof fn lemma_part_of_a_frame(e: Entry, left: int)
    requires
        fits_frame(e.op),
        0 <= left < frame_bytes(e).len(),
    ensures
        found_at(frame_bytes(e).take(left), 0) is Eof || found_at(frame_bytes(e).take(left), 0)
            is Torn,
{
    let p = payload_bytes(e);
    let n: u32 = p.len() as u32;
    lemma_payload_len(e);
    let f = frame_bytes(e);
    assert(f.len() == 8 + p.len());
    assert(f.subrange(0, 4) =~= le32(n));
    lemma_u32_at(f, 0, n);
    let tail = f.take(left);
    if left >= 8 {
        assert(u32_at(tail, 0) == u32_at(f, 0));
    }
    lemma_frame_fields(e);
    if left >= 29 {
        assert(u32_at(tail, 25) == u32_at(f, 25));
    }
}

/// The fields of a frame that tell its length.
proof fn lemma_frame_fields(e: Entry)
    requires
        fits_frame(e.op),
    ensures
        frame_bytes(e).len() == 8 + payload_len(e.op.vector.len()),
        frame_bytes(e)[16] == OP_INSERT,
        u32_at(frame_bytes(e), 25) == e.op.vector.len(),
{
    let p = payload_bytes(e);
    let f = frame_bytes(e);
    let n: u32 = e.op.vector.len() as u32;
    lemma_payload_len(e);
    assert(p[8] == OP_INSERT);
    assert(f[16] == p[8]);
    assert(p.subrange(17, 21) =~= le32(n));
    assert(f.subrange(25, 29) =~= p.subrange(17, 21));
    lemma_u32_at(f, 25, n);
}

/// A crash in the middle of a write, which leaves any part of a frame behind,
/// costs none of the records before it.
pub proof fn law_torn_write_costs_nothing(entries: Seq<Entry>, e: Entry, left: int)
    requires
        all_fit(entries),
        fits_frame(e.op),
        0 <= left < frame_bytes(e).len(),
    ensures
        scan(frames(entries) + frame_bytes(e).take(left), 0) == (Scan {
            entries,
            end: frames(entries).len() as int,
            damage: None,
        }),
{
    lemma_part_of_a_frame(e, left);
    lemma_scan_of_bad_tail(entries, frame_bytes(e).take(left));
}

/// A frame of this length whose payload does not match its checksum.
pub open spec fn rotten(frame: Seq<u8>) -> bool {
    &&& frame.len() >= 17
    &&& u32_at(frame, 0) + 8 == frame.len()
    &&& crc32(frame.subrange(8, frame.len() as int)) != u32_at(frame, 4)
}

/// A bad frame at the end of the log costs none of the records before it,
/// whatever it holds, if no intact record lies behind it: the log opens, and all
/// records are kept.
pub proof fn law_a_bad_end_costs_nothing(entries: Seq<Entry>, tail: Seq<u8>)
    requires
        all_fit(entries),
        tail.len() <= 8 || 9 <= u32_at(tail, 0) && 8 + u32_at(tail, 0) >= tail.len(),
        !whole_record_at(tail, 0),
        !record_behind(tail, 0),
    ensures
        scan(frames(entries) + tail, 0) == (Scan {
            entries,
            end: frames(entries).len() as int,
            damage: None,
        }),
{
    lemma_scan_of_bad_tail(entries, tail);
}

/// A damaged frame at the very end is a torn tail: the records before it are
/// kept and the log opens.
pub proof fn law_damaged_tail_is_torn(entries: Seq<Entry>, bad: Seq<u8>)
    requires
        all_fit(entries),
        rotten(bad),
        length_agrees(bad, 0) || !record_behind(bad, 0),
    ensures
        scan(frames(entries) + bad, 0) == (Scan {
            entries,
            end: frames(entries).len() as int,
            damage: None,
        }),
{
    assert(bad.subrange(8, 8 + u32_at(bad, 0) as int) =~= bad.subrange(8, bad.len() as int));
    lemma_scan_of_bad_tail(entries, bad);
}

/// A damaged frame with anything after it stops recovery: the log does not
/// open, and nothing is cut off.
pub proof fn law_damage_before_the_tail_is_refused(
    entries: Seq<Entry>,
    bad: Seq<u8>,
    after: Seq<u8>,
)
    requires
        all_fit(entries),
        rotten(bad),
        after.len() > 0,
    ensures
        scan(frames(entries) + (bad + after), 0) == (Scan {
            entries,
            end: frames(entries).len() as int,
            damage: Some(Damage::ChecksumMismatch),
        }),
{
    let tail = bad + after;
    assert(u32_at(tail, 0) == u32_at(bad, 0));
    assert(u32_at(tail, 4) == u32_at(bad, 4));
    assert(tail.subrange(8, 8 + u32_at(bad, 0) as int) =~= bad.subrange(8, bad.len() as int));
    lemma_scan_of_bad_tail(entries, tail);
}

/// The log holds some records and another one behind them of which one byte was
/// changed, in its checksum or in what the checksum covers. Then comes `after`.
pub open spec fn damaged_in_one_byte(
    log: Seq<u8>,
    before: Seq<Entry>,
    e: Entry,
    after: Seq<u8>,
) -> bool {
    &&& all_fit(before)
    &&& fits_frame(e.op)
    &&& exists|bad: Seq<u8>, at: int| #[trigger]
        differ_at(bad, frame_bytes(e), at) && 4 <= at && log == frames(before) + (bad + after)
}

/// A walk goes on behind a record.
proof fn lemma_comes_further(log: Seq<u8>, from: int, pos: int)
    requires
        0 <= from <= log.len(),
        0 <= pos <= log.len(),
        comes_by(log, from, pos),
        found_at(log, pos) is Record,
    ensures
        comes_by(log, from, pos + found_at(log, pos)->consumed),
    decreases log.len() - from,
{
    if pos != from {
        lemma_comes_further(log, from + found_at(log, from)->consumed, pos);
    } else {
        let next = pos + found_at(log, pos)->consumed;
        assert(comes_by(log, next, next));
    }
}

/// A walk comes by the end of the records that a log starts with.
proof fn lemma_comes_by_the_end(log: Seq<u8>, entries: Seq<Entry>)
    requires
        all_fit(entries),
        frames(entries).len() <= log.len(),
        log.take(frames(entries).len() as int) == frames(entries),
    ensures
        comes_by(log, 0, frames(entries).len() as int),
    decreases entries.len(),
{
    if entries.len() > 0 {
        let front = entries.drop_last();
        let e = entries.last();
        let (a, b) = (frames(front).len() as int, frames(entries).len() as int);
        assert(log.take(a) =~= log.take(b).take(a));
        assert(frames(entries).take(a) =~= frames(front));
        assert(all_fit(front)) by {
            assert forall|i: int| 0 <= i < front.len() implies fits_frame(
                #[trigger] front[i].op,
            ) by {
                assert(front[i] == entries[i]);
            }
        }
        lemma_comes_by_the_end(log, front);
        assert(log.subrange(a, b) =~= log.take(b).subrange(a, b));
        assert(frames(entries).subrange(a, b) =~= frame_bytes(e));
        assert(entries[entries.len() - 1] == e);
        lemma_found_frame(log, a, e);
        lemma_comes_further(log, 0, a);
    }
}

/// A record of which one byte was changed does not match its checksum.
proof fn lemma_damage_is_rot(log: Seq<u8>, front: Seq<u8>, e: Entry, bad: Seq<u8>, at: int)
    requires
        fits_frame(e.op),
        differ_at(bad, frame_bytes(e), at),
        4 <= at,
        front.len() + bad.len() <= log.len(),
        log.subrange(front.len() as int, (front.len() + bad.len()) as int) == bad,
        told_apart(log, front.len() as int),
    ensures
        rotten(bad),
{
    let f = frame_bytes(e);
    let p = payload_bytes(e);
    let n: u32 = p.len() as u32;
    let from = front.len() as int;
    lemma_frame_fields(e);
    lemma_payload_len(e);
    assert(f.subrange(0, 4) =~= le32(n));
    assert(f.subrange(4, 8) =~= le32(crc32(p)));
    assert(f.subrange(8, f.len() as int) =~= p);
    lemma_u32_at(f, 0, n);
    lemma_u32_at(f, 4, crc32(p));
    assert(bad.subrange(0, 4) =~= f.subrange(0, 4));
    lemma_u32_at(bad, 0, n);
    let payload = bad.subrange(8, bad.len() as int);
    if at < 8 {
        assert(payload =~= p);
        assert(bad[at] != f[at]);
        assert(u32_at(bad, 4) != u32_at(f, 4));
    } else {
        assert(bad.subrange(4, 8) =~= f.subrange(4, 8));
        lemma_u32_at(bad, 4, crc32(p));
        assert(log.subrange(from, from + 4) =~= bad.subrange(0, 4));
        lemma_u32_at(log, from, n);
        assert(log.subrange(from + 8, from + 8 + n) =~= payload);
        assert(differ_at(payload, p, at - 8));
        assert(one_byte_off(payload, p));
    }
}

proof fn lemma_agreement_is_shift(front: Seq<u8>, tail: Seq<u8>)
    requires
        tail.len() >= 8,
    ensures
        length_agrees(front + tail, front.len() as int) == length_agrees(tail, 0),
{
    let log = front + tail;
    let pos = front.len() as int;
    assert(u32_at(log, pos) == u32_at(tail, 0));
    if tail.len() >= 29 {
        assert(u32_at(log, pos + 25) == u32_at(tail, 25));
    }
}

/// What a walk makes of a log with a record of which one byte was changed.
pub proof fn lemma_damage_is_found(log: Seq<u8>)
    requires
        forall|pos: int| #[trigger] comes_by(log, 0, pos) ==> told_apart(log, pos),
    ensures
        forall|before: Seq<Entry>, e: Entry, after: Seq<u8>| #[trigger]
            damaged_in_one_byte(log, before, e, after) && (after.len() > 0 || length_agrees(
                log,
                frames(before).len() as int,
            ) || !record_behind(log, frames(before).len() as int)) ==> scan(log, 0) == (Scan {
                entries: before,
                end: frames(before).len() as int,
                damage: if after.len() > 0 {
                    Some(Damage::ChecksumMismatch)
                } else {
                    None
                },
            }),
{
    assert forall|before: Seq<Entry>, e: Entry, after: Seq<u8>| #[trigger]
        damaged_in_one_byte(log, before, e, after) && (after.len() > 0 || length_agrees(
            log,
            frames(before).len() as int,
        ) || !record_behind(log, frames(before).len() as int)) implies scan(log, 0) == (Scan {
        entries: before,
        end: frames(before).len() as int,
        damage: if after.len() > 0 {
            Some(Damage::ChecksumMismatch)
        } else {
            None
        },
    }) by {
        let (bad, at) = choose|bad: Seq<u8>, at: int| #[trigger]
            differ_at(bad, frame_bytes(e), at) && 4 <= at && log == frames(before) + (bad + after);
        let front = frames(before);
        assert(log.take(front.len() as int) =~= front);
        lemma_comes_by_the_end(log, before);
        assert(log.subrange(front.len() as int, (front.len() + bad.len()) as int) =~= bad);
        lemma_damage_is_rot(log, front, e, bad, at);
        if after.len() > 0 {
            law_damage_before_the_tail_is_refused(before, bad, after);
        } else {
            assert(bad + after =~= bad);
            lemma_behind_is_shift(front, bad);
            lemma_agreement_is_shift(front, bad);
            law_damaged_tail_is_torn(before, bad);
        }
    }
}

/// The frame of a record with another length written over its own.
pub open spec fn with_length(e: Entry, len: u32) -> Seq<u8> {
    le32(len) + frame_bytes(e).subrange(4, frame_bytes(e).len() as int)
}

/// A record whose length was damaged, with intact records behind it, is not
/// taken for a torn one, whatever length it states: the log does not open, and
/// nothing is cut off.
pub proof fn law_a_damaged_length_is_refused(
    entries: Seq<Entry>,
    e: Entry,
    len: u32,
    rest: Seq<Entry>,
)
    requires
        all_fit(entries),
        fits_frame(e.op),
        all_fit(rest),
        rest.len() > 0,
        len != payload_len(e.op.vector.len()),
    ensures
        ({
            let log = frames(entries) + (with_length(e, len) + frames(rest));
            &&& scan(log, 0).entries == entries
            &&& scan(log, 0).end == frames(entries).len()
            &&& scan(log, 0).damage is Some
            &&& 8 + len >= (with_length(e, len) + frames(rest)).len() ==> scan(log, 0).damage
                == Some(Damage::ImpossibleLength)
        }),
{
    let bad = with_length(e, len);
    let tail = bad + frames(rest);
    let f = frame_bytes(e);
    lemma_frame_fields(e);
    assert(tail.subrange(0, 4) =~= le32(len));
    lemma_u32_at(tail, 0, len);
    assert(tail[16] == f[16]);
    assert(u32_at(tail, 25) == u32_at(f, 25));
    lemma_first_frame(rest);
    lemma_whole_is_shift(bad, frames(rest), 0);
    assert(record_behind(tail, 0)) by {
        reveal(record_behind);
        assert(whole_record_at(tail, bad.len() as int));
    }
    if 9 <= len && 8 + len <= tail.len() {
        let payload = tail.subrange(8, 8 + len as int);
        assert(payload[8] == tail[16]);
        if len >= 21 {
            assert(u32_at(payload, 17) == u32_at(tail, 25));
        }
        assert(parse_payload(payload) is Err);
    }
    assert(!length_agrees(tail, 0));
    lemma_scan_of_bad_tail(entries, tail);
}

/// A log that holds records starts with one.
proof fn lemma_first_frame(entries: Seq<Entry>)
    requires
        all_fit(entries),
        entries.len() > 0,
    ensures
        whole_record_at(frames(entries), 0),
    decreases entries.len(),
{
    let front = entries.drop_last();
    let e = entries.last();
    assert(entries[entries.len() - 1] == e);
    if front.len() == 0 {
        assert(frames(front) =~= Seq::empty());
        assert(frames(entries) =~= frame_bytes(e));
        assert(frames(entries).subrange(0, frame_bytes(e).len() as int) =~= frame_bytes(e));
        lemma_found_frame(frames(entries), 0, e);
    } else {
        assert(all_fit(front)) by {
            assert forall|i: int| 0 <= i < front.len() implies fits_frame(
                #[trigger] front[i].op,
            ) by {
                assert(front[i] == entries[i]);
            }
        }
        lemma_first_frame(front);
        let log = frames(entries);
        let len = u32_at(frames(front), 0) as nat;
        assert(u32_at(log, 0) == u32_at(frames(front), 0));
        assert(u32_at(log, 4) == u32_at(frames(front), 4));
        assert(log.subrange(8, 8 + len as int) =~= frames(front).subrange(8, 8 + len as int));
    }
}

/// The next sequence number lies above those of all records.
pub proof fn law_next_lsn_is_fresh(entries: Seq<Entry>, i: int)
    requires
        0 <= i < entries.len(),
        entries[i].lsn < u64::MAX,
    ensures
        lsn_after(entries) > entries[i].lsn,
    decreases entries.len(),
{
    if i < entries.len() - 1 {
        law_next_lsn_is_fresh(entries.drop_last(), i);
    }
}

} // verus!
