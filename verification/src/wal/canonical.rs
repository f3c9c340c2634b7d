//! The log holds nothing but the frames of its records.

use crate::bytes::{
    le32, le64, lemma_le32_of, lemma_le64_of, lemma_u32_at, lemma_u64_at, lemma_words_at,
    lemma_words_bytes_len, lemma_words_bytes_of, u32_at, u64_at, words_at, words_bytes,
};
use crate::checksum::crc32;
use crate::wal::laws::{all_fit, frames};
use crate::wal::{
    fits_frame, found_at, frame_bytes, lsn_after, parse_payload, payload_bytes, scan, Entry, Found,
    OP_INSERT,
};
use vstd::prelude::*;

verus! {

broadcast use {crate::bytes::lemma_le32_len, crate::bytes::lemma_le64_len};

/// A payload that is accepted is that of its record.
proof fn lemma_payload_is_canonical(p: Seq<u8>)
    requires
        p.len() >= 9,
        p.len() <= u32::MAX,
        parse_payload(p) is Ok,
    ensures
        payload_bytes(parse_payload(p)->Ok_0) == p,
        fits_frame(parse_payload(p)->Ok_0.op),
{
    let e = parse_payload(p)->Ok_0;
    let n = u32_at(p, 17) as nat;
    lemma_le64_of(p, 0);
    lemma_le64_of(p, 9);
    lemma_le32_of(p, 17);
    lemma_words_bytes_of(p, 21, n);
    let (a, b, c) = (p.subrange(0, 8), p.subrange(9, 17), p.subrange(17, 21));
    let d = p.subrange(21, (21 + 4 * n) as int);
    assert(e.op.vector.len() == n);
    assert(payload_bytes(e) == a + seq![OP_INSERT] + b + c + d);
    assert(a + seq![OP_INSERT] + b + c + d =~= p);
}

/// A frame that is accepted is that of its record.
proof fn lemma_frame_is_canonical(log: Seq<u8>, pos: int)
    requires
        0 <= pos,
        found_at(log, pos) is Record,
    ensures
        ({
            let (n, e) = (found_at(log, pos)->consumed, found_at(log, pos)->entry);
            &&& pos + n <= log.len()
            &&& log.subrange(pos, pos + n) == frame_bytes(e)
            &&& fits_frame(e.op)
        }),
{
    let len = u32_at(log, pos) as nat;
    let payload = log.subrange(pos + 8, pos + 8 + len);
    lemma_payload_is_canonical(payload);
    lemma_le32_of(log, pos);
    lemma_le32_of(log, pos + 4);
    assert(log.subrange(pos, pos + 8 + len) =~= log.subrange(pos, pos + 4) + log.subrange(
        pos + 4,
        pos + 8,
    ) + payload);
}

proof fn lemma_frames_in_front(e: Entry, rest: Seq<Entry>)
    ensures
        frames(seq![e] + rest) == frame_bytes(e) + frames(rest),
    decreases rest.len(),
{
    let all = seq![e] + rest;
    if rest.len() == 0 {
        assert(all.drop_last() =~= Seq::empty());
        assert(all.last() == e);
        assert(frames(all.drop_last()) =~= Seq::empty());
        assert(frames(all) =~= frame_bytes(e) + frames(rest));
    } else {
        lemma_frames_in_front(e, rest.drop_last());
        assert(all.drop_last() =~= seq![e] + rest.drop_last());
        assert(all.last() == rest.last());
        assert(frames(all) =~= frame_bytes(e) + frames(rest));
    }
}

/// What is read from a log is what was written: up to where the walk ends, the log
/// is byte for byte the frames of the records that it found.
pub proof fn law_a_log_is_the_frames_of_its_records(log: Seq<u8>, pos: int)
    requires
        0 <= pos <= log.len(),
    ensures
        pos <= scan(log, pos).end <= log.len(),
        log.subrange(pos, scan(log, pos).end) == frames(scan(log, pos).entries),
        all_fit(scan(log, pos).entries),
    decreases log.len() - pos,
{
    let s = scan(log, pos);
    match found_at(log, pos) {
        Found::Record { consumed, entry } => {
            lemma_frame_is_canonical(log, pos);
            let next = pos + consumed;
            law_a_log_is_the_frames_of_its_records(log, next);
            let rest = scan(log, next);
            lemma_frames_in_front(entry, rest.entries);
            assert(log.subrange(pos, s.end) =~= log.subrange(pos, next) + log.subrange(
                next,
                s.end,
            ));
            assert forall|i: int| 0 <= i < s.entries.len() implies fits_frame(
                (#[trigger] s.entries[i]).op,
            ) by {
                if i > 0 {
                    assert(s.entries[i] == rest.entries[i - 1]);
                }
            }
        },
        _ => {
            assert(log.subrange(pos, pos) =~= frames(s.entries));
        },
    }
}

/// The next sequence number is right behind that of some record, or the largest
/// there is, or zero if there is no record.
pub proof fn law_no_sequence_number_is_left_out(entries: Seq<Entry>)
    ensures
        entries.len() == 0 ==> lsn_after(entries) == 0,
        entries.len() > 0 ==> exists|i: int|
            0 <= i < entries.len() && (lsn_after(entries) == (#[trigger] entries[i]).lsn + 1
                || lsn_after(entries) == u64::MAX && entries[i].lsn == u64::MAX),
    decreases entries.len(),
{
    if entries.len() > 0 {
        let front = entries.drop_last();
        law_no_sequence_number_is_left_out(front);
        let last = entries.len() - 1;
        assert(entries[last] == entries.last());
        if front.len() > 0 {
            let i = choose|i: int|
                0 <= i < front.len() && (lsn_after(front) == (#[trigger] front[i]).lsn + 1
                    || lsn_after(front) == u64::MAX && front[i].lsn == u64::MAX);
            assert(entries[i] == front[i]);
        }
    }
}

/// Where things stand in the frame of a record: the length of its payload and the
/// checksum of that, then the payload, which is the sequence number, a byte that
/// says what was done, the id, the number of components, and these.
pub proof fn law_frames_are_laid_out_like_this(e: Entry, i: int)
    requires
        fits_frame(e.op),
        0 <= i < e.op.vector.len(),
    ensures
        ({
            let f = frame_bytes(e);
            &&& f.len() == 29 + 4 * e.op.vector.len()
            &&& u32_at(f, 0) == f.len() - 8
            &&& u32_at(f, 4) == crc32(f.subrange(8, f.len() as int))
            &&& u64_at(f, 8) == e.lsn
            &&& f[16] == OP_INSERT
            &&& u64_at(f, 17) == e.op.id
            &&& u32_at(f, 25) == e.op.vector.len()
            &&& u32_at(f, 29 + 4 * i) == e.op.vector[i]
        }),
{
    let f = frame_bytes(e);
    let p = payload_bytes(e);
    let n = e.op.vector.len();
    let words = words_bytes(e.op.vector);
    lemma_words_bytes_len(e.op.vector);
    assert(p.len() == 21 + 4 * n);
    assert(f.subrange(8, f.len() as int) =~= p);
    assert(f.subrange(0, 4) =~= le32(p.len() as u32));
    lemma_u32_at(f, 0, p.len() as u32);
    assert(f.subrange(4, 8) =~= le32(crc32(p)));
    lemma_u32_at(f, 4, crc32(p));
    assert(f.subrange(8, 16) =~= le64(e.lsn));
    lemma_u64_at(f, 8, e.lsn);
    assert(f.subrange(17, 25) =~= le64(e.op.id));
    lemma_u64_at(f, 17, e.op.id);
    assert(f.subrange(25, 29) =~= le32(n as u32));
    lemma_u32_at(f, 25, n as u32);
    assert(f.subrange(29, 29 + 4 * n as int) =~= words);
    lemma_words_at(f, 29, e.op.vector);
    assert(words_at(f, 29, n)[i] == e.op.vector[i]);
}

} // verus!
