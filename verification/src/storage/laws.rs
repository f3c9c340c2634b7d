//! What holds of the vector store as a whole.

use crate::bytes::{
    lemma_words_at, lemma_words_bytes_len, u32_at, u64_at, words_at, words_bytes,
};
use crate::doubling::{
    law_every_row_has_one_place, lemma_segments_grow, place_of, rows_before, rows_in, segment_of,
};
use crate::io::{after_write, performed, placed, segment_at, Disk};
use crate::storage::store::{
    addressable, byte_or_zero, extended, flush_plan, lemma_segment_is_there, lemma_segment_size,
    lemma_with_count, open_refusal, row_at, row_offset, rows_at, segment_in, segment_offset,
    segments_bytes, segments_needed, stored_in, stride_of, with_count, Stored, VectorStore,
    HEADER_SIZE, OFF_COUNT, OFF_DIM, OFF_MAGIC, OFF_STRIDE, OFF_VERSION, ROW_ALIGN,
};
use vstd::prelude::*;

verus! {

broadcast use {crate::bytes::lemma_le32_len, crate::bytes::lemma_le64_len};

/// A row takes the least multiple of [`ROW_ALIGN`] bytes that its words fit in.
pub proof fn law_rows_take_no_more_than_they_need(dim: nat)
    ensures
        stride_of(dim) % ROW_ALIGN as nat == 0,
        4 * dim <= stride_of(dim) < 4 * dim + ROW_ALIGN,
{
}

/// Rows lie one behind the other in the file, whatever segment they are in;
/// every row starts at a multiple of [`ROW_ALIGN`] bytes and every segment at
/// a multiple of a page.
pub proof fn law_rows_are_aligned(stride: nat, id: nat, seg: nat)
    requires
        stride % 64 == 0,
    ensures
        row_offset(stride, id) == HEADER_SIZE + id * stride,
        row_offset(stride, id) % ROW_ALIGN as int == 0,
        segment_offset(stride, seg) % 4096 == 0,
{
    let (b, p) = (rows_before(segment_of(id)), place_of(id));
    assert(b * stride + p * stride == (b + p) * stride) by (nonlinear_arith);
    let k = (stride / 64) as int;
    assert(stride == 64 * k);
    assert(id * (64 * k) == 64 * (id * k)) by (nonlinear_arith);
    let n = vstd::arithmetic::power2::pow2(seg) - 1;
    assert((1024 * n) * (64 * k) == 4096 * (16 * (n * k))) by (nonlinear_arith);
}

/// The word whose least significant byte is at `at`. What lies behind the end of
/// the file counts as zeros.
pub open spec fn word_at(file: Seq<u8>, at: int) -> int {
    byte_or_zero(file, at) + 256 * byte_or_zero(file, at + 1) + 65536 * byte_or_zero(file, at + 2)
        + 16777216 * byte_or_zero(file, at + 3)
}

/// A store that opens has its rows one behind the other, as far apart as the
/// header says, and every row has the dimension that the header says: word `j`
/// of row `id` stands `4 * j` bytes behind where the row starts.
pub proof fn law_rows_are_read_from_their_places(file: Seq<u8>, id: int, j: int)
    requires
        open_refusal(file) is None,
        0 <= id < u64_at(file, OFF_COUNT as int),
        0 <= j < u32_at(file, OFF_DIM as int),
    ensures
        stored_in(file).dim == u32_at(file, OFF_DIM as int),
        stored_in(file).stride == u64_at(file, OFF_STRIDE as int),
        stored_in(file).rows.len() == u64_at(file, OFF_COUNT as int),
        stored_in(file).rows[id].len() == u32_at(file, OFF_DIM as int),
        stored_in(file).rows[id][j] == word_at(
            file,
            HEADER_SIZE + id * u64_at(file, OFF_STRIDE as int) + 4 * j,
        ),
        4 * stored_in(file).dim <= stored_in(file).stride,
        stored_in(file).stride % 64 == 0,
{
    let dim = u32_at(file, OFF_DIM as int) as nat;
    let stride = u64_at(file, OFF_STRIDE as int) as nat;
    let count = u64_at(file, OFF_COUNT as int) as nat;
    let segments = segments_needed(count);
    let seg = segment_of(id as nat);
    let place = place_of(id as nat);
    lemma_last_row_has_its_segment(count, id as nat);
    lemma_segment_size(stride, segments, seg);
    law_every_row_has_one_place(id as nat, seg);
    law_rows_are_aligned(stride, id as nat, seg);
    let w = (stride / 4) as int;
    let rows = rows_in(seg) as int;
    assert(stride == 4 * w);
    assert(place * (4 * w) == 4 * (place * w)) by (nonlinear_arith);
    assert(0 <= place * w && place * w + w <= rows * w) by (nonlinear_arith)
        requires
            0 <= place < rows,
            0 <= w,
    ;
    let words = segment_in(file, stride, seg);
    let k = place * w + j;
    let base = segment_offset(stride, seg);
    let ext = extended(file, segment_offset(stride, seg + 1) as nat);
    assert(words[k] == u32_at(ext, base + 4 * k));
    assert(base + 4 * k == HEADER_SIZE + id * stride + 4 * j);
    assert(base + 4 * k + 4 <= segment_offset(stride, seg + 1));
}

/// The segments that are needed hold all rows.
proof fn lemma_last_row_has_its_segment(count: nat, id: nat)
    requires
        id < count,
    ensures
        segment_of(id) < segments_needed(count),
{
    let last = (count - 1) as nat;
    law_every_row_has_one_place(last, segment_of(last));
    lemma_segment_is_there(count, segments_needed(count), id);
}

proof fn lemma_segments_bytes(segments: Seq<Seq<u32>>, stride: nat)
    requires
        addressable(stride, segments.len()),
        stride % 64 == 0,
        forall|k: int|
            0 <= k < segments.len() ==> (#[trigger] segments[k]).len() == rows_in(k as nat) * (
            stride / 4),
    ensures
        HEADER_SIZE + segments_bytes(segments).len() == segment_offset(stride, segments.len()),
        forall|k: int|
            0 <= k < segments.len() ==> segments_bytes(segments).subrange(
                segment_offset(stride, k as nat) - HEADER_SIZE,
                segment_offset(stride, (k + 1) as nat) - HEADER_SIZE,
            ) == words_bytes(#[trigger] segments[k]),
    decreases segments.len(),
{
    lemma_segments_grow(0, 0);
    if segments.len() > 0 {
        let front = segments.drop_last();
        let last = (segments.len() - 1) as nat;
        lemma_segment_size(stride, segments.len(), last);
        let a = rows_before(last);
        lemma_segments_grow(0, last);
        lemma_segments_bytes(front, stride);
        lemma_words_bytes_len(segments.last());
        assert(segments[last as int].len() == rows_in(last) * (stride / 4));
        let all = segments_bytes(segments);
        let part = segments_bytes(front);
        assert forall|k: int| 0 <= k < segments.len() implies all.subrange(
            segment_offset(stride, k as nat) - HEADER_SIZE,
            segment_offset(stride, (k + 1) as nat) - HEADER_SIZE,
        ) == words_bytes(#[trigger] segments[k]) by {
            lemma_segment_size(stride, segments.len(), k as nat);
            let from = segment_offset(stride, k as nat) - HEADER_SIZE;
            let to = segment_offset(stride, (k + 1) as nat) - HEADER_SIZE;
            if k < last {
                lemma_segment_size(stride, last, k as nat);
                assert(part.subrange(from, to) == words_bytes(front[k]));
                assert(all.subrange(from, to) =~= part.subrange(from, to));
            } else {
                assert(all.subrange(from, to) =~= words_bytes(segments.last()));
            }
        }
    } else {
        assert(rows_before(0) * stride == 0) by (nonlinear_arith)
            requires
                rows_before(0) == 0,
        ;
    }
}

/// A segment that was flushed is read back as it was.
proof fn lemma_segment_reads_back(store: VectorStore, seg: nat)
    requires
        store.wf(),
        seg < store.spec_segments().len(),
    ensures
        segment_in(store.file(), store.spec_stride(), seg) == store.spec_segments()[seg as int],
{
    store.lemma_sound();
    let (segments, stride) = (store.spec_segments(), store.spec_stride());
    let header = with_count(store.spec_header(), store.spec_count());
    lemma_with_count(store.spec_header(), store.spec_count() as u64);
    lemma_segments_bytes(segments, stride);
    lemma_segment_size(stride, segments.len(), seg);
    let from = segment_offset(stride, seg);
    let to = segment_offset(stride, seg + 1);
    let words = segments[seg as int];
    let file = store.file();
    let read = extended(file, to as nat);
    let body = segments_bytes(segments);
    assert(file == header + body);
    assert(body.subrange(from - HEADER_SIZE, to - HEADER_SIZE) == words_bytes(words));
    assert(read.subrange(from, from + 4 * words.len()) =~= body.subrange(
        from - HEADER_SIZE,
        to - HEADER_SIZE,
    ));
    lemma_words_at(read, from, words);
}

/// Opening what was flushed gives the same vectors back. A header page has 32
/// bits for the dimension, so it must fit.
pub proof fn law_reopening_gives_the_rows_back(store: VectorStore)
    requires
        store.wf(),
        store.spec_dim() <= u32::MAX,
    ensures
        open_refusal(store.file()) is None,
        u32_at(store.file(), OFF_DIM as int) == store.spec_dim(),
        u64_at(store.file(), OFF_STRIDE as int) == store.spec_stride(),
        u64_at(store.file(), OFF_COUNT as int) == store.spec_count(),
        rows_at(
            Seq::new(
                segments_needed(store.spec_count()),
                |seg: int| segment_in(store.file(), store.spec_stride(), seg as nat),
            ),
            store.spec_stride(),
            store.spec_dim(),
            store.spec_count(),
        ) == store.rows(),
{
    store.lemma_sound();
    let (segments, stride) = (store.spec_segments(), store.spec_stride());
    let (count, dim) = (store.spec_count(), store.spec_dim());
    let header = with_count(store.spec_header(), count);
    let file = store.file();
    lemma_with_count(store.spec_header(), count as u64);
    assert(count <= usize::MAX) by {
        store.lemma_count_fits();
    }
    assert forall|i: int| 0 <= i < HEADER_SIZE implies file[i] == header[i] by {}
    assert(u32_at(file, OFF_MAGIC as int) == u32_at(header, OFF_MAGIC as int));
    assert(u32_at(file, OFF_VERSION as int) == u32_at(header, OFF_VERSION as int));
    assert(u32_at(file, OFF_DIM as int) == u32_at(header, OFF_DIM as int));
    assert(u64_at(file, OFF_STRIDE as int) == u64_at(header, OFF_STRIDE as int));
    assert(u64_at(file, OFF_COUNT as int) == u64_at(header, OFF_COUNT as int));
    let needed = segments_needed(count);
    assert(needed <= segments.len()) by {
        if count > 0 {
            lemma_segment_is_there(count, segments.len(), (count - 1) as nat);
        }
    }
    lemma_segments_grow(needed, segments.len());
    lemma_segment_size(stride, segments.len(), (needed - 1) as nat);
    assert(open_refusal(file) is None);
    let read = Seq::new(needed, |seg: int| segment_in(file, stride, seg as nat));
    assert forall|id: int| 0 <= id < count implies #[trigger] row_at(read, stride, dim, id as nat)
        == store.rows()[id] by {
        law_every_row_has_one_place(id as nat, 0);
        crate::doubling::lemma_segment_of_grows(id as nat, (count - 1) as nat);
        lemma_segment_is_there(count, segments.len(), id as nat);
        lemma_segment_reads_back(store, segment_of(id as nat));
    }
    assert(rows_at(read, stride, dim, count) =~= store.rows());
}

/// A store file that reads as this.
pub open spec fn reads_as(file: Seq<u8>, s: Stored) -> bool {
    open_refusal(file) is None && stored_in(file) == s
}

/// A file that has the header page of another, and the same geometry.
proof fn lemma_same_header(f: Seq<u8>, file: Seq<u8>)
    requires
        file.len() >= HEADER_SIZE,
        f.len() >= file.len(),
        forall|i: int| 0 <= i < HEADER_SIZE ==> f[i] == file[i],
    ensures
        u32_at(f, OFF_DIM as int) == u32_at(file, OFF_DIM as int),
        u64_at(f, OFF_STRIDE as int) == u64_at(file, OFF_STRIDE as int),
        u64_at(f, OFF_COUNT as int) == u64_at(file, OFF_COUNT as int),
        open_refusal(f) == open_refusal(file),
{
    assert(u32_at(f, OFF_MAGIC as int) == u32_at(file, OFF_MAGIC as int));
    assert(u32_at(f, OFF_VERSION as int) == u32_at(file, OFF_VERSION as int));
}

/// A segment depends on its own bytes alone.
proof fn lemma_segment_is_local(f: Seq<u8>, file: Seq<u8>, stride: nat, segments: nat, seg: nat)
    requires
        addressable(stride, segments),
        seg < segments,
        stride % 64 == 0,
        forall|i: int|
            segment_offset(stride, seg) <= i < segment_offset(stride, seg + 1)
                ==> #[trigger] byte_or_zero(f, i) == byte_or_zero(file, i),
    ensures
        segment_in(f, stride, seg) == segment_in(file, stride, seg),
{
    lemma_segment_size(stride, segments, seg);
    let from = segment_offset(stride, seg);
    let to = segment_offset(stride, seg + 1);
    let n = rows_in(seg) * (stride / 4);
    let (a, b) = (extended(f, to as nat), extended(file, to as nat));
    assert forall|i: int| from <= i < to implies #[trigger] a[i] == b[i] by {
        assert(byte_or_zero(f, i) == byte_or_zero(file, i));
    }
    assert forall|k: int| 0 <= k < n implies words_at(a, from, n)[k] == words_at(b, from, n)[k] by {
        assert(a[from + 4 * k] == b[from + 4 * k]);
        assert(a[from + 4 * k + 1] == b[from + 4 * k + 1]);
        assert(a[from + 4 * k + 2] == b[from + 4 * k + 2]);
        assert(a[from + 4 * k + 3] == b[from + 4 * k + 3]);
    }
    assert(words_at(a, from, n) =~= words_at(b, from, n));
}

/// A segment that lies in a file is read as it is.
proof fn lemma_segment_in_file(f: Seq<u8>, store: VectorStore, seg: nat)
    requires
        store.wf(),
        seg < store.spec_segments().len(),
        segment_offset(store.spec_stride(), seg + 1) <= f.len(),
        f.subrange(
            segment_offset(store.spec_stride(), seg),
            segment_offset(store.spec_stride(), seg + 1),
        ) == words_bytes(store.spec_segments()[seg as int]),
    ensures
        segment_in(f, store.spec_stride(), seg) == store.spec_segments()[seg as int],
{
    store.lemma_sound();
    let (segments, stride) = (store.spec_segments(), store.spec_stride());
    lemma_segment_size(stride, segments.len(), seg);
    let from = segment_offset(stride, seg);
    let to = segment_offset(stride, seg + 1);
    let words = segments[seg as int];
    let read = extended(f, to as nat);
    assert(read.subrange(from, from + 4 * words.len()) =~= f.subrange(from, to));
    lemma_words_at(read, from, words);
}

/// The first `j` segments of a store are written over those of a file.
pub open spec fn half_flushed(f: Seq<u8>, file: Seq<u8>, store: VectorStore, j: nat) -> bool {
    let stride = store.spec_stride();
    &&& f.len() >= file.len()
    &&& f.len() >= segment_offset(stride, j)
    &&& forall|i: int| 0 <= i < HEADER_SIZE ==> #[trigger] f[i] == file[i]
    &&& forall|k: int|
        0 <= k < j ==> f.subrange(
            segment_offset(stride, k as nat),
            segment_offset(stride, (k + 1) as nat),
        ) == words_bytes(#[trigger] store.spec_segments()[k])
    &&& forall|i: int|
        segment_offset(stride, j) <= i ==> #[trigger] byte_or_zero(f, i) == byte_or_zero(file, i)
}

/// Where flushing puts a segment.
proof fn lemma_segment_at(store: VectorStore, k: nat)
    requires
        store.wf(),
        k < store.spec_segments().len(),
    ensures
        segment_at(k as usize, words_bytes(store.spec_segments()[k as int])) == segment_offset(
            store.spec_stride(),
            k,
        ),
        words_bytes(store.spec_segments()[k as int]).len() == rows_in(k) * store.spec_stride(),
{
    store.lemma_sound();
    let (segments, stride) = (store.spec_segments(), store.spec_stride());
    lemma_segment_size(stride, segments.len(), k);
    lemma_segments_grow(0, k);
    lemma_words_bytes_len(segments[k as int]);
    let (r, s) = (rows_in(k) as int, stride as int);
    assert(r * s == s * r) by (nonlinear_arith);
    vstd::arithmetic::div_mod::lemma_div_multiples_vanish(s, r);
    assert(segments[k as int].len() == rows_in(k) * (stride / 4));
}

proof fn lemma_flushed_one_more(f: Seq<u8>, file: Seq<u8>, store: VectorStore, j: nat)
    requires
        store.wf(),
        file.len() >= HEADER_SIZE,
        j < store.spec_segments().len(),
        half_flushed(f, file, store, j),
    ensures
        half_flushed(
            placed(
                f,
                segment_offset(store.spec_stride(), j),
                words_bytes(store.spec_segments()[j as int]),
            ),
            file,
            store,
            j + 1,
        ),
{
    store.lemma_sound();
    let (segments, stride) = (store.spec_segments(), store.spec_stride());
    lemma_segment_size(stride, segments.len(), j);
    lemma_segment_at(store, j);
    let bytes = words_bytes(segments[j as int]);
    let from = segment_offset(stride, j);
    let to = segment_offset(stride, j + 1);
    let g = placed(f, from, bytes);
    assert forall|k: int| 0 <= k < j + 1 implies g.subrange(
        segment_offset(stride, k as nat),
        segment_offset(stride, (k + 1) as nat),
    ) == words_bytes(#[trigger] segments[k]) by {
        if k < j {
            lemma_segment_size(stride, segments.len(), k as nat);
            lemma_segment_size(stride, j, k as nat);
            let (a, b) = (
                segment_offset(stride, k as nat),
                segment_offset(stride, (k + 1) as nat),
            );
            assert(g.subrange(a, b) =~= f.subrange(a, b));
        } else {
            assert(g.subrange(from, to) =~= bytes);
        }
    }
    assert forall|i: int| to <= i implies #[trigger] byte_or_zero(g, i) == byte_or_zero(file, i) by {
        assert(byte_or_zero(f, i) == byte_or_zero(file, i));
    }
}

/// The file once the first `j` segments are written.
proof fn lemma_half_flushed(disk: Disk, store: VectorStore, j: nat)
    requires
        store.wf(),
        disk.store is Some,
        disk.store->0.len() >= HEADER_SIZE,
        j <= store.spec_segments().len(),
    ensures
        performed(disk, flush_plan(store).take(j as int)) == (Disk {
            store: performed(disk, flush_plan(store).take(j as int)).store,
            ..disk
        }),
        performed(disk, flush_plan(store).take(j as int)).store matches Some(f) && half_flushed(
            f,
            disk.store->0,
            store,
            j,
        ),
    decreases j,
{
    let plan = flush_plan(store);
    let stride = store.spec_stride();
    if j == 0 {
        assert(plan.take(0) =~= Seq::empty());
        lemma_segments_grow(0, 0);
        assert(rows_before(0) * stride == 0) by (nonlinear_arith)
            requires
                rows_before(0) == 0,
        ;
    } else {
        let k = (j - 1) as nat;
        lemma_half_flushed(disk, store, k);
        assert(plan.take(j as int).drop_last() =~= plan.take(k as int));
        assert(plan.take(j as int).last() == plan[k as int]);
        store.lemma_sound();
        lemma_segment_at(store, k);
        let f = performed(disk, plan.take(k as int)).store->0;
        lemma_flushed_one_more(f, disk.store->0, store, k);
    }
}

/// The rows of a file, read one by one.
proof fn lemma_reads_as(f: Seq<u8>, s: Stored)
    requires
        open_refusal(f) is None,
        u32_at(f, OFF_DIM as int) == s.dim,
        u64_at(f, OFF_STRIDE as int) == s.stride,
        u64_at(f, OFF_COUNT as int) == s.rows.len(),
        forall|id: int|
            0 <= id < s.rows.len() ==> segment_in(f, s.stride, segment_of(id as nat)).subrange(
                place_of(id as nat) * (s.stride / 4),
                place_of(id as nat) * (s.stride / 4) + s.dim,
            ) == #[trigger] s.rows[id],
    ensures
        reads_as(f, s),
{
    let count = s.rows.len();
    let read = Seq::new(segments_needed(count), |seg: int| segment_in(f, s.stride, seg as nat));
    assert forall|id: int| 0 <= id < count implies #[trigger] row_at(
        read,
        s.stride,
        s.dim,
        id as nat,
    ) == s.rows[id] by {
        crate::doubling::lemma_segment_of_grows(id as nat, (count - 1) as nat);
    }
    assert(rows_at(read, s.stride, s.dim, count) =~= s.rows);
}

/// A file that reads as something has room for its rows.
proof fn lemma_needed_fits(file: Seq<u8>, s: Stored, id: nat)
    requires
        reads_as(file, s),
        id < s.rows.len(),
    ensures
        segment_of(id) < segments_needed(s.rows.len()),
        addressable(s.stride, segments_needed(s.rows.len())),
        s.stride % 64 == 0,
        s.rows[id as int] == segment_in(file, s.stride, segment_of(id)).subrange(
            place_of(id) * (s.stride / 4),
            place_of(id) * (s.stride / 4) + s.dim,
        ),
{
    crate::doubling::lemma_segment_of_grows(id, (s.rows.len() - 1) as nat);
}

/// The rows of a store that a file holds.
pub open spec fn first_rows(store: VectorStore, kept: nat) -> Stored {
    Stored {
        dim: store.spec_dim(),
        stride: store.spec_stride(),
        rows: store.rows().take(kept as int),
    }
}

/// A row that a file held is still there once some segments are written.
proof fn lemma_row_is_kept(f: Seq<u8>, file: Seq<u8>, store: VectorStore, kept: nat, j: nat, id: nat)
    requires
        store.wf(),
        kept <= store.rows().len(),
        reads_as(file, first_rows(store, kept)),
        j <= store.spec_segments().len(),
        half_flushed(f, file, store, j),
        id < kept,
    ensures
        segment_in(f, store.spec_stride(), segment_of(id)).subrange(
            place_of(id) * (store.spec_stride() / 4),
            place_of(id) * (store.spec_stride() / 4) + store.spec_dim(),
        ) == store.rows()[id as int],
{
    store.lemma_sound();
    let (segments, stride) = (store.spec_segments(), store.spec_stride());
    let seg = segment_of(id);
    lemma_needed_fits(file, first_rows(store, kept), id);
    if seg < j {
        lemma_segment_size(stride, segments.len(), seg);
        lemma_offsets_grow(stride, seg + 1, j);
        assert(f.subrange(segment_offset(stride, seg), segment_offset(stride, seg + 1))
            == words_bytes(segments[seg as int]));
        lemma_segment_in_file(f, store, seg);
        assert(store.rows()[id as int] == row_at(segments, stride, store.spec_dim(), id));
    } else {
        lemma_offsets_grow(stride, j, seg);
        lemma_segment_is_local(f, file, stride, segments_needed(kept), seg);
    }
}

proof fn lemma_before_the_header(
    f: Seq<u8>,
    file: Seq<u8>,
    store: VectorStore,
    kept: nat,
    j: nat,
)
    requires
        store.wf(),
        kept <= store.rows().len(),
        reads_as(file, first_rows(store, kept)),
        j <= store.spec_segments().len(),
        half_flushed(f, file, store, j),
    ensures
        reads_as(f, first_rows(store, kept)),
{
    let old = first_rows(store, kept);
    assert(old.rows.len() == kept);
    lemma_same_header(f, file);
    assert forall|id: int| 0 <= id < kept implies segment_in(
        f,
        old.stride,
        segment_of(id as nat),
    ).subrange(
        place_of(id as nat) * (old.stride / 4),
        place_of(id as nat) * (old.stride / 4) + old.dim,
    ) == #[trigger] old.rows[id] by {
        lemma_row_is_kept(f, file, store, kept, j, id as nat);
    }
    lemma_reads_as(f, old);
}

/// The header page written over a file states the geometry and the count.
proof fn lemma_new_header(g: Seq<u8>, store: VectorStore)
    requires
        store.wf(),
        store.spec_dim() <= u32::MAX,
        g.len() >= HEADER_SIZE,
        g.take(HEADER_SIZE as int) == with_count(store.spec_header(), store.spec_count()),
    ensures
        open_refusal(g) is None,
        u32_at(g, OFF_DIM as int) == store.spec_dim(),
        u64_at(g, OFF_STRIDE as int) == store.spec_stride(),
        u64_at(g, OFF_COUNT as int) == store.spec_count(),
{
    store.lemma_sound();
    let (segments, stride) = (store.spec_segments(), store.spec_stride());
    let header = with_count(store.spec_header(), store.spec_count());
    store.lemma_count_fits();
    lemma_with_count(store.spec_header(), store.spec_count() as u64);
    let n = segments.len();
    assert forall|i: int| 0 <= i < HEADER_SIZE implies g[i] == header[i] by {
        assert(g.take(HEADER_SIZE as int)[i] == g[i]);
    }
    assert(u32_at(g, OFF_MAGIC as int) == u32_at(header, OFF_MAGIC as int));
    assert(u32_at(g, OFF_VERSION as int) == u32_at(header, OFF_VERSION as int));
    assert(u32_at(g, OFF_DIM as int) == u32_at(header, OFF_DIM as int));
    assert(u64_at(g, OFF_STRIDE as int) == u64_at(header, OFF_STRIDE as int));
    assert(u64_at(g, OFF_COUNT as int) == u64_at(header, OFF_COUNT as int));
    let count = store.spec_count();
    let needed = segments_needed(count);
    assert(needed <= n) by {
        if count > 0 {
            lemma_segment_is_there(count, n, (count - 1) as nat);
        }
    }
    lemma_segments_grow(needed, n);
    lemma_segment_size(stride, n, (needed - 1) as nat);
}

/// A file with all segments and the header page of a store.
proof fn lemma_after_the_header(f: Seq<u8>, file: Seq<u8>, store: VectorStore)
    requires
        store.wf(),
        store.spec_dim() <= u32::MAX,
        file.len() >= HEADER_SIZE,
        half_flushed(f, file, store, store.spec_segments().len()),
    ensures
        reads_as(
            placed(f, 0, with_count(store.spec_header(), store.spec_count())),
            Stored {
                dim: store.spec_dim(),
                stride: store.spec_stride(),
                rows: store.rows(),
            },
        ),
{
    store.lemma_sound();
    let (segments, stride, dim) = (store.spec_segments(), store.spec_stride(), store.spec_dim());
    let n = segments.len();
    let header = with_count(store.spec_header(), store.spec_count());
    lemma_with_count(store.spec_header(), store.spec_count() as u64);
    let g = placed(f, 0, header);
    assert(g.take(HEADER_SIZE as int) =~= header);
    lemma_new_header(g, store);
    let all = Stored { dim, stride, rows: store.rows() };
    assert forall|id: int| 0 <= id < all.rows.len() implies segment_in(
        g,
        stride,
        segment_of(id as nat),
    ).subrange(
        place_of(id as nat) * (stride / 4),
        place_of(id as nat) * (stride / 4) + dim,
    ) == #[trigger] all.rows[id] by {
        let seg = segment_of(id as nat);
        lemma_segment_is_there(store.spec_count(), n, id as nat);
        lemma_segment_size(stride, n, seg);
        let (a, b) = (segment_offset(stride, seg), segment_offset(stride, seg + 1));
        assert(f.subrange(a, b) == words_bytes(segments[seg as int]));
        assert(g.subrange(a, b) =~= f.subrange(a, b));
        lemma_segment_in_file(g, store, seg);
    }
    lemma_reads_as(g, all);
}

/// Flushing is safe at every step. Until the header page is written a file that
/// held the first rows of the store holds them still, then it holds all of
/// them; and nothing but the file changes.
pub proof fn law_every_step_of_flushing_is_safe(
    disk: Disk,
    store: VectorStore,
    kept: nat,
    j: int,
)
    requires
        store.wf(),
        store.spec_dim() <= u32::MAX,
        kept <= store.rows().len(),
        disk.store matches Some(file) && reads_as(file, first_rows(store, kept)),
        0 <= j <= flush_plan(store).len(),
    ensures
        ({
            let now = performed(disk, flush_plan(store).take(j));
            &&& now == (Disk { store: now.store, ..disk })
            &&& now.store matches Some(file) && reads_as(
                file,
                first_rows(
                    store,
                    if j < flush_plan(store).len() {
                        kept
                    } else {
                        store.rows().len()
                    },
                ),
            )
        }),
{
    let plan = flush_plan(store);
    let n = store.spec_segments().len();
    let file = disk.store->0;
    if j <= n {
        lemma_half_flushed(disk, store, j as nat);
        let f = performed(disk, plan.take(j)).store->0;
        lemma_before_the_header(f, file, store, kept, j as nat);
    } else {
        assert(plan.take(j) =~= plan);
        law_a_flush_is_complete(disk, store);
    }
}

/// A file that is not there yet is written as one that holds nothing but zeros
/// where the header page goes.
proof fn lemma_flushed_from_nothing(disk: Disk, store: VectorStore, j: int)
    requires
        store.wf(),
        disk.store is None,
        1 <= j <= flush_plan(store).len(),
    ensures
        performed(disk, flush_plan(store).take(j)) == performed(
            Disk { store: Some(Seq::new(HEADER_SIZE as nat, |i: int| 0u8)), ..disk },
            flush_plan(store).take(j),
        ),
    decreases j,
{
    let plan = flush_plan(store);
    let zeros = Seq::new(HEADER_SIZE as nat, |i: int| 0u8);
    let other = Disk { store: Some(zeros), ..disk };
    assert(plan.take(j).drop_last() =~= plan.take(j - 1));
    assert(plan.take(j).last() == plan[j - 1]);
    if j > 1 {
        lemma_flushed_from_nothing(disk, store, j - 1);
    } else {
        assert(plan.take(0) =~= Seq::empty());
        let nothing = Seq::<u8>::empty();
        let bytes = plan[0].1;
        if store.spec_segments().len() > 0 {
            lemma_segment_at(store, 0);
            lemma_segments_grow(0, 0);
            let stride = store.spec_stride();
            assert(rows_before(0) * stride == 0) by (nonlinear_arith)
                requires
                    rows_before(0) == 0,
            ;
            let at = segment_offset(stride, 0);
            assert(placed(nothing, at, bytes) =~= placed(zeros, at, bytes));
        } else {
            store.lemma_sound();
            store.lemma_count_fits();
            lemma_with_count(store.spec_header(), store.spec_count() as u64);
            assert(placed(nothing, 0, bytes) =~= placed(zeros, 0, bytes));
        }
    }
}

/// Once all of a flush is written the file holds all rows, whatever it held
/// before, and if there was none.
pub proof fn law_a_flush_is_complete(disk: Disk, store: VectorStore)
    requires
        store.wf(),
        store.spec_dim() <= u32::MAX,
        disk.store matches Some(file) ==> file.len() >= HEADER_SIZE,
    ensures
        ({
            let now = performed(disk, flush_plan(store));
            &&& now == (Disk { store: now.store, ..disk })
            &&& now.store matches Some(file) && reads_as(
                file,
                first_rows(store, store.rows().len()),
            )
        }),
{
    let plan = flush_plan(store);
    let n = store.spec_segments().len();
    let zeros = Seq::new(HEADER_SIZE as nat, |i: int| 0u8);
    let from = match disk.store {
        Some(_) => disk,
        None => Disk { store: Some(zeros), ..disk },
    };
    assert(plan.take(plan.len() as int) =~= plan);
    if disk.store is None {
        lemma_flushed_from_nothing(disk, store, plan.len() as int);
    }
    lemma_half_flushed(from, store, n);
    let before = performed(from, plan.take(n as int));
    assert(plan.drop_last() =~= plan.take(n as int));
    lemma_after_the_header(before.store->0, from.store->0, store);
    assert(performed(from, plan) == after_write(before, plan.last()));
    assert(store.rows().take(store.rows().len() as int) =~= store.rows());
}

/// Segments lie one behind the other.
proof fn lemma_offsets_grow(stride: nat, a: nat, b: nat)
    requires
        a <= b,
    ensures
        segment_offset(stride, a) <= segment_offset(stride, b),
{
    lemma_segments_grow(a, b);
    let (x, y) = (rows_before(a), rows_before(b));
    assert(x * stride <= y * stride) by (nonlinear_arith)
        requires
            x <= y,
            0 <= stride,
    ;
}

} // verus!
