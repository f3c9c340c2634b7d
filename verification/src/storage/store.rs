//! The vector store.
//!
//! File layout: a header page, then the segments one after the other.
//! Segment `k` holds `BASE_ROWS << k` rows, so capacity doubles with every
//! segment, and a row never moves once it is written. A row takes up four
//! bytes for each component, rounded up to [`ROW_ALIGN`], so every row starts
//! at a multiple of that.
//!
//! The store works on the contents of the file. Opening one takes what the
//! file holds, and flushing hands out what it should hold.

use crate::bytes::{
    le32, le64, put_bytes, put_u32, put_u64, put_words, read_u32, read_u64, u32_at, u64_at, words_at,
    words_bytes,
};
use crate::doubling::{
    law_every_row_has_one_place, lemma_segments_grow, place_of, power_of_two, rows_before, rows_in,
    segment_of, BASE_ROWS, MAX_SEGMENTS,
};
use crate::error::{corrupt, is_corrupt, Error};
use crate::io::{steps, Target};
use vstd::prelude::*;

pub use crate::doubling::{locate, seg_rows};

verus! {

broadcast use {crate::bytes::lemma_le32_len, crate::bytes::lemma_le64_len};

/// "VKDB".
pub const MAGIC: u32 = 0x564B_4442;

pub const VERSION: u32 = 2;

/// Bytes of the header page.
pub const HEADER_SIZE: usize = 4096;

/// Every row starts at a multiple of this many bytes.
pub const ROW_ALIGN: usize = 64;

pub const OFF_MAGIC: usize = 0;

pub const OFF_VERSION: usize = 4;

pub const OFF_DIM: usize = 8;

pub const OFF_COUNT: usize = 16;

pub const OFF_STRIDE: usize = 24;

/// The bytes that a row of this dimension takes up.
pub open spec fn stride_of(dim: nat) -> nat {
    (4 * dim + 63) / 64 * 64
}

/// Where a segment starts in the file.
pub open spec fn segment_offset(stride: nat, seg: nat) -> int {
    HEADER_SIZE + rows_before(seg) * stride
}

/// Where a row starts in the file.
pub open spec fn row_offset(stride: nat, id: nat) -> int {
    segment_offset(stride, segment_of(id)) + place_of(id) * stride
}

/// A file with this many segments can be addressed.
pub open spec fn addressable(stride: nat, segments: nat) -> bool {
    segments <= MAX_SEGMENTS && segment_offset(stride, segments) <= usize::MAX / 2
}

/// The row with this id.
pub open spec fn row_at(segments: Seq<Seq<u32>>, stride: nat, dim: nat, id: nat) -> Seq<u32> {
    let at = place_of(id) * (stride / 4);
    segments[segment_of(id) as int].subrange(at, at + dim)
}

/// The first `count` rows.
pub open spec fn rows_at(segments: Seq<Seq<u32>>, stride: nat, dim: nat, count: nat) -> Seq<
    Seq<u32>,
> {
    Seq::new(count, |id: int| row_at(segments, stride, dim, id as nat))
}

/// The byte at `i`, or zero behind the end.
pub open spec fn byte_or_zero(file: Seq<u8>, i: int) -> u8 {
    if 0 <= i < file.len() {
        file[i]
    } else {
        0
    }
}

/// What a file is extended to before it is read.
pub open spec fn extended(file: Seq<u8>, len: nat) -> Seq<u8> {
    Seq::new(len, |i: int| byte_or_zero(file, i))
}

/// What a segment holds when the file is opened: behind the end of the file
/// everything is zero.
pub open spec fn segment_in(file: Seq<u8>, stride: nat, seg: nat) -> Seq<u32> {
    words_at(
        extended(file, segment_offset(stride, seg + 1) as nat),
        segment_offset(stride, seg),
        rows_in(seg) * (stride / 4),
    )
}

/// The segments that a store with this many rows needs. There is always one.
pub open spec fn segments_needed(count: nat) -> nat {
    if count == 0 {
        1
    } else {
        segment_of((count - 1) as nat) + 1
    }
}

/// What is wrong with a store file.
pub open spec fn open_refusal(file: Seq<u8>) -> Option<Seq<char>> {
    let dim = u32_at(file, OFF_DIM as int);
    let stride = u64_at(file, OFF_STRIDE as int);
    let count = u64_at(file, OFF_COUNT as int);
    if file.len() < HEADER_SIZE {
        Some("file smaller than header"@)
    } else if u32_at(file, OFF_MAGIC as int) != MAGIC {
        Some("bad magic"@)
    } else if u32_at(file, OFF_VERSION as int) != VERSION {
        Some("unsupported version"@)
    } else if dim == 0 || stride < 4 * dim || stride % 64 != 0 {
        Some("inconsistent header geometry"@)
    } else if !addressable(stride as nat, segments_needed(count as nat)) {
        Some("store exceeds maximum size"@)
    } else {
        None
    }
}

/// A store: its dimension, the bytes of a row, and the rows.
#[verifier::ext_equal]
pub ghost struct Stored {
    pub dim: nat,
    pub stride: nat,
    pub rows: Seq<Seq<u32>>,
}

/// The store that a file holds.
pub open spec fn stored_in(file: Seq<u8>) -> Stored {
    let dim = u32_at(file, OFF_DIM as int) as nat;
    let stride = u64_at(file, OFF_STRIDE as int) as nat;
    let count = u64_at(file, OFF_COUNT as int) as nat;
    Stored {
        dim,
        stride,
        rows: rows_at(
            Seq::new(segments_needed(count), |seg: int| segment_in(file, stride, seg as nat)),
            stride,
            dim,
            count,
        ),
    }
}

/// A header page whose count is replaced.
pub open spec fn with_count(header: Seq<u8>, count: nat) -> Seq<u8> {
    header.subrange(0, OFF_COUNT as int) + le64(count as u64) + header.subrange(
        OFF_COUNT + 8,
        header.len() as int,
    )
}

/// The header page of a store that holds nothing yet.
#[verifier::opaque]
pub open spec fn fresh_header(dim: nat) -> Seq<u8> {
    le32(MAGIC) + le32(VERSION) + le32((dim % 0x1_0000_0000) as u32) + le32(0) + le64(0) + le64(
        stride_of(dim) as u64,
    ) + Seq::new((HEADER_SIZE - 32) as nat, |i: int| 0u8)
}

/// The bytes of some segments, one after the other.
pub open spec fn segments_bytes(segments: Seq<Seq<u32>>) -> Seq<u8>
    decreases segments.len(),
{
    if segments.len() == 0 {
        Seq::empty()
    } else {
        segments_bytes(segments.drop_last()) + words_bytes(segments.last())
    }
}

/// Vectors of one dimension, numbered from zero in the order of arrival.
pub struct VectorStore {
    header: Vec<u8>,
    segments: Vec<Vec<u32>>,
    dim: usize,
    row_stride: usize,
    count: u64,
}

/// Where a segment of `len` bytes starts in the file. As many rows come before
/// it as it has itself, less those of the first segment.
pub fn segment_place(seg: usize, len: u64) -> (at: u64)
    requires
        seg < 64,
        HEADER_SIZE + len <= u64::MAX,
    ensures
        forall|stride: nat|
            len == rows_in(seg as nat) * stride ==> at == #[trigger] segment_offset(
                stride,
                seg as nat,
            ),
{
    let p: u64 = power_of_two(seg);
    proof {
        vstd::arithmetic::power2::lemma_pow2_pos(seg as nat);
        assert forall|stride: nat| len == rows_in(seg as nat) * stride implies HEADER_SIZE + (len
            - len / p) == #[trigger] segment_offset(stride, seg as nat) by {
            let (n, s, b) = (p as int, stride as int, BASE_ROWS as int);
            assert((b * n) * s == n * (b * s)) by (nonlinear_arith);
            assert((b * (n - 1)) * s == (b * n) * s - b * s) by (nonlinear_arith);
            vstd::arithmetic::div_mod::lemma_div_multiples_vanish(b * s, n);
        }
        assert(len / p <= len) by (nonlinear_arith)
            requires
                p >= 1,
        ;
    }
    HEADER_SIZE as u64 + (len - len / p)
}

impl VectorStore {
    pub closed spec fn spec_header(&self) -> Seq<u8> {
        self.header@
    }

    pub closed spec fn spec_segments(&self) -> Seq<Seq<u32>> {
        self.segments@.map_values(|s: Vec<u32>| s@)
    }

    pub closed spec fn spec_dim(&self) -> nat {
        self.dim as nat
    }

    pub closed spec fn spec_stride(&self) -> nat {
        self.row_stride as nat
    }

    pub closed spec fn spec_count(&self) -> nat {
        self.count as nat
    }

    /// The vectors that the store holds.
    pub open spec fn rows(&self) -> Seq<Seq<u32>> {
        rows_at(self.spec_segments(), self.spec_stride(), self.spec_dim(), self.spec_count())
    }

    /// What the file holds once the store is flushed.
    pub open spec fn file(&self) -> Seq<u8> {
        with_count(self.spec_header(), self.spec_count()) + segments_bytes(self.spec_segments())
    }

    /// The geometry is sound and the header page states it.
    pub open spec fn sound(&self) -> bool {
        let (header, segments) = (self.spec_header(), self.spec_segments());
        let (dim, stride) = (self.spec_dim(), self.spec_stride());
        &&& 0 < dim
        &&& 4 * dim <= stride
        &&& stride % 64 == 0
        &&& header.len() == HEADER_SIZE
        &&& u32_at(header, OFF_MAGIC as int) == MAGIC
        &&& u32_at(header, OFF_VERSION as int) == VERSION
        &&& u32_at(header, OFF_DIM as int) == dim % 0x1_0000_0000
        &&& u64_at(header, OFF_STRIDE as int) == stride
        &&& segments.len() >= 1
        &&& addressable(stride, segments.len())
        &&& forall|k: int|
            0 <= k < segments.len() ==> (#[trigger] segments[k]).len() == rows_in(k as nat) * (
            stride / 4)
        &&& self.spec_count() <= rows_before(segments.len())
    }

    /// See [`VectorStore::sound`].
    pub closed spec fn wf(&self) -> bool {
        self.sound()
    }

    /// What being well-formed means.
    pub proof fn lemma_sound(&self)
        ensures
            self.wf() <==> self.sound(),
    {
    }
}

/// The sizes of a segment of an addressable file.
pub proof fn lemma_segment_size(stride: nat, segments: nat, seg: nat)
    requires
        addressable(stride, segments),
        seg < segments,
        stride % 64 == 0,
    ensures
        segment_offset(stride, seg) >= HEADER_SIZE,
        segment_offset(stride, seg) + rows_in(seg) * stride == segment_offset(stride, seg + 1),
        segment_offset(stride, seg + 1) <= segment_offset(stride, segments),
        rows_in(seg) * stride == 4 * (rows_in(seg) * (stride / 4)),
        addressable(stride, seg + 1),
{
    let (r, b) = (rows_in(seg) as int, rows_before(seg));
    law_every_row_has_one_place(0, seg);
    lemma_segments_grow(0, seg);
    lemma_segments_grow(seg + 1, segments);
    assert(b * stride + r * stride == (b + r) * stride) by (nonlinear_arith);
    assert(0 <= b * stride) by (nonlinear_arith)
        requires
            0 <= b,
            0 <= stride,
    ;
    let c = rows_before(seg + 1);
    let d = rows_before(segments);
    assert(c * stride <= d * stride) by (nonlinear_arith)
        requires
            c <= d,
            0 <= stride,
    ;
    let w = (stride / 4) as int;
    assert(stride == 4 * w);
    assert(r * (4 * w) == 4 * (r * w)) by (nonlinear_arith);
}

/// A row lies within its segment.
proof fn lemma_row_in_segment(stride: nat, dim: nat, id: nat)
    requires
        4 * dim <= stride,
    ensures
        0 <= place_of(id) * (stride / 4),
        place_of(id) * (stride / 4) + dim <= rows_in(segment_of(id)) * (stride / 4),
{
    law_every_row_has_one_place(id, 0);
    let (p, r, w) = (place_of(id), rows_in(segment_of(id)) as int, (stride / 4) as int);
    assert(p * w + w <= r * w) by (nonlinear_arith)
        requires
            p < r,
            0 <= w,
    ;
    assert(0 <= p * w) by (nonlinear_arith)
        requires
            0 <= p,
            0 <= w,
    ;
}

/// A stored row lies in a segment that is there.
pub proof fn lemma_segment_is_there(count: nat, segments: nat, id: nat)
    requires
        id < count <= rows_before(segments),
    ensures
        segment_of(id) < segments,
{
    law_every_row_has_one_place(id, segment_of(id));
    if segment_of(id) >= segments {
        lemma_segments_grow(segments, segment_of(id));
    }
}

/// Whether a file with this many segments can be addressed.
fn is_addressable(stride: usize, segments: usize) -> (r: bool)
    ensures
        r == addressable(stride as nat, segments as nat),
{
    if segments > MAX_SEGMENTS {
        return false;
    }
    proof {
        lemma_segments_grow(segments as nat, 40);
        vstd::arithmetic::power2::lemma2_to64();
        vstd::arithmetic::power2::lemma2_to64_rest();
    }
    let before: u64 = BASE_ROWS * (power_of_two(segments) - 1);
    let bytes: u128 = before as u128;
    assert(before * stride <= 0x4_0000_0000_0000 * 0xFFFF_FFFF_FFFF_FFFF) by (nonlinear_arith)
        requires
            before <= 0x4_0000_0000_0000,
            stride <= 0xFFFF_FFFF_FFFF_FFFF,
    ;
    assert(0 <= before * stride) by (nonlinear_arith);
    let end: u128 = HEADER_SIZE as u128 + bytes * (stride as u128);
    end <= (usize::MAX / 2) as u128
}

fn byte_at(file: &[u8], i: usize) -> (b: u8)
    ensures
        b == byte_or_zero(file@, i as int),
{
    if i < file.len() {
        file[i]
    } else {
        0
    }
}

/// The word at `off` of a file that is extended with zeros.
fn word_at(file: &[u8], off: usize) -> (x: u32)
    requires
        off + 4 <= usize::MAX,
    ensures
        forall|len: nat|
            off + 4 <= len ==> x == u32_at(#[trigger] extended(file@, len), off as int),
{
    byte_at(file, off) as u32 + 256 * (byte_at(file, off + 1) as u32) + 65536 * (byte_at(
        file,
        off + 2,
    ) as u32) + 16777216 * (byte_at(file, off + 3) as u32)
}

/// Reads a segment out of a file.
fn read_segment(file: &[u8], stride: usize, seg: usize) -> (words: Vec<u32>)
    requires
        addressable(stride as nat, (seg + 1) as nat),
        stride > 0,
        stride % 64 == 0,
    ensures
        words@ == segment_in(file@, stride as nat, seg as nat),
{
    proof {
        lemma_segment_size(stride as nat, (seg + 1) as nat, seg as nat);
        lemma_segments_grow(seg as nat, 40);
        vstd::arithmetic::power2::lemma2_to64();
        vstd::arithmetic::power2::lemma2_to64_rest();
    }
    let power: u64 = power_of_two(seg);
    let ghost end = segment_offset(stride as nat, (seg + 1) as nat);
    proof {
        let r = rows_in(seg as nat) as int;
        let b = rows_before(seg as nat);
        assert(r <= r * stride && b <= b * stride) by (nonlinear_arith)
            requires
                0 <= r,
                0 <= b,
                stride >= 1,
        ;
    }
    let before: usize = (BASE_ROWS * (power - 1)) as usize;
    let rows: usize = seg_rows(seg) as usize;
    let start: usize = HEADER_SIZE + before * stride;
    let n: usize = rows * (stride / 4);
    let mut words: Vec<u32> = Vec::with_capacity(n);
    let mut i: usize = 0;
    while i < n
        invariant
            i <= n,
            start + 4 * n == end,
            end <= usize::MAX / 2,
            words@ == words_at(extended(file@, end as nat), start as int, i as nat),
        decreases n - i,
    {
        let x: u32 = word_at(file, start + 4 * i);
        words.push(x);
        i = i + 1;
        assert(words@ =~= words_at(extended(file@, end as nat), start as int, i as nat));
    }
    words
}

/// A header page keeps its other fields when the count is replaced.
pub proof fn lemma_with_count(header: Seq<u8>, count: u64)
    requires
        header.len() == HEADER_SIZE,
    ensures
        with_count(header, count as nat).len() == HEADER_SIZE,
        u32_at(with_count(header, count as nat), OFF_MAGIC as int) == u32_at(
            header,
            OFF_MAGIC as int,
        ),
        u32_at(with_count(header, count as nat), OFF_VERSION as int) == u32_at(
            header,
            OFF_VERSION as int,
        ),
        u32_at(with_count(header, count as nat), OFF_DIM as int) == u32_at(header, OFF_DIM as int),
        u64_at(with_count(header, count as nat), OFF_STRIDE as int) == u64_at(
            header,
            OFF_STRIDE as int,
        ),
        u64_at(with_count(header, count as nat), OFF_COUNT as int) == count,
{
    let h = with_count(header, count as nat);
    assert forall|i: int| 0 <= i < 16 || 24 <= i < HEADER_SIZE implies h[i] == header[i] by {}
    assert(h.subrange(16, 24) =~= le64(count));
    crate::bytes::lemma_u64_at(h, 16, count);
}

/// The fields of the header page of a store that holds nothing yet.
proof fn lemma_fresh_header(dim: nat)
    requires
        stride_of(dim) <= u64::MAX,
    ensures
        fresh_header(dim).len() == HEADER_SIZE,
        u32_at(fresh_header(dim), OFF_MAGIC as int) == MAGIC,
        u32_at(fresh_header(dim), OFF_VERSION as int) == VERSION,
        u32_at(fresh_header(dim), OFF_DIM as int) == dim % 0x1_0000_0000,
        u64_at(fresh_header(dim), OFF_STRIDE as int) == stride_of(dim),
        u64_at(fresh_header(dim), OFF_COUNT as int) == 0,
{
    reveal(fresh_header);
    let h = fresh_header(dim);
    let d = (dim % 0x1_0000_0000) as u32;
    assert(h.subrange(0, 4) =~= le32(MAGIC));
    crate::bytes::lemma_u32_at(h, 0, MAGIC);
    assert(h.subrange(4, 8) =~= le32(VERSION));
    crate::bytes::lemma_u32_at(h, 4, VERSION);
    assert(h.subrange(8, 12) =~= le32(d));
    crate::bytes::lemma_u32_at(h, 8, d);
    assert(h.subrange(16, 24) =~= le64(0));
    crate::bytes::lemma_u64_at(h, 16, 0);
    assert(h.subrange(24, 32) =~= le64(stride_of(dim) as u64));
    crate::bytes::lemma_u64_at(h, 24, stride_of(dim) as u64);
}

/// Builds the header page of a store that holds nothing yet.
fn new_header(dim: usize, stride: usize) -> (header: Vec<u8>)
    requires
        stride == stride_of(dim as nat),
    ensures
        header@ == fresh_header(dim as nat),
{
    let mut header: Vec<u8> = Vec::with_capacity(HEADER_SIZE);
    put_u32(&mut header, MAGIC);
    put_u32(&mut header, VERSION);
    put_u32(&mut header, (dim as u64 % 0x1_0000_0000) as u32);
    put_u32(&mut header, 0);
    put_u64(&mut header, 0);
    put_u64(&mut header, stride as u64);
    header.resize(HEADER_SIZE, 0);
    proof {
        reveal(fresh_header);
        assert(header@ =~= fresh_header(dim as nat));
    }
    header
}

/// A segment of zeros.
fn zeroed_segment(stride: usize, seg: usize) -> (words: Vec<u32>)
    requires
        addressable(stride as nat, (seg + 1) as nat),
        stride > 0,
        stride % 64 == 0,
    ensures
        words@ == Seq::new(rows_in(seg as nat) * (stride as nat / 4), |i: int| 0u32),
{
    proof {
        lemma_segment_size(stride as nat, (seg + 1) as nat, seg as nat);
        lemma_segments_grow(seg as nat, 40);
        vstd::arithmetic::power2::lemma2_to64();
        vstd::arithmetic::power2::lemma2_to64_rest();
        let r = rows_in(seg as nat) as int;
        assert(r <= r * stride) by (nonlinear_arith)
            requires
                0 <= r,
                stride >= 1,
        ;
    }
    let rows: usize = seg_rows(seg) as usize;
    let words: Vec<u32> = vec![0u32; rows * (stride / 4)];
    assert(words@ =~= Seq::new(rows_in(seg as nat) * (stride as nat / 4), |i: int| 0u32));
    words
}

/// A sequence with `row` written over it from `at` on.
pub open spec fn overwritten(s: Seq<u32>, at: int, row: Seq<u32>) -> Seq<u32> {
    Seq::new(s.len(), |i: int| if at <= i < at + row.len() { row[i - at] } else { s[i] })
}

fn write_row(segment: &mut Vec<u32>, at: usize, row: &[u32])
    requires
        at + row@.len() <= old(segment)@.len(),
    ensures
        final(segment)@ == overwritten(old(segment)@, at as int, row@),
{
    let mut i: usize = 0;
    while i < row.len()
        invariant
            i <= row@.len(),
            segment@.len() == old(segment)@.len(),
            at + row@.len() <= segment@.len(),
            segment@ == overwritten(old(segment)@, at as int, row@.take(i as int)),
        decreases row@.len() - i,
    {
        let ghost before = segment@;
        assert(at + i < segment.len());
        segment.set(at + i, row[i]);
        i = i + 1;
        assert(segment@ =~= overwritten(old(segment)@, at as int, row@.take(i as int)));
    }
    assert(segment@ =~= overwritten(old(segment)@, at as int, row@));
}

/// Writing a row leaves the other rows alone.
proof fn lemma_overwritten_row(
    before: Seq<Seq<u32>>,
    after: Seq<Seq<u32>>,
    stride: nat,
    dim: nat,
    at: nat,
    row: Seq<u32>,
    id: nat,
)
    requires
        4 * dim <= stride,
        row.len() == dim,
        segment_of(at) < before.len() == after.len(),
        segment_of(id) < before.len(),
        before[segment_of(at) as int].len() == rows_in(segment_of(at)) * (stride / 4),
        before[segment_of(id) as int].len() == rows_in(segment_of(id)) * (stride / 4),
        after == before.update(
            segment_of(at) as int,
            overwritten(before[segment_of(at) as int], place_of(at) * (stride / 4), row),
        ),
    ensures
        row_at(after, stride, dim, id) == if id == at {
            row
        } else {
            row_at(before, stride, dim, id)
        },
{
    let w = (stride / 4) as int;
    lemma_row_in_segment(stride, dim, at);
    lemma_row_in_segment(stride, dim, id);
    let (p, q) = (place_of(at), place_of(id));
    if id == at {
        assert(row_at(after, stride, dim, id) =~= row);
    } else {
        if segment_of(id) == segment_of(at) {
            assert(p != q);
            if p < q {
                assert(p * w + w <= q * w) by (nonlinear_arith)
                    requires
                        p < q,
                        0 <= w,
                ;
            } else {
                assert(q * w + w <= p * w) by (nonlinear_arith)
                    requires
                        q < p,
                        0 <= w,
                ;
            }
        }
        assert(row_at(after, stride, dim, id) =~= row_at(before, stride, dim, id));
    }
}

/// If a row takes a multiple of the alignment, every row starts at one.
proof fn lemma_row_is_aligned(stride: nat, id: nat)
    requires
        stride % 64 == 0,
    ensures
        row_offset(stride, id) % 64 == 0,
{
    let k = (stride / 64) as int;
    let (p, b) = (place_of(id), rows_before(segment_of(id)));
    assert(stride == 64 * k);
    assert(p * (64 * k) == 64 * (p * k)) by (nonlinear_arith);
    assert(b * (64 * k) == 64 * (b * k)) by (nonlinear_arith);
}

impl VectorStore {
    /// A new store. `dim` must be positive.
    pub fn create(dim: usize) -> (r: Result<VectorStore, Error>)
        requires
            dim > 0,
            4 * dim + 63 <= usize::MAX,
        ensures
            r is Ok <==> addressable(stride_of(dim as nat), 1),
            r matches Ok(store) ==> {
                &&& store.wf()
                &&& store.rows() == Seq::<Seq<u32>>::empty()
                &&& store.spec_dim() == dim
                &&& store.spec_stride() == stride_of(dim as nat)
                &&& store.spec_header() == fresh_header(dim as nat)
                &&& store.spec_segments() == seq![
                    Seq::new(
                        rows_in(0) * (stride_of(dim as nat) / 4),
                        |i: int| 0u32,
                    ),
                ]
            },
            r matches Err(e) ==> is_corrupt(e, "store exceeds maximum size"@),
    {
        let stride: usize = (4 * dim + 63) / 64 * 64;
        if !is_addressable(stride, 1) {
            return Err(corrupt("store exceeds maximum size"));
        }
        let header: Vec<u8> = new_header(dim, stride);
        let mut segments: Vec<Vec<u32>> = Vec::with_capacity(1);
        segments.push(zeroed_segment(stride, 0));
        let store = VectorStore { header, segments, dim, row_stride: stride, count: 0 };
        proof {
            lemma_fresh_header(dim as nat);
            lemma_segments_grow(0, 1);
            assert(store.rows() =~= Seq::<Seq<u32>>::empty());
            assert(store.spec_segments() =~= seq![
                Seq::new(rows_in(0) * (stride_of(dim as nat) / 4), |i: int| 0u32),
            ]);
        }
        Ok(store)
    }

    /// Opens an existing store. Behind the end of `file` everything is zero.
    pub fn open(file: &[u8]) -> (r: Result<VectorStore, Error>)
        ensures
            match open_refusal(file@) {
                Some(text) => r matches Err(e) && is_corrupt(e, text),
                None => r is Ok,
            },
            r matches Ok(store) ==> {
                let stride = u64_at(file@, OFF_STRIDE as int) as nat;
                let count = u64_at(file@, OFF_COUNT as int) as nat;
                &&& store.wf()
                &&& store.spec_dim() == u32_at(file@, OFF_DIM as int)
                &&& store.spec_stride() == stride
                &&& store.spec_count() == count
                &&& store.spec_header() == file@.take(HEADER_SIZE as int)
                &&& store.spec_segments() == Seq::new(
                    segments_needed(count),
                    |seg: int| segment_in(file@, stride, seg as nat),
                )
            },
    {
        if file.len() < HEADER_SIZE {
            return Err(corrupt("file smaller than header"));
        }
        if read_u32(file, OFF_MAGIC) != MAGIC {
            return Err(corrupt("bad magic"));
        }
        if read_u32(file, OFF_VERSION) != VERSION {
            return Err(corrupt("unsupported version"));
        }
        let dim32: u32 = read_u32(file, OFF_DIM);
        let stride64: u64 = read_u64(file, OFF_STRIDE);
        let count: u64 = read_u64(file, OFF_COUNT);
        if dim32 == 0 || stride64 < 4 * (dim32 as u64) || stride64 % 64 != 0 {
            return Err(corrupt("inconsistent header geometry"));
        }
        let needed: usize = if count == 0 {
            1
        } else {
            locate(count - 1).0 + 1
        };
        proof {
            law_every_row_has_one_place(if count == 0 { 0 } else { (count - 1) as nat }, (needed
                - 1) as nat);
            lemma_segments_grow(1, needed as nat);
            lemma_segments_grow(0, 1);
            vstd::arithmetic::power2::lemma2_to64();
            let b = rows_before(needed as nat);
            assert(b * stride64 >= stride64) by (nonlinear_arith)
                requires
                    b >= 1,
                    stride64 >= 0,
            ;
        }
        if stride64 > usize::MAX as u64 || !is_addressable(stride64 as usize, needed) {
            return Err(corrupt("store exceeds maximum size"));
        }
        let stride: usize = stride64 as usize;
        let header: Vec<u8> = vstd::slice::slice_to_vec(
            vstd::slice::slice_subrange(file, 0, HEADER_SIZE),
        );
        let mut segments: Vec<Vec<u32>> = Vec::with_capacity(needed);
        while segments.len() < needed
            invariant
                segments@.len() <= needed,
                stride > 0,
                stride % 64 == 0,
                addressable(stride as nat, needed as nat),
                forall|k: int|
                    0 <= k < segments@.len() ==> (#[trigger] segments@[k])@ == segment_in(
                        file@,
                        stride as nat,
                        k as nat,
                    ),
            decreases needed - segments@.len(),
        {
            let seg: usize = segments.len();
            proof {
                lemma_segment_size(stride as nat, needed as nat, seg as nat);
            }
            let words: Vec<u32> = read_segment(file, stride, seg);
            segments.push(words);
        }
        let store = VectorStore {
            header,
            segments,
            dim: dim32 as usize,
            row_stride: stride,
            count,
        };
        proof {
            assert(store.header@ =~= file@.take(HEADER_SIZE as int));
            assert(store.spec_segments() =~= Seq::new(
                segments_needed(count as nat),
                |seg: int| segment_in(file@, stride as nat, seg as nat),
            ));
        }
        Ok(store)
    }

    #[inline]
    pub fn dim(&self) -> (dim: usize)
        ensures
            dim == self.spec_dim(),
    {
        self.dim
    }

    /// The number of vectors.
    #[inline]
    pub fn len(&self) -> (n: usize)
        requires
            self.wf(),
        ensures
            n == self.rows().len(),
    {
        proof {
            self.lemma_count_fits();
        }
        self.count as usize
    }

    pub fn is_empty(&self) -> (r: bool)
        requires
            self.wf(),
        ensures
            r <==> self.rows().len() == 0,
    {
        self.count == 0
    }

    /// Where a segment starts in the file.
    pub fn seg_byte_offset(&self, seg: usize) -> (off: u64)
        requires
            self.wf(),
            seg <= self.spec_segments().len(),
        ensures
            off == segment_offset(self.spec_stride(), seg as nat),
    {
        proof {
            let stride = self.spec_stride();
            lemma_segments_grow(0, seg as nat);
            lemma_segments_grow(seg as nat, 40);
            lemma_segments_grow(seg as nat, self.spec_segments().len());
            vstd::arithmetic::power2::lemma2_to64();
            vstd::arithmetic::power2::lemma2_to64_rest();
            let (a, b) = (rows_before(seg as nat), rows_before(self.spec_segments().len()));
            assert(0 <= a * stride <= b * stride) by (nonlinear_arith)
                requires
                    0 <= a <= b,
                    0 <= stride,
            ;
        }
        HEADER_SIZE as u64 + BASE_ROWS * (power_of_two(seg) - 1) * (self.row_stride as u64)
    }

    /// Where a row starts in the file.
    pub fn row_byte_offset(&self, id: u64) -> (off: u64)
        requires
            self.wf(),
            id < self.rows().len(),
        ensures
            off == row_offset(self.spec_stride(), id as nat),
            off % 64 == 0,
    {
        let (seg, place) = locate(id);
        proof {
            let stride = self.spec_stride();
            let n = self.spec_segments().len();
            lemma_segment_is_there(self.spec_count(), n, id as nat);
            law_every_row_has_one_place(id as nat, seg as nat);
            lemma_segment_size(stride, n, seg as nat);
            let (p, r) = (place as int, rows_in(seg as nat) as int);
            assert(0 <= p * stride <= r * stride) by (nonlinear_arith)
                requires
                    0 <= p <= r,
                    0 <= stride,
            ;
            lemma_row_is_aligned(stride, id as nat);
        }
        self.seg_byte_offset(seg) + place * (self.row_stride as u64)
    }

    /// The rows are fewer than the bytes of the file.
    pub proof fn lemma_count_fits(&self)
        requires
            self.wf(),
        ensures
            self.spec_count() < usize::MAX / 2,
    {
        let b = rows_before(self.spec_segments().len());
        let stride = self.spec_stride();
        lemma_segments_grow(0, self.spec_segments().len());
        assert(b <= b * stride) by (nonlinear_arith)
            requires
                0 <= b,
                1 <= stride,
        ;
    }

    /// An id of a stored vector is small enough for an index.
    pub proof fn lemma_id_fits(&self, id: u64)
        requires
            self.wf(),
            id < self.rows().len(),
        ensures
            segment_of(id as nat) < MAX_SEGMENTS,
            id < 0x4_0000_0000_0000,
            id < usize::MAX - 1024,
    {
        self.lemma_count_fits();
        lemma_segment_is_there(self.spec_count(), self.spec_segments().len(), id as nat);
        lemma_segments_grow(self.spec_segments().len(), 40);
        vstd::arithmetic::power2::lemma2_to64();
        vstd::arithmetic::power2::lemma2_to64_rest();
    }

    /// A byte for every few components of every vector can be addressed.
    pub proof fn lemma_codes_fit(&self, m: nat)
        requires
            self.wf(),
            m <= self.spec_dim(),
        ensures
            self.rows().len() * m <= usize::MAX,
    {
        let (n, b) = (self.spec_count() as int, rows_before(self.spec_segments().len()));
        let stride = self.spec_stride() as int;
        assert(n * m <= b * stride) by (nonlinear_arith)
            requires
                0 <= n <= b,
                0 <= m <= stride,
        ;
    }

    /// Segments that hold nothing but zeros are added until there are `upto`.
    fn ensure_segments(&mut self, upto: usize)
        requires
            old(self).wf(),
            addressable(old(self).spec_stride(), upto as nat),
        ensures
            final(self).wf(),
            final(self).spec_segments().len() >= upto,
            final(self).spec_segments().len() >= old(self).spec_segments().len(),
            final(self).spec_segments().take(old(self).spec_segments().len() as int) == old(
                self,
            ).spec_segments(),
            final(self).spec_dim() == old(self).spec_dim(),
            final(self).spec_stride() == old(self).spec_stride(),
            final(self).spec_count() == old(self).spec_count(),
            final(self).spec_header() == old(self).spec_header(),
    {
        let ghost had = self.spec_segments();
        while self.segments.len() < upto
            invariant
                self.wf(),
                addressable(self.spec_stride(), upto as nat),
                self.spec_segments().len() >= had.len(),
                self.spec_segments().take(had.len() as int) == had,
                self.spec_dim() == old(self).spec_dim(),
                self.spec_stride() == old(self).spec_stride(),
                self.spec_count() == old(self).spec_count(),
                self.spec_header() == old(self).spec_header(),
            decreases upto - self.segments@.len(),
        {
            let ghost before = self.spec_segments();
            let seg: usize = self.segments.len();
            let stride: usize = self.row_stride;
            proof {
                lemma_segment_size(stride as nat, upto as nat, seg as nat);
                lemma_segments_grow(seg as nat, (seg + 1) as nat);
            }
            let words: Vec<u32> = zeroed_segment(stride, seg);
            self.segments.push(words);
            proof {
                assert(self.spec_segments() =~= before.push(words@));
                assert(self.spec_segments().take(had.len() as int) =~= before.take(
                    had.len() as int,
                ));
            }
        }
        assert(had.take(had.len() as int) =~= had);
    }

    /// Appends a vector and returns its id.
    pub fn append(&mut self, vector: &[u32]) -> (r: Result<u64, Error>)
        requires
            old(self).wf(),
        ensures
            final(self).wf(),
            final(self).spec_dim() == old(self).spec_dim(),
            final(self).spec_stride() == old(self).spec_stride(),
            final(self).spec_header() == old(self).spec_header(),
            r is Ok <==> vector@.len() == old(self).spec_dim() && old(self).has_room(),
            r matches Ok(id) ==> {
                &&& id == old(self).rows().len()
                &&& final(self).rows() == old(self).rows().push(vector@)
            },
            r is Err ==> *final(self) == *old(self),
            r matches Err(e) ==> if vector@.len() != old(self).spec_dim() {
                e matches Error::DimensionMismatch { expected, got } && expected == old(
                    self,
                ).spec_dim() && got == vector@.len()
            } else {
                is_corrupt(e, "store exceeds maximum size"@)
            },
    {
        if vector.len() != self.dim {
            return Err(Error::DimensionMismatch { expected: self.dim, got: vector.len() });
        }
        let id: u64 = self.count;
        let (seg, place) = locate(id);
        if !is_addressable(self.row_stride, seg + 1) {
            return Err(corrupt("store exceeds maximum size"));
        }
        let ghost (dim, stride, count) = (
            self.spec_dim(),
            self.spec_stride(),
            self.spec_count(),
        );
        let ghost first = self.spec_segments();
        proof {
            self.lemma_count_fits();
        }
        self.ensure_segments(seg + 1);
        let ghost grown = self.spec_segments();
        proof {
            lemma_row_in_segment(stride, dim, id as nat);
            lemma_segment_size(stride, (seg + 1) as nat, seg as nat);
            let (p, w) = (place as int, (stride / 4) as int);
            assert(p <= p * w) by (nonlinear_arith)
                requires
                    0 <= p,
                    1 <= w,
            ;
            assert(grown[seg as int] == self.segments@[seg as int]@);
        }
        let at: usize = place as usize * (self.row_stride / 4);
        write_row(&mut self.segments[seg], at, vector);
        proof {
            law_every_row_has_one_place(id as nat, seg as nat);
            lemma_segments_grow((seg + 1) as nat, grown.len());
        }
        self.count = id + 1;
        proof {
            let after = self.spec_segments();
            assert(after =~= grown.update(
                seg as int,
                overwritten(grown[seg as int], at as int, vector@),
            ));
            assert forall|k: int| 0 <= k < after.len() implies (#[trigger] after[k]).len()
                == rows_in(k as nat) * (stride / 4) by {
                assert(grown[k].len() == rows_in(k as nat) * (stride / 4));
            }
            assert forall|i: int| 0 <= i < count + 1 implies #[trigger] row_at(
                after,
                stride,
                dim,
                i as nat,
            ) == old(self).rows().push(vector@)[i] by {
                if i < count {
                    lemma_segment_is_there(count, first.len(), i as nat);
                    assert(grown.take(first.len() as int)[segment_of(i as nat) as int]
                        == first[segment_of(i as nat) as int]);
                }
                lemma_overwritten_row(grown, after, stride, dim, id as nat, vector@, i as nat);
            }
            assert(self.rows() =~= old(self).rows().push(vector@));
        }
        Ok(id)
    }

    /// One more vector fits.
    pub open spec fn has_room(&self) -> bool {
        addressable(self.spec_stride(), segment_of(self.spec_count()) + 1)
    }

    /// Whether the vector with this id fits.
    pub fn room_for(&self, id: u64) -> (r: bool)
        requires
            self.wf(),
        ensures
            r == addressable(self.spec_stride(), segment_of(id as nat) + 1),
    {
        is_addressable(self.row_stride, locate(id).0 + 1)
    }

    /// The vector with this id.
    pub fn get(&self, id: u64) -> (r: Result<&[u32], Error>)
        requires
            self.wf(),
        ensures
            r is Ok <==> id < self.rows().len(),
            r matches Ok(v) ==> v@ == self.rows()[id as int],
            r matches Err(e) ==> e == Error::IdOutOfRange(id),
    {
        if id >= self.count {
            return Err(Error::IdOutOfRange(id));
        }
        Ok(self.get_unchecked(id))
    }

    /// Like [`VectorStore::get`], for an id that is known to be there.
    #[inline]
    pub fn get_unchecked(&self, id: u64) -> (v: &[u32])
        requires
            self.wf(),
            id < self.rows().len(),
        ensures
            v@ == self.rows()[id as int],
            v@.len() == self.spec_dim(),
    {
        let (seg, place) = locate(id);
        proof {
            let segments = self.spec_segments();
            let (dim, stride) = (self.spec_dim(), self.spec_stride());
            lemma_segment_is_there(self.spec_count(), segments.len(), id as nat);
            lemma_row_in_segment(stride, dim, id as nat);
            lemma_segment_size(stride, segments.len(), seg as nat);
            let (p, w) = (place as int, (stride / 4) as int);
            assert(p <= p * w) by (nonlinear_arith)
                requires
                    0 <= p,
                    1 <= w,
            ;
            assert(segments[seg as int] == self.segments@[seg as int]@);
        }
        let at: usize = place as usize * (self.row_stride / 4);
        vstd::slice::slice_subrange(self.segments[seg].as_slice(), at, at + self.dim)
    }

    /// The header page with the present count.
    fn header_page(&self) -> (page: Vec<u8>)
        requires
            self.wf(),
        ensures
            page@ == with_count(self.spec_header(), self.spec_count()),
    {
        let len: usize = self.header.len();
        let mut page: Vec<u8> = vstd::slice::slice_to_vec(
            vstd::slice::slice_subrange(self.header.as_slice(), 0, OFF_COUNT),
        );
        put_u64(&mut page, self.count);
        put_bytes(
            &mut page,
            vstd::slice::slice_subrange(self.header.as_slice(), OFF_COUNT + 8, len),
        );
        assert(page@ =~= with_count(self.header@, self.count as nat));
        page
    }

    /// What flushing the store writes: all segments in order, then the header
    /// page with the count, which must not come before the rows that it counts.
    pub fn flush(&self) -> (plan: Vec<(Target, Vec<u8>)>)
        requires
            self.wf(),
        ensures
            steps(plan@) == flush_plan(*self),
    {
        let n: usize = self.segments.len();
        let mut plan: Vec<(Target, Vec<u8>)> = Vec::new();
        let ghost want = flush_plan(*self);
        while plan.len() < n
            invariant
                n == self.segments@.len(),
                want == flush_plan(*self),
                want.len() == n + 1,
                plan@.len() <= n,
                steps(plan@) == want.take(plan@.len() as int),
            decreases n - plan@.len(),
        {
            let k: usize = plan.len();
            let mut bytes: Vec<u8> = Vec::new();
            put_words(&mut bytes, self.segments[k].as_slice());
            let ghost before = plan@;
            plan.push((Target::StoreSegment(k), bytes));
            proof {
                assert(self.spec_segments()[k as int] == self.segments@[k as int]@);
                assert(bytes@ =~= words_bytes(self.spec_segments()[k as int]));
                assert(steps(plan@) =~= steps(before).push((Target::StoreSegment(k), bytes@)));
                assert(want.take(k + 1) =~= want.take(k as int).push(want[k as int]));
            }
        }
        let ghost before = plan@;
        let page: Vec<u8> = self.header_page();
        plan.push((Target::StoreHeader, page));
        proof {
            assert(steps(plan@) =~= steps(before).push((Target::StoreHeader, page@)));
            assert(want.take(n as int).push(want[n as int]) =~= want);
        }
        plan
    }
}

/// What flushing a store writes: all segments in order, then the header page.
pub open spec fn flush_plan(store: VectorStore) -> Seq<(Target, Seq<u8>)> {
    Seq::new(
        store.spec_segments().len(),
        |k: int| (Target::StoreSegment(k as usize), words_bytes(store.spec_segments()[k])),
    ).push((Target::StoreHeader, with_count(store.spec_header(), store.spec_count())))
}

} // verus!
