//! Segments that double in size.
//!
//! Rows are kept in segments that never move. The first holds
//! [`BASE_ROWS`] rows and each further one twice as many as the one before,
//! so a few dozen segments hold any number of rows.

use vstd::arithmetic::power2::{
    lemma2_to64, lemma_pow2_adds, lemma_pow2_pos, lemma_pow2_strictly_increases, pow2,
};
use vstd::prelude::*;
use vstd::std_specs::bits::u64_leading_zeros;

verus! {

/// Rows in the first segment.
pub const BASE_ROWS: u64 = 1024;

/// More segments than this are never needed.
pub const MAX_SEGMENTS: usize = 40;

/// The exponent of the largest power of two that is no larger than `n`.
pub open spec fn log2(n: nat) -> nat
    decreases n,
{
    if n < 2 {
        0
    } else {
        1 + log2(n / 2)
    }
}

/// The number of rows in a segment.
pub open spec fn rows_in(seg: nat) -> nat {
    BASE_ROWS as nat * pow2(seg)
}

/// The number of rows in all segments before this one.
pub open spec fn rows_before(seg: nat) -> int {
    BASE_ROWS * (pow2(seg) - 1)
}

/// The segment that holds row `id`.
pub open spec fn segment_of(id: nat) -> nat {
    log2(id / BASE_ROWS as nat + 1)
}

/// The place of row `id` in its segment.
pub open spec fn place_of(id: nat) -> int {
    id - rows_before(segment_of(id))
}

pub proof fn lemma_log2(n: nat)
    requires
        n >= 1,
    ensures
        pow2(log2(n)) <= n < pow2(log2(n) + 1),
    decreases n,
{
    lemma2_to64();
    if n >= 2 {
        lemma_log2(n / 2);
        let k = log2(n / 2);
        lemma_pow2_adds(1, k);
        lemma_pow2_adds(1, k + 1);
    }
}

pub proof fn lemma_log2_is_the_only_one(n: nat, k: nat)
    requires
        pow2(k) <= n < pow2(k + 1),
    ensures
        log2(n) == k,
{
    lemma_pow2_pos(k);
    lemma_log2(n);
    let l = log2(n);
    if k < l {
        if k + 1 < l {
            lemma_pow2_strictly_increases(k + 1, l);
        }
    }
    if l < k {
        if l + 1 < k {
            lemma_pow2_strictly_increases(l + 1, k);
        }
    }
}

proof fn lemma_leading_zeros(n: u64)
    requires
        n >= 1,
    ensures
        u64_leading_zeros(n) + log2(n as nat) == 63,
    decreases n,
{
    reveal(u64_leading_zeros);
    if n >= 2 {
        lemma_leading_zeros(n / 2);
    } else {
        assert(u64_leading_zeros(0) == 64);
    }
}

/// Every row lies in the segment that it is looked up in, and in no other:
/// segment `k` holds the rows from `rows_before(k)` up to `rows_before(k + 1)`.
pub proof fn law_every_row_has_one_place(id: nat, seg: nat)
    ensures
        0 <= place_of(id) < rows_in(segment_of(id)),
        rows_before(seg) <= id < rows_before(seg + 1) <==> segment_of(id) == seg,
        rows_before(seg + 1) == rows_before(seg) + rows_in(seg),
{
    let n = id / BASE_ROWS as nat + 1;
    lemma_log2(n);
    lemma_pow2_adds(1, segment_of(id));
    lemma_pow2_adds(1, seg);
    lemma2_to64();
    assert(pow2(seg + 1) == 2 * pow2(seg));
    assert(pow2(segment_of(id) + 1) == 2 * pow2(segment_of(id)));
    if rows_before(seg) <= id < rows_before(seg + 1) {
        lemma_log2_is_the_only_one(n, seg);
    }
}

/// Two rows never share a place.
pub proof fn law_places_are_distinct(a: nat, b: nat)
    ensures
        segment_of(a) == segment_of(b) && place_of(a) == place_of(b) ==> a == b,
{
}

/// Segments before the last one together hold the rows before it.
pub proof fn lemma_segments_grow(a: nat, b: nat)
    requires
        a <= b,
    ensures
        rows_before(a) <= rows_before(b),
        rows_in(a) <= rows_in(b),
        rows_before(0) == 0,
        rows_in(a) >= BASE_ROWS,
{
    lemma2_to64();
    lemma_pow2_pos(a);
    if a < b {
        lemma_pow2_strictly_increases(a, b);
    }
}

/// A row that comes later lies in the same segment or a later one.
pub proof fn lemma_segment_of_grows(a: nat, b: nat)
    requires
        a <= b,
    ensures
        segment_of(a) <= segment_of(b),
{
    let (s, t) = (segment_of(a), segment_of(b));
    law_every_row_has_one_place(a, s);
    law_every_row_has_one_place(b, t);
    if t < s {
        lemma_segments_grow(t + 1, s);
    }
}

/// The power of two that a segment's size is built on.
#[inline]
pub fn power_of_two(exponent: usize) -> (p: u64)
    requires
        exponent < 64,
    ensures
        p == pow2(exponent as nat),
{
    proof {
        vstd::bits::lemma_u64_pow2_no_overflow(exponent as nat);
        vstd::bits::lemma_u64_shl_is_mul(1, exponent as u64);
    }
    1u64 << exponent
}

/// The exponent of the largest power of two that is no larger than `n`.
#[inline]
pub fn floor_log2(n: u64) -> (exponent: usize)
    requires
        n >= 1,
    ensures
        exponent == log2(n as nat),
        exponent < 64,
        pow2(exponent as nat) <= n < pow2((exponent + 1) as nat),
{
    let zeros: u32 = n.leading_zeros();
    proof {
        lemma_leading_zeros(n);
        lemma_log2(n as nat);
    }
    (63 - zeros) as usize
}

/// The number of rows in a segment.
pub fn seg_rows(seg: usize) -> (rows: u64)
    requires
        seg <= 53,
    ensures
        rows == rows_in(seg as nat),
{
    proof {
        lemma_segments_grow(seg as nat, 53);
        lemma2_to64();
        vstd::arithmetic::power2::lemma2_to64_rest();
    }
    BASE_ROWS * power_of_two(seg)
}

/// Which segment holds row `id`, and the row's place within it.
#[inline]
pub fn locate(id: u64) -> (at: (usize, u64))
    ensures
        at.0 == segment_of(id as nat),
        at.1 == place_of(id as nat),
        at.0 <= 54,
{
    let n: u64 = id / BASE_ROWS + 1;
    let seg: usize = floor_log2(n);
    proof {
        lemma2_to64();
        vstd::arithmetic::power2::lemma2_to64_rest();
        if log2(n as nat) > 54 {
            lemma_pow2_strictly_increases(54, log2(n as nat));
        }
        law_every_row_has_one_place(id as nat, 0);
    }
    let before: u64 = BASE_ROWS * (power_of_two(seg) - 1);
    (seg, id - before)
}

} // verus!
