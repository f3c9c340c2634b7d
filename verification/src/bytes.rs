//! Little-endian integers in byte buffers.

use vstd::prelude::*;

verus! {

/// The four bytes of `x`, least significant first.
#[verifier::opaque]
pub open spec fn le32(x: u32) -> Seq<u8> {
    seq![
        (x % 256) as u8,
        (x / 256 % 256) as u8,
        (x / 65536 % 256) as u8,
        (x / 16777216) as u8,
    ]
}

/// The eight bytes of `x`, least significant first.
#[verifier::opaque]
pub open spec fn le64(x: u64) -> Seq<u8> {
    le32((x % 4294967296) as u32) + le32((x / 4294967296) as u32)
}

/// The 32-bit integer stored at `off`.
pub open spec fn u32_at(s: Seq<u8>, off: int) -> u32 {
    (s[off] + 256 * s[off + 1] + 65536 * s[off + 2] + 16777216 * s[off + 3]) as u32
}

/// The 64-bit integer stored at `off`.
pub open spec fn u64_at(s: Seq<u8>, off: int) -> u64 {
    (u32_at(s, off) + 4294967296 * u32_at(s, off + 4)) as u64
}

/// The bytes of a run of 32-bit words.
pub open spec fn words_bytes(w: Seq<u32>) -> Seq<u8>
    decreases w.len(),
{
    if w.len() == 0 {
        Seq::empty()
    } else {
        words_bytes(w.drop_last()) + le32(w.last())
    }
}

/// The `n` words stored from `off` on.
pub open spec fn words_at(s: Seq<u8>, off: int, n: nat) -> Seq<u32> {
    Seq::new(n, |i: int| u32_at(s, off + 4 * i))
}

/// A word has four bytes.
pub broadcast proof fn lemma_le32_len(x: u32)
    ensures
        #[trigger] le32(x).len() == 4,
{
    reveal(le32);
}

/// A double word has eight bytes.
pub broadcast proof fn lemma_le64_len(x: u64)
    ensures
        #[trigger] le64(x).len() == 8,
{
    reveal(le32);
    reveal(le64);
}

/// A word reads back from its own bytes, wherever they lie.
pub proof fn lemma_u32_at(s: Seq<u8>, off: int, x: u32)
    requires
        0 <= off,
        off + 4 <= s.len(),
        s.subrange(off, off + 4) == le32(x),
    ensures
        u32_at(s, off) == x,
{
    broadcast use {lemma_le32_len, lemma_le64_len};
    reveal(le32);
    let t = s.subrange(off, off + 4);
    assert(t[0] == s[off] && t[1] == s[off + 1] && t[2] == s[off + 2] && t[3] == s[off + 3]);
    lemma_split32(x);
}

proof fn lemma_split32(x: u32)
    ensures
        x % 256 + 256 * (x / 256 % 256) + 65536 * (x / 65536 % 256) + 16777216 * (x / 16777216)
            == x,
        x / 16777216 < 256,
{
    assert(x / 65536 == (x / 256) / 256);
    assert(x / 16777216 == (x / 65536) / 256);
}

/// The bytes of an integer are its digits to the base 256, the least significant
/// first.
pub proof fn law_bytes_are_little_endian(x: u32, y: u64)
    ensures
        le32(x).len() == 4,
        le32(x)[0] + 256 * le32(x)[1] + 65536 * le32(x)[2] + 16777216 * le32(x)[3] == x,
        le64(y).len() == 8,
        le64(y)[0] + 256 * le64(y)[1] + 65536 * le64(y)[2] + 16777216 * le64(y)[3] + 4294967296 * (
        le64(y)[4] + 256 * le64(y)[5] + 65536 * le64(y)[6] + 16777216 * le64(y)[7]) == y,
{
    reveal(le32);
    reveal(le64);
    lemma_split32(x);
    lemma_split32((y % 4294967296) as u32);
    lemma_split32((y / 4294967296) as u32);
}

/// A double word reads back from its own bytes, wherever they lie.
pub proof fn lemma_u64_at(s: Seq<u8>, off: int, x: u64)
    requires
        0 <= off,
        off + 8 <= s.len(),
        s.subrange(off, off + 8) == le64(x),
    ensures
        u64_at(s, off) == x,
{
    broadcast use {lemma_le32_len, lemma_le64_len};
    reveal(le64);
    let lo = (x % 4294967296) as u32;
    let hi = (x / 4294967296) as u32;
    let t = s.subrange(off, off + 8);
    assert(t.subrange(0, 4) =~= le32(lo));
    assert(t.subrange(4, 8) =~= le32(hi));
    assert(s.subrange(off, off + 4) =~= t.subrange(0, 4));
    assert(s.subrange(off + 4, off + 8) =~= t.subrange(4, 8));
    lemma_u32_at(s, off, lo);
    lemma_u32_at(s, off + 4, hi);
}

/// The byte length of a run of words.
pub proof fn lemma_words_bytes_len(w: Seq<u32>)
    ensures
        words_bytes(w).len() == 4 * w.len(),
    decreases w.len(),
{
    broadcast use {lemma_le32_len, lemma_le64_len};
    if w.len() > 0 {
        lemma_words_bytes_len(w.drop_last());
    }
}

/// Words read back from their own bytes, wherever they lie.
pub proof fn lemma_words_at(s: Seq<u8>, off: int, w: Seq<u32>)
    requires
        0 <= off,
        off + 4 * w.len() <= s.len(),
        s.subrange(off, off + 4 * w.len()) == words_bytes(w),
    ensures
        words_at(s, off, w.len()) == w,
    decreases w.len(),
{
    broadcast use {lemma_le32_len, lemma_le64_len};
    if w.len() > 0 {
        let n = w.len() - 1;
        let front = w.drop_last();
        let t = s.subrange(off, off + 4 * w.len());
        lemma_words_bytes_len(front);
        assert(t.subrange(0, 4 * n) =~= words_bytes(front));
        assert(s.subrange(off, off + 4 * n) =~= t.subrange(0, 4 * n));
        lemma_words_at(s, off, front);
        assert(t.subrange(4 * n, 4 * n + 4) =~= le32(w.last()));
        assert(s.subrange(off + 4 * n, off + 4 * n + 4) =~= t.subrange(4 * n, 4 * n + 4));
        lemma_u32_at(s, off + 4 * n, w.last());
        assert forall|i: int| 0 <= i < w.len() implies words_at(s, off, w.len())[i] == w[i] by {
            if i < n {
                assert(words_at(s, off, front.len())[i] == front[i]);
            }
        }
    }
    assert(words_at(s, off, w.len()) =~= w);
}

/// Reads the 32-bit integer at `off`.
pub fn read_u32(buf: &[u8], off: usize) -> (x: u32)
    requires
        off + 4 <= buf@.len(),
    ensures
        x == u32_at(buf@, off as int),
{
    buf[off] as u32 + 256 * (buf[off + 1] as u32) + 65536 * (buf[off + 2] as u32) + 16777216 * (
    buf[off + 3] as u32)
}

/// Reads the 64-bit integer at `off`.
pub fn read_u64(buf: &[u8], off: usize) -> (x: u64)
    requires
        off + 8 <= buf@.len(),
    ensures
        x == u64_at(buf@, off as int),
{
    assert(off + 8 <= buf.len());
    let lo: u32 = read_u32(buf, off);
    let hi: u32 = read_u32(buf, off + 4);
    lo as u64 + 4294967296 * (hi as u64)
}

/// Appends the bytes of `x`.
pub fn put_u32(out: &mut Vec<u8>, x: u32)
    ensures
        final(out)@ == old(out)@ + le32(x),
{
    out.push((x % 256) as u8);
    out.push((x / 256 % 256) as u8);
    out.push((x / 65536 % 256) as u8);
    out.push((x / 16777216) as u8);
    proof {
        reveal(le32);
        assert(out@ =~= old(out)@ + le32(x));
    }
}

/// Appends the bytes of `x`.
pub fn put_u64(out: &mut Vec<u8>, x: u64)
    ensures
        final(out)@ == old(out)@ + le64(x),
{
    put_u32(out, (x % 4294967296) as u32);
    put_u32(out, (x / 4294967296) as u32);
    proof {
        reveal(le64);
        assert(out@ =~= old(out)@ + le64(x));
    }
}

/// Appends the bytes of a run of words.
pub fn put_words(out: &mut Vec<u8>, words: &[u32])
    ensures
        final(out)@ == old(out)@ + words_bytes(words@),
{
    let mut i: usize = 0;
    assert(old(out)@ + words_bytes(words@.take(0)) =~= old(out)@);
    while i < words.len()
        invariant
            i <= words@.len(),
            out@ == old(out)@ + words_bytes(words@.take(i as int)),
        decreases words@.len() - i,
    {
        let ghost before = words@.take(i as int);
        put_u32(out, words[i]);
        i = i + 1;
        proof {
            let after = words@.take(i as int);
            assert(after.drop_last() =~= before);
            assert(after.last() == words@[i - 1]);
            assert(out@ =~= old(out)@ + words_bytes(after));
        }
    }
    assert(words@.take(i as int) =~= words@);
}

/// Appends a run of bytes.
pub fn put_bytes(out: &mut Vec<u8>, more: &[u8])
    ensures
        final(out)@ == old(out)@ + more@,
{
    out.extend_from_slice(more);
    assert(out@ =~= old(out)@ + more@);
}

/// Reads the `n` words stored from `off` on.
pub fn read_words(buf: &[u8], off: usize, n: usize) -> (words: Vec<u32>)
    requires
        off + 4 * n <= buf@.len(),
    ensures
        words@ == words_at(buf@, off as int, n as nat),
{
    let mut words: Vec<u32> = Vec::with_capacity(n);
    let mut i: usize = 0;
    while i < n
        invariant
            i <= n,
            off + 4 * n <= buf@.len(),
            words@ == words_at(buf@, off as int, i as nat),
        decreases n - i,
    {
        assert(off + 4 * i < buf.len());
        let x: u32 = read_u32(buf, off + 4 * i);
        words.push(x);
        i = i + 1;
        assert(words@ =~= words_at(buf@, off as int, i as nat));
    }
    words
}

/// Four bytes are those of the word that they stand for.
pub proof fn lemma_le32_of(s: Seq<u8>, off: int)
    requires
        0 <= off,
        off + 4 <= s.len(),
    ensures
        s.subrange(off, off + 4) == le32(u32_at(s, off)),
{
    reveal(le32);
    let x = u32_at(s, off);
    assert(x == s[off] + 256 * s[off + 1] + 65536 * s[off + 2] + 16777216 * s[off + 3]);
    assert(x % 256 == s[off]);
    assert(x / 256 % 256 == s[off + 1]);
    assert(x / 65536 % 256 == s[off + 2]);
    assert(x / 16777216 == s[off + 3]);
    assert(s.subrange(off, off + 4) =~= le32(x));
}

/// Eight bytes are those of the double word that they stand for.
pub proof fn lemma_le64_of(s: Seq<u8>, off: int)
    requires
        0 <= off,
        off + 8 <= s.len(),
    ensures
        s.subrange(off, off + 8) == le64(u64_at(s, off)),
{
    broadcast use lemma_le32_len;

    reveal(le64);
    let (lo, hi) = (u32_at(s, off), u32_at(s, off + 4));
    let y = u64_at(s, off);
    assert(y == lo + 4294967296 * hi);
    assert(y % 4294967296 == lo);
    assert(y / 4294967296 == hi);
    lemma_le32_of(s, off);
    lemma_le32_of(s, off + 4);
    assert(s.subrange(off, off + 8) =~= s.subrange(off, off + 4) + s.subrange(off + 4, off + 8));
}

/// Bytes are those of the words that they stand for.
pub proof fn lemma_words_bytes_of(s: Seq<u8>, off: int, n: nat)
    requires
        0 <= off,
        off + 4 * n <= s.len(),
    ensures
        s.subrange(off, off + 4 * n) == words_bytes(words_at(s, off, n)),
    decreases n,
{
    let w = words_at(s, off, n);
    if n == 0 {
        assert(s.subrange(off, off) =~= words_bytes(w));
    } else {
        let k = (n - 1) as nat;
        lemma_words_bytes_of(s, off, k);
        assert(w.drop_last() =~= words_at(s, off, k));
        lemma_le32_of(s, off + 4 * k);
        assert(s.subrange(off, off + 4 * n) =~= s.subrange(off, off + 4 * k) + s.subrange(
            off + 4 * k,
            off + 4 * k + 4,
        ));
    }
}

} // verus!
