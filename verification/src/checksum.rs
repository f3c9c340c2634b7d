//! The checksum that guards every file of a database.

use crate::bytes::{le32, lemma_u32_at, u32_at};
use vstd::prelude::*;

verus! {

/// The CRC-32 checksum of a byte string.
pub uninterp spec fn crc32(bytes: Seq<u8>) -> u32;

/// Two byte strings differ at `at` and nowhere else.
pub open spec fn differ_at(a: Seq<u8>, b: Seq<u8>, at: int) -> bool {
    &&& a.len() == b.len()
    &&& 0 <= at < a.len()
    &&& a[at] != b[at]
    &&& forall|i: int| 0 <= i < a.len() && i != at ==> a[i] == b[i]
}

/// Two byte strings differ in exactly one byte.
pub open spec fn one_byte_off(a: Seq<u8>, b: Seq<u8>) -> bool {
    exists|at: int| differ_at(a, b, at)
}

/// Calls `crc32fast::hash`, which returns the CRC-32 (IEEE) checksum of the
/// whole slice. It depends on the bytes alone. And like every CRC of 32 bits it
/// tells byte strings of one length apart if they differ in a single byte: that
/// byte leads to another state, and from different states the same bytes lead
/// to different states. No more is claimed.
#[verifier::external_body]
pub(crate) fn checksum(bytes: &[u8]) -> (sum: u32)
    ensures
        sum == crc32(bytes@),
        forall|other: Seq<u8>| #[trigger] one_byte_off(bytes@, other) ==> crc32(other) != sum,
{
    crc32fast::hash(bytes)
}

/// A file that ends in the checksum of what comes before.
pub open spec fn sealed(file: Seq<u8>) -> bool {
    &&& file.len() >= 4
    &&& u32_at(file, file.len() - 4) == crc32(file.take(file.len() - 4))
}

/// Something with its checksum behind it is sealed.
pub proof fn lemma_sealed(body: Seq<u8>)
    ensures
        sealed(body + le32(crc32(body))),
{
    broadcast use crate::bytes::lemma_le32_len;

    let file = body + le32(crc32(body));
    assert(file.take(file.len() - 4) =~= body);
    assert(file.subrange(file.len() - 4, file.len() as int) =~= le32(crc32(body)));
    lemma_u32_at(file, file.len() - 4, crc32(body));
}

/// A sealed file of which one byte was changed, wherever it is, does not end in
/// its checksum.
pub proof fn lemma_damage_shows(file: Seq<u8>, good: Seq<u8>, sum: u32)
    requires
        sealed(good),
        one_byte_off(file, good),
        sum == crc32(file.take(file.len() - 4)),
        forall|other: Seq<u8>| #[trigger]
            one_byte_off(file.take(file.len() - 4), other) ==> crc32(other) != sum,
    ensures
        u32_at(file, file.len() - 4) != sum,
{
    let n = file.len() - 4;
    let at = choose|at: int| differ_at(file, good, at);
    if at < n {
        assert(differ_at(file.take(n), good.take(n), at));
        assert(one_byte_off(file.take(n), good.take(n)));
        assert(u32_at(file, n) == u32_at(good, n));
    } else {
        assert(file.take(n) =~= good.take(n));
        assert(file[at] != good[at]);
        assert(u32_at(file, n) != u32_at(good, n));
    }
}

} // verus!
