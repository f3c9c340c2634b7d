//! The codebook file, and the codes that are derived from it.
//!
//! Only the codebook is stored, never the codes: they follow from the codebook
//! and the vectors, so deriving them anew on opening keeps them in step with
//! the vectors, those recovered from the log among them.
//!
//! Format, little-endian throughout: magic u32, version u32, the quantizer,
//! crc32 u32 over everything before it.

use crate::bytes::{le32, put_bytes, put_u32, read_u32, u32_at, words_at, words_bytes};
use crate::checksum::{
    checksum, crc32, lemma_damage_shows, lemma_sealed, one_byte_off, sealed,
};
use crate::error::{append_decimal, corrupt, decimal, is_corrupt, Error};
use crate::float32::to_integer;
use crate::io::{steps, Target};
use crate::oracle::{computes, scores_dim};
use crate::pq::{encoded, stored_words, well_stored, ProductQuantizer};
use crate::storage::store::VectorStore;
use vstd::prelude::*;
use vstd::string::StringExecFns;

verus! {

broadcast use {crate::bytes::lemma_le32_len, crate::bytes::lemma_le64_len};

/// "VKPQ".
pub const PQ_MAGIC: u32 = 0x564B_5051;

pub const PQ_VERSION: u32 = 1;

/// The parts of a quantizer.
#[verifier::ext_equal]
pub ghost struct Quantizer {
    pub dim: nat,
    pub m: nat,
    pub sub_dim: nat,
    pub centroids: Seq<u32>,
}

impl View for ProductQuantizer {
    type V = Quantizer;

    open spec fn view(&self) -> Quantizer {
        Quantizer {
            dim: self.spec_dim(),
            m: self.spec_m(),
            sub_dim: self.spec_sub_dim(),
            centroids: self.spec_centroids(),
        }
    }
}

/// The quantizer as bytes.
pub open spec fn quantizer_bytes(q: Quantizer) -> Seq<u8> {
    words_bytes(stored_words(q.dim, q.m, q.sub_dim, q.centroids))
}

/// Everything but the checksum.
pub open spec fn book_body(q: Quantizer) -> Seq<u8> {
    le32(PQ_MAGIC) + le32(PQ_VERSION) + quantizer_bytes(q)
}

/// A whole codebook file.
pub open spec fn book_bytes(q: Quantizer) -> Seq<u8> {
    book_body(q) + le32(crc32(book_body(q)))
}

/// The quantizer that bytes hold.
pub open spec fn quantizer_in(bytes: Seq<u8>) -> Quantizer {
    let w = words_at(bytes, 0, bytes.len() / 4);
    Quantizer {
        dim: to_integer(w[0], usize::MAX as nat),
        m: to_integer(w[1], usize::MAX as nat),
        sub_dim: to_integer(w[2], usize::MAX as nat),
        centroids: w.subrange(3, w.len() as int),
    }
}

/// The quantizer that a codebook file holds, or what is wrong with it.
pub open spec fn book_in(raw: Seq<u8>) -> Result<Quantizer, Seq<char>> {
    let body = raw.take(raw.len() - 4);
    let stored = body.subrange(8, body.len() as int);
    if raw.len() < 16 {
        Err("pq.codebook truncated"@)
    } else if u32_at(raw, raw.len() - 4) != crc32(body) {
        Err("pq.codebook checksum mismatch"@)
    } else if u32_at(raw, 0) != PQ_MAGIC {
        Err("pq.codebook bad magic"@)
    } else if u32_at(raw, 4) != PQ_VERSION {
        Err("pq.codebook version "@ + decimal(u32_at(raw, 4) as nat) + ", expected 1"@)
    } else if !well_stored(stored) {
        Err("pq.codebook malformed"@)
    } else {
        Ok(quantizer_in(stored))
    }
}

/// What saving a codebook writes.
pub fn save_codebook(pq: &ProductQuantizer) -> (plan: Vec<(Target, Vec<u8>)>)
    ensures
        steps(plan@) == seq![(Target::Codebook, book_bytes(pq@))],
        sealed(steps(plan@)[0].1),
{
    let mut out: Vec<u8> = Vec::new();
    put_u32(&mut out, PQ_MAGIC);
    put_u32(&mut out, PQ_VERSION);
    let body: Vec<u8> = pq.to_bytes();
    put_bytes(&mut out, body.as_slice());
    assert(out@ =~= book_body(pq@));
    proof {
        lemma_sealed(out@);
    }
    let sum: u32 = checksum(out.as_slice());
    put_u32(&mut out, sum);
    let mut plan: Vec<(Target, Vec<u8>)> = Vec::with_capacity(1);
    plan.push((Target::Codebook, out));
    assert(steps(plan@) =~= seq![(Target::Codebook, out@)]);
    plan
}

/// Reads a codebook file. One of which a byte was changed, wherever it is, is
/// never taken.
pub fn load_codebook(raw: &[u8]) -> (r: Result<ProductQuantizer, Error>)
    ensures
        match book_in(raw@) {
            Ok(q) => r matches Ok(pq) && pq.wf() && pq@ == q,
            Err(text) => r matches Err(e) && is_corrupt(e, text),
        },
        forall|good: Seq<u8>| #[trigger]
            one_byte_off(raw@, good) && sealed(good) && good.len() >= 16 ==> r is Err
                && is_corrupt(r->Err_0, "pq.codebook checksum mismatch"@),
{
    let len: usize = raw.len();
    if len < 16 {
        return Err(corrupt("pq.codebook truncated"));
    }
    let body: &[u8] = vstd::slice::slice_subrange(raw, 0, len - 4);
    assert(body@ =~= raw@.take(raw@.len() - 4));
    let sum: u32 = checksum(body);
    proof {
        assert forall|good: Seq<u8>| #[trigger]
            one_byte_off(raw@, good) && sealed(good) implies u32_at(raw@, len - 4) != sum by {
            lemma_damage_shows(raw@, good, sum);
        }
    }
    if sum != read_u32(raw, len - 4) {
        return Err(corrupt("pq.codebook checksum mismatch"));
    }
    if read_u32(raw, 0) != PQ_MAGIC {
        return Err(corrupt("pq.codebook bad magic"));
    }
    let version: u32 = read_u32(raw, 4);
    if version != PQ_VERSION {
        let mut text: String = String::new();
        text.append("pq.codebook version ");
        append_decimal(&mut text, version as u64);
        text.append(", expected 1");
        assert(text@ =~= "pq.codebook version "@ + decimal(version as nat) + ", expected 1"@);
        return Err(Error::Corrupt(text));
    }
    match ProductQuantizer::from_bytes(vstd::slice::slice_subrange(body, 8, len - 4)) {
        Some(pq) => Ok(pq),
        None => Err(corrupt("pq.codebook malformed")),
    }
}

/// The codes of some vectors, end to end.
pub open spec fn all_codes(
    q: Quantizer,
    rows: Seq<Seq<u32>>,
    f: spec_fn(Seq<u32>, Seq<u32>) -> u32,
) -> Seq<u8>
    decreases rows.len(),
{
    if rows.len() == 0 {
        Seq::empty()
    } else {
        all_codes(q, rows.drop_last(), f) + encoded(
            q.centroids,
            q.m,
            q.sub_dim,
            rows.last(),
            f,
        )
    }
}

/// The codes with the one at `at` replaced by `code`. What is missing before
/// it is filled with zeros.
pub open spec fn code_put(codes: Seq<u8>, at: int, code: Seq<u8>) -> Seq<u8> {
    let end = at + code.len();
    Seq::new(
        if codes.len() < end {
            end as nat
        } else {
            codes.len()
        },
        |i: int|
            if at <= i < end {
                code[i - at]
            } else if i < codes.len() {
                codes[i]
            } else {
                0
            },
    )
}

/// The code with this number.
pub open spec fn code_at(codes: Seq<u8>, id: int, m: nat) -> Seq<u8> {
    codes.subrange(id * m, id * m + m)
}

/// Puts a code in its place.
pub fn put_code(codes: &mut Vec<u8>, at: usize, code: &Vec<u8>)
    requires
        at + code@.len() <= usize::MAX,
    ensures
        final(codes)@ == code_put(old(codes)@, at as int, code@),
{
    let end: usize = at + code.len();
    let had: usize = codes.len();
    if had < end {
        codes.resize(end, 0);
        assert forall|i: int| 0 <= i < had implies #[trigger] codes@[i] == old(codes)@[i] by {
            assert(codes@.subrange(0, had as int)[i] == old(codes)@[i]);
        }
    }
    let ghost grown = codes@;
    let mut i: usize = 0;
    while i < code.len()
        invariant
            i <= code@.len(),
            end == at + code@.len(),
            end <= codes@.len(),
            codes@.len() == grown.len(),
            forall|j: int|
                0 <= j < codes@.len() ==> #[trigger] codes@[j] == if at <= j < at + i {
                    code@[j - at]
                } else {
                    grown[j]
                },
        decreases code@.len() - i,
    {
        codes.set(at + i, code[i]);
        i = i + 1;
    }
    assert(codes@ =~= code_put(old(codes)@, at as int, code@));
}

/// Encodes every vector of a store.
pub fn encode_all<L: Fn(&[u32], &[u32]) -> u32>(
    pq: &ProductQuantizer,
    store: &VectorStore,
    l2: &L,
) -> (codes: Vec<u8>)
    requires
        pq.wf(),
        store.wf(),
        pq@.dim == store.spec_dim(),
        scores_dim(*l2, pq@.sub_dim),
    ensures
        codes@.len() == store.rows().len() * pq@.m,
        forall|f: spec_fn(Seq<u32>, Seq<u32>) -> u32| #[trigger]
            computes(*l2, f) ==> codes@ == all_codes(pq@, store.rows(), f),
{
    let n: usize = store.len();
    let m: usize = pq.m();
    let mut codes: Vec<u8> = Vec::new();
    let mut code: Vec<u8> = vec![0u8; m];
    let mut id: usize = 0;
    let ghost rows = store.rows();
    proof {
        assert(0 * m == 0) by (nonlinear_arith);
        assert(rows.take(0) =~= Seq::empty());
    }
    while id < n
        invariant
            id <= n,
            pq.wf(),
            store.wf(),
            pq@.dim == store.spec_dim(),
            scores_dim(*l2, pq@.sub_dim),
            m == pq@.m,
            rows == store.rows(),
            n == rows.len(),
            code@.len() == m,
            codes@.len() == id * m,
            forall|f: spec_fn(Seq<u32>, Seq<u32>) -> u32| #[trigger]
                computes(*l2, f) ==> codes@ == all_codes(pq@, rows.take(id as int), f),
        decreases n - id,
    {
        let row: &[u32] = store.get_unchecked(id as u64);
        pq.encode(row, &mut code, l2);
        let ghost before = codes@;
        codes.extend_from_slice(code.as_slice());
        proof {
            assert(codes@ =~= before + code@);
            assert(id * m + m == (id + 1) * m) by (nonlinear_arith);
            assert(rows.take(id + 1).drop_last() =~= rows.take(id as int));
        }
        id = id + 1;
    }
    assert(rows.take(n as int) =~= rows);
    codes
}

} // verus!
