//! What holds of product quantization as a whole.

use crate::bytes::{lemma_u32_at, lemma_words_at, lemma_words_bytes_len, u32_at, words_at};
use crate::checksum::{crc32, sealed};
use crate::float32::{
    from_integer, is_nan, law_less_is_smaller, law_small_integers_are_exact, lt, smaller,
    to_integer, INFINITY,
};
use crate::pq::centers::{lemma_row_is_piece, row_of};
use crate::pq::codebook::{
    all_codes, book_body, book_bytes, book_in, code_at, code_put, quantizer_bytes, quantizer_in,
    Quantizer, PQ_MAGIC, PQ_VERSION,
};
use crate::pq::{
    argmin, code_distance, decoded, distances, encoded, lane_sum, lemma_piece, piece, rest_sum,
    stored_words, table_of, term, well_stored, K,
};
use vstd::prelude::*;

verus! {

broadcast use {crate::bytes::lemma_le32_len, crate::bytes::lemma_le64_len};

/// The position that is chosen holds a smallest value, and the first of them:
/// nothing is less, and what comes before is greater or no number. If nothing
/// is less than infinity, position zero is chosen.
pub proof fn law_the_first_closest_is_chosen(value: spec_fn(int) -> u32, n: nat, k: int)
    requires
        0 <= k < n,
    ensures
        0 <= argmin(value, n).0 < n,
        !lt(value(k), argmin(value, n).1),
        k < argmin(value, n).0 ==> is_nan(value(k)) || lt(argmin(value, n).1, value(k)),
        argmin(value, n).1 == value(argmin(value, n).0) || argmin(value, n) == (0int, INFINITY),
    decreases n,
{
    lemma_argmin(value, n);
    let (at, least) = argmin(value, n);
    let (was, before) = argmin(value, (n - 1) as nat);
    if k < n - 1 {
        law_the_first_closest_is_chosen(value, (n - 1) as nat, k);
    }
}

proof fn lemma_argmin(value: spec_fn(int) -> u32, n: nat)
    ensures
        !is_nan(argmin(value, n).1),
        n > 0 ==> 0 <= argmin(value, n).0 < n,
        argmin(value, n).1 == value(argmin(value, n).0) || argmin(value, n) == (0int, INFINITY),
    decreases n,
{
    if n > 0 {
        lemma_argmin(value, (n - 1) as nat);
    }
}

/// The length of some codes.
pub proof fn lemma_all_codes_len(
    q: Quantizer,
    rows: Seq<Seq<u32>>,
    f: spec_fn(Seq<u32>, Seq<u32>) -> u32,
)
    ensures
        all_codes(q, rows, f).len() == rows.len() * q.m,
    decreases rows.len(),
{
    if rows.len() > 0 {
        lemma_all_codes_len(q, rows.drop_last(), f);
        let n = rows.len() as int;
        assert((n - 1) * q.m + q.m == n * q.m) by (nonlinear_arith);
    } else {
        assert(0 * q.m == 0) by (nonlinear_arith);
    }
}

/// The codes cover the vectors: each vector's code stands at its id.
pub proof fn law_codes_cover_the_vectors(
    q: Quantizer,
    rows: Seq<Seq<u32>>,
    f: spec_fn(Seq<u32>, Seq<u32>) -> u32,
    id: int,
)
    requires
        0 <= id < rows.len(),
    ensures
        all_codes(q, rows, f).len() == rows.len() * q.m,
        code_at(all_codes(q, rows, f), id, q.m) == encoded(
            q.centroids,
            q.m,
            q.sub_dim,
            rows[id],
            f,
        ),
    decreases rows.len(),
{
    lemma_all_codes_len(q, rows, f);
    let front = rows.drop_last();
    let n = front.len() as int;
    lemma_all_codes_len(q, front, f);
    let all = all_codes(q, rows, f);
    if id < n {
        law_codes_cover_the_vectors(q, front, f, id);
        lemma_piece(all_codes(q, front, f).len(), id, q.m, front.len());
        assert(code_at(all, id, q.m) =~= code_at(all_codes(q, front, f), id, q.m));
    } else {
        assert(code_at(all, id, q.m) =~= encoded(q.centroids, q.m, q.sub_dim, rows.last(), f));
    }
}

/// Encoding a vector as it arrives gives the codes that encoding everything
/// anew would give.
pub proof fn law_codes_keep_up_with_inserts(
    q: Quantizer,
    rows: Seq<Seq<u32>>,
    v: Seq<u32>,
    f: spec_fn(Seq<u32>, Seq<u32>) -> u32,
)
    ensures
        all_codes(q, rows.push(v), f) == code_put(
            all_codes(q, rows, f),
            (rows.len() * q.m) as int,
            encoded(q.centroids, q.m, q.sub_dim, v, f),
        ),
{
    lemma_all_codes_len(q, rows, f);
    assert(rows.push(v).drop_last() =~= rows);
    let n = rows.len() as int;
    assert(n * q.m >= 0) by (nonlinear_arith)
        requires
            n >= 0,
            q.m >= 0,
    ;
    assert(all_codes(q, rows.push(v), f) =~= code_put(
        all_codes(q, rows, f),
        (rows.len() * q.m) as int,
        encoded(q.centroids, q.m, q.sub_dim, v, f),
    ));
}

/// A code that is put in its place is found there, and all others stay as they are.
pub proof fn law_a_code_goes_to_its_place(
    codes: Seq<u8>,
    m: nat,
    code: Seq<u8>,
    id: int,
    other: int,
)
    requires
        code.len() == m,
        0 <= id,
        0 <= other,
        other != id,
        (other + 1) * m <= codes.len(),
    ensures
        ({
            let after = code_put(codes, id * m, code);
            &&& (id + 1) * m <= after.len()
            &&& after.subrange(id * m, (id + 1) * m) == code
            &&& after.subrange(other * m, (other + 1) * m) == codes.subrange(
                other * m,
                (other + 1) * m,
            )
        }),
{
    let after = code_put(codes, id * m, code);
    assert(0 <= id * m && (id + 1) * m == id * m + m && 0 <= other * m && (other + 1) * m == other
        * m + m) by (nonlinear_arith)
        requires
            0 <= id,
            0 <= other,
            0 <= m,
    ;
    assert(other < id ==> (other + 1) * m <= id * m) by (nonlinear_arith)
        requires
            0 <= m,
    ;
    assert(id < other ==> (id + 1) * m <= other * m) by (nonlinear_arith)
        requires
            0 <= m,
    ;
    assert(after.subrange(id * m, (id + 1) * m) =~= code);
    assert(after.subrange(other * m, (other + 1) * m) =~= codes.subrange(
        other * m,
        (other + 1) * m,
    ));
}

proof fn lemma_decoded(centroids: Seq<u32>, d: nat, code: Seq<u8>, n: nat, books: nat)
    requires
        n <= code.len(),
        n <= books,
        centroids.len() == (books * K as nat) * d,
    ensures
        decoded(centroids, d, code, n).len() == n * d,
        forall|sub: int|
            0 <= sub < n ==> #[trigger] piece(decoded(centroids, d, code, n), sub, d) == piece(
                centroids,
                sub * K + code[sub],
                d,
            ),
    decreases n,
{
    let all = decoded(centroids, d, code, n);
    if n > 0 {
        let k = (n - 1) as nat;
        lemma_decoded(centroids, d, code, k, books);
        lemma_piece(centroids.len(), k * K + code[k as int], d, books * K as nat);
        assert(k * d + d == n * d) by (nonlinear_arith)
            requires
                n == k + 1,
        ;
        let front = decoded(centroids, d, code, k);
        assert forall|sub: int| 0 <= sub < n implies #[trigger] piece(all, sub, d) == piece(
            centroids,
            sub * K + code[sub],
            d,
        ) by {
            if sub < k {
                lemma_piece(front.len(), sub, d, k);
                assert(piece(all, sub, d) =~= piece(front, sub, d));
            } else {
                assert(piece(all, sub, d) =~= piece(centroids, sub * K + code[sub], d));
            }
        }
    } else {
        assert(0 * d == 0) by (nonlinear_arith);
    }
}

/// A code stands for the centroids that its bytes name, one for each part.
pub proof fn law_a_code_stands_for_centroids(
    centroids: Seq<u32>,
    m: nat,
    sub_dim: nat,
    code: Seq<u8>,
    sub: int,
)
    requires
        code.len() == m,
        centroids.len() == (m * K as nat) * sub_dim,
        0 <= sub < m,
    ensures
        decoded(centroids, sub_dim, code, m).len() == m * sub_dim,
        row_of(decoded(centroids, sub_dim, code, m), sub, sub_dim) == row_of(
            centroids,
            sub * K + code[sub],
            sub_dim,
        ),
{
    lemma_decoded(centroids, sub_dim, code, m, m);
    let all = decoded(centroids, sub_dim, code, m);
    lemma_row_is_piece(all, sub, sub_dim);
    lemma_row_is_piece(centroids, sub * K + code[sub], sub_dim);
    assert(piece(all, sub, sub_dim) == piece(centroids, sub * K + code[sub], sub_dim));
}

/// Encoding a vector loses as little as it can: in every part no centroid of that
/// part is closer to the vector than what its code stands for.
pub proof fn law_encoding_takes_the_closest_centroids(
    centroids: Seq<u32>,
    m: nat,
    sub_dim: nat,
    v: Seq<u32>,
    f: spec_fn(Seq<u32>, Seq<u32>) -> u32,
    sub: int,
    k: int,
)
    requires
        centroids.len() == (m * K as nat) * sub_dim,
        0 <= sub < m,
        0 <= k < K,
    ensures
        ({
            let code = encoded(centroids, m, sub_dim, v, f);
            let back = decoded(centroids, sub_dim, code, m);
            let part = row_of(v, sub, sub_dim);
            let here = f(part, row_of(back, sub, sub_dim));
            let there = f(part, row_of(centroids, sub * K + k, sub_dim));
            &&& code.len() == m
            &&& !smaller(there, here)
            &&& k < code[sub] ==> is_nan(there) || smaller(here, there)
        }),
{
    let code = encoded(centroids, m, sub_dim, v, f);
    law_a_code_stands_for_centroids(centroids, m, sub_dim, code, sub);
    let value = distances(f, piece(v, sub, sub_dim), centroids, sub * K, sub_dim);
    let at = argmin(value, K as nat).0;
    law_the_first_closest_is_chosen(value, K as nat, k);
    law_the_first_closest_is_chosen(value, K as nat, 0);
    assert(code[sub] == at);
    lemma_row_is_piece(v, sub, sub_dim);
    lemma_row_is_piece(centroids, sub * K + at, sub_dim);
    lemma_row_is_piece(centroids, sub * K + k, sub_dim);
    law_less_is_smaller(value(k), value(at));
    law_less_is_smaller(value(at), value(k));
}

/// Each term that the distance of a code is made up of is the distance between
/// a part of the query and that part of the vector that the code stands for.
pub proof fn law_terms_are_distances_to_the_decoded_vector(
    q: Quantizer,
    query: Seq<u32>,
    code: Seq<u8>,
    f: spec_fn(Seq<u32>, Seq<u32>) -> u32,
    sub: int,
)
    requires
        code.len() == q.m,
        q.centroids.len() == (q.m * K as nat) * q.sub_dim,
        0 <= sub < q.m,
    ensures
        term(table_of(q.centroids, q.m, q.sub_dim, query, f), code, sub) == f(
            piece(query, sub, q.sub_dim),
            piece(decoded(q.centroids, q.sub_dim, code, q.m), sub, q.sub_dim),
        ),
{
    lemma_decoded(q.centroids, q.sub_dim, code, q.m, q.m);
    let i = sub * K + code[sub];
    assert(i / K as int == sub);
    assert(0 <= i < q.m * K);
}

/// The entries of a table that a code names, one for each part, added up one
/// after the other: for part `sub` the entry at `code[sub]` of those for that part.
pub open spec fn plain_sum(
    table: Seq<u32>,
    code: Seq<u8>,
    parts: nat,
    plus: spec_fn(u32, u32) -> u32,
) -> u32
    decreases parts,
{
    if parts == 0 {
        0
    } else {
        plus(
            plain_sum(table, code, (parts - 1) as nat, plus),
            table[(parts - 1) * K + code[parts - 1]],
        )
    }
}

/// The order of two terms does not matter.
#[verifier::opaque]
pub open spec fn commutes(plus: spec_fn(u32, u32) -> u32) -> bool {
    forall|a: u32, b: u32| #[trigger] plus(a, b) == plus(b, a)
}

/// The order of two additions does not matter.
#[verifier::opaque]
pub open spec fn associates(plus: spec_fn(u32, u32) -> u32) -> bool {
    forall|a: u32, b: u32, c: u32| #[trigger] plus(plus(a, b), c) == plus(a, plus(b, c))
}

/// Addition is exact: it does not matter in which order things are added up, and
/// zero and zero are zero.
pub open spec fn is_exact(plus: spec_fn(u32, u32) -> u32) -> bool {
    &&& commutes(plus)
    &&& associates(plus)
    &&& plus(0, 0) == 0
}

proof fn lemma_commutes(plus: spec_fn(u32, u32) -> u32, a: u32, b: u32)
    requires
        commutes(plus),
    ensures
        plus(a, b) == plus(b, a),
{
    reveal(commutes);
}

proof fn lemma_associates(plus: spec_fn(u32, u32) -> u32, a: u32, b: u32, c: u32)
    requires
        associates(plus),
    ensures
        plus(plus(a, b), c) == plus(a, plus(b, c)),
{
    reveal(associates);
}

proof fn lemma_swap(plus: spec_fn(u32, u32) -> u32, a: u32, b: u32, c: u32, d: u32)
    requires
        is_exact(plus),
    ensures
        plus(plus(a, b), plus(c, d)) == plus(plus(a, c), plus(b, d)),
{
    lemma_associates(plus, a, b, plus(c, d));
    lemma_associates(plus, b, c, d);
    lemma_commutes(plus, b, c);
    lemma_associates(plus, c, b, d);
    lemma_associates(plus, a, c, plus(b, d));
}

/// Four terms at once, or one after the other.
proof fn lemma_four_terms(
    plus: spec_fn(u32, u32) -> u32,
    sum: u32,
    t0: u32,
    t1: u32,
    t2: u32,
    t3: u32,
)
    requires
        is_exact(plus),
    ensures
        plus(sum, plus(plus(t0, t1), plus(t2, t3))) == plus(
            plus(plus(plus(sum, t0), t1), t2),
            t3,
        ),
{
    let half = plus(sum, plus(t0, t1));
    lemma_associates(plus, sum, t0, t1);
    lemma_associates(plus, half, t2, t3);
    lemma_associates(plus, sum, plus(t0, t1), plus(t2, t3));
}

proof fn lemma_four_lanes(
    table: Seq<u32>,
    code: Seq<u8>,
    groups: nat,
    plus: spec_fn(u32, u32) -> u32,
)
    requires
        is_exact(plus),
    ensures
        plus(
            plus(
                lane_sum(table, code, 0, groups, plus),
                lane_sum(table, code, 1, groups, plus),
            ),
            plus(
                lane_sum(table, code, 2, groups, plus),
                lane_sum(table, code, 3, groups, plus),
            ),
        ) == plain_sum(table, code, 4 * groups, plus),
    decreases groups,
{
    if groups > 0 {
        let g = (groups - 1) as nat;
        lemma_four_lanes(table, code, g, plus);
        let l0 = lane_sum(table, code, 0, g, plus);
        let l1 = lane_sum(table, code, 1, g, plus);
        let l2 = lane_sum(table, code, 2, g, plus);
        let l3 = lane_sum(table, code, 3, g, plus);
        let t0 = term(table, code, (4 * g + 0) as int);
        let t1 = term(table, code, (4 * g + 1) as int);
        let t2 = term(table, code, (4 * g + 2) as int);
        let t3 = term(table, code, (4 * g + 3) as int);
        lemma_swap(plus, l0, t0, l1, t1);
        lemma_swap(plus, l2, t2, l3, t3);
        lemma_swap(plus, plus(l0, l1), plus(t0, t1), plus(l2, l3), plus(t2, t3));
        let sum = plain_sum(table, code, 4 * g, plus);
        lemma_four_terms(plus, sum, t0, t1, t2, t3);
        assert(plain_sum(table, code, 4 * g + 1, plus) == plus(sum, t0));
        assert(plain_sum(table, code, 4 * g + 2, plus) == plus(plus(sum, t0), t1));
        assert(plain_sum(table, code, 4 * g + 3, plus) == plus(plus(plus(sum, t0), t1), t2));
        assert(plain_sum(table, code, 4 * g + 4, plus) == plus(
            plus(plus(plus(sum, t0), t1), t2),
            t3,
        ));
    }
}

proof fn lemma_rest_is_added(
    table: Seq<u32>,
    code: Seq<u8>,
    from: nat,
    to: nat,
    plus: spec_fn(u32, u32) -> u32,
)
    requires
        from <= to,
    ensures
        rest_sum(table, code, plain_sum(table, code, from, plus), from as int, to as int, plus)
            == plain_sum(table, code, to, plus),
    decreases to,
{
    if from < to {
        lemma_rest_is_added(table, code, from, (to - 1) as nat, plus);
    }
}

/// The distance of a code is the sum of what the table holds for each of its
/// parts, in which each part counts once, wherever addition is exact.
pub proof fn law_every_part_counts_once(
    table: Seq<u32>,
    code: Seq<u8>,
    plus: spec_fn(u32, u32) -> u32,
)
    requires
        is_exact(plus),
    ensures
        code_distance(table, code, plus) == plain_sum(table, code, code.len(), plus),
{
    let groups = code.len() / 4;
    lemma_four_lanes(table, code, groups, plus);
    lemma_rest_is_added(table, code, 4 * groups, code.len(), plus);
}

/// The distances between the parts of two vectors, added up one after the other.
pub open spec fn sum_over_parts(
    a: Seq<u32>,
    b: Seq<u32>,
    sub_dim: nat,
    parts: nat,
    f: spec_fn(Seq<u32>, Seq<u32>) -> u32,
    plus: spec_fn(u32, u32) -> u32,
) -> u32
    decreases parts,
{
    if parts == 0 {
        0
    } else {
        plus(
            sum_over_parts(a, b, sub_dim, (parts - 1) as nat, f, plus),
            f(row_of(a, parts - 1, sub_dim), row_of(b, parts - 1, sub_dim)),
        )
    }
}

/// The distance of a code from a query is that of the vector that the code stands
/// for, part by part, wherever addition is exact.
pub proof fn law_codes_are_as_far_as_what_they_stand_for(
    q: Quantizer,
    query: Seq<u32>,
    code: Seq<u8>,
    f: spec_fn(Seq<u32>, Seq<u32>) -> u32,
    plus: spec_fn(u32, u32) -> u32,
)
    requires
        is_exact(plus),
        code.len() == q.m,
        q.centroids.len() == (q.m * K as nat) * q.sub_dim,
    ensures
        code_distance(table_of(q.centroids, q.m, q.sub_dim, query, f), code, plus)
            == sum_over_parts(
            query,
            decoded(q.centroids, q.sub_dim, code, q.m),
            q.sub_dim,
            q.m,
            f,
            plus,
        ),
{
    let table = table_of(q.centroids, q.m, q.sub_dim, query, f);
    law_every_part_counts_once(table, code, plus);
    lemma_plain_sum_over_parts(q, query, code, f, plus, q.m);
}

proof fn lemma_plain_sum_over_parts(
    q: Quantizer,
    query: Seq<u32>,
    code: Seq<u8>,
    f: spec_fn(Seq<u32>, Seq<u32>) -> u32,
    plus: spec_fn(u32, u32) -> u32,
    parts: nat,
)
    requires
        code.len() == q.m,
        q.centroids.len() == (q.m * K as nat) * q.sub_dim,
        parts <= q.m,
    ensures
        plain_sum(table_of(q.centroids, q.m, q.sub_dim, query, f), code, parts, plus)
            == sum_over_parts(
            query,
            decoded(q.centroids, q.sub_dim, code, q.m),
            q.sub_dim,
            parts,
            f,
            plus,
        ),
    decreases parts,
{
    if parts > 0 {
        let sub = parts - 1;
        lemma_plain_sum_over_parts(q, query, code, f, plus, sub as nat);
        law_terms_are_distances_to_the_decoded_vector(q, query, code, f, sub);
        lemma_row_is_piece(query, sub, q.sub_dim);
        lemma_row_is_piece(decoded(q.centroids, q.sub_dim, code, q.m), sub, q.sub_dim);
    }
}

/// A size survives being stored as a single-precision value. All up to two to
/// the 24th do.
pub open spec fn storable(n: nat) -> bool {
    to_integer(from_integer(n), usize::MAX as nat) == n
}

/// A codebook file gives back the quantizer that it was made of, if its sizes
/// survive being stored.
pub proof fn law_codebook_round_trip(q: Quantizer)
    requires
        0 < q.m,
        0 < q.dim,
        storable(q.dim),
        storable(q.m),
        storable(q.sub_dim),
        q.sub_dim * q.m == q.dim,
        q.centroids.len() == (q.m * K as nat) * q.sub_dim,
        q.centroids.len() <= usize::MAX,
    ensures
        book_in(book_bytes(q)) == Ok::<Quantizer, Seq<char>>(q),
{
    let words = stored_words(q.dim, q.m, q.sub_dim, q.centroids);
    let stored = quantizer_bytes(q);
    let body = book_body(q);
    let raw = book_bytes(q);
    lemma_words_bytes_len(words);
    assert(raw.take(raw.len() - 4) =~= body);
    assert(raw.subrange(raw.len() - 4, raw.len() as int) =~= crate::bytes::le32(crc32(body)));
    lemma_u32_at(raw, raw.len() - 4, crc32(body));
    assert(raw.subrange(0, 4) =~= crate::bytes::le32(PQ_MAGIC));
    lemma_u32_at(raw, 0, PQ_MAGIC);
    assert(raw.subrange(4, 8) =~= crate::bytes::le32(PQ_VERSION));
    lemma_u32_at(raw, 4, PQ_VERSION);
    assert(body.subrange(8, body.len() as int) =~= stored);
    assert(stored.subrange(0, 4 * words.len() as int) =~= stored);
    lemma_words_at(stored, 0, words);
    assert(stored.len() / 4 == words.len());
    let w = words_at(stored, 0, stored.len() / 4);
    assert(w == words);
    assert(w.subrange(3, w.len() as int) =~= q.centroids);
    assert(well_stored(stored));
    assert(quantizer_in(stored) =~= q);
}

/// A codebook file that is accepted ends in its checksum and holds as many words as
/// its sizes say, which are the centroids.
pub proof fn law_an_accepted_codebook_is_whole(raw: Seq<u8>)
    requires
        book_in(raw) is Ok,
    ensures
        ({
            let q = book_in(raw)->Ok_0;
            &&& sealed(raw)
            &&& 0 < q.m
            &&& 0 < q.dim
            &&& q.sub_dim * q.m == q.dim
            &&& q.centroids.len() == q.m * K * q.sub_dim
            &&& raw.len() == 24 + 4 * q.centroids.len()
            &&& forall|i: int|
                0 <= i < q.centroids.len() ==> #[trigger] q.centroids[i] == u32_at(raw, 20 + 4 * i)
        }),
{
    let body = raw.take(raw.len() - 4);
    let stored = body.subrange(8, body.len() as int);
    let w = words_at(stored, 0, stored.len() / 4);
    let q = book_in(raw)->Ok_0;
    assert(stored.len() == raw.len() - 12);
    assert forall|i: int| 0 <= i < q.centroids.len() implies #[trigger] q.centroids[i] == u32_at(
        raw,
        20 + 4 * i,
    ) by {
        assert(q.centroids[i] == w[3 + i]);
        assert(w[3 + i] == u32_at(stored, 0 + 4 * (3 + i)));
    }
}

/// Sizes up to two to the 24th survive being stored.
pub proof fn law_small_sizes_are_storable(n: nat)
    requires
        n <= 0x100_0000,
    ensures
        storable(n),
{
    law_small_integers_are_exact(n, usize::MAX as nat);
}

} // verus!
