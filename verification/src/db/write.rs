//! Inserting, and making inserts permanent.

use crate::db::model::{
    all_indexed, all_inserted, all_stored, batch_plan, batch_rows, callable, codes_padded,
    frame_step, has_room, indexed, insert_plan, inserted, linked, logged, performs, record,
    row_is_written, row_stored, row_trouble, shows, storable_rows, stored, Functions, Image,
};
use crate::db::{link, Db};
use crate::distance::Metric;
use crate::doubling::{law_every_row_has_one_place, rows_before, segment_of};
use crate::error::{corrupt, Error};
use crate::hnsw::persist::snapshot_bytes;
use crate::hnsw::scratch::VisitedSet;
use crate::io::{steps, Target};
use crate::pq::codebook::{book_bytes, put_code, save_codebook};
use crate::pq::{lemma_piece, piece, piece_of};
use crate::storage::store::{addressable, flush_plan, VectorStore};
use crate::wal::{
    frame_bytes, payload_len, too_long, vector_fits, Entry, Op, SyncPolicy, Wal, WalOp,
};
use vstd::prelude::*;

verus! {

/// An increase in either factor.
proof fn lemma_product(a: int, b: int, m: int)
    requires
        a <= b,
        0 <= m,
    ensures
        a * m <= b * m,
        (a + 1) * m == a * m + m,
{
    assert(a * m <= b * m) by (nonlinear_arith)
        requires
            a <= b,
            0 <= m,
    ;
    assert((a + 1) * m == a * m + m) by (nonlinear_arith);
}

impl Db {
    /// Why a vector is refused, if it is.
    fn refuse_row(&self, vector: &[u32]) -> (r: Result<(), Error>)
        requires
            self.wf(),
        ensures
            match row_trouble(self@, vector@) {
                None => r is Ok,
                Some(trouble) => r matches Err(e) && shows(e, trouble),
            },
    {
        let dim: usize = self.store.dim();
        if vector.len() != dim {
            return Err(Error::DimensionMismatch { expected: dim, got: vector.len() });
        }
        if !self.store.room_for(self.store.len() as u64) {
            return Err(corrupt("store exceeds maximum size"));
        }
        match &self.wal {
            None => Ok(()),
            Some(_) => if vector_fits(vector.len()) {
                Ok(())
            } else {
                Err(too_long())
            },
        }
    }

    /// Stores and logs a vector, without linking it into the graph.
    fn insert_row_storage_only(&mut self, vector: &[u32], answer: Result<(), Error>) -> (r: Result<
        u64,
        Error,
    >)
        requires
            old(self).wf(),
            old(self)@.log matches Some(log) ==> log.next_lsn < u64::MAX,
        ensures
            final(self).wf(),
            row_stored(old(self)@, vector@, answer, r, final(self)@),
    {
        let ghost img = self@;
        proof {
            reveal(row_stored);
            assert(has_room(img) == self.store.has_room());
        }
        match self.refuse_row(vector) {
            Err(e) => {
                return Err(e);
            },
            Ok(_) => {},
        }
        let id: u64 = match self.store.append(vector) {
            Err(e) => {
                return Err(e);
            },
            Ok(id) => id,
        };
        proof {
            assert(self@ =~= stored(img, vector@));
            let n = img.rows.len() as int;
            lemma_product(n, n + 1, img.pq->0.quantizer.m as int);
        }
        match &mut self.wal {
            None => {
                assert(self@ =~= logged(stored(img, vector@)));
                Ok(id)
            },
            Some(wal) => {
                let op = WalOp::Insert { id, vector: vstd::slice::slice_to_vec(vector) };
                assert(op@ =~= record(img, vector@).op);
                match wal.append(&op, answer) {
                    Err(e) => Err(e),
                    Ok(_) => Ok(id),
                }
            },
        }
    }

    /// What inserting a vector writes, or why it is refused. See
    /// [`Db::insert`].
    pub fn insert_writes(&self, vector: &[u32]) -> (r: Result<Vec<(Target, Vec<u8>)>, Error>)
        requires
            self.wf(),
        ensures
            match row_trouble(self@, vector@) {
                Some(trouble) => r matches Err(e) && shows(e, trouble),
                None => r matches Ok(plan) && steps(plan@) == insert_plan(self@, vector@),
            },
    {
        match self.refuse_row(vector) {
            Err(e) => {
                return Err(e);
            },
            Ok(_) => {},
        }
        let mut plan: Vec<(Target, Vec<u8>)> = Vec::new();
        match &self.wal {
            None => {},
            Some(wal) => {
                plan.push(wal.frame_ahead(0, self.store.len() as u64, vector));
            },
        }
        assert(steps(plan@) =~= insert_plan(self@, vector@));
        Ok(plan)
    }
}

/// Storing and logging a vector has nothing to do with linking an earlier one.
proof fn lemma_index_then_store(img: Image, id: u64, v: Seq<u32>, by: Functions)
    requires
        id < img.rows.len(),
    ensures
        indexed(logged(stored(img, v)), id, by) == logged(stored(indexed(img, id, by), v)),
{
    reveal(linked);
    assert(img.rows.push(v).take(id + 1) =~= img.rows.take(id + 1));
    assert(indexed(logged(stored(img, v)), id, by) =~= logged(stored(indexed(img, id, by), v)));
}

proof fn lemma_index_all_then_store(
    img: Image,
    base: int,
    n: nat,
    v: Seq<u32>,
    by: Functions,
)
    requires
        0 <= base,
        base + n <= img.rows.len() <= u64::MAX,
    ensures
        all_indexed(logged(stored(img, v)), base, n, by) == logged(
            stored(all_indexed(img, base, n, by), v),
        ),
        all_indexed(img, base, n, by).rows == img.rows,
    decreases n,
{
    if n > 0 {
        let k = (n - 1) as nat;
        lemma_index_all_then_store(img, base, k, v, by);
        lemma_index_then_store(all_indexed(img, base, k, by), (base + k) as u64, v, by);
    }
}

/// Storing and logging some vectors and only then linking them gives what
/// inserting them one after the other gives.
pub proof fn law_a_batch_is_so_many_inserts(img: Image, vs: Seq<Seq<u32>>, by: Functions)
    requires
        img.rows.len() + vs.len() <= u64::MAX,
    ensures
        all_indexed(all_stored(img, vs), img.rows.len() as int, vs.len(), by) == all_inserted(
            img,
            vs,
            by,
        ),
        all_stored(img, vs).rows == img.rows + vs,
        all_inserted(img, vs, by).rows == img.rows + vs,
    decreases vs.len(),
{
    let base = img.rows.len() as int;
    if vs.len() > 0 {
        let front = vs.drop_last();
        let v = vs.last();
        let before = all_stored(img, front);
        law_a_batch_is_so_many_inserts(img, front, by);
        lemma_index_all_then_store(before, base, front.len(), v, by);
        assert(all_stored(img, vs).rows =~= img.rows + vs);
        assert(all_inserted(img, vs, by).rows =~= img.rows + vs);
    } else {
        assert(img.rows + vs =~= img.rows);
    }
}

/// Only the links and the codes depend on distances.
pub open spec fn grown(before: Image, after: Image, nodes: nat) -> bool {
    &&& after.dim == before.dim
    &&& after.stride == before.stride
    &&& after.rows == before.rows
    &&& after.config == before.config
    &&& after.log == before.log
    &&& after.graph.nodes.len() == nodes
    &&& after.graph.entry is Some
    &&& after.pq is Some <==> before.pq is Some
    &&& after.pq is Some ==> after.pq->0.quantizer == before.pq->0.quantizer
}

impl Db {
    /// Links a stored vector into the graph, and encodes it if there are
    /// codes.
    fn index_row<
        K: Fn(Metric, &[u32], &[u32]) -> u32,
        V: Fn(usize, u64) -> usize,
        L: Fn(&[u32], &[u32]) -> u32,
    >(&mut self, id: u64, kernel: &K, level: &V, l2: &L, visited: &mut VisitedSet)
        requires
            old(self).wf(),
            old(visited).wf(),
            old(self)@.graph.nodes.len() <= id < old(self)@.rows.len(),
            callable(*kernel, *level, *l2),
        ensures
            final(self).wf(),
            final(visited).wf(),
            grown(old(self)@, final(self)@, (id + 1) as nat),
            forall|by: Functions| #[trigger]
                performs(*kernel, *level, *l2, by) ==> final(self)@ == indexed(
                    old(self)@,
                    id,
                    by,
                ),
    {
        let ghost img = self@;
        link(&mut self.index, &self.store, id, kernel, level, visited);
        match &mut self.pq {
            None => {},
            Some(state) => {
                let m: usize = state.pq.m();
                let n: usize = self.store.len();
                let row: &[u32] = self.store.get_unchecked(id);
                let mut code: Vec<u8> = vec![0u8; m];
                state.pq.encode(row, &mut code, l2);
                proof {
                    let d = state.pq@.sub_dim as int;
                    assert(id < n);
                    assert(m <= state.pq@.dim) by (nonlinear_arith)
                        requires
                            d * m == state.pq@.dim,
                            state.pq@.dim > 0,
                            d >= 0,
                    ;
                    self.store.lemma_codes_fit(m as nat);
                    lemma_product(id as int, n as int, m as int);
                    lemma_product(id + 1, n as int, m as int);
                    assert(0 <= id * m) by (nonlinear_arith);
                }
                put_code(&mut state.codes, id as usize * m, &code);
            },
        }
        proof {
            assert forall|by: Functions| #[trigger] performs(
                *kernel,
                *level,
                *l2,
                by,
            ) implies self@ == indexed(img, id, by) by {
                assert(self@ =~= indexed(img, id, by));
            }
        }
    }

    /// Inserts a vector. `answer` is what performing [`Db::insert_writes`] has
    /// come to: once its record is written and synced, the insert survives a
    /// crash.
    pub fn insert<
        K: Fn(Metric, &[u32], &[u32]) -> u32,
        V: Fn(usize, u64) -> usize,
        L: Fn(&[u32], &[u32]) -> u32,
    >(
        &mut self,
        vector: &[u32],
        answer: Result<(), Error>,
        kernel: &K,
        level: &V,
        l2: &L,
        visited: &mut VisitedSet,
    ) -> (r: Result<u64, Error>)
        requires
            old(self).wf(),
            old(visited).wf(),
            callable(*kernel, *level, *l2),
            old(self)@.log matches Some(log) ==> log.next_lsn < u64::MAX,
        ensures
            final(self).wf(),
            final(visited).wf(),
            r is Ok <==> row_trouble(old(self)@, vector@) is None && (old(self)@.log is Some
                ==> answer is Ok),
            match r {
                Ok(id) => {
                    &&& id == old(self)@.rows.len()
                    &&& grown(
                        logged(stored(old(self)@, vector@)),
                        final(self)@,
                        old(self)@.rows.len() + 1,
                    )
                    &&& forall|by: Functions| #[trigger]
                        performs(*kernel, *level, *l2, by) ==> final(self)@ == inserted(
                            old(self)@,
                            vector@,
                            by,
                        )
                },
                Err(e) => match row_trouble(old(self)@, vector@) {
                    Some(trouble) => shows(e, trouble) && final(self)@ == old(self)@,
                    None => answer == Err::<(), Error>(e) && final(self)@ == stored(
                        old(self)@,
                        vector@,
                    ),
                },
            },
    {
        proof {
            reveal(row_stored);
        }
        match self.insert_row_storage_only(vector, answer) {
            Err(e) => Err(e),
            Ok(id) => {
                self.index_row(id, kernel, level, l2, visited);
                Ok(id)
            },
        }
    }
}

/// What comes of storing and logging a batch. If writing its records failed, the
/// vectors before the failure are stored and logged, and that one is stored. If
/// a vector is refused, those before it are stored and logged.
pub open spec fn batch_stored(
    img: Image,
    vs: Seq<Seq<u32>>,
    written: int,
    answer: Result<(), Error>,
    r: Result<(), Error>,
    after: Image,
) -> bool {
    match answer {
        Err(e) => {
            &&& r == Err::<(), Error>(e)
            &&& after == stored(all_stored(img, vs.take(written)), vs[written])
        },
        Ok(_) => match r {
            Ok(_) => storable_rows(img, vs, vs.len() as int) && after == all_stored(img, vs),
            Err(e) => !storable_rows(img, vs, vs.len() as int) && exists|k: int|
                0 <= k < vs.len() && storable_rows(img, vs, k) && row_stored(
                    all_stored(img, vs.take(k)),
                    #[trigger] vs[k],
                    Ok(()),
                    Err(e),
                    after,
                ),
        },
    }
}

proof fn lemma_batch_row(batch: Seq<u32>, dim: nat, i: int)
    requires
        0 < dim,
        0 <= i < batch_rows(batch, dim).len(),
    ensures
        batch_rows(batch, dim)[i] == piece(batch, i, dim),
{
}

proof fn lemma_all_stored_one_more(img: Image, vs: Seq<Seq<u32>>, i: int)
    requires
        0 <= i < vs.len(),
    ensures
        all_stored(img, vs.take(i + 1)) == logged(stored(all_stored(img, vs.take(i)), vs[i])),
        all_stored(img, vs.take(i)).rows.len() == img.rows.len() + i,
{
    lemma_all_stored_log(img, vs.take(i));
    assert(vs.take(i + 1).drop_last() =~= vs.take(i));
    assert(vs.take(i + 1).last() == vs[i]);
}

/// The next vector of a batch is stored and logged.
proof fn lemma_stored_one_more(img: Image, vs: Seq<Seq<u32>>, i: int, id: u64, after: Image)
    requires
        0 <= i < vs.len(),
        storable_rows(img, vs, i),
        row_stored(all_stored(img, vs.take(i)), vs[i], Ok(()), Ok(id), after),
    ensures
        after == all_stored(img, vs.take(i + 1)),
        storable_rows(img, vs, i + 1),
{
    reveal(row_stored);
    reveal(storable_rows);
    lemma_all_stored_one_more(img, vs, i);
}

/// One more vector of a batch can be stored, or none can any more.
proof fn lemma_storable_one_more(img: Image, vs: Seq<Seq<u32>>, i: int)
    requires
        0 <= i < vs.len(),
        storable_rows(img, vs, i),
    ensures
        storable_rows(img, vs, i + 1) == (row_trouble(all_stored(img, vs.take(i)), vs[i]) is None),
{
    reveal(storable_rows);
}

/// If more vectors of a batch can be stored, fewer can.
proof fn lemma_storable_fewer(img: Image, vs: Seq<Seq<u32>>, i: int, n: int)
    requires
        0 <= i <= n <= vs.len(),
        storable_rows(img, vs, n),
    ensures
        storable_rows(img, vs, i),
        i < n ==> row_trouble(all_stored(img, vs.take(i)), vs[i]) is None,
{
    reveal(storable_rows);
}

/// When a vector of a batch can be stored, and what is written for it.
proof fn lemma_batch_step(img: Image, vs: Seq<Seq<u32>>, i: int)
    requires
        0 <= i < vs.len(),
        vs[i].len() == img.dim,
        img.log is Some,
        img.log->0.next_lsn + vs.len() <= u64::MAX,
        img.rows.len() + i <= u64::MAX,
    ensures
        row_trouble(all_stored(img, vs.take(i)), vs[i]) is None <==> addressable(
            img.stride,
            segment_of((img.rows.len() + i) as nat) + 1,
        ) && payload_len(img.dim) <= u32::MAX,
        frame_step(all_stored(img, vs.take(i)), vs[i]) == (
            Target::WalFrame { sync: img.log->0.policy == SyncPolicy::Always },
            frame_bytes(
                Entry {
                    lsn: (img.log->0.next_lsn + i) as u64,
                    op: Op { id: (img.rows.len() + i) as u64, vector: vs[i] },
                },
            ),
        ),
{
    lemma_all_stored_log(img, vs.take(i));
    lemma_all_stored_geometry(img, vs.take(i));
}

/// What is written for the first vectors of a batch.
proof fn lemma_batch_plan_one_more(img: Image, vs: Seq<Seq<u32>>, i: int)
    requires
        0 <= i < vs.len(),
    ensures
        img.log is Some && storable_rows(img, vs, i + 1) ==> batch_plan(img, vs.take(i + 1))
            == batch_plan(img, vs.take(i)).push(frame_step(all_stored(img, vs.take(i)), vs[i])),
        !(img.log is Some && storable_rows(img, vs, i + 1)) ==> batch_plan(img, vs.take(i + 1))
            == batch_plan(img, vs.take(i)),
{
    let part = vs.take(i + 1);
    assert(part.drop_last() =~= vs.take(i));
    assert(part.last() == vs[i]);
    lemma_storable_prefix(img, vs, i + 1);
}

proof fn lemma_storable_prefix(img: Image, vs: Seq<Seq<u32>>, n: int)
    requires
        0 <= n <= vs.len(),
    ensures
        storable_rows(img, vs.take(n), n) == storable_rows(img, vs, n),
{
    reveal(storable_rows);
    let part = vs.take(n);
    assert forall|i: int| 0 <= i < n implies part[i] == vs[i] && part.take(i) == vs.take(i) by {
        assert(part.take(i) =~= vs.take(i));
    }
    if storable_rows(img, part, n) {
        assert forall|i: int| 0 <= i < n implies row_trouble(
            all_stored(img, vs.take(i)),
            #[trigger] vs[i],
        ) is None by {
            assert(row_trouble(all_stored(img, part.take(i)), part[i]) is None);
        }
    }
}

/// Nothing more is written once a vector is refused.
proof fn lemma_batch_plan_stops(img: Image, vs: Seq<Seq<u32>>, k: int, n: int)
    requires
        0 <= k <= n <= vs.len(),
        k < vs.len(),
        img.log is None || !storable_rows(img, vs, k + 1),
    ensures
        batch_plan(img, vs.take(n)) == batch_plan(img, vs.take(k)),
    decreases n - k,
{
    if k < n {
        lemma_batch_plan_stops(img, vs, k, n - 1);
        reveal(storable_rows);
        assert(storable_rows(img, vs, n) && img.log is Some ==> storable_rows(img, vs, k + 1));
        lemma_batch_plan_one_more(img, vs, n - 1);
    }
}

/// As many records are written as vectors can be stored and logged.
proof fn lemma_batch_plan_len(img: Image, vs: Seq<Seq<u32>>, n: int)
    requires
        0 <= n <= vs.len(),
    ensures
        batch_plan(img, vs.take(n)).len() <= n,
        img.log is Some && storable_rows(img, vs, n) ==> batch_plan(img, vs.take(n)).len() == n,
        batch_plan(img, vs.take(n)).len() > 0 ==> img.log is Some && storable_rows(
            img,
            vs,
            batch_plan(img, vs.take(n)).len() as int,
        ),
    decreases n,
{
    if n > 0 {
        lemma_batch_plan_len(img, vs, n - 1);
        reveal(storable_rows);
        lemma_batch_plan_one_more(img, vs, n - 1);
    } else {
        assert(vs.take(0) =~= Seq::empty());
    }
}

/// The longer the batch, the more is written.
proof fn lemma_batch_plan_grows(img: Image, vs: Seq<Seq<u32>>, a: int, b: int)
    requires
        0 <= a <= b <= vs.len(),
    ensures
        batch_plan(img, vs.take(a)).len() <= batch_plan(img, vs.take(b)).len(),
    decreases b,
{
    if a < b {
        lemma_batch_plan_grows(img, vs, a, b - 1);
        lemma_batch_plan_one_more(img, vs, b - 1);
    }
}

/// The records that inserting a batch writes are those of its first vectors, one
/// for each.
pub proof fn law_a_batch_writes_its_first_rows(img: Image, vs: Seq<Seq<u32>>, k: int)
    ensures
        row_is_written(img, vs, k) <==> 0 <= k < batch_plan(img, vs).len(),
{
    let n = vs.len() as int;
    assert(vs.take(n) =~= vs);
    lemma_batch_plan_len(img, vs, n);
    if 0 <= k < batch_plan(img, vs).len() {
        lemma_storable_fewer(img, vs, k + 1, batch_plan(img, vs).len() as int);
    }
    if row_is_written(img, vs, k) {
        lemma_batch_plan_len(img, vs, k + 1);
        lemma_batch_plan_grows(img, vs, k + 1, n);
    }
}

/// The logged records are counted.
proof fn lemma_all_stored_log(img: Image, vs: Seq<Seq<u32>>)
    ensures
        all_stored(img, vs).log is Some <==> img.log is Some,
        img.log is Some && img.log->0.next_lsn + vs.len() <= u64::MAX ==> all_stored(
            img,
            vs,
        ).log->0.next_lsn == img.log->0.next_lsn + vs.len(),
        all_stored(img, vs).dim == img.dim,
        all_stored(img, vs).graph == img.graph,
        all_stored(img, vs).rows == img.rows + vs,
    decreases vs.len(),
{
    if vs.len() > 0 {
        lemma_all_stored_log(img, vs.drop_last());
        assert(all_stored(img, vs).rows =~= img.rows + vs);
    } else {
        assert(img.rows + vs =~= img.rows);
    }
}

impl Db {
    /// Stores and logs the first rows of a batch.
    fn store_batch(&mut self, batch: &[u32], rows: usize, dim: usize) -> (r: Result<(), Error>)
        requires
            old(self).wf(),
            0 < dim,
            dim == old(self)@.dim,
            rows <= batch@.len() / (dim as nat),
            batch@.len() % (dim as nat) == 0,
            old(self)@.log matches Some(log) ==> log.next_lsn + rows <= u64::MAX,
        ensures
            final(self).wf(),
            ({
                let img = old(self)@;
                let vs = batch_rows(batch@, dim as nat);
                match r {
                    Ok(_) => {
                        &&& final(self)@ == all_stored(img, vs.take(rows as int))
                        &&& storable_rows(img, vs, rows as int)
                    },
                    Err(e) => {
                        &&& !storable_rows(img, vs, rows as int)
                        &&& exists|k: int|
                            0 <= k < rows && storable_rows(img, vs, k) && row_stored(
                                all_stored(img, vs.take(k)),
                                #[trigger] vs[k],
                                Ok(()),
                                Err(e),
                                final(self)@,
                            )
                    },
                }
            }),
    {
        let ghost img = self@;
        let ghost vs = batch_rows(batch@, dim as nat);
        let ghost n = batch@.len() / (dim as nat);
        let mut i: usize = 0;
        proof {
            reveal(storable_rows);
            assert(vs.take(0) =~= Seq::empty());
            vstd::arithmetic::div_mod::lemma_fundamental_div_mod(batch@.len() as int, dim as int);
            assert(n * dim == dim * n) by (nonlinear_arith);
        }
        while i < rows
            invariant
                i <= rows <= n,
                n == vs.len(),
                0 < dim,
                self.wf(),
                img == old(self)@,
                dim == img.dim,
                batch@.len() == n * dim,
                vs == batch_rows(batch@, dim as nat),
                img.log matches Some(log) ==> log.next_lsn + rows <= u64::MAX,
                self@ == all_stored(img, vs.take(i as int)),
                storable_rows(img, vs, i as int),
            decreases rows - i,
        {
            proof {
                lemma_piece(batch@.len(), i as int, dim as nat, n);
                lemma_all_stored_log(img, vs.take(i as int));
                lemma_batch_row(batch@, dim as nat, i as int);
            }
            let row: &[u32] = piece_of(batch, i, dim);
            match self.insert_row_storage_only(row, Ok(())) {
                Err(e) => {
                    proof {
                        reveal(row_stored);
                        reveal(storable_rows);
                        assert(row_trouble(all_stored(img, vs.take(i as int)), vs[i as int])
                            is Some);
                    }
                    return Err(e);
                },
                Ok(id) => {
                    proof {
                        lemma_stored_one_more(img, vs, i as int, id, self@);
                    }
                },
            }
            i = i + 1;
        }
        Ok(())
    }

    /// What inserting a batch writes. See [`Db::add_batch`].
    pub fn add_batch_writes(&self, batch: &[u32]) -> (plan: Vec<(Target, Vec<u8>)>)
        requires
            self.wf(),
            batch@.len() % self@.dim == 0,
            self@.log matches Some(log) ==> log.next_lsn + batch@.len() / self@.dim <= u64::MAX,
        ensures
            steps(plan@) == batch_plan(self@, batch_rows(batch@, self@.dim)),
    {
        let ghost img = self@;
        let dim: usize = self.store.dim();
        let base: u64 = self.store.len() as u64;
        proof {
            self.store.lemma_sound();
            vstd::arithmetic::div_mod::lemma_fundamental_div_mod(batch@.len() as int, dim as int);
            let q = (batch@.len() / (dim as nat)) as int;
            assert(q * dim == dim * q) by (nonlinear_arith);
        }
        let n: usize = batch.len() / dim;
        let ghost vs = batch_rows(batch@, img.dim);
        let mut plan: Vec<(Target, Vec<u8>)> = Vec::new();
        proof {
            reveal(storable_rows);
            assert(vs.take(0) =~= Seq::empty());
            assert(vs.take(n as int) =~= vs);
            assert(steps(plan@) =~= Seq::empty());
        }
        let wal: &Wal = match &self.wal {
            None => {
                proof {
                    if n > 0 {
                        lemma_batch_plan_stops(img, vs, 0, n as int);
                    }
                }
                return plan;
            },
            Some(wal) => wal,
        };
        let mut i: usize = 0;
        while i < n
            invariant
                i <= n,
                n == vs.len(),
                0 < dim,
                self.wf(),
                img == self@,
                dim == img.dim,
                0 < img.stride,
                self.store.wf(),
                base == img.rows.len(),
                img.log is Some,
                self.wal == Some(*wal),
                wal.spec_next_lsn() + n <= u64::MAX,
                wal.spec_next_lsn() == img.log->0.next_lsn,
                wal.spec_policy() == img.log->0.policy,
                batch@.len() == n * dim,
                vs == batch_rows(batch@, dim as nat),
                vs.take(n as int) == vs,
                storable_rows(img, vs, i as int),
                base + i <= u64::MAX,
                steps(plan@) == batch_plan(img, vs.take(i as int)),
            decreases n - i,
        {
            proof {
                lemma_piece(batch@.len(), i as int, dim as nat, n as nat);
                lemma_batch_row(batch@, dim as nat, i as int);
                lemma_batch_plan_one_more(img, vs, i as int);
                lemma_batch_step(img, vs, i as int);
                lemma_storable_one_more(img, vs, i as int);
            }
            let row: &[u32] = piece_of(batch, i, dim);
            let id: u64 = base + i as u64;
            if !self.store.room_for(id) || !vector_fits(row.len()) {
                proof {
                    lemma_batch_plan_stops(img, vs, i as int, n as int);
                }
                return plan;
            }
            let ghost before = plan@;
            let w: (Target, Vec<u8>) = wal.frame_ahead(i as u64, id, row);
            plan.push(w);
            proof {
                assert(steps(plan@) =~= steps(before).push((w.0, w.1@)));
                lemma_room_bounds(img.stride, id as nat);
            }
            i = i + 1;
        }
        plan
    }

    /// Stores and logs a batch, as far as its records were written.
    fn store_written(
        &mut self,
        batch: &[u32],
        n: usize,
        dim: usize,
        written: usize,
        answer: Result<(), Error>,
    ) -> (r: Result<(), Error>)
        requires
            old(self).wf(),
            0 < dim,
            dim == old(self)@.dim,
            n == batch@.len() / (dim as nat),
            batch@.len() % (dim as nat) == 0,
            old(self)@.log matches Some(log) ==> log.next_lsn + n <= u64::MAX,
            answer is Err ==> row_is_written(
                old(self)@,
                batch_rows(batch@, dim as nat),
                written as int,
            ),
        ensures
            final(self).wf(),
            batch_stored(
                old(self)@,
                batch_rows(batch@, dim as nat),
                written as int,
                answer,
                r,
                final(self)@,
            ),
    {
        let ghost img = self@;
        let ghost vs = batch_rows(batch@, dim as nat);
        proof {
            assert(vs.take(n as int) =~= vs);
            vstd::arithmetic::div_mod::lemma_fundamental_div_mod(batch@.len() as int, dim as int);
            assert(n * dim == dim * n) by (nonlinear_arith);
        }
        let good: usize = match &answer {
            Ok(_) => n,
            Err(_) => written,
        };
        proof {
            if answer is Err {
                lemma_storable_fewer(img, vs, written as int, written + 1);
            }
        }
        match self.store_batch(batch, good, dim) {
            Err(e) => {
                return Err(e);
            },
            Ok(_) => {},
        }
        match answer {
            Ok(_) => {
                assert(good == n);
                Ok(())
            },
            Err(e) => {
                proof {
                    lemma_piece(batch@.len(), good as int, dim as nat, n as nat);
                    lemma_all_stored_log(img, vs.take(good as int));
                    lemma_batch_row(batch@, dim as nat, good as int);
                    reveal(row_stored);
                }
                let row: &[u32] = piece_of(batch, good, dim);
                match self.insert_row_storage_only(row, Err(e)) {
                    Ok(_) => Ok(()),
                    Err(e) => Err(e),
                }
            },
        }
    }

    /// Gives every stored vector a code, if there are codes.
    fn pad_codes(&mut self)
        requires
            old(self).wf(),
        ensures
            final(self).wf(),
            final(self)@ == codes_padded(old(self)@),
    {
        let ghost img = self@;
        match &mut self.pq {
            None => {},
            Some(state) => {
                let m: usize = state.pq.m();
                let n: usize = self.store.len();
                let none: Vec<u8> = Vec::new();
                proof {
                    let d = state.pq@.sub_dim as int;
                    assert(m <= state.pq@.dim) by (nonlinear_arith)
                        requires
                            d * m == state.pq@.dim,
                            state.pq@.dim > 0,
                            d >= 0,
                    ;
                    self.store.lemma_codes_fit(m as nat);
                }
                put_code(&mut state.codes, n * m, &none);
                proof {
                    let k = self.index.graph().nodes.len() as int;
                    lemma_product(k, n as int, m as int);
                }
            },
        }
        assert(self@ =~= codes_padded(img));
    }

    /// Inserts a batch of vectors laid end to end, and returns the id of the
    /// first. All are stored and logged before the first is linked. Afterwards
    /// every stored vector has a code if there are codes, even if the batch is
    /// empty. Of
    /// [`Db::add_batch_writes`] the first `written` were performed, and
    /// `answer` is what the last attempt has come to: if it failed, it was at
    /// the next of them.
    pub fn add_batch<
        K: Fn(Metric, &[u32], &[u32]) -> u32,
        V: Fn(usize, u64) -> usize,
        L: Fn(&[u32], &[u32]) -> u32,
    >(
        &mut self,
        batch: &[u32],
        written: usize,
        answer: Result<(), Error>,
        kernel: &K,
        level: &V,
        l2: &L,
        visited: &mut VisitedSet,
    ) -> (r: Result<u64, Error>)
        requires
            old(self).wf(),
            old(visited).wf(),
            callable(*kernel, *level, *l2),
            batch@.len() % old(self)@.dim == 0,
            old(self)@.log matches Some(log) ==> log.next_lsn + batch@.len() / old(self)@.dim
                <= u64::MAX,
            answer is Err ==> row_is_written(
                old(self)@,
                batch_rows(batch@, old(self)@.dim),
                written as int,
            ),
        ensures
            final(self).wf(),
            final(visited).wf(),
            ({
                let img = old(self)@;
                let vs = batch_rows(batch@, img.dim);
                &&& r is Ok <==> answer is Ok && storable_rows(img, vs, vs.len() as int)
                &&& match r {
                    Ok(base) => {
                        &&& base == img.rows.len()
                        &&& vs.len() == 0 ==> final(self)@ == codes_padded(img)
                        &&& vs.len() > 0 ==> grown(
                            all_stored(img, vs),
                            final(self)@,
                            img.rows.len() + vs.len(),
                        )
                        &&& forall|by: Functions| #[trigger]
                            performs(*kernel, *level, *l2, by) && vs.len() > 0 ==> final(self)@
                                == all_inserted(img, vs, by)
                    },
                    Err(e) => batch_stored(
                        img,
                        vs,
                        written as int,
                        answer,
                        Err(e),
                        final(self)@,
                    ),
                }
            }),
    {
        let ghost img = self@;
        let dim: usize = self.store.dim();
        proof {
            self.store.lemma_sound();
            self.store.lemma_count_fits();
        }
        let n: usize = batch.len() / dim;
        let base: u64 = self.store.len() as u64;
        let ghost vs = batch_rows(batch@, img.dim);
        match self.store_written(batch, n, dim, written, answer) {
            Err(e) => {
                return Err(e);
            },
            Ok(_) => {},
        }
        let ghost all = self@;
        proof {
            lemma_all_stored_log(img, vs);
            self.store.lemma_count_fits();
        }
        let mut i: usize = 0;
        while i < n
            invariant
                i <= n,
                n == vs.len(),
                base == img.rows.len(),
                self.wf(),
                visited.wf(),
                callable(*kernel, *level, *l2),
                all.rows.len() == base + n,
                base + n <= u64::MAX,
                self@.rows == all.rows,
                self@.graph.nodes.len() <= base + i,
                i == 0 ==> self@ == all,
                i > 0 ==> grown(all, self@, (base + i) as nat),
                forall|by: Functions| #[trigger]
                    performs(*kernel, *level, *l2, by) ==> self@ == all_indexed(
                        all,
                        base as int,
                        i as nat,
                        by,
                    ),
            decreases n - i,
        {
            let id: u64 = base + i as u64;
            self.index_row(id, kernel, level, l2, visited);
            i = i + 1;
        }
        proof {
            assert(n == 0 ==> vs =~= Seq::empty());
            assert forall|by: Functions| #[trigger] performs(
                *kernel,
                *level,
                *l2,
                by,
            ) implies self@ == all_inserted(img, vs, by) by {
                law_a_batch_is_so_many_inserts(img, vs, by);
            }
        }
        if n == 0 {
            self.pad_codes();
        }
        Ok(base)
    }

    /// What a checkpoint writes, to make all inserts permanent: the store, the
    /// codebook if there is one, a snapshot of the index, and only then the
    /// emptied log.
    pub fn checkpoint(&self) -> (plan: Vec<(Target, Vec<u8>)>)
        requires
            self.wf(),
        ensures
            steps(plan@) == checkpoint_plan(self.spec_store(), self@),
    {
        let mut plan: Vec<(Target, Vec<u8>)> = self.store.flush();
        let ghost a = plan@;
        match &self.pq {
            None => {},
            Some(state) => {
                let mut more: Vec<(Target, Vec<u8>)> = save_codebook(&state.pq);
                let ghost b = more@;
                plan.append(&mut more);
                assert(steps(plan@) =~= steps(a) + steps(b));
            },
        }
        assert(steps(plan@) =~= flush_plan(self.store) + codebook_plan(self@));
        let ghost c = plan@;
        let lsn: u64 = match &self.wal {
            None => 0,
            Some(wal) => wal.next_lsn(),
        };
        let mut more: Vec<(Target, Vec<u8>)> = self.index.save(lsn);
        let ghost d = more@;
        plan.append(&mut more);
        assert(steps(plan@) =~= steps(c) + steps(d));
        match &self.wal {
            None => {},
            Some(wal) => {
                let ghost f = plan@;
                let mut more: Vec<(Target, Vec<u8>)> = wal.reset();
                let ghost g = more@;
                plan.append(&mut more);
                assert(steps(plan@) =~= steps(f) + steps(g));
            },
        }
        assert(steps(plan@) =~= checkpoint_plan(self.store, self@));
        plan
    }
}

/// Rows for which there is room can be counted.
proof fn lemma_room_bounds(stride: nat, id: nat)
    requires
        addressable(stride, segment_of(id) + 1),
        0 < stride,
    ensures
        id + 1 <= u64::MAX,
{
    law_every_row_has_one_place(id, segment_of(id));
    let b = rows_before(segment_of(id) + 1);
    assert(b <= b * stride) by (nonlinear_arith)
        requires
            0 <= b,
            1 <= stride,
    ;
}

proof fn lemma_all_stored_geometry(img: Image, vs: Seq<Seq<u32>>)
    ensures
        all_stored(img, vs).stride == img.stride,
        img.log is Some ==> all_stored(img, vs).log->0.policy == img.log->0.policy,
    decreases vs.len(),
{
    if vs.len() > 0 {
        lemma_all_stored_geometry(img, vs.drop_last());
        lemma_all_stored_log(img, vs.drop_last());
    }
}

/// The log position that a snapshot taken now is good for.
pub open spec fn checkpoint_lsn(img: Image) -> u64 {
    match img.log {
        None => 0,
        Some(log) => log.next_lsn,
    }
}

/// A snapshot of the index.
pub open spec fn snapshot_of(img: Image) -> Seq<u8> {
    snapshot_bytes(img.config, checkpoint_lsn(img), img.graph)
}

/// What saving the codebook writes, if there is one.
pub open spec fn codebook_plan(img: Image) -> Seq<(Target, Seq<u8>)> {
    match img.pq {
        None => Seq::empty(),
        Some(c) => seq![(Target::Codebook, book_bytes(c.quantizer))],
    }
}

/// What emptying the log writes, if there is one.
pub open spec fn reset_plan(img: Image) -> Seq<(Target, Seq<u8>)> {
    if img.log is Some {
        seq![(Target::WalReset, Seq::<u8>::empty())]
    } else {
        Seq::empty()
    }
}

/// What a checkpoint writes.
pub open spec fn checkpoint_plan(store: VectorStore, img: Image) -> Seq<(Target, Seq<u8>)> {
    flush_plan(store) + codebook_plan(img) + seq![(Target::Snapshot, snapshot_of(img))]
        + reset_plan(img)
}

} // verus!
