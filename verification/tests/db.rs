use rand::{Rng, SeedableRng};
use std::cell::RefCell;
use vektordb::db::Files;
use vektordb::distance::Metric;
use vektordb::hnsw::scratch::VisitedSet;
use vektordb::hnsw::HnswConfig;
use vektordb::io::Target;
use vektordb::storage::{exact_search, Neighbor, VectorStore};
use vektordb::wal::SyncPolicy;
use vektordb::{Db, DbOptions, Error};

fn bits(v: &[f32]) -> Vec<u32> {
    v.iter().map(|x| x.to_bits()).collect()
}

fn l2(a: &[u32], b: &[u32]) -> u32 {
    let mut acc = [0.0f32; 4];
    let n = a.len() / 4 * 4;
    for (x, y) in a[..n].chunks_exact(4).zip(b[..n].chunks_exact(4)) {
        for j in 0..4 {
            let d = f32::from_bits(x[j]) - f32::from_bits(y[j]);
            acc[j] += d * d;
        }
    }
    let mut sum: f32 = acc.iter().sum();
    for (x, y) in a[n..].iter().zip(&b[n..]) {
        let d = f32::from_bits(*x) - f32::from_bits(*y);
        sum += d * d;
    }
    sum.to_bits()
}

fn kernel(metric: Metric, a: &[u32], b: &[u32]) -> u32 {
    match metric {
        Metric::L2 => l2(a, b),
        _ => {
            let dot: f32 =
                a.iter().zip(b).map(|(x, y)| f32::from_bits(*x) * f32::from_bits(*y)).sum();
            (-dot).to_bits()
        }
    }
}

fn level(m: usize, word: u64) -> usize {
    let u = (word >> 11) as f64 / (1u64 << 53) as f64;
    ((-u.ln() / (m as f64).ln()).floor() as usize).min(63)
}

fn total(w: &[u32]) -> u32 {
    w.iter().map(|x| f32::from_bits(*x)).sum::<f32>().to_bits()
}

fn minus(a: u32, b: u32) -> u32 {
    (f32::from_bits(a) - f32::from_bits(b)).to_bits()
}

fn plus(a: u32, b: u32) -> u32 {
    (f32::from_bits(a) + f32::from_bits(b)).to_bits()
}

fn mean(column: &[u32]) -> u32 {
    let sum: f64 = column.iter().map(|x| f32::from_bits(*x) as f64).sum();
    ((sum / column.len() as f64) as f32).to_bits()
}

fn spot(word: u64, range: u32) -> u32 {
    let fraction = (word >> 41) as f32 / 8388608.0;
    (fraction * f32::from_bits(range)).to_bits()
}

/// What would be on disk.
struct Disk {
    store: RefCell<Vec<u8>>,
    snapshot: RefCell<Option<Vec<u8>>>,
    log: RefCell<Vec<u8>>,
    codebook: RefCell<Option<Vec<u8>>>,
    order: RefCell<Vec<Target>>,
    refuse: RefCell<Option<Target>>,
}

impl Disk {
    fn copy(&self) -> Disk {
        Disk {
            store: self.store.clone(),
            snapshot: self.snapshot.clone(),
            log: self.log.clone(),
            codebook: self.codebook.clone(),
            order: RefCell::new(Vec::new()),
            refuse: RefCell::new(None),
        }
    }

    fn new() -> Disk {
        Disk {
            store: RefCell::new(Vec::new()),
            snapshot: RefCell::new(None),
            log: RefCell::new(Vec::new()),
            codebook: RefCell::new(None),
            order: RefCell::new(Vec::new()),
            refuse: RefCell::new(None),
        }
    }

    fn write(&self, target: Target, bytes: &[u8]) -> Result<(), Error> {
        if *self.refuse.borrow() == Some(target) {
            return Err(Error::Io("refused".to_string()));
        }
        self.order.borrow_mut().push(target);
        match target {
            Target::StoreHeader => self.place(0, bytes),
            Target::StoreSegment(k) => {
                let stride = bytes.len() / (1024 << k);
                self.place(4096 + 1024 * ((1 << k) - 1) * stride, bytes)
            }
            Target::Codebook => *self.codebook.borrow_mut() = Some(bytes.to_vec()),
            Target::Snapshot => *self.snapshot.borrow_mut() = Some(bytes.to_vec()),
            Target::WalFrame { .. } => self.log.borrow_mut().extend_from_slice(bytes),
            Target::WalReset => self.log.borrow_mut().clear(),
            Target::WalSync => {}
        }
        Ok(())
    }

    /// Performs a plan up to the first refusal: how much was written, and the
    /// answer.
    fn perform(&self, plan: &[(Target, Vec<u8>)]) -> (usize, Result<(), Error>) {
        for (i, (target, bytes)) in plan.iter().enumerate() {
            if let Err(error) = self.write(*target, bytes) {
                return (i, Err(error));
            }
        }
        (plan.len(), Ok(()))
    }

    fn place(&self, at: usize, bytes: &[u8]) {
        let mut file = self.store.borrow_mut();
        if file.len() < at + bytes.len() {
            file.resize(at + bytes.len(), 0);
        }
        file[at..at + bytes.len()].copy_from_slice(bytes);
    }

    fn open(&self, dim: usize, opts: DbOptions) -> Result<Db, Error> {
        let db = {
            let store = self.store.borrow();
            let snapshot = self.snapshot.borrow();
            let log = self.log.borrow();
            let codebook = self.codebook.borrow();
            let files = Files {
                store: if store.is_empty() { None } else { Some(store.as_slice()) },
                snapshot: snapshot.as_deref(),
                log: log.as_slice(),
                codebook: codebook.as_deref(),
            };
            Db::open(&files, dim, opts, &kernel, &level, &l2)?
        };
        if let Some(len) = db.intact_log_len() {
            self.log.borrow_mut().truncate(len as usize);
        }
        Ok(db)
    }
}

fn insert(db: &mut Db, disk: &Disk, v: &[u32]) -> Result<u64, Error> {
    let plan = db.insert_writes(v).unwrap_or_default();
    let (_, answer) = disk.perform(&plan);
    let mut visited = VisitedSet::new();
    db.insert(v, answer, &kernel, &level, &l2, &mut visited)
}

fn add_batch(db: &mut Db, disk: &Disk, batch: &[u32]) -> Result<u64, Error> {
    let plan = db.add_batch_writes(batch);
    let (written, answer) = disk.perform(&plan);
    let mut visited = VisitedSet::new();
    db.add_batch(batch, written, answer, &kernel, &level, &l2, &mut visited)
}

fn checkpoint(db: &Db, disk: &Disk) -> Result<(), Error> {
    disk.perform(&db.checkpoint()).1
}

fn search(db: &Db, q: &[u32], k: usize, ef: usize) -> Result<Vec<Neighbor>, Error> {
    let mut visited = VisitedSet::new();
    db.search(q, k, ef, &kernel, &mut visited)
}

fn search_pq(db: &Db, q: &[u32], k: usize, ef: usize, more: usize) -> Result<Vec<Neighbor>, Error> {
    let mut visited = VisitedSet::new();
    db.search_pq(q, k, ef, more, &kernel, &l2, &plus, &mut visited)
}

fn train_pq(db: &mut Db, m: usize, iters: usize, max_samples: usize) -> Result<(), Error> {
    let seeds: Vec<u64> = (0..m as u64).collect();
    db.train_pq(m, iters, max_samples, &seeds, &l2, &total, &minus, &mean, &spot)
}

fn vec_for(id: u64, dim: usize) -> Vec<u32> {
    (0..dim as u64)
        .map(|j| {
            let x = id
                .wrapping_mul(6364136223846793005)
                .wrapping_add(j.wrapping_mul(1442695040888963407));
            (((x >> 33) as u32) as f32 / u32::MAX as f32 - 0.5).to_bits()
        })
        .collect()
}

fn message<T>(r: Result<T, Error>) -> String {
    match r {
        Err(error) => error.message(),
        Ok(_) => panic!("must be refused"),
    }
}

#[test]
fn insert_search_reopen() {
    let disk = Disk::new();
    let dim = 16;
    {
        let mut db = disk.open(dim, DbOptions::default()).unwrap();
        for i in 0..500 {
            assert_eq!(insert(&mut db, &disk, &vec_for(i, dim)).unwrap(), i);
        }
        let hits = search(&db, &vec_for(123, dim), 1, 64).unwrap();
        assert_eq!(hits[0].id, 123);
        assert!(f32::from_bits(hits[0].distance) < 1e-6);
    }
    let db = disk.open(dim, DbOptions::default()).unwrap();
    assert_eq!(db.len(), 500);
    for i in (0..500).step_by(41) {
        assert_eq!(db.get(i).unwrap(), vec_for(i, dim).as_slice());
        let hits = search(&db, &vec_for(i, dim), 1, 64).unwrap();
        assert_eq!(hits[0].id, i, "id {i} lost after reopen");
    }
}

#[test]
fn checkpoint_then_more_inserts_then_recover() {
    let disk = Disk::new();
    let dim = 8;
    {
        let mut db = disk.open(dim, DbOptions::default()).unwrap();
        for i in 0..300 {
            insert(&mut db, &disk, &vec_for(i, dim)).unwrap();
        }
        checkpoint(&db, &disk).unwrap();
        for i in 300..400 {
            insert(&mut db, &disk, &vec_for(i, dim)).unwrap();
        }
    }
    let db = disk.open(dim, DbOptions::default()).unwrap();
    assert_eq!(db.len(), 400);
    for i in [0, 299, 300, 399] {
        let hits = search(&db, &vec_for(i, dim), 1, 64).unwrap();
        assert_eq!(hits[0].id, i);
    }
}

#[test]
fn lsn_survives_checkpoint_then_crash() {
    let disk = Disk::new();
    let dim = 8;
    {
        let mut db = disk.open(dim, DbOptions::default()).unwrap();
        for i in 0..300 {
            insert(&mut db, &disk, &vec_for(i, dim)).unwrap();
        }
        checkpoint(&db, &disk).unwrap();
    }
    {
        let mut db = disk.open(dim, DbOptions::default()).unwrap();
        for i in 300..400 {
            insert(&mut db, &disk, &vec_for(i, dim)).unwrap();
        }
    }
    let db = disk.open(dim, DbOptions::default()).unwrap();
    assert_eq!(db.len(), 400, "post-checkpoint inserts lost on second recovery");
    let hits = search(&db, &vec_for(399, dim), 1, 64).unwrap();
    assert_eq!(hits[0].id, 399);
}

#[test]
fn pq_survives_checkpoint_and_reopen() {
    let disk = Disk::new();
    let dim = 32;
    let n = 600;
    let data: Vec<f32> = (0..n * dim).map(|i| ((i * 7919) % 1000) as f32 / 1000.0).collect();
    let data = bits(&data);

    let before = {
        let mut db = disk.open(dim, DbOptions::default()).unwrap();
        add_batch(&mut db, &disk, &data).unwrap();
        train_pq(&mut db, 8, 10, 100_000).unwrap();
        let q = &data[13 * dim..][..dim];
        let hits = search_pq(&db, q, 10, 64, 4).unwrap();
        checkpoint(&db, &disk).unwrap();
        hits
    };

    let mut db = disk.open(dim, DbOptions::default()).unwrap();
    let q = &data[13 * dim..][..dim];
    let after = search_pq(&db, q, 10, 64, 4).expect("PQ must be restored from pq.codebook on open");
    let ids = |v: &[Neighbor]| v.iter().map(|h| h.id).collect::<Vec<_>>();
    assert_eq!(ids(&before), ids(&after), "same codebook must rank the same");

    insert(&mut db, &disk, &bits(&vec![0.42f32; dim])).unwrap();
    search_pq(&db, q, 10, 64, 4).unwrap();
    let (bad, covered, stored) = db.pq_inconsistent_ids(&l2).unwrap();
    assert_eq!((bad.len(), covered, stored), (0, 601, 601));
}

#[test]
fn corrupt_codebook_is_rejected_not_ignored() {
    let disk = Disk::new();
    let dim = 32;
    let data: Vec<f32> = (0..600 * dim).map(|i| (i % 251) as f32 / 251.0).collect();
    {
        let mut db = disk.open(dim, DbOptions::default()).unwrap();
        add_batch(&mut db, &disk, &bits(&data)).unwrap();
        train_pq(&mut db, 8, 5, 100_000).unwrap();
        checkpoint(&db, &disk).unwrap();
    }
    {
        let mut file = disk.codebook.borrow_mut();
        let raw = file.as_mut().unwrap();
        let mid = raw.len() / 2;
        raw[mid] ^= 0xFF;
    }
    match disk.open(dim, DbOptions::default()) {
        Err(e) => {
            let e = e.message();
            assert!(e.contains("checksum mismatch"), "unhelpful error: {e}");
        }
        Ok(_) => panic!("a corrupt codebook must not open silently"),
    }
}

#[test]
fn pq_search_with_rerank_recovers_exact_ranking() {
    let disk = Disk::new();
    let dim = 32;
    let opts = DbOptions { sync: SyncPolicy::Never, ..Default::default() };
    let mut db = disk.open(dim, opts).unwrap();
    let mut rng = rand::rngs::SmallRng::seed_from_u64(6);
    let centers: Vec<Vec<f32>> =
        (0..8).map(|_| (0..dim).map(|_| rng.gen_range(-4.0f32..4.0)).collect()).collect();
    let sample = |rng: &mut rand::rngs::SmallRng| -> Vec<u32> {
        let c = &centers[rng.gen_range(0..centers.len())];
        c.iter().map(|x| (x + rng.gen_range(-0.5..0.5f32)).to_bits()).collect()
    };
    let mut copy = VectorStore::create(dim).unwrap();
    for _ in 0..5000 {
        let v = sample(&mut rng);
        insert(&mut db, &disk, &v).unwrap();
        copy.append(&v).unwrap();
    }
    train_pq(&mut db, 8, 10, 5000).unwrap();
    for _ in 0..500 {
        let v = sample(&mut rng);
        insert(&mut db, &disk, &v).unwrap();
        copy.append(&v).unwrap();
    }

    let mut hits_pq = 0usize;
    let mut hits_raw = 0usize;
    let queries = 50;
    for _ in 0..queries {
        let q = sample(&mut rng);
        let truth: std::collections::HashSet<u64> =
            exact_search(&copy, &q, 10, &l2).into_iter().map(|n| n.id).collect();
        let reranked = search_pq(&db, &q, 10, 128, 4).unwrap();
        let raw = search_pq(&db, &q, 10, 128, 0).unwrap();
        hits_pq += reranked.iter().filter(|n| truth.contains(&n.id)).count();
        hits_raw += raw.iter().filter(|n| truth.contains(&n.id)).count();
    }
    let recall_pq = hits_pq as f64 / (queries * 10) as f64;
    let recall_raw = hits_raw as f64 / (queries * 10) as f64;
    assert!(recall_pq >= 0.85, "PQ+rerank recall@10 = {recall_pq}");
    assert!(recall_pq >= recall_raw, "re-ranking should not hurt recall");
}

#[test]
fn no_wal_batch_build_matches_sequential() {
    let disk = Disk::new();
    let dim = 24;
    let opts = DbOptions { enable_wal: false, ..Default::default() };
    let mut db = disk.open(dim, opts).unwrap();
    let n = 5000;
    let mut batch = Vec::with_capacity(n * dim);
    for i in 0..n as u64 {
        batch.extend_from_slice(&vec_for(i, dim));
    }
    let base = add_batch(&mut db, &disk, &batch).unwrap();
    assert_eq!(base, 0);
    assert_eq!(db.len(), n);
    assert!(disk.log.borrow().is_empty());
    assert!(disk.order.borrow().is_empty());
    for id in (0..n as u64).step_by(53) {
        let hits = search(&db, &vec_for(id, dim), 1, 64).unwrap();
        assert_eq!(hits[0].id, id, "batch node {id} not found");
    }
    assert!(db.orphan_count() as f64 / db.len() as f64 <= 0.001);
}

#[test]
fn recovery_preserves_graph_connectivity() {
    let disk = Disk::new();
    let dim = 16;
    let mut done = 0u64;
    let batches = [2000u64, 1500, 3000, 1200, 2500];
    for (b, &count) in batches.iter().enumerate() {
        let mut db = disk.open(dim, DbOptions::default()).unwrap();
        assert_eq!(db.len() as u64, done, "reopened at wrong length");
        for i in done..done + count {
            insert(&mut db, &disk, &vec_for(i, dim)).unwrap();
        }
        done += count;
        if b % 2 == 0 {
            checkpoint(&db, &disk).unwrap();
        }
        let orphans = db.orphan_ids();
        let rate = orphans.len() as f64 / db.len() as f64;
        assert!(
            rate <= 0.001,
            "cycle {b}: recovery inflated unreachable rate to {rate} ({} nodes)",
            orphans.len()
        );
    }
    assert_eq!(done, batches.iter().sum());
}

#[test]
fn a_recovered_index_is_the_one_that_was_lost() {
    let disk = Disk::new();
    let dim = 6;
    let mut db = disk.open(dim, DbOptions::default()).unwrap();
    for i in 0..700 {
        insert(&mut db, &disk, &vec_for(i, dim)).unwrap();
        if i == 350 {
            checkpoint(&db, &disk).unwrap();
        }
    }
    let again = disk.open(dim, DbOptions::default()).unwrap();
    for i in 0..50 {
        let q = vec_for(1_000_000 + i, dim);
        assert_eq!(search(&db, &q, 10, 32).unwrap(), search(&again, &q, 10, 32).unwrap());
    }
    assert_eq!(db.orphan_ids(), again.orphan_ids());
}

#[test]
fn a_batch_is_so_many_inserts() {
    let dim = 5;
    let (one, two) = (Disk::new(), Disk::new());
    let mut a = one.open(dim, DbOptions::default()).unwrap();
    let mut b = two.open(dim, DbOptions::default()).unwrap();
    let mut batch = Vec::new();
    for i in 0..300 {
        insert(&mut a, &one, &vec_for(i, dim)).unwrap();
        batch.extend_from_slice(&vec_for(i, dim));
    }
    assert_eq!(add_batch(&mut b, &two, &batch).unwrap(), 0);
    assert_eq!(*one.log.borrow(), *two.log.borrow());
    checkpoint(&a, &one).unwrap();
    checkpoint(&b, &two).unwrap();
    assert_eq!(*one.snapshot.borrow(), *two.snapshot.borrow());
    assert_eq!(*one.store.borrow(), *two.store.borrow());
    assert_eq!(add_batch(&mut b, &two, &[]).unwrap(), 300);
}

#[test]
fn a_torn_record_costs_only_itself() {
    let disk = Disk::new();
    let dim = 4;
    let mut db = disk.open(dim, DbOptions::default()).unwrap();
    for i in 0..20 {
        insert(&mut db, &disk, &vec_for(i, dim)).unwrap();
    }
    let frame = disk.log.borrow().len() / 20;
    disk.log.borrow_mut().truncate(20 * frame - 3);
    let mut db = disk.open(dim, DbOptions::default()).unwrap();
    assert_eq!(db.len(), 19);
    assert_eq!(disk.log.borrow().len(), 19 * frame);
    assert_eq!(insert(&mut db, &disk, &vec_for(77, dim)).unwrap(), 19);
    let db = disk.open(dim, DbOptions::default()).unwrap();
    assert_eq!(db.get(19).unwrap(), vec_for(77, dim).as_slice());
}

#[test]
fn checkpoints_write_the_log_last() {
    let disk = Disk::new();
    let dim = 2;
    let mut db = disk.open(dim, DbOptions::default()).unwrap();
    for i in 0..300 {
        insert(&mut db, &disk, &vec_for(i, dim)).unwrap();
    }
    train_pq(&mut db, 2, 1, 1000).unwrap();
    disk.order.borrow_mut().clear();
    checkpoint(&db, &disk).unwrap();
    let want = vec![
        Target::StoreSegment(0),
        Target::StoreHeader,
        Target::Codebook,
        Target::Snapshot,
        Target::WalReset,
    ];
    assert_eq!(*disk.order.borrow(), want);
    for target in want {
        *disk.refuse.borrow_mut() = Some(target);
        assert_eq!(message(checkpoint(&db, &disk)), "io error: refused");
    }
}

#[test]
fn an_insert_that_was_not_logged_leaves_a_vector_without_a_node() {
    let disk = Disk::new();
    let dim = 2;
    let mut db = disk.open(dim, DbOptions::default()).unwrap();
    insert(&mut db, &disk, &vec_for(0, dim)).unwrap();
    *disk.refuse.borrow_mut() = Some(Target::WalFrame { sync: true });
    assert_eq!(message(insert(&mut db, &disk, &vec_for(1, dim))), "io error: refused");
    assert_eq!(db.len(), 1);
    assert_eq!(db.get(1).unwrap(), vec_for(1, dim).as_slice());
    *disk.refuse.borrow_mut() = None;
    assert_eq!(insert(&mut db, &disk, &vec_for(2, dim)).unwrap(), 2);
    assert_eq!(db.len(), 3);
    assert_eq!(db.orphan_ids(), vec![1]);
}

#[test]
fn a_log_that_skips_an_id_is_refused() {
    let (one, two) = (Disk::new(), Disk::new());
    let dim = 2;
    let mut db = one.open(dim, DbOptions::default()).unwrap();
    for i in 0..3 {
        insert(&mut db, &one, &vec_for(i, dim)).unwrap();
    }
    let frame = one.log.borrow().len() / 3;
    two.log.borrow_mut().extend_from_slice(&one.log.borrow()[frame..]);
    assert_eq!(
        message(two.open(dim, DbOptions::default())),
        "bad file: WAL skips store id 0"
    );
}

#[test]
fn an_index_without_its_vectors_is_refused() {
    let disk = Disk::new();
    let dim = 2;
    let mut db = disk.open(dim, DbOptions::default()).unwrap();
    for i in 0..3 {
        insert(&mut db, &disk, &vec_for(i, dim)).unwrap();
    }
    checkpoint(&db, &disk).unwrap();
    disk.store.borrow_mut().clear();
    let refused = message(disk.open(dim, DbOptions::default()));
    assert_eq!(refused, "bad file: index ahead of vector store");
}

#[test]
fn dimensions_must_agree() {
    let disk = Disk::new();
    let mut db = disk.open(2, DbOptions::default()).unwrap();
    let bad = "dimension mismatch: store has 2, got 3";
    assert_eq!(message(insert(&mut db, &disk, &vec_for(0, 3))), bad);
    assert_eq!(message(search(&db, &vec_for(0, 3), 1, 8)), bad);
    assert_eq!(message(search_pq(&db, &vec_for(0, 3), 1, 8, 1)), bad);
    checkpoint(&db, &disk).unwrap();
    assert_eq!(message(disk.open(3, DbOptions::default())), bad);
    assert_eq!((db.dim(), db.is_empty(), db.metric()), (2, true, Metric::L2));
    assert_eq!(message(db.get(0)), "vector id 0 out of range");
}

#[test]
fn a_codebook_for_another_dimension_is_refused() {
    let (one, two) = (Disk::new(), Disk::new());
    let mut db = one.open(2, DbOptions::default()).unwrap();
    for i in 0..256 {
        insert(&mut db, &one, &vec_for(i, 2)).unwrap();
    }
    train_pq(&mut db, 1, 1, 256).unwrap();
    checkpoint(&db, &one).unwrap();
    *two.codebook.borrow_mut() = one.codebook.borrow().clone();
    assert_eq!(
        message(two.open(4, DbOptions::default())),
        "bad file: pq.codebook is for dim 2, store has 4"
    );
}

#[test]
fn training_needs_vectors_and_the_right_metric() {
    let disk = Disk::new();
    let mut db = disk.open(2, DbOptions::default()).unwrap();
    assert_eq!(
        message(search_pq(&db, &vec_for(0, 2), 1, 8, 1)),
        "bad file: PQ not trained; call train_pq first"
    );
    for i in 0..255 {
        insert(&mut db, &disk, &vec_for(i, 2)).unwrap();
    }
    assert_eq!(message(train_pq(&mut db, 1, 1, 256)), "bad file: need >= 256 vectors to train PQ");
    assert!(db.pq_inconsistent_ids(&l2).is_none());
    let config = HnswConfig { metric: Metric::Dot, ..HnswConfig::default() };
    let other = Disk::new();
    let mut db = other.open(2, DbOptions { config, ..Default::default() }).unwrap();
    assert_eq!(message(train_pq(&mut db, 1, 1, 256)), "bad file: PQ supports L2 only in v1");
}

#[test]
fn records_that_a_snapshot_covers_are_passed_over() {
    let disk = Disk::new();
    let dim = 4;
    let mut db = disk.open(dim, DbOptions::default()).unwrap();
    for i in 0..40 {
        insert(&mut db, &disk, &vec_for(i, dim)).unwrap();
    }
    // The crash comes after the snapshot and before the log is emptied.
    *disk.refuse.borrow_mut() = Some(Target::WalReset);
    assert!(checkpoint(&db, &disk).is_err());
    *disk.refuse.borrow_mut() = None;
    let mut db = disk.open(dim, DbOptions::default()).unwrap();
    assert_eq!((db.len(), db.next_lsn()), (40, Some(40)));
    for i in 40..60 {
        assert_eq!(insert(&mut db, &disk, &vec_for(i, dim)).unwrap(), i);
    }
    let again = disk.open(dim, DbOptions::default()).unwrap();
    assert_eq!((again.len(), again.next_lsn()), (60, Some(60)));
    for i in 0..20 {
        let q = vec_for(500 + i, dim);
        assert_eq!(search(&db, &q, 5, 16).unwrap(), search(&again, &q, 5, 16).unwrap());
    }
}

#[test]
fn without_a_log_a_checkpoint_is_permanent_too() {
    let disk = Disk::new();
    let dim = 3;
    let opts = || DbOptions { enable_wal: false, ..Default::default() };
    let mut db = disk.open(dim, opts()).unwrap();
    for i in 0..100 {
        insert(&mut db, &disk, &vec_for(i, dim)).unwrap();
    }
    checkpoint(&db, &disk).unwrap();
    insert(&mut db, &disk, &vec_for(100, dim)).unwrap();
    assert_eq!((db.next_lsn(), db.intact_log_len()), (None, None));
    let again = disk.open(dim, opts()).unwrap();
    assert_eq!(again.len(), 100);
    assert_eq!(again.get(99).unwrap(), vec_for(99, dim).as_slice());
}

#[test]
fn what_can_be_trained_is_known_beforehand() {
    let disk = Disk::new();
    let mut db = disk.open(4, DbOptions::default()).unwrap();
    assert!(db.can_train(3, 0));
    for i in 0..600 {
        insert(&mut db, &disk, &vec_for(i, 4)).unwrap();
    }
    assert!(db.can_train(2, 1000));
    assert!(db.can_train(2, 300));
    assert!(!db.can_train(2, 200));
    assert!(!db.can_train(3, 1000));
    assert!(!db.can_train(0, 1000));
    train_pq(&mut db, 2, 2, 300).unwrap();
    assert_eq!(search_pq(&db, &vec_for(7, 4), 3, 64, 8).unwrap()[0].id, 7);
}

/// The same vectors, the same index and the same answers.
fn same(a: &Db, b: &Db) {
    assert_eq!((a.len(), a.next_lsn()), (b.len(), b.next_lsn()));
    for id in 0..a.len() as u64 {
        assert_eq!(a.get(id).unwrap(), b.get(id).unwrap());
    }
    let snapshot = |db: &Db| {
        let mut plan = db.checkpoint();
        plan.retain(|(target, _)| *target == Target::Snapshot);
        plan.pop().unwrap().1
    };
    assert_eq!(snapshot(a), snapshot(b));
}

#[test]
fn every_step_of_a_checkpoint_leaves_the_same_database() {
    let disk = Disk::new();
    let dim = 3;
    let mut db = disk.open(dim, DbOptions::default()).unwrap();
    for i in 0..900 {
        insert(&mut db, &disk, &vec_for(i, dim)).unwrap();
    }
    checkpoint(&db, &disk).unwrap();
    for i in 900..1300 {
        insert(&mut db, &disk, &vec_for(i, dim)).unwrap();
    }
    let plan = db.checkpoint();
    assert_eq!(plan.len(), 5);
    for steps in 0..=plan.len() {
        let crashed = disk.copy();
        crashed.perform(&plan[..steps]).1.unwrap();
        same(&db, &crashed.open(dim, DbOptions::default()).unwrap());
    }
}

#[test]
fn a_first_checkpoint_makes_the_store_file() {
    let disk = Disk::new();
    let dim = 3;
    let mut db = disk.open(dim, DbOptions::default()).unwrap();
    for i in 0..1100 {
        insert(&mut db, &disk, &vec_for(i, dim)).unwrap();
    }
    train_pq(&mut db, 1, 1, 1100).unwrap();
    let plan = db.checkpoint();
    let order: Vec<Target> = plan.iter().map(|(target, _)| *target).collect();
    let want = vec![
        Target::StoreSegment(0),
        Target::StoreSegment(1),
        Target::StoreHeader,
        Target::Codebook,
        Target::Snapshot,
        Target::WalReset,
    ];
    assert_eq!(order, want);
    for steps in [0, 3, 4, 5, 6] {
        let crashed = disk.copy();
        crashed.perform(&plan[..steps]).1.unwrap();
        let again = crashed.open(dim, DbOptions::default()).unwrap();
        let q = vec_for(70_000, dim);
        assert_eq!((again.len(), again.next_lsn()), (1100, Some(1100)));
        assert_eq!(search(&again, &q, 9, 32).unwrap(), search(&db, &q, 9, 32).unwrap());
        if steps < 4 {
            assert!(search_pq(&again, &q, 9, 32, 2).is_err());
        } else {
            let (a, b) = (search_pq(&again, &q, 9, 32, 2), search_pq(&db, &q, 9, 32, 2));
            assert_eq!(a.unwrap(), b.unwrap());
            same(&again, &db);
        }
    }
}

#[test]
fn a_missing_store_is_rebuilt_from_the_log() {
    let disk = Disk::new();
    let dim = 4;
    let mut db = disk.open(dim, DbOptions::default()).unwrap();
    for i in 0..150 {
        insert(&mut db, &disk, &vec_for(i, dim)).unwrap();
    }
    assert!(disk.store.borrow().is_empty());
    same(&db, &disk.open(dim, DbOptions::default()).unwrap());
}

#[test]
fn inserts_say_what_they_write() {
    let disk = Disk::new();
    let mut db = disk.open(2, DbOptions::default()).unwrap();
    let plan = db.insert_writes(&vec_for(0, 2)).unwrap();
    assert_eq!(plan.len(), 1);
    assert_eq!(plan[0].0, Target::WalFrame { sync: true });
    let bad = "dimension mismatch: store has 2, got 3";
    assert_eq!(message(db.insert_writes(&vec_for(0, 3))), bad);
    let mut batch = vec_for(0, 2);
    batch.extend_from_slice(&vec_for(1, 2));
    batch.extend_from_slice(&vec_for(2, 2));
    let all = db.add_batch_writes(&batch);
    for (i, step) in all.iter().enumerate() {
        let v = vec_for(i as u64, 2);
        assert_eq!(*step, db.insert_writes(&v).unwrap()[0]);
        insert(&mut db, &disk, &v).unwrap();
    }
    assert_eq!(all.len(), 3);
    let quiet = Disk::new();
    let opts = DbOptions { enable_wal: false, ..Default::default() };
    let db = quiet.open(2, opts).unwrap();
    assert!(db.insert_writes(&vec_for(0, 2)).unwrap().is_empty());
    assert!(db.add_batch_writes(&batch).is_empty());
}

#[test]
fn a_batch_that_was_cut_off_keeps_what_was_logged() {
    let disk = Disk::new();
    let dim = 2;
    let mut db = disk.open(dim, DbOptions::default()).unwrap();
    let mut batch = Vec::new();
    for i in 0..6 {
        batch.extend_from_slice(&vec_for(i, dim));
    }
    let plan = db.add_batch_writes(&batch);
    disk.perform(&plan[..4]).1.unwrap();
    let full = Err(Error::Io("full".to_string()));
    let mut visited = VisitedSet::new();
    let r = db.add_batch(&batch, 4, full, &kernel, &level, &l2, &mut visited);
    assert_eq!(message(r), "io error: full");
    assert_eq!(db.next_lsn(), Some(4));
    for id in 0..5 {
        assert_eq!(db.get(id).unwrap(), vec_for(id, dim).as_slice());
    }
    assert_eq!(message(db.get(5)), "vector id 5 out of range");
    let again = disk.open(dim, DbOptions::default()).unwrap();
    assert_eq!(again.len(), 4);
}

#[test]
fn an_empty_batch_gives_every_stored_vector_a_code() {
    let disk = Disk::new();
    let dim = 2;
    let mut db = disk.open(dim, DbOptions::default()).unwrap();
    for i in 0..256 {
        insert(&mut db, &disk, &vec_for(i, dim)).unwrap();
    }
    train_pq(&mut db, 1, 2, 256).unwrap();
    *disk.refuse.borrow_mut() = Some(Target::WalFrame { sync: true });
    assert!(insert(&mut db, &disk, &vec_for(999, dim)).is_err());
    *disk.refuse.borrow_mut() = None;
    let (_, covered, stored) = db.pq_inconsistent_ids(&l2).unwrap();
    assert_eq!((covered, stored), (256, 257));
    assert_eq!(add_batch(&mut db, &disk, &[]).unwrap(), 257);
    let (_, covered, stored) = db.pq_inconsistent_ids(&l2).unwrap();
    assert_eq!((covered, stored), (257, 257));
    assert_eq!(db.len(), 256);
}

#[test]
fn acknowledged_vectors_are_found_after_any_number_of_sessions() {
    let disk = Disk::new();
    let dim = 3;
    let mut rng = rand::rngs::SmallRng::seed_from_u64(99);
    let mut acknowledged: Vec<(u64, Vec<u32>)> = Vec::new();
    let mut word = 0u64;
    let empty = VectorStore::create(dim).unwrap();
    disk.perform(&empty.flush()).1.unwrap();
    for session in 0..40 {
        let mut db = disk.open(dim, DbOptions::default()).unwrap();
        for (id, v) in &acknowledged {
            assert_eq!(db.get(*id).unwrap(), v.as_slice());
        }
        for _ in 0..rng.gen_range(0..60) {
            word += 1;
            let v = vec_for(word, dim);
            let len = db.len() as u64;
            let id = insert(&mut db, &disk, &v).unwrap();
            assert_eq!(id, len);
            acknowledged.push((id, v));
        }
        if session % 5 == 2 && db.len() >= 256 {
            train_pq(&mut db, 1, 1, 1000).unwrap();
        }
        // The session ends in a checkpoint that is cut short, or in a record
        // that is, or in one that is whole and was not acknowledged.
        match session % 3 {
            0 => {
                let plan = db.checkpoint();
                let steps = rng.gen_range(0..=plan.len());
                disk.perform(&plan[..steps]).1.unwrap();
            }
            1 => {
                word += 1;
                let plan = db.insert_writes(&vec_for(word, dim)).unwrap();
                let left = rng.gen_range(0..=plan[0].1.len());
                disk.log.borrow_mut().extend_from_slice(&plan[0].1[..left]);
            }
            _ => disk.log.borrow_mut().extend_from_slice(&[53, 0, 0, 0, 7, 7, 7, 7, 0, 0, 0]),
        }
    }
    assert!(acknowledged.len() > 500);
}
