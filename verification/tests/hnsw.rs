use rand::{Rng, SeedableRng};
use vektordb::distance::Metric;
use vektordb::hnsw::index::{pack_entry, unpack_entry};
use vektordb::hnsw::persist::{metric_from, metric_tag};
use vektordb::hnsw::scratch::VisitedSet;
use vektordb::hnsw::select::select_neighbors;
use vektordb::hnsw::{Hnsw, HnswConfig};
use vektordb::io::Target;
use vektordb::storage::{exact_search, Neighbor, VectorStore};

fn bits(v: &[f32]) -> Vec<u32> {
    v.iter().map(|x| x.to_bits()).collect()
}

fn l2(a: &[u32], b: &[u32]) -> u32 {
    let mut acc = [0.0f32; 8];
    let n = a.len() / 8 * 8;
    for (x, y) in a[..n].chunks_exact(8).zip(b[..n].chunks_exact(8)) {
        for j in 0..8 {
            let d = f32::from_bits(x[j]) - f32::from_bits(y[j]);
            acc[j] += d * d;
        }
    }
    let mut sum: f32 = acc.iter().sum();
    for (x, y) in a[n..].iter().zip(&b[n..]) {
        let d = f32::from_bits(*x) - f32::from_bits(*y);
        sum += d * d;
    }
    sum.to_bits()
}

fn level(rng: &mut impl Rng, m: usize) -> usize {
    (-rng.gen::<f64>().ln() * (1.0 / (m as f64).ln())).floor() as usize
}

fn sample_blob(centers: &[Vec<f32>], rng: &mut impl Rng) -> Vec<f32> {
    let c = &centers[rng.gen_range(0..centers.len())];
    c.iter().map(|x| x + rng.gen_range(-1.0..1.0f32)).collect()
}

fn make_centers(dim: usize, rng: &mut impl Rng) -> Vec<Vec<f32>> {
    (0..10).map(|_| (0..dim).map(|_| rng.gen_range(-5.0..5.0)).collect()).collect()
}

struct Built {
    store: VectorStore,
    index: Hnsw,
    rng: rand::rngs::StdRng,
    centers: Vec<Vec<f32>>,
    visited: VisitedSet,
}

fn build_random(n: usize, dim: usize, config: HnswConfig, seed: u64) -> Built {
    let mut store = VectorStore::create(dim).unwrap();
    let mut rng = rand::rngs::StdRng::seed_from_u64(seed);
    let mut index = Hnsw::new(config);
    let mut visited = VisitedSet::new();
    let centers = make_centers(dim, &mut rng);
    for _ in 0..n {
        let v = sample_blob(&centers, &mut rng);
        let id = store.append(&bits(&v)).unwrap();
        let height = level(&mut rng, config.m);
        index.insert(&store, id, height, &l2, &mut visited);
    }
    Built { store, index, rng, centers, visited }
}

fn recall_at_k(b: &mut Built, rng: &mut impl Rng, queries: usize, k: usize, ef: usize) -> f64 {
    let mut hits = 0usize;
    for _ in 0..queries {
        let q = bits(&sample_blob(&b.centers, rng));
        let truth = exact_search(&b.store, &q, k, &l2);
        let got = b.index.search(&b.store, &q, k, ef, &l2, &mut b.visited);
        let ids: std::collections::HashSet<u64> = truth.iter().map(|n| n.id).collect();
        hits += got.iter().filter(|n| ids.contains(&n.id)).count();
    }
    hits as f64 / (queries * k) as f64
}

/// No self-links, no link twice, targets on the same layer, degrees within
/// bounds, the entry point on the highest layer: read off a snapshot.
fn check_invariants(index: &Hnsw) {
    assert!(index.check_invariants());
    let bytes = index.snapshot(0);
    let u32_at = |at: usize| u32::from_le_bytes(bytes[at..at + 4].try_into().unwrap());
    let u64_at = |at: usize| u64::from_le_bytes(bytes[at..at + 8].try_into().unwrap());
    let m = u32_at(8);
    let count = u64_at(25);
    let mut nodes: Vec<Vec<Vec<u64>>> = Vec::new();
    let mut at = 41;
    for _ in 0..count {
        let height = u32_at(at);
        at += 4;
        let mut layers = Vec::new();
        for layer in 0..=height {
            let len = u32_at(at);
            at += 4;
            assert!(len <= if layer == 0 { 2 * m } else { m }, "too many links");
            layers.push((0..len as usize).map(|i| u64_at(at + 8 * i)).collect::<Vec<u64>>());
            at += 8 * len as usize;
        }
        nodes.push(layers);
    }
    assert_eq!(at + 4, bytes.len());
    let (entry, height) = unpack_entry(u64_at(33));
    assert_eq!(nodes[entry as usize].len() - 1, height as usize);
    assert!(nodes.iter().all(|node| node.len() - 1 <= height as usize), "a higher node");
    for (i, node) in nodes.iter().enumerate() {
        for (layer, list) in node.iter().enumerate() {
            let ids: std::collections::HashSet<u64> = list.iter().copied().collect();
            assert_eq!(ids.len(), list.len(), "node {i} links twice to one node");
            for nb in list {
                assert_ne!(*nb, i as u64, "self-link at node {i}");
                assert!(nodes[*nb as usize].len() > layer, "link to a node on no such layer");
            }
        }
    }
}

fn snapshot(index: &Hnsw, lsn: u64) -> Vec<u8> {
    let mut plan = index.save(lsn);
    let (target, bytes) = plan.pop().unwrap();
    assert_eq!(target, Target::Snapshot);
    assert!(plan.is_empty());
    bytes
}

fn seal(mut body: Vec<u8>) -> Vec<u8> {
    let sum = crc32fast::hash(&body);
    body.extend_from_slice(&sum.to_le_bytes());
    body
}

fn refusal(bytes: &[u8]) -> String {
    match Hnsw::load(bytes) {
        Err(error) => error.message(),
        Ok(_) => panic!("must be refused"),
    }
}

#[test]
fn exact_on_tiny_graph() {
    let mut b = build_random(50, 8, HnswConfig::default(), 3);
    check_invariants(&b.index);
    let q = b.store.get(0).unwrap().to_vec();
    let truth = exact_search(&b.store, &q, 1, &l2);
    let got = b.index.search(&b.store, &q, 1, 64, &l2, &mut b.visited);
    assert_eq!(got[0].id, truth[0].id);
    assert_eq!(got[0].id, 0);
}

#[test]
fn recall_on_8k_clustered() {
    let config = HnswConfig { m: 16, ef_construction: 200, metric: Metric::L2 };
    let mut b = build_random(8_000, 32, config, 42);
    check_invariants(&b.index);
    let mut rng = b.rng.clone();
    let recall = recall_at_k(&mut b, &mut rng, 100, 10, 128);
    assert!(recall >= 0.95, "recall@10 = {recall}, expected >= 0.95");
}

#[test]
fn recall_improves_with_ef() {
    let mut b = build_random(10_000, 16, HnswConfig::default(), 11);
    let mut rng = b.rng.clone();
    let low = recall_at_k(&mut b, &mut rng, 50, 10, 16);
    let mut rng2 = rand::rngs::StdRng::seed_from_u64(999);
    let high = recall_at_k(&mut b, &mut rng2, 50, 10, 256);
    assert!(high >= low, "ef=256 recall {high} < ef=16 recall {low}");
    assert!(high >= 0.97, "high-ef recall {high} too low");
}

#[test]
fn clean_build_may_have_unreachable_points() {
    let dim = 16;
    let config = HnswConfig { m: 16, ef_construction: 200, metric: Metric::L2 };
    let mut b = build_random(12_000, dim, config, 12321);
    let orphans = b.index.zero_indegree_nodes();
    for &id in orphans.iter().take(5) {
        let q = b.store.get_unchecked(id).to_vec();
        let hits = b.index.search(&b.store, &q, 1, 8192, &l2, &mut b.visited);
        assert_ne!(
            hits.first().map(|h| h.id),
            Some(id),
            "node {id} has zero in-links yet was found"
        );
    }
    let frac = orphans.len() as f64 / b.index.len() as f64;
    assert!(frac < 0.01, "unreachable fraction {frac} unexpectedly high");
    assert_eq!(b.index.zero_indegree_count(), orphans.len());
}

#[test]
fn empty_and_single() {
    let mut store = VectorStore::create(4).unwrap();
    let mut rng = rand::rngs::StdRng::seed_from_u64(0);
    let mut visited = VisitedSet::new();
    let mut index = Hnsw::new(HnswConfig::default());
    assert!(index.search(&store, &bits(&[0.0; 4]), 5, 32, &l2, &mut visited).is_empty());
    assert!(index.is_empty());
    let id = store.append(&bits(&[1.0, 2.0, 3.0, 4.0])).unwrap();
    let height = level(&mut rng, 16);
    index.insert(&store, id, height, &l2, &mut visited);
    let got = index.search(&store, &bits(&[1.0, 2.0, 3.0, 4.0]), 5, 32, &l2, &mut visited);
    assert_eq!(got.len(), 1);
    assert_eq!(got[0].id, 0);
}

#[test]
fn save_load_round_trip_preserves_search() {
    let mut store = VectorStore::create(12).unwrap();
    let mut rng = rand::rngs::StdRng::seed_from_u64(5);
    let mut visited = VisitedSet::new();
    let mut index = Hnsw::new(HnswConfig { m: 8, ef_construction: 64, metric: Metric::L2 });
    for i in 0..2000 {
        let v: Vec<f32> = (0..12).map(|j| ((i * 12 + j) % 97) as f32 * 0.1).collect();
        let id = store.append(&bits(&v)).unwrap();
        let height = level(&mut rng, 8);
        index.insert(&store, id, height, &l2, &mut visited);
    }
    let snap = snapshot(&index, 12345);
    let (loaded, lsn) = Hnsw::load(&snap).unwrap();
    assert_eq!(lsn, 12345);
    assert_eq!(loaded.len(), 2000);
    assert_eq!(*loaded.config(), *index.config());
    assert_eq!(loaded.snapshot(12345), snap);
    for q in 0..20 {
        let query: Vec<f32> = (0..12).map(|j| ((q * 7 + j) % 31) as f32 * 0.3).collect();
        let a = index.search(&store, &bits(&query), 10, 64, &l2, &mut visited);
        let b = loaded.search(&store, &bits(&query), 10, 64, &l2, &mut visited);
        assert_eq!(a, b, "query {q} diverged after reload");
    }
}

#[test]
fn corrupted_snapshot_rejected() {
    let mut store = VectorStore::create(4).unwrap();
    let mut rng = rand::rngs::StdRng::seed_from_u64(1);
    let mut visited = VisitedSet::new();
    let mut index = Hnsw::new(HnswConfig::default());
    for i in 0..100 {
        let id = store.append(&bits(&[i as f32; 4])).unwrap();
        let height = level(&mut rng, 16);
        index.insert(&store, id, height, &l2, &mut visited);
    }
    let mut bytes = snapshot(&index, 0);
    let mid = bytes.len() / 2;
    bytes[mid] ^= 0xFF;
    assert!(Hnsw::load(&bytes).is_err(), "bit flip must not load silently");
}

#[test]
fn checksum_valid_snapshot_with_invalid_config_is_rejected() {
    let mut bytes = Vec::new();
    bytes.extend_from_slice(&0x564B_534Eu32.to_le_bytes());
    bytes.extend_from_slice(&1u32.to_le_bytes());
    bytes.extend_from_slice(&1u32.to_le_bytes()); // invalid M
    bytes.extend_from_slice(&64u32.to_le_bytes());
    bytes.push(metric_tag(Metric::L2));
    bytes.extend_from_slice(&0u64.to_le_bytes());
    bytes.extend_from_slice(&0u64.to_le_bytes());
    bytes.extend_from_slice(&u64::MAX.to_le_bytes());
    let message = refusal(&seal(bytes));
    assert!(message.contains("M out of range"), "unhelpful error: {message}");
}

/// A snapshot of two nodes that link to each other on the lowest layer, node
/// one also being on layer one.
fn two_nodes() -> Vec<u8> {
    let mut bytes = Vec::new();
    bytes.extend_from_slice(&0x564B_534Eu32.to_le_bytes());
    bytes.extend_from_slice(&1u32.to_le_bytes());
    bytes.extend_from_slice(&4u32.to_le_bytes());
    bytes.extend_from_slice(&64u32.to_le_bytes());
    bytes.push(1);
    bytes.extend_from_slice(&9u64.to_le_bytes());
    bytes.extend_from_slice(&2u64.to_le_bytes());
    bytes.extend_from_slice(&pack_entry(1, 1).to_le_bytes());
    bytes.extend_from_slice(&0u32.to_le_bytes());
    bytes.extend_from_slice(&1u32.to_le_bytes());
    bytes.extend_from_slice(&1u64.to_le_bytes());
    bytes.extend_from_slice(&1u32.to_le_bytes());
    bytes.extend_from_slice(&1u32.to_le_bytes());
    bytes.extend_from_slice(&0u64.to_le_bytes());
    bytes.extend_from_slice(&0u32.to_le_bytes());
    bytes
}

#[test]
fn snapshots_are_checked_field_by_field() {
    let good = seal(two_nodes());
    let (index, lsn) = Hnsw::load(&good).unwrap();
    assert_eq!((index.len(), lsn), (2, 9));
    assert_eq!(index.config().metric, Metric::Dot);
    assert_eq!(index.snapshot(9), good);
    assert_eq!(index.max_degree(0), 8);
    assert_eq!(index.max_degree(1), 4);

    assert_eq!(refusal(&[1, 2, 3]), "bad file: snapshot: truncated");
    let mut flipped = good.clone();
    flipped[50] ^= 1;
    assert_eq!(refusal(&flipped), "bad file: snapshot: checksum mismatch");
    assert_eq!(refusal(&seal(vec![0; 20])), "bad file: snapshot: bad magic");
    let change = |at: usize, byte: u8| {
        let mut bytes = two_nodes();
        bytes[at] = byte;
        seal(bytes)
    };
    assert_eq!(refusal(&change(4, 2)), "bad file: snapshot: unsupported version");
    assert_eq!(refusal(&change(16, 3)), "bad file: unknown metric tag");
    assert_eq!(refusal(&change(10, 1)), "bad file: snapshot: HNSW M out of range");
    assert_eq!(refusal(&change(25, 200)), "bad file: snapshot: impossible node count");
    assert_eq!(refusal(&change(41, 64)), "bad file: snapshot: absurd level");
    assert_eq!(refusal(&change(45, 9)), "bad file: snapshot: absurd degree");
    assert_eq!(refusal(&change(49, 2)), "bad file: snapshot: link out of range");
    assert_eq!(refusal(&change(33, 2)), "bad file: snapshot: entry out of range");
    assert_eq!(refusal(&change(33, 0)), "bad file: snapshot: entry level mismatch");
    let mut longer = two_nodes();
    let inner = crc32fast::hash(&longer);
    longer.extend_from_slice(&inner.to_le_bytes());
    longer.push(0);
    assert_eq!(refusal(&seal(longer)), "bad file: snapshot: trailing bytes");
    let mut shorter = two_nodes();
    shorter.truncate(52);
    assert_eq!(refusal(&seal(shorter)), "io error: failed to fill whole buffer");
    let mut shorter = two_nodes();
    shorter.truncate(12);
    assert_eq!(refusal(&seal(shorter)), "io error: failed to fill whole buffer");
}

#[test]
fn graphs_that_are_not_well_built_are_told() {
    let (index, _) = Hnsw::load(&seal(two_nodes())).unwrap();
    assert!(index.check_invariants());
    // Node zero links to itself.
    let mut bytes = two_nodes();
    bytes[49] = 0;
    let (index, _) = Hnsw::load(&seal(bytes)).unwrap();
    assert!(!index.check_invariants());
    // Node one, alone on layer one, links to node zero there.
    let mut bytes = two_nodes();
    let end = bytes.len();
    bytes[end - 4] = 1;
    bytes.extend_from_slice(&0u64.to_le_bytes());
    let (index, _) = Hnsw::load(&seal(bytes)).unwrap();
    assert!(!index.check_invariants());
}

#[test]
fn an_empty_index_is_saved_byte_for_byte() {
    let index = Hnsw::new(HnswConfig { m: 8, ef_construction: 64, metric: Metric::L2 });
    let mut want = vec![0x4E, 0x53, 0x4B, 0x56, 1, 0, 0, 0, 8, 0, 0, 0, 64, 0, 0, 0, 0];
    want.extend_from_slice(&12345u64.to_le_bytes());
    want.extend_from_slice(&[0; 8]);
    want.extend_from_slice(&[0xFF; 8]);
    let want = seal(want);
    assert_eq!(want.len(), 45);
    assert_eq!(index.save(12345), vec![(Target::Snapshot, want.clone())]);
    let (loaded, lsn) = Hnsw::load(&want).unwrap();
    assert_eq!((loaded.len(), lsn), (0, 12345));
}

#[test]
fn one_changed_byte_of_a_snapshot_is_noticed() {
    let b = build_random(30, 4, HnswConfig { m: 4, ef_construction: 8, metric: Metric::L2 }, 77);
    let good = snapshot(&b.index, 3);
    for at in 0..good.len() {
        for flip in [0x01, 0x10, 0xFF] {
            let mut bytes = good.clone();
            bytes[at] ^= flip;
            assert_eq!(refusal(&bytes), "bad file: snapshot: checksum mismatch", "byte {at}");
        }
    }
}

#[test]
fn a_beam_as_wide_as_the_graph_finds_the_exact_answer() {
    let mut b = build_random(400, 6, HnswConfig { m: 8, ef_construction: 50, metric: Metric::L2 }, 4);
    assert!(b.index.zero_indegree_nodes().is_empty());
    let mut rng = b.rng.clone();
    for _ in 0..20 {
        let q = bits(&sample_blob(&b.centers, &mut rng));
        let got = b.index.search(&b.store, &q, 12, 400, &l2, &mut b.visited);
        assert_eq!(got, exact_search(&b.store, &q, 12, &l2));
        let all = b.index.search(&b.store, &q, 400, 1, &l2, &mut b.visited);
        assert_eq!(all, exact_search(&b.store, &q, 400, &l2));
    }
}

#[test]
fn metric_tags_read_back() {
    for metric in [Metric::L2, Metric::Dot, Metric::Cosine] {
        assert_eq!(metric_from(metric_tag(metric)).unwrap(), metric);
    }
    assert_eq!(metric_from(3).unwrap_err().message(), "bad file: unknown metric tag");
}

#[test]
fn entries_are_packed_into_one_word() {
    assert_eq!(pack_entry(5, 3), (3u64 << 56) | 5);
    assert_eq!(unpack_entry(pack_entry(12345, 7)), (12345, 7));
    let last = (1u64 << 56) - 1;
    assert_eq!(pack_entry(last, 0), last);
    assert_eq!(pack_entry(last, 63), (63u64 << 56) | last);
    assert_eq!(unpack_entry(pack_entry(last, 63)), (last, 63));
}

#[test]
fn links_are_spread_over_directions() {
    // Points on a line: base 0, candidates at 1, 1.1 and -2. The one at 1.1 is
    // closer to the one at 1 than to the base, so it is passed over for -2.
    let at = [1.0f32, 1.1, -2.0];
    let pair = |a: u64, b: u64| (at[a as usize] - at[b as usize]).abs().to_bits();
    let cands: Vec<Neighbor> = (0..3)
        .map(|i| Neighbor { id: i, distance: at[i as usize].abs().to_bits() })
        .collect();
    assert_eq!(select_neighbors(&cands, 2, &pair, 3), vec![0, 2]);
    assert_eq!(select_neighbors(&cands, 3, &pair, 3), vec![0, 2, 1]);
    assert_eq!(select_neighbors(&cands, 0, &pair, 3), Vec::<u64>::new());
}

#[test]
fn the_same_inserts_give_the_same_graph() {
    let a = build_random(600, 8, HnswConfig::default(), 21);
    let b = build_random(600, 8, HnswConfig::default(), 21);
    assert_eq!(a.index.snapshot(0), b.index.snapshot(0));
    let c = build_random(600, 8, HnswConfig::default(), 22);
    assert_ne!(a.index.snapshot(0), c.index.snapshot(0));
}

#[test]
fn hits_are_in_order_and_carry_their_distances() {
    let mut b = build_random(800, 8, HnswConfig { m: 4, ef_construction: 16, metric: Metric::L2 }, 8);
    check_invariants(&b.index);
    let q = bits(&sample_blob(&b.centers, &mut b.rng.clone()));
    let got = b.index.search(&b.store, &q, 20, 10, &l2, &mut b.visited);
    assert_eq!(got.len(), 20);
    for pair in got.windows(2) {
        assert!(pair[0].before(&pair[1]));
    }
    let truth = exact_search(&b.store, &q, 20, &l2);
    for (hit, best) in got.iter().zip(&truth) {
        assert_eq!(hit.distance, l2(&q, b.store.get(hit.id).unwrap()));
        assert!(hit == best || best.before(hit));
    }
}

#[test]
fn skipped_ids_become_bare_nodes() {
    let mut store = VectorStore::create(1).unwrap();
    for i in 0..4 {
        store.append(&bits(&[i as f32])).unwrap();
    }
    let mut visited = VisitedSet::new();
    let mut index = Hnsw::new(HnswConfig::default());
    index.insert(&store, 0, 0, &l2, &mut visited);
    index.insert(&store, 3, 1, &l2, &mut visited);
    assert_eq!(index.len(), 4);
    assert_eq!(index.zero_indegree_nodes(), vec![1, 2]);
    let got = index.search(&store, &bits(&[2.0]), 4, 8, &l2, &mut visited);
    let ids: Vec<u64> = got.iter().map(|h| h.id).collect();
    assert_eq!(ids, vec![3, 0]);
}
