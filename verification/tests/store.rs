use vektordb::doubling::seg_rows;
use vektordb::io::Target;
use vektordb::storage::store::{locate, segment_place};
use vektordb::storage::VectorStore;
use vektordb::Error;

fn bits(v: &[f32]) -> Vec<u32> {
    v.iter().map(|x| x.to_bits()).collect()
}

fn vec_for(i: usize, dim: usize) -> Vec<u32> {
    (0..dim).map(|j| ((i * dim + j) as f32 * 0.001).to_bits()).collect()
}

/// A file that grows as segments are written to it.
fn put(file: &mut Vec<u8>, target: Target, bytes: &[u8]) {
    let at = match target {
        Target::StoreHeader => 0,
        Target::StoreSegment(k) => {
            let stride = bytes.len() / (1024 << k);
            4096 + 1024 * ((1 << k) - 1) * stride
        }
        _ => panic!("not for the store"),
    };
    if file.len() < at + bytes.len() {
        file.resize(at + bytes.len(), 0);
    }
    file[at..at + bytes.len()].copy_from_slice(bytes);
}

fn flushed(store: &VectorStore) -> Vec<u8> {
    let mut file = Vec::new();
    for (target, bytes) in store.flush() {
        put(&mut file, target, &bytes);
    }
    file
}

fn refusal(file: &[u8]) -> String {
    match VectorStore::open(file) {
        Err(Error::Corrupt(text)) => text,
        _ => panic!("must be refused"),
    }
}

#[test]
fn locate_maps_segments_correctly() {
    assert_eq!(locate(0), (0, 0));
    assert_eq!(locate(1023), (0, 1023));
    assert_eq!(locate(1024), (1, 0));
    assert_eq!(locate(3071), (1, 2047));
    assert_eq!(locate(3072), (2, 0));
    assert_eq!(locate(7168), (3, 0));
}

#[test]
fn locate_reaches_the_last_id() {
    let (seg, row) = locate(u64::MAX);
    assert_eq!(seg, 54);
    assert_eq!(1024 * ((1u64 << 54) - 1) + row, u64::MAX);
    assert_eq!(seg_rows(0), 1024);
    assert_eq!(seg_rows(5), 32768);
}

#[test]
fn round_trip_and_alignment() {
    let mut store = VectorStore::create(128).unwrap();
    for i in 0..100 {
        let id = store.append(&vec_for(i, 128)).unwrap();
        assert_eq!(id, i as u64);
    }
    for i in 0..100 {
        let v = store.get(i as u64).unwrap();
        assert_eq!(v, vec_for(i, 128).as_slice());
        assert_eq!(store.row_byte_offset(i as u64) % 64, 0, "row {i} not 64-byte aligned");
    }
    assert!(store.get(100).is_err());
}

#[test]
fn grows_across_segments() {
    let mut store = VectorStore::create(8).unwrap();
    store.append(&vec_for(0, 8)).unwrap();
    let early = store.get(0).unwrap().to_vec();
    for i in 1..5000 {
        store.append(&vec_for(i, 8)).unwrap();
    }
    assert_eq!(store.len(), 5000);
    assert_eq!(early, vec_for(0, 8));
    assert_eq!(store.get(0).unwrap(), vec_for(0, 8).as_slice());
    assert_eq!(store.get(4999).unwrap(), vec_for(4999, 8).as_slice());
}

#[test]
fn reopen_from_disk() {
    let file = {
        let mut store = VectorStore::create(32).unwrap();
        for i in 0..3000 {
            store.append(&vec_for(i, 32)).unwrap();
        }
        flushed(&store)
    };
    let mut store = VectorStore::open(&file).unwrap();
    assert_eq!(store.dim(), 32);
    assert_eq!(store.len(), 3000);
    for i in (0..3000).step_by(97) {
        assert_eq!(store.get(i as u64).unwrap(), vec_for(i, 32).as_slice());
    }
    let id = store.append(&vec_for(3000, 32)).unwrap();
    assert_eq!(id, 3000);
    assert_eq!(store.get(3000).unwrap(), vec_for(3000, 32).as_slice());
}

#[test]
fn dimension_mismatch_rejected() {
    let mut store = VectorStore::create(16).unwrap();
    assert!(store.append(&bits(&[0.0; 8])).is_err());
    match store.append(&bits(&[0.0; 8])) {
        Err(Error::DimensionMismatch { expected, got }) => assert_eq!((expected, got), (16, 8)),
        _ => panic!("wrong error"),
    }
    assert!(store.is_empty());
}

#[test]
fn ids_out_of_range_are_refused() {
    let store = VectorStore::create(4).unwrap();
    match store.get(12) {
        Err(e) => assert_eq!(e.message(), "vector id 12 out of range"),
        Ok(_) => panic!("there is no such vector"),
    }
}

#[test]
fn the_header_has_the_documented_layout() {
    let mut store = VectorStore::create(20).unwrap();
    for i in 0..3 {
        store.append(&vec_for(i, 20)).unwrap();
    }
    let file = flushed(&store);
    assert_eq!(file[0..4], 0x564B_4442u32.to_le_bytes());
    assert_eq!(file[4..8], 2u32.to_le_bytes());
    assert_eq!(file[8..12], 20u32.to_le_bytes());
    assert_eq!(file[16..24], 3u64.to_le_bytes());
    assert_eq!(file[24..32], 128u64.to_le_bytes());
    assert_eq!(file.len(), 4096 + 1024 * 128);
    assert_eq!(file[4096 + 128..4096 + 132], vec_for(1, 20)[0].to_le_bytes());
    assert_eq!(store.seg_byte_offset(1), 4096 + 1024 * 128);
    assert_eq!(store.row_byte_offset(2), 4096 + 2 * 128);
}

#[test]
fn bad_headers_are_refused() {
    let store = VectorStore::create(16).unwrap();
    let good = flushed(&store);
    assert_eq!(refusal(&good[..4095]), "file smaller than header");
    let mut file = good.clone();
    file[0] ^= 1;
    assert_eq!(refusal(&file), "bad magic");
    let mut file = good.clone();
    file[4] = 1;
    assert_eq!(refusal(&file), "unsupported version");
    for (at, value) in [(8usize, 0u8), (8, 17), (24, 65)] {
        let mut file = good.clone();
        file[at] = value;
        assert_eq!(refusal(&file), "inconsistent header geometry");
    }
    let mut file = good.clone();
    file[16..24].copy_from_slice(&u64::MAX.to_le_bytes());
    assert_eq!(refusal(&file), "store exceeds maximum size");
}

#[test]
fn a_short_file_reads_as_zeros_behind_its_end() {
    let mut store = VectorStore::create(16).unwrap();
    for i in 0..4 {
        store.append(&vec_for(i + 1, 16)).unwrap();
    }
    let file = flushed(&store);
    let store = VectorStore::open(&file[..4096 + 2 * 64]).unwrap();
    assert_eq!(store.len(), 4);
    assert_eq!(store.get(1).unwrap(), vec_for(2, 16).as_slice());
    assert_eq!(store.get(2).unwrap(), bits(&[0.0; 16]).as_slice());
}

#[test]
fn flushing_writes_segments_before_the_header() {
    let mut store = VectorStore::create(1).unwrap();
    for i in 0..1025 {
        store.append(&[i]).unwrap();
    }
    let order: Vec<Target> = store.flush().iter().map(|(target, _)| *target).collect();
    let want = vec![Target::StoreSegment(0), Target::StoreSegment(1), Target::StoreHeader];
    assert_eq!(order, want);
}

#[test]
fn every_step_of_a_flush_leaves_a_store_that_opens() {
    let mut store = VectorStore::create(3).unwrap();
    for i in 0..1500 {
        store.append(&vec_for(i, 3)).unwrap();
    }
    let before = flushed(&store);
    for i in 1500..4000 {
        store.append(&vec_for(i, 3)).unwrap();
    }
    let plan = store.flush();
    for steps in 0..=plan.len() {
        let mut file = before.clone();
        for (target, bytes) in &plan[..steps] {
            put(&mut file, *target, bytes);
        }
        let found = VectorStore::open(&file).unwrap();
        assert_eq!(found.len(), if steps == plan.len() { 4000 } else { 1500 });
        for id in 0..found.len() {
            assert_eq!(found.get(id as u64).unwrap(), vec_for(id, 3).as_slice());
        }
    }
}

#[test]
fn every_row_has_its_own_place() {
    let mut next = (0, 0);
    for id in 0..20_000 {
        assert_eq!(locate(id), next);
        next = if next.1 + 1 == seg_rows(next.0) { (next.0 + 1, 0) } else { (next.0, next.1 + 1) };
    }
}

#[test]
fn segments_are_placed_one_after_the_other() {
    let mut at = 4096;
    for seg in 0..10 {
        let len = seg_rows(seg) * 128;
        assert_eq!(segment_place(seg, len), at);
        at += len;
    }
}
