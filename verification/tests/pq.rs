use rand::{Rng, SeedableRng};
use vektordb::io::Target;
use vektordb::pq::codebook::{encode_all, load_codebook, put_code, save_codebook};
use vektordb::pq::kmeans::{assign_rows, move_centroids, weighted_row};
use vektordb::pq::{adc_distance, ProductQuantizer, K};
use vektordb::storage::VectorStore;

fn bits(v: &[f32]) -> Vec<u32> {
    v.iter().map(|x| x.to_bits()).collect()
}

fn l2(a: &[u32], b: &[u32]) -> u32 {
    let mut sum = 0.0f32;
    for (x, y) in a.iter().zip(b) {
        let d = f32::from_bits(*x) - f32::from_bits(*y);
        sum += d * d;
    }
    sum.to_bits()
}

fn total(w: &[u32]) -> u32 {
    w.iter().map(|x| f32::from_bits(*x)).sum::<f32>().to_bits()
}

fn minus(a: u32, b: u32) -> u32 {
    (f32::from_bits(a) - f32::from_bits(b)).to_bits()
}

fn plus(a: u32, b: u32) -> u32 {
    (f32::from_bits(a) + f32::from_bits(b)).to_bits()
}

fn mean(column: &[u32]) -> u32 {
    let sum: f64 = column.iter().map(|x| f32::from_bits(*x) as f64).sum();
    ((sum / column.len() as f64) as f32).to_bits()
}

fn spot(word: u64, range: u32) -> u32 {
    let fraction = (word >> 41) as f32 / 8388608.0;
    (fraction * f32::from_bits(range)).to_bits()
}

fn blobs(n: usize, dim: usize, seed: u64) -> Vec<f32> {
    let mut rng = rand::rngs::StdRng::seed_from_u64(seed);
    let centers: Vec<Vec<f32>> =
        (0..16).map(|_| (0..dim).map(|_| rng.gen_range(-3.0..3.0)).collect()).collect();
    (0..n)
        .flat_map(|_| {
            let c = &centers[rng.gen_range(0..centers.len())];
            c.iter().map(|x| x + rng.gen_range(-0.3..0.3)).collect::<Vec<f32>>()
        })
        .collect()
}

fn train(data: &[f32], dim: usize, m: usize, iters: usize, rng: &mut impl Rng) -> ProductQuantizer {
    let seeds: Vec<u64> = (0..m).map(|_| rng.gen()).collect();
    ProductQuantizer::train(
        &bits(data), dim, m, iters, &seeds, &l2, &total, &minus, &mean, &spot,
    )
}

#[test]
fn quantization_error_is_small_on_clustered_data() {
    let dim = 32;
    let data = blobs(4000, dim, 9);
    let mut rng = rand::rngs::StdRng::seed_from_u64(1);
    let pq = train(&data, dim, 8, 15, &mut rng);

    let mut code = vec![0u8; 8];
    let mut mse = 0.0f64;
    let mut var = 0.0f64;
    let n = data.len() / dim;
    let mean: Vec<f32> = {
        let mut acc = vec![0.0f32; dim];
        for i in 0..n {
            for j in 0..dim {
                acc[j] += data[i * dim + j] / n as f32;
            }
        }
        acc
    };
    for i in 0..n {
        let v = bits(&data[i * dim..][..dim]);
        pq.encode(&v, &mut code, &l2);
        mse += f32::from_bits(l2(&v, &pq.decode(&code))) as f64;
        var += f32::from_bits(l2(&v, &bits(&mean))) as f64;
    }
    assert!(mse / var < 0.05, "relative MSE {} too high", mse / var);
}

#[test]
fn adc_matches_symmetric_distance_to_decoded() {
    let dim = 16;
    let data = blobs(2000, dim, 4);
    let mut rng = rand::rngs::StdRng::seed_from_u64(2);
    let pq = train(&data, dim, 4, 10, &mut rng);

    let mut code = vec![0u8; 4];
    for t in 0..50 {
        let q = bits(&data[t * 31 * dim..][..dim]);
        let v = bits(&data[t * 17 * dim..][..dim]);
        pq.encode(&v, &mut code, &l2);
        let table = pq.adc_table(&q, &l2);
        let adc = f32::from_bits(adc_distance(&table, &code, &plus));
        let direct = f32::from_bits(l2(&q, &pq.decode(&code)));
        assert!(
            (adc - direct).abs() <= 1e-3 * direct.abs().max(1.0),
            "adc {adc} vs direct {direct}"
        );
    }
}

#[test]
fn serialization_round_trip() {
    let dim = 16;
    let data = blobs(1000, dim, 8);
    let mut rng = rand::rngs::StdRng::seed_from_u64(3);
    let pq = train(&data, dim, 4, 5, &mut rng);
    let restored = ProductQuantizer::from_bytes(&pq.to_bytes()).unwrap();
    let mut a = vec![0u8; 4];
    let mut b = vec![0u8; 4];
    for i in 0..20 {
        let v = bits(&data[i * dim..][..dim]);
        pq.encode(&v, &mut a, &l2);
        restored.encode(&v, &mut b, &l2);
        assert_eq!(a, b);
    }
    assert_eq!((restored.dim(), restored.m()), (16, 4));
}

/// One part of one component, centroid `k` being `k`.
fn ruler() -> ProductQuantizer {
    let mut words = bits(&[1.0, 1.0, 1.0]);
    words.extend((0..K).map(|k| (k as f32).to_bits()));
    let bytes: Vec<u8> = words.iter().flat_map(|w| w.to_le_bytes()).collect();
    ProductQuantizer::from_bytes(&bytes).unwrap()
}

#[test]
fn codes_name_the_closest_centroid() {
    let pq = ruler();
    let mut code = vec![9u8];
    for (x, want) in [(0.0f32, 0u8), (3.4, 3), (3.6, 4), (254.5, 254), (1000.0, 255), (-5.0, 0)] {
        pq.encode(&bits(&[x]), &mut code, &l2);
        assert_eq!(code[0], want, "{x}");
    }
    pq.encode(&bits(&[f32::NAN]), &mut code, &l2);
    assert_eq!(code[0], 0);
    assert_eq!(pq.decode(&[7]), bits(&[7.0]));
    assert_eq!(*pq.centroid(0, 12), *bits(&[12.0]));
    let table = pq.adc_table(&bits(&[2.0]), &l2);
    assert_eq!(table.len(), K);
    assert_eq!(f32::from_bits(table[5]), 9.0);
}

#[test]
fn distances_are_summed_in_four_lanes() {
    let parts: Vec<f32> = vec![1.0, 1.0e8, -1.0e8, 3.0, 0.5, 0.25];
    let mut table = vec![0u32; 6 * K];
    let code = vec![3u8, 1, 4, 1, 5, 9];
    for (sub, x) in parts.iter().enumerate() {
        table[sub * K + code[sub] as usize] = x.to_bits();
    }
    let want = (((0.0f32 + 1.0) + (0.0 + 1.0e8)) + ((0.0f32 - 1.0e8) + (0.0 + 3.0))) + 0.5 + 0.25;
    assert_eq!(f32::from_bits(adc_distance(&table, &code, &plus)), want);
    assert_eq!(f32::from_bits(adc_distance(&table, &[], &plus)), 0.0);
}

#[test]
fn bad_sizes_are_refused() {
    assert!(ProductQuantizer::from_bytes(&[]).is_none());
    let good = ruler().to_bytes();
    assert_eq!(good.len(), 4 * (3 + K));
    assert_eq!(good[0..4], 1.0f32.to_le_bytes());
    assert!(ProductQuantizer::from_bytes(&good[..good.len() - 4]).is_none());
    for at in [0, 4, 8] {
        let mut bytes = good.clone();
        bytes[at..at + 4].copy_from_slice(&0.0f32.to_le_bytes());
        assert!(ProductQuantizer::from_bytes(&bytes).is_none());
    }
    let mut bytes = good.clone();
    bytes[0..4].copy_from_slice(&2.0f32.to_le_bytes());
    assert!(ProductQuantizer::from_bytes(&bytes).is_none());
}

fn saved(pq: &ProductQuantizer) -> Vec<u8> {
    let mut plan = save_codebook(pq);
    let (target, bytes) = plan.pop().unwrap();
    assert_eq!(target, Target::Codebook);
    assert!(plan.is_empty());
    bytes
}

fn refusal(raw: &[u8]) -> String {
    match load_codebook(raw) {
        Err(error) => error.message(),
        Ok(_) => panic!("must be refused"),
    }
}

fn sealed(body: &[u8]) -> Vec<u8> {
    let mut raw = body.to_vec();
    raw.extend_from_slice(&crc32fast::hash(body).to_le_bytes());
    raw
}

#[test]
fn codebooks_are_framed_and_checked() {
    let raw = saved(&ruler());
    assert_eq!(raw[0..4], 0x564B_5051u32.to_le_bytes());
    assert_eq!(raw[4..8], 1u32.to_le_bytes());
    let body = raw[..raw.len() - 4].to_vec();
    assert_eq!(sealed(&body), raw);
    let back = load_codebook(&raw).unwrap();
    assert_eq!(back.to_bytes(), ruler().to_bytes());

    assert_eq!(refusal(&raw[..15]), "bad file: pq.codebook truncated");
    let mut bad = raw.clone();
    bad[100] ^= 0xFF;
    assert_eq!(refusal(&bad), "bad file: pq.codebook checksum mismatch");
    let mut bad = body.clone();
    bad[0] = 0;
    assert_eq!(refusal(&sealed(&bad)), "bad file: pq.codebook bad magic");
    let mut bad = body.clone();
    bad[4] = 7;
    assert_eq!(refusal(&sealed(&bad)), "bad file: pq.codebook version 7, expected 1");
    let mut bad = body.clone();
    bad.truncate(60);
    assert_eq!(refusal(&sealed(&bad)), "bad file: pq.codebook malformed");
}

#[test]
fn one_changed_byte_of_a_codebook_is_noticed() {
    let good = saved(&ruler());
    for at in 0..good.len() {
        for flip in [0x01, 0x80, 0xFF] {
            let mut raw = good.clone();
            raw[at] ^= flip;
            assert!(load_codebook(&raw).is_err(), "byte {at}");
        }
    }
}

#[test]
fn codes_are_kept_by_id() {
    let mut codes = vec![1u8, 2];
    put_code(&mut codes, 4, &vec![8, 9]);
    assert_eq!(codes, vec![1, 2, 0, 0, 8, 9]);
    put_code(&mut codes, 0, &vec![5, 6]);
    assert_eq!(codes, vec![5, 6, 0, 0, 8, 9]);
    let mut store = VectorStore::create(1).unwrap();
    for x in [3.0f32, 200.2, 17.6] {
        store.append(&bits(&[x])).unwrap();
    }
    assert_eq!(encode_all(&ruler(), &store, &l2), vec![3, 200, 18]);
}

#[test]
fn rows_are_drawn_by_weight() {
    let w = bits(&[1.0, 2.0, 0.0, 3.0]);
    let at = |t: f32| weighted_row(&w, t.to_bits(), &minus);
    assert_eq!(at(0.0), 0);
    assert_eq!(at(1.0), 0);
    assert_eq!(at(1.5), 1);
    assert_eq!(at(3.0), 1);
    assert_eq!(at(3.5), 3);
    assert_eq!(at(100.0), 3);
}

#[test]
fn clusters_move_to_the_mean_or_to_a_drawn_row() {
    let points = bits(&[0.0, 1.0, 10.0, 12.0]);
    let mut centroids = bits(&[11.0, 0.0]);
    centroids.extend((2..K).map(|_| 1.0e9f32.to_bits()));
    let assign = assign_rows(&points, 4, 1, &centroids, &l2);
    assert_eq!(assign, vec![1, 1, 0, 0]);
    let respawn = vec![3usize; K];
    let moved = move_centroids(&points, 4, 1, &assign, &respawn, &mean);
    assert_eq!(moved[..3], bits(&[11.0, 0.5, 12.0])[..]);
}
