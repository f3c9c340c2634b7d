use rand::{Rng, SeedableRng};
use vektordb::storage::exact::{merge, push_bounded, search, search_range};
use vektordb::storage::{exact_search, Neighbor, VectorStore};

fn floats(v: &[u32]) -> Vec<f32> {
    v.iter().map(|x| f32::from_bits(*x)).collect()
}

fn bits(v: &[f32]) -> Vec<u32> {
    v.iter().map(|x| x.to_bits()).collect()
}

fn l2(a: &[u32], b: &[u32]) -> u32 {
    let d: f32 = a
        .iter()
        .zip(b)
        .map(|(x, y)| {
            let d = f32::from_bits(*x) - f32::from_bits(*y);
            d * d
        })
        .sum();
    d.to_bits()
}

fn dot(a: &[u32], b: &[u32]) -> u32 {
    let d: f32 = a.iter().zip(b).map(|(x, y)| f32::from_bits(*x) * f32::from_bits(*y)).sum();
    (-d).to_bits()
}

fn cosine(a: &[u32], b: &[u32]) -> u32 {
    let (a, b) = (floats(a), floats(b));
    let (mut ab, mut aa, mut bb) = (0.0f32, 0.0f32, 0.0f32);
    for (x, y) in a.iter().zip(b.iter()) {
        ab += x * y;
        aa += x * x;
        bb += y * y;
    }
    let denom = (aa * bb).sqrt();
    if denom == 0.0 { 1.0f32.to_bits() } else { (1.0 - ab / denom).to_bits() }
}

fn by_order(a: &Neighbor, b: &Neighbor) -> std::cmp::Ordering {
    f32::from_bits(a.distance).total_cmp(&f32::from_bits(b.distance)).then(a.id.cmp(&b.id))
}

#[test]
fn matches_naive_search() {
    let mut rng = rand::rngs::StdRng::seed_from_u64(7);
    let dim = 24;
    let mut store = VectorStore::create(dim).unwrap();
    let mut all: Vec<Vec<u32>> = Vec::new();
    for _ in 0..2000 {
        let v: Vec<f32> = (0..dim).map(|_| rng.gen_range(-1.0..1.0)).collect();
        store.append(&bits(&v)).unwrap();
        all.push(bits(&v));
    }
    let query: Vec<f32> = (0..dim).map(|_| rng.gen_range(-1.0..1.0)).collect();
    let query = bits(&query);

    for kernel in [l2 as fn(&[u32], &[u32]) -> u32, dot, cosine] {
        let mut naive: Vec<Neighbor> = all
            .iter()
            .enumerate()
            .map(|(i, v)| Neighbor { id: i as u64, distance: kernel(&query, v) })
            .collect();
        naive.sort_by(by_order);
        naive.truncate(10);
        let got = search(&store, &query, 10, &kernel);
        assert_eq!(got, naive);
    }
}

#[test]
fn k_larger_than_store() {
    let mut store = VectorStore::create(4).unwrap();
    for i in 0..3 {
        store.append(&bits(&[i as f32; 4])).unwrap();
    }
    let got = exact_search(&store, &bits(&[0.0; 4]), 10, &l2);
    assert_eq!(got.len(), 3);
    assert_eq!(got[0].id, 0);
}

#[test]
fn several_chunks_give_what_one_would() {
    let mut store = VectorStore::create(1).unwrap();
    for i in 0..40_000u32 {
        store.append(&bits(&[((i * 7919) % 40_009) as f32])).unwrap();
    }
    let query = bits(&[20_000.5]);
    let got = search(&store, &query, 25, &l2);
    let one = search_range(&store, &query, 25, &l2, 0, 40_000);
    assert_eq!(got, one);
    assert_eq!(got.len(), 25);
}

#[test]
fn ties_go_to_the_smaller_id_and_no_number_comes_last() {
    let mut store = VectorStore::create(1).unwrap();
    for x in [f32::NAN, 2.0, 0.0, 2.0, -2.0] {
        store.append(&bits(&[x])).unwrap();
    }
    let got = search(&store, &bits(&[0.0]), 5, &l2);
    let ids: Vec<u64> = got.iter().map(|n| n.id).collect();
    assert_eq!(ids, vec![2, 1, 3, 4, 0]);
    assert!(search(&store, &bits(&[0.0]), 0, &l2).is_empty());
}

#[test]
fn bounded_lists_keep_the_best() {
    let mut list = Vec::new();
    for (id, d) in [(0u64, 3.0f32), (1, 1.0), (2, 2.0), (3, 0.5)] {
        push_bounded(&mut list, Neighbor { id, distance: d.to_bits() }, 2);
    }
    let ids: Vec<u64> = list.iter().map(|n| n.id).collect();
    assert_eq!(ids, vec![3, 1]);
    let more = vec![Neighbor { id: 9, distance: 0.75f32.to_bits() }];
    merge(&mut list, &more, 2);
    let ids: Vec<u64> = list.iter().map(|n| n.id).collect();
    assert_eq!(ids, vec![3, 9]);
}

#[test]
fn the_order_of_pushes_does_not_matter() {
    let mut rng = rand::rngs::StdRng::seed_from_u64(31);
    let mut items: Vec<Neighbor> = (0..60u64)
        .map(|i| Neighbor { id: i % 25, distance: ((i * 7 % 10) as f32).to_bits() })
        .collect();
    let pushed = |items: &[Neighbor], k: usize| {
        let mut list = Vec::new();
        for x in items {
            push_bounded(&mut list, *x, k);
        }
        list
    };
    for k in [0usize, 1, 7, 59, 100] {
        let want = pushed(&items, k);
        let mut sorted = items.clone();
        sorted.sort_by(by_order);
        sorted.truncate(k);
        assert_eq!(want, sorted);
        for _ in 0..20 {
            for i in (1..items.len()).rev() {
                items.swap(i, rng.gen_range(0..=i));
            }
            assert_eq!(pushed(&items, k), want);
            let cut = rng.gen_range(0..=items.len());
            let mut list = pushed(&items[..cut], k);
            merge(&mut list, &pushed(&items[cut..], k), k);
            assert_eq!(list, want);
        }
    }
}
