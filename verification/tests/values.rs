use vektordb::error::corrupt;
use vektordb::float32::{as_index, at_most, less, of_integer, total_order};
use vektordb::frontend::{
    checkpoint_due, command, degraded, metric_named, pad_row, pattern, Command,
};
use vektordb::distance::Metric;
use vektordb::random::draw_level;
use vektordb::storage::Neighbor;
use vektordb::Error;
use rand::{Rng, SeedableRng};

const SAMPLES: [f32; 14] = [
    0.0, -0.0, 1.0, -1.0, 1.5, -2.25, 3.0e38, -3.0e38, 1.0e-40, -1.0e-40, 16777216.0, 0.1,
    f32::INFINITY, f32::NEG_INFINITY,
];

#[test]
fn comparisons_are_those_of_the_machine() {
    let mut all = SAMPLES.to_vec();
    all.push(f32::NAN);
    all.push(-f32::NAN);
    for a in &all {
        for b in &all {
            assert_eq!(less(a.to_bits(), b.to_bits()), a < b, "{a} < {b}");
            assert_eq!(at_most(a.to_bits(), b.to_bits()), a <= b, "{a} <= {b}");
            let order = total_order(a.to_bits()).cmp(&total_order(b.to_bits()));
            assert_eq!(order, a.total_cmp(b), "{a} and {b}");
        }
    }
}

#[test]
fn integers_are_rounded_as_the_machine_does() {
    for n in [0u64, 1, 2, 3, 7, 100, 255, 256, 16777215, 16777216, 16777217, 16777218, 16777219,
        16777221, 33554431, 33554433, 33554434, 33554435, 123456789012345, u64::MAX, u64::MAX / 3]
    {
        assert_eq!(of_integer(n), (n as f32).to_bits(), "{n}");
    }
    for k in 0..64 {
        for d in [0u64, 1, 2, 3, 5, 129] {
            let n = (1u64 << k).wrapping_add(d);
            assert_eq!(of_integer(n), (n as f32).to_bits(), "{n}");
        }
    }
}

#[test]
fn values_are_cut_to_integers_as_the_machine_does() {
    let mut all = SAMPLES.to_vec();
    all.extend_from_slice(&[0.999, 1.999, 255.5, 4.0e9, 5.0e9, 1.0e18, 1.8e19, 1.9e19, f32::NAN]);
    for x in all {
        assert_eq!(as_index(x.to_bits()), x as usize, "{x}");
    }
}

#[test]
fn errors_read_well() {
    assert_eq!(Error::Io("gone".to_string()).message(), "io error: gone");
    assert_eq!(corrupt("bad magic").message(), "bad file: bad magic");
    assert_eq!(
        Error::DimensionMismatch { expected: 128, got: 7 }.message(),
        "dimension mismatch: store has 128, got 7"
    );
    assert_eq!(Error::IdOutOfRange(0).message(), "vector id 0 out of range");
    let e = Error::IdOutOfRange(18446744073709551615);
    assert_eq!(e.message(), "vector id 18446744073709551615 out of range");
    assert_eq!(Error::InvalidArgument("k".to_string()).message(), "invalid argument: k");
}

#[test]
fn levels_come_from_the_generator_seeded_with_the_id() {
    for id in [0u64, 1, 2, 12345, u64::MAX] {
        let mut rng = rand::rngs::SmallRng::seed_from_u64(id ^ 0x9E37_79B9_7F4A_7C15);
        assert_eq!(draw_level(id), rng.gen::<u64>());
    }
    assert_ne!(draw_level(1), draw_level(2));
    assert_ne!(draw_level(1), 1);
}

#[test]
fn the_word_of_a_level_gives_the_fraction_that_the_generator_gives() {
    for id in 0..50u64 {
        let mut rng = rand::rngs::SmallRng::seed_from_u64(id ^ 0x9E37_79B9_7F4A_7C15);
        let u = (draw_level(id) >> 11) as f64 / (1u64 << 53) as f64;
        assert_eq!(rng.gen::<f64>(), u);
    }
}

#[test]
fn metrics_have_names() {
    let named = |s: &str| metric_named(&s.to_string());
    assert_eq!(named("l2"), Some(Metric::L2));
    assert_eq!(named("ip"), Some(Metric::Dot));
    assert_eq!(named("dot"), Some(Metric::Dot));
    assert_eq!(named("cosine"), Some(Metric::Cosine));
    assert_eq!(named("L2"), None);
    assert_eq!(named(""), None);
}

#[test]
fn commands_are_told_by_name_and_number_of_words() {
    let of = |s: &str, n: usize| command(&s.to_string(), n);
    assert_eq!(of("ingest", 4), None);
    assert_eq!(of("ingest", 5), Some(Command::Ingest { checkpoints: false }));
    assert_eq!(of("ingest", 6), Some(Command::Ingest { checkpoints: true }));
    assert_eq!(of("verify", 5), Some(Command::Verify));
    assert_eq!(of("verify", 6), None);
    assert_eq!(of("orphans", 4), Some(Command::Orphans));
    assert_eq!(of("search", 6), Some(Command::Search));
    assert_eq!(of("dance", 6), None);
}

#[test]
fn patterns_mix_the_id_and_the_position() {
    for id in [0u64, 1, 77, u64::MAX] {
        let words = pattern(id, 40);
        for j in 0..40u64 {
            let x = id
                .wrapping_mul(6364136223846793005)
                .wrapping_add(j.wrapping_mul(1442695040888963407));
            assert_eq!(words[j as usize], (x >> 33) as u32);
        }
    }
}

#[test]
fn checkpoints_come_after_every_so_many_inserts() {
    assert!(!checkpoint_due(0, 3));
    assert!(!checkpoint_due(1, 3));
    assert!(checkpoint_due(2, 3));
    assert!(checkpoint_due(0, 1));
}

#[test]
fn short_rows_are_padded() {
    let hit = Neighbor { id: 4, distance: 1.0f32.to_bits() };
    let row = pad_row(&vec![hit], 3);
    assert_eq!(row[0], hit);
    assert_eq!(row[1], Neighbor { id: u64::MAX, distance: f32::INFINITY.to_bits() });
    assert_eq!(row[2], row[1]);
    assert_eq!(row.len(), 3);
}

#[test]
fn candidates_are_totally_ordered() {
    let mut all = Vec::new();
    for distance in [1.0f32, -1.0, 0.0, -0.0, f32::NAN, f32::INFINITY] {
        for id in [3u64, 1] {
            all.push(Neighbor { id, distance: distance.to_bits() });
        }
    }
    for a in &all {
        assert!(!a.before(a));
        for b in &all {
            assert!(a == b || a.before(b) != b.before(a));
            for c in &all {
                assert!(!(a.before(b) && b.before(c)) || a.before(c));
            }
        }
    }
}

#[test]
fn one_orphan_in_a_thousand_is_no_damage() {
    assert!(!degraded(0, 0));
    assert!(degraded(1, 0));
    assert!(degraded(1, 999));
    assert!(!degraded(1, 1000));
    assert!(!degraded(5, 5000));
    assert!(degraded(6, 5999));
    for orphans in 0..30usize {
        for len in 0..25_000usize {
            assert_eq!(degraded(orphans, len), orphans as f64 / len.max(1) as f64 > 0.001);
        }
    }
}
