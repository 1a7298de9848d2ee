use std::collections::HashMap;

use supertable::manifest::bloom::{block_and_mask, Bloom, BloomBuilder, DEFAULT_N_BLOCKS};
use xxhash_rust::xxh3::xxh3_64;

const BLOCK_BYTES: usize = 64;
const DEFAULT_BLOOM_BYTES: usize = 64 * 1024;

fn build_with(keys: &[&[u8]]) -> Bloom {
    let mut b = BloomBuilder::new();
    for k in keys {
        b.insert(k);
    }
    b.finish()
}

#[test]
fn empty_bloom_contains_nothing() {
    let b = BloomBuilder::new().finish();
    assert!(!b.contains(b"alpha"));
    assert!(!b.contains(b"beta"));
    assert!(!b.contains(b""));
}

#[test]
fn inserted_keys_are_definitely_present() {
    let keys: &[&[u8]] = &[
        b"alpha", b"beta", b"gamma", b"delta", b"epsilon", b"zeta", b"eta", b"theta",
    ];
    let b = build_with(keys);
    for k in keys {
        assert!(b.contains(k));
    }
}

#[test]
fn insert_is_idempotent() {
    let once = build_with(&[b"hello"]);
    let twice = build_with(&[b"hello", b"hello"]);
    assert_eq!(once.to_bytes(), twice.to_bytes());
}

#[test]
fn fpr_is_within_target_band_at_100k_keys() {
    let mut b = BloomBuilder::new();
    for i in 0..100_000usize {
        b.insert(format!("term{i}").as_bytes());
    }
    let bloom = b.finish();
    let mut false_positives = 0usize;
    let n_probes = 100_000usize;
    for i in 0..n_probes {
        if bloom.contains(format!("absent_term_{i}").as_bytes()) {
            false_positives += 1;
        }
    }
    let fpr = false_positives as f64 / n_probes as f64;
    assert!((0.03..=0.12).contains(&fpr), "FPR {} outside expected band [0.03, 0.12]", fpr);
}

#[test]
fn no_false_negatives_at_100k_keys() {
    let mut b = BloomBuilder::new();
    let n = 100_000usize;
    for i in 0..n {
        b.insert(format!("term{i}").as_bytes());
    }
    let bloom = b.finish();
    for i in 0..n {
        let key = format!("term{i}");
        assert!(bloom.contains(key.as_bytes()), "false negative on inserted key {key}");
    }
}

#[test]
fn default_size_is_64kib_1024_blocks() {
    let b = BloomBuilder::new().finish();
    assert_eq!(b.len(), DEFAULT_BLOOM_BYTES);
    assert_eq!(b.n_blocks(), DEFAULT_N_BLOCKS);
    assert_eq!(b.n_blocks(), 1024);
    assert!(!b.is_empty());
    assert_eq!(BloomBuilder::new().n_blocks(), 1024);
}

#[test]
fn custom_size_round_trips_through_builder() {
    for n_blocks in [1usize, 2, 4, 8, 256, 4096] {
        let b = BloomBuilder::with_n_blocks(n_blocks).finish();
        assert_eq!(b.n_blocks(), n_blocks);
        assert_eq!(b.len(), n_blocks * BLOCK_BYTES);
    }
}

#[test]
fn to_bytes_from_bytes_round_trip_preserves_membership() {
    let keys: &[&[u8]] = &[b"alpha", b"beta", b"gamma", b"delta", b"epsilon"];
    let b1 = build_with(keys);
    let bytes = b1.to_bytes();

    let b2 = Bloom::from_bytes(&bytes).expect("valid bytes");
    assert_eq!(b2.n_blocks(), b1.n_blocks());
    for k in keys {
        assert!(b2.contains(k));
    }
    let probes: &[&[u8]] = &[b"never1", b"never2", b"never3", b"never4"];
    let n_collisions = probes.iter().filter(|p| b2.contains(p)).count();
    assert!(n_collisions < probes.len());
}

#[test]
fn from_bytes_rejects_misaligned_buffer() {
    assert!(Bloom::from_bytes(&[0u8; BLOCK_BYTES + 1]).is_none());
    assert!(Bloom::from_bytes(&[0u8; BLOCK_BYTES * 3]).is_none());
    assert!(Bloom::from_bytes(&[]).is_none());
}

#[test]
fn block_load_is_roughly_uniform() {
    let n_blocks = DEFAULT_N_BLOCKS;
    let mut load = vec![0usize; n_blocks];
    for i in 0..100_000usize {
        let h = xxh3_64(format!("term{i}").as_bytes());
        let (block_idx, _) = block_and_mask(h, (n_blocks - 1) as u32);
        load[block_idx] += 1;
    }
    let max = *load.iter().max().expect("non-empty");
    let mean = load.iter().sum::<usize>() as f64 / n_blocks as f64;
    assert!((max as f64) < 3.0 * mean, "max-block-load {max} more than 3x mean {mean}");
}

#[test]
fn different_keys_rarely_collide_on_same_signature() {
    let mut sigs: HashMap<(usize, [u64; 8]), Vec<String>> = HashMap::new();
    for i in 0..1000usize {
        let key = format!("a-{i}");
        let h = xxh3_64(key.as_bytes());
        let sig = block_and_mask(h, (DEFAULT_N_BLOCKS - 1) as u32);
        sigs.entry(sig).or_default().push(key);
    }
    let collisions = sigs.values().filter(|v| v.len() > 1).count();
    assert!(collisions < 5, "{collisions} signature collisions in 1000 keys");
}

#[test]
fn bloom_debug_format_doesnt_explode() {
    let b = build_with(&[b"x"]);
    let s = format!("{:?}", b);
    assert!(s.contains("Bloom"));
}

#[test]
fn insertion_sets_the_bits_of_the_hash_and_no_others() {
    let h = xxh3_64(b"alpha");
    let (block, mask) = block_and_mask(h, 1023);
    let bytes = build_with(&[b"alpha"]).to_bytes();
    let mut expected = vec![0u8; DEFAULT_BLOOM_BYTES];
    for (w, word) in mask.iter().enumerate() {
        let at = block * BLOCK_BYTES + w * 8;
        expected[at..at + 8].copy_from_slice(&word.to_le_bytes());
    }
    assert_eq!(bytes, expected);
    let set: u32 = mask.iter().map(|w| w.count_ones()).sum();
    assert!((1..=4).contains(&set));
}

#[test]
fn union_of_filters_keeps_all_keys() {
    let a = build_with(&[b"alpha"]).to_bytes();
    let b = build_with(&[b"beta"]).to_bytes();
    let both: Vec<u8> = a.iter().zip(b.iter()).map(|(x, y)| x | y).collect();
    let u = Bloom::from_bytes(&both).expect("same shape");
    assert!(u.contains(b"alpha"));
    assert!(u.contains(b"beta"));
    assert_eq!(both, build_with(&[b"alpha", b"beta"]).to_bytes());
}
