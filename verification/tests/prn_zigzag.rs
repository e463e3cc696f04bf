use hidden_watermark::midfreq::{
    get_zigzag_indices, MID_FREQ_END, MID_FREQ_START,
};
use hidden_watermark::{combined_prn, generate_prng_sequence, get_mid_freq_positions, BLOCK_SIZE};
use sha2::{Digest, Sha256};

#[test]
fn test_prng_deterministic() {
    let seq1 = generate_prng_sequence("test_key", 100);
    let seq2 = generate_prng_sequence("test_key", 100);
    assert_eq!(seq1, seq2);
}

#[test]
fn test_prng_values() {
    let seq = generate_prng_sequence("test123", 20);
    println!("PRN for key test123: {:?}", &seq[..16]);
    let seed = Sha256::digest(b"test_key");
    println!("Seed: {:x?}", seed);
    let mut hasher = Sha256::new();
    hasher.update(seed);
    hasher.update(0u32.to_le_bytes());
    let block_hash = hasher.finalize();
    println!("Block 0 hash: {:x?}", block_hash);
    for (i, chunk) in block_hash.chunks(2).enumerate() {
        if i >= 5 {
            break;
        }
        let val = chunk[0] ^ chunk[1];
        println!("  xor[{}]={} -> {}", i, val, if val >= 128 { 1.0 } else { -1.0 });
    }
    for &v in &seq {
        let v = v as f64;
        assert!(v == 1.0 || v == -1.0);
    }
}

#[test]
fn prn_matches_hash_blocks() {
    let key = "hash-check";
    let seq = generate_prng_sequence(key, 40);
    assert_eq!(seq.len(), 40);
    let seed = Sha256::digest(key.as_bytes());
    for block in 0u32..3 {
        let mut hasher = Sha256::new();
        hasher.update(seed);
        hasher.update(block.to_le_bytes());
        let h = hasher.finalize();
        for t in 0..16usize {
            let idx = block as usize * 16 + t;
            if idx >= 40 {
                break;
            }
            let expected = if h[2 * t] ^ h[2 * t + 1] >= 128 { 1 } else { -1 };
            assert_eq!(seq[idx], expected);
        }
    }
}

#[test]
fn prn_prefix_property() {
    let long = generate_prng_sequence("prefix", 50);
    let short = generate_prng_sequence("prefix", 17);
    assert_eq!(&long[..17], &short[..]);
    assert!(generate_prng_sequence("prefix", 0).is_empty());
    assert_ne!(generate_prng_sequence("other", 50), long);
}

#[test]
fn test_zigzag_indices() {
    let indices = get_zigzag_indices(8);
    assert_eq!(indices.len(), 64);
    assert_eq!(indices[0], (0, 0));
    assert_eq!(indices[1], (0, 1));
    assert_eq!(indices[2], (1, 0));
}

#[test]
fn test_mid_freq_positions() {
    let positions = get_mid_freq_positions();
    assert_eq!(positions.len(), MID_FREQ_END - MID_FREQ_START);
}

#[test]
fn zigzag_is_a_permutation_in_diagonal_order() {
    for n in [1usize, 2, 3, 8, 16] {
        let z = get_zigzag_indices(n);
        assert_eq!(z.len(), n * n);
        let mut seen = vec![false; n * n];
        for &(r, c) in &z {
            assert!(r < n && c < n);
            assert!(!seen[r * n + c]);
            seen[r * n + c] = true;
        }
        for w in z.windows(2) {
            assert!(w[0].0 + w[0].1 <= w[1].0 + w[1].1);
        }
    }
    assert_eq!(get_zigzag_indices(3), vec![(0, 0), (0, 1), (1, 0), (2, 0), (1, 1), (0, 2), (1, 2), (2, 1), (2, 2)]);
}

#[test]
fn mid_freq_positions_are_zigzag_8_to_24() {
    let positions = get_mid_freq_positions();
    let z = get_zigzag_indices(BLOCK_SIZE);
    assert_eq!(positions, z[8..24].to_vec());
    assert_eq!(positions[0], (2, 1));
}

#[test]
fn combined_prn_sums_cross_neighbours() {
    // 3 x 3 blocks, band length 2.
    let prn: Vec<i8> = (0..18).map(|k| if k % 3 == 0 { 1 } else { -1 }).collect();
    let at = |by: usize, bx: usize, i: usize| prn[by * 3 * 2 + bx * 2 + i] as i32;
    // Centre block: own + four neighbours.
    assert_eq!(combined_prn(&prn, 3, 3, 2, 1, 1, 0), at(1, 1, 0) + at(1, 0, 0) + at(0, 1, 0) + at(1, 2, 0) + at(2, 1, 0));
    // Corner block: own + right + bottom.
    assert_eq!(combined_prn(&prn, 3, 3, 2, 0, 0, 1), at(0, 0, 1) + at(0, 1, 1) + at(1, 0, 1));
    assert_eq!(combined_prn(&[1, 1, 1, 1], 2, 2, 1, 1, 1, 0), 3);
}
