use hidden_watermark::bch::{poly_mul, BchEncoder, N, T};
use hidden_watermark::gf::Gf2m;

#[test]
fn encode_produces_valid_codeword() {
    let e = BchEncoder::new();
    let mut d = vec![false; 64];
    d[0] = true;
    d[5] = true;
    d[63] = true;
    let c = e.encode(&d);
    assert_eq!(c.len(), 127);
    // Every odd syndrome S_1, S_3, ..., S_19 of a codeword is zero.
    for i in 0..T {
        let ai = e.gf.exp[(2 * i + 1) % N];
        let mut syn: u8 = 0;
        let mut ap = 1u8;
        for j in 0..N {
            if c[j] {
                syn ^= ap;
            }
            ap = e.gf.mul(ap, ai);
        }
        assert_eq!(syn, 0, "S_{} should be 0", 2 * i + 1);
    }
}

#[test]
fn multi_chunk_encode() {
    let e = BchEncoder::new();
    let mut d = vec![false; 128];
    d[0] = true;
    d[64] = true;
    let c = e.encode(&d);
    assert_eq!(c.len(), 254);
}

#[test]
fn encode_decode_roundtrip() {
    let e = BchEncoder::new();
    let mut d = vec![false; 64];
    d[0] = true;
    d[5] = true;
    d[32] = true;
    d[63] = true;
    let c = e.encode(&d);
    let decoded = e.decode(&c).expect("decode should succeed");
    assert_eq!(d, decoded);
}

#[test]
fn corrects_single_bit_error() {
    let e = BchEncoder::new();
    let mut d = vec![false; 64];
    d[0] = true;
    d[63] = true;
    let mut c = e.encode(&d);
    c[42] = !c[42];
    let decoded = e.decode(&c).expect("decode should correct 1 error");
    assert_eq!(d, decoded);
}

#[test]
fn corrects_multiple_errors() {
    let e = BchEncoder::new();
    let mut d = vec![false; 64];
    d[0] = true;
    d[5] = true;
    d[63] = true;
    let mut c = e.encode(&d);
    c[0] = !c[0];
    c[50] = !c[50];
    c[100] = !c[100];
    let decoded = e.decode(&c).expect("decode should correct 3 errors");
    assert_eq!(d, decoded);
}

#[test]
fn corrects_up_to_3_errors() {
    let e = BchEncoder::new();
    let mut d = vec![false; 64];
    d[0] = true;
    d[63] = true;
    let mut c = e.encode(&d);
    c[10] = !c[10];
    c[50] = !c[50];
    c[100] = !c[100];
    let decoded = e.decode(&c).expect("decode should correct 3 errors");
    assert_eq!(d, decoded);
}

#[test]
fn rejects_uncorrectable() {
    let e = BchEncoder::new();
    let mut d = vec![false; 64];
    d[0] = true;
    let mut c = e.encode(&d);
    for i in 0..=T {
        c[i * 10] = !c[i * 10];
    }
    let result = e.decode(&c);
    assert!(result.is_none(), "should fail for >T errors");
}

#[test]
fn multi_chunk_roundtrip() {
    let e = BchEncoder::new();
    let mut d = vec![false; 128];
    d[0] = true;
    d[64] = true;
    d[127] = true;
    let c = e.encode(&d);
    let decoded = e.decode(&c).expect("decode should succeed");
    assert_eq!(d, decoded);
}

#[test]
fn corrects_errors_in_multiple_chunks() {
    let e = BchEncoder::new();
    let mut d = vec![false; 128];
    d[0] = true;
    d[64] = true;
    let mut c = e.encode(&d);
    c[10] = !c[10];
    c[137] = !c[137];
    let decoded = e
        .decode(&c)
        .expect("decode should correct errors in both chunks");
    assert_eq!(d, decoded);
}

#[test]
fn field_tables_match_primitive_polynomial() {
    let e = BchEncoder::new();
    assert_eq!(e.gf.exp[0], 1);
    assert_eq!(e.gf.exp[1], 2);
    assert_eq!(e.gf.exp[7], 3); // x^7 = x + 1
    assert_eq!(e.gf.log[2], 1);
    assert_eq!(e.gf.mul(0, 77), 0);
    assert_eq!(e.gf.mul(1, 77), 77);
    assert_eq!(e.gf.mul(64, 2), 3);
    for a in 1u8..128 {
        assert_eq!(e.gf.mul(a, e.gf.inv(a)), 1);
    }
}

#[test]
fn generator_has_degree_63_and_binary_coefficients() {
    let e = BchEncoder::new();
    assert_eq!(e.gen_poly.len(), 64);
    assert_eq!(e.gen_poly[0], 1);
    assert_eq!(e.gen_poly[63], 1);
    assert!(e.gen_poly.iter().all(|&c| c <= 1));
}

#[test]
fn encoding_is_systematic_and_pads_short_chunks() {
    let e = BchEncoder::new();
    let d = vec![true, false, true];
    let c = e.encode(&d);
    assert_eq!(c.len(), 127);
    assert_eq!(&c[63..66], &[true, false, true]);
    assert!(c[66..].iter().all(|&b| !b));
    let decoded = e.decode(&c).expect("padded chunk decodes");
    assert_eq!(decoded.len(), 64);
    assert_eq!(&decoded[..3], &[true, false, true]);
    assert!(decoded[3..].iter().all(|&b| !b));
}

#[test]
fn zero_data_encodes_to_zero_codeword() {
    let e = BchEncoder::new();
    let c = e.encode(&vec![false; 64]);
    assert!(c.iter().all(|&b| !b));
    assert!(e.encode(&[]).is_empty());
}

#[test]
fn decode_ignores_a_trailing_partial_codeword() {
    let e = BchEncoder::new();
    let c = e.encode(&vec![true; 64]);
    assert_eq!(e.decode(&c[..126]), Some(vec![]));
    let mut longer = c.clone();
    longer.extend_from_slice(&c[..50]);
    assert_eq!(e.decode(&longer), Some(vec![true; 64]));
    assert_eq!(e.decode(&[]), Some(vec![]));
}

#[test]
fn corrects_two_errors_in_every_position_pair_sample() {
    let e = BchEncoder::new();
    let mut d = vec![false; 64];
    for i in (0..64).step_by(3) {
        d[i] = true;
    }
    let c = e.encode(&d);
    for (a, b) in [(0usize, 1usize), (62, 63), (5, 126), (64, 100)] {
        let mut r = c.clone();
        r[a] = !r[a];
        r[b] = !r[b];
        assert_eq!(e.decode(&r), Some(d.clone()));
    }
}

#[test]
fn three_errors_anywhere_are_corrected() {
    let e = BchEncoder::new();
    let d: Vec<bool> = (0..64).map(|i| (i * 7 + 3) % 5 < 2).collect();
    let c = e.encode(&d);
    let mut seed = 12345u32;
    for _ in 0..40 {
        let mut r = c.clone();
        let mut picked: Vec<usize> = Vec::new();
        while picked.len() < 3 {
            seed = seed.wrapping_mul(1103515245).wrapping_add(12345);
            let p = (seed >> 8) as usize % 127;
            if !picked.contains(&p) {
                picked.push(p);
            }
        }
        for &p in &picked {
            r[p] = !r[p];
        }
        assert_eq!(e.decode(&r), Some(d.clone()));
    }
}

fn flip_random(c: &[bool], k: usize, seed: &mut u32) -> Vec<bool> {
    let mut r = c.to_vec();
    let mut picked: Vec<usize> = Vec::new();
    while picked.len() < k {
        *seed = seed.wrapping_mul(1103515245).wrapping_add(12345);
        let p = (*seed >> 8) as usize % 127;
        if !picked.contains(&p) {
            picked.push(p);
        }
    }
    for &p in &picked {
        r[p] = !r[p];
    }
    r
}

#[test]
fn four_to_ten_errors_are_corrected() {
    let e = BchEncoder::new();
    let d: Vec<bool> = (0..64).map(|i| (i * 11 + 1) % 3 == 0).collect();
    let c = e.encode(&d);
    let mut seed = 777u32;
    for k in 4..=T {
        for _ in 0..6 {
            let r = flip_random(&c, k, &mut seed);
            assert_eq!(e.decode(&r), Some(d.clone()), "{k} errors must be corrected");
        }
    }
}

#[test]
fn ten_errors_at_chosen_positions_are_corrected() {
    let e = BchEncoder::new();
    let mut d = vec![false; 64];
    d[0] = true;
    let mut c = e.encode(&d);
    for i in 0..T {
        c[i * 10] = !c[i * 10];
    }
    assert_eq!(e.decode(&c), Some(d.clone()));
    // Ten errors in the first chunk and four in the second of a two-chunk stream.
    let mut d2 = vec![false; 128];
    d2[3] = true;
    d2[100] = true;
    let mut c2 = e.encode(&d2);
    for p in [1usize, 13, 27, 40, 52, 66, 79, 91, 105, 126, 127, 150, 200, 253] {
        c2[p] = !c2[p];
    }
    assert_eq!(e.decode(&c2), Some(d2));
}

#[test]
fn eleven_errors_in_one_chunk_fail_the_whole_stream() {
    let e = BchEncoder::new();
    let d = vec![true; 128];
    let mut c = e.encode(&d);
    for i in 0..=T {
        c[127 + i * 10] = !c[127 + i * 10];
    }
    assert_eq!(e.decode(&c), None);
}

#[test]
fn reencoding_the_decoded_data_gives_the_sent_codeword() {
    let e = BchEncoder::new();
    let d: Vec<bool> = (0..64).map(|i| (i * 13 + 5) % 7 < 3).collect();
    let c = e.encode(&d);
    let mut seed = 4242u32;
    for k in [0usize, 1, 5, 10] {
        let r = flip_random(&c, k, &mut seed);
        let decoded = e.decode(&r).expect("within T errors");
        let reencoded = e.encode(&decoded);
        assert_eq!(reencoded, c);
        let distance = reencoded.iter().zip(r.iter()).filter(|(a, b)| a != b).count();
        assert_eq!(distance, k);
    }
}

#[test]
fn polynomial_multiplication_examples() {
    let gf = Gf2m::new();
    assert_eq!(poly_mul(&vec![1, 1], &vec![1, 1], &gf), vec![1, 0, 1]);
    let a = vec![3u8, 0, 7, 1];
    let b = vec![5u8, 9];
    let ab = poly_mul(&a, &b, &gf);
    assert_eq!(ab.len(), a.len() + b.len() - 1);
    assert_eq!(ab, poly_mul(&b, &a, &gf));
    for k in 0..ab.len() {
        let mut expected = 0u8;
        for i in 0..a.len() {
            if k >= i && k - i < b.len() {
                expected ^= gf.mul(a[i], b[k - i]);
            }
        }
        assert_eq!(ab[k], expected);
    }
}

#[test]
fn single_word_decoding() {
    let e = BchEncoder::new();
    let d: Vec<bool> = (0..64).map(|i| i % 5 == 1).collect();
    let c = e.encode_cw(&d);
    assert_eq!(c.len(), 127);
    assert_eq!(e.decode_cw(&c), Some(d.clone()));
    let mut seed = 99u32;
    for k in [1usize, 3, 6, 10] {
        let r = flip_random(&c, k, &mut seed);
        let x = e.decode_cw(&r).expect("within T errors");
        assert_eq!(x.len(), 64);
        let reencoded = e.encode_cw(&x);
        let distance = reencoded.iter().zip(r.iter()).filter(|(a, b)| a != b).count();
        assert!(distance <= T);
        assert_eq!(x, d);
    }
}

#[test]
fn syndrome_search_reads_only_the_first_word_and_syndromes() {
    let e = BchEncoder::new();
    let d = vec![true; 64];
    let c = e.encode_cw(&d);
    let mut r = c.clone();
    r[5] = !r[5];
    r[77] = !r[77];
    let syn = e.compute_syndromes(&r);
    let mut longer = r.clone();
    longer.extend_from_slice(&[true, false, true]);
    let mut more_syn = syn.clone();
    more_syn.extend_from_slice(&[1, 2, 3]);
    assert_eq!(e.syndrome_decode(&r, &syn), Some(d.clone()));
    assert_eq!(e.syndrome_decode(&longer, &more_syn), Some(d.clone()));
    // Four errors are beyond the direct search.
    let mut r4 = r.clone();
    r4[20] = !r4[20];
    r4[100] = !r4[100];
    assert_eq!(e.syndrome_decode(&r4, &e.compute_syndromes(&r4)), None);
}
