use hidden_watermark::backend::{
    frequency_block_plan, frequency_tile_capacity_bits, jpeg_dct_block_plan, jpeg_dct_capacity_bits,
};
use hidden_watermark::common::{
    image_fits_tile, tile_size_issue, TileSizeIssue,
    axis_origins, cross_band_pairs, dct_index, grid_search_origins, normalized_key, search_origins,
    BackendChoice, DecodeStatus, FrequencySubband, Rotation, WatermarkPreset, DEFAULT_KEY,
};
use hidden_watermark::{center_blocks_region, crop_to_multiple, rgb_to_y_channel};
use rand::seq::SliceRandom;
use rand::SeedableRng;
use rand_chacha::ChaCha20Rng;
use sha2::{Digest, Sha256};

#[test]
fn axis_origins_step_and_end_flush() {
    assert_eq!(axis_origins(100, 32, 16), vec![0, 16, 32, 48, 64, 68]);
    assert_eq!(axis_origins(64, 32, 32), vec![0, 32]);
    assert_eq!(axis_origins(32, 32, 8), vec![0]);
    assert_eq!(axis_origins(40, 32, 100), vec![0, 8]);
}

#[test]
fn grid_and_search_origins_are_row_major() {
    assert_eq!(
        grid_search_origins(48, 40, 32, 16),
        vec![(0, 0), (16, 0), (0, 8), (16, 8)]
    );
    // Step is a quarter tile, at least 8.
    assert_eq!(search_origins(40, 32, 32), vec![(0, 0), (8, 0)]);
    assert_eq!(search_origins(256, 128, 128).len(), 5);
}

#[test]
fn cross_band_pairs_take_a_prefix() {
    assert!(cross_band_pairs(0).is_empty());
    assert_eq!(cross_band_pairs(2), vec![(1, 0, 0, 1), (2, 1, 1, 2)]);
    assert_eq!(cross_band_pairs(9).len(), 3);
}

#[test]
fn key_normalization_and_small_helpers() {
    assert_eq!(normalized_key(&None), DEFAULT_KEY);
    assert_eq!(normalized_key(&Some(String::new())), DEFAULT_KEY);
    assert_eq!(normalized_key(&Some("k1".to_string())), "k1");
    assert_eq!(dct_index(3, 2), 19);
    assert_eq!(Rotation::Deg270.degrees(), 270);
    assert_eq!(Rotation::Deg0.degrees(), 0);
    assert_eq!(BackendChoice::default(), BackendChoice::Auto);
    assert_eq!(WatermarkPreset::default(), WatermarkPreset::Invisible);
    assert_eq!(DecodeStatus::default(), DecodeStatus::NoWatermark);
}

#[test]
fn tile_capacities() {
    assert_eq!(frequency_tile_capacity_bits(256, 1), 256);
    assert_eq!(frequency_tile_capacity_bits(256, 3), 85);
    assert_eq!(frequency_tile_capacity_bits(32, 1), 0);
    assert_eq!(jpeg_dct_capacity_bits(256, 2), 512);
    assert_eq!(jpeg_dct_capacity_bits(4, 1), 0);
    assert_eq!(jpeg_dct_capacity_bits(64, 0), 0);
}

fn expected_plan(label: &[u8], key: &str, grid: u32, needed: usize) -> Vec<(u32, u32)> {
    let mut positions = Vec::new();
    for y in 0..grid {
        for x in 0..grid {
            positions.push((x * 8, y * 8));
        }
    }
    let mut hasher = Sha256::new();
    hasher.update(label);
    hasher.update(key.as_bytes());
    let mut seed = [0u8; 32];
    seed.copy_from_slice(&hasher.finalize());
    positions.shuffle(&mut ChaCha20Rng::from_seed(seed));
    positions.truncate(needed.min(positions.len()));
    positions
}

#[test]
fn block_plans_are_seeded_shuffles() {
    let plan = jpeg_dct_block_plan("plan-key", 10, 64, 2);
    assert_eq!(plan, expected_plan(b"hidden-watermark-jpeg-dct-plan", "plan-key", 8, 20));
    let mut sorted = jpeg_dct_block_plan("plan-key", 100, 64, 1);
    assert_eq!(sorted.len(), 64);
    let unshuffled: Vec<(u32, u32)> = (0..8).flat_map(|y| (0..8).map(move |x| (x * 8, y * 8))).collect();
    assert_ne!(sorted, unshuffled);
    sorted.sort();
    let mut all = unshuffled.clone();
    all.sort();
    assert_eq!(sorted, all);

    let blocks = frequency_block_plan("plan-key", 5, 128, 3);
    let expected = expected_plan(b"hidden-watermark-frequency-v2-plan", "plan-key", 8, 15);
    assert_eq!(blocks.len(), 15);
    for (b, (x, y)) in blocks.iter().zip(expected) {
        assert_eq!(b.subband, FrequencySubband::Ll);
        assert_eq!((b.x, b.y), (x, y));
    }
}

#[test]
fn luma_of_rgb_pixels() {
    let y = rgb_to_y_channel(&[255, 255, 255, 0, 0, 0, 255, 0, 0, 10, 20, 30]);
    assert_eq!(y, vec![255, 0, 76, 18]);
}

#[test]
fn crop_keeps_top_left_multiple_of_block() {
    let (w, h) = (18u32, 17u32);
    let rgb: Vec<u8> = (0..(w * h * 3)).map(|k| (k % 251) as u8).collect();
    let (out, nw, nh) = crop_to_multiple(&rgb, w, h);
    assert_eq!((nw, nh), (16, 16));
    assert_eq!(out.len(), 16 * 16 * 3);
    for y in 0..16usize {
        for x in 0..16usize {
            for c in 0..3usize {
                assert_eq!(out[(y * 16 + x) * 3 + c], rgb[(y * 18 + x) * 3 + c]);
            }
        }
    }
    let (small, sw, sh) = crop_to_multiple(&[1, 2, 3], 1, 1);
    assert!(small.is_empty());
    assert_eq!((sw, sh), (0, 0));
}

#[test]
fn center_region_leaves_margins() {
    let blocks = center_blocks_region(4, 3, 1, 1);
    assert_eq!(blocks, vec![(1, 1), (1, 2)]);
    // Margins are clamped to half the grid.
    assert!(center_blocks_region(4, 4, 9, 9).is_empty());
    assert_eq!(center_blocks_region(2, 1, 0, 0), vec![(0, 0), (0, 1)]);
}

#[test]
fn same_key_gives_the_same_plan() {
    assert_eq!(jpeg_dct_block_plan("k", 12, 128, 3), jpeg_dct_block_plan("k", 12, 128, 3));
    assert_eq!(frequency_block_plan("k", 12, 256, 3), frequency_block_plan("k", 12, 256, 3));
    assert_ne!(jpeg_dct_block_plan("k", 12, 128, 3), jpeg_dct_block_plan("other", 12, 128, 3));
}

#[test]
fn tile_size_rules() {
    assert_eq!(tile_size_issue(32), Some(TileSizeIssue::TooSmall));
    assert_eq!(tile_size_issue(63), Some(TileSizeIssue::TooSmall));
    assert_eq!(tile_size_issue(72), Some(TileSizeIssue::NotMultipleOf16));
    assert_eq!(tile_size_issue(64), None);
    assert_eq!(tile_size_issue(256), None);
    assert!(image_fits_tile(256, 300, 256));
    assert!(!image_fits_tile(255, 300, 256));
    assert!(!image_fits_tile(300, 100, 256));
}
