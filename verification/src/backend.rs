//! Capacity and key-derived block plans of the two embedding backends: the
//! Haar-DWT + DCT backend (frequency_v2) and the direct 8 x 8 DCT backend
//! (jpeg_dct).

use crate::common::{grid_rows, lemma_grid_rows, FrequencyBlock, FrequencySubband, DCT_BLOCK};
use crate::primitives::{chacha_shuffle, sha256, sha256_digest, shuffle_with_seed};
use vstd::prelude::*;
use vstd::string::StringSliceAdditionalSpecFns;

verus! {

pub const FREQUENCY_ALGORITHM: &'static str = "frequency_v2";
pub const JPEG_DCT_ALGORITHM: &'static str = "jpeg_dct";
pub const FREQUENCY_PLAN_LABEL: &'static str = "hidden-watermark-frequency-v2-plan";
pub const JPEG_DCT_PLAN_LABEL: &'static str = "hidden-watermark-jpeg-dct-plan";

/// Payload bits one tile carries in the frequency_v2 backend: one bit per
/// band_count blocks of the LL sub-band.
pub open spec fn frequency_capacity(tile_size: int, band_count: int) -> int {
    if tile_size < 64 || band_count == 0 {
        0
    } else {
        ((tile_size / 2 / 8) * (tile_size / 2 / 8)) / band_count
    }
}

/// Payload bits one tile carries in the jpeg_dct backend: one bit per
/// band_count 8 x 8 blocks of the tile.
pub open spec fn jpeg_dct_capacity(tile_size: int, band_count: int) -> int {
    if tile_size < 8 || band_count == 0 {
        0
    } else {
        ((tile_size / 8) * (tile_size / 8)) / band_count
    }
}

pub fn frequency_tile_capacity_bits(tile_size: u32, band_count: usize) -> (bits: usize)
    requires
        tile_size >= 64 && band_count != 0 ==> (tile_size / 2 / 8) * (tile_size / 2 / 8) <= u32::MAX,
    ensures
        bits == frequency_capacity(tile_size as int, band_count as int),
{
    if tile_size < 64 || band_count == 0 {
        return 0;
    }
    let sub_size = tile_size / 2;
    let blocks_per_subband = (sub_size / DCT_BLOCK) * (sub_size / DCT_BLOCK);
    blocks_per_subband as usize / band_count
}

pub fn jpeg_dct_capacity_bits(tile_size: u32, band_count: usize) -> (bits: usize)
    requires
        tile_size >= 8 && band_count != 0 ==> (tile_size / 8) * (tile_size / 8) <= u32::MAX,
    ensures
        bits == jpeg_dct_capacity(tile_size as int, band_count as int),
{
    if tile_size < DCT_BLOCK || band_count == 0 {
        return 0;
    }
    let blocks_per_axis = tile_size / DCT_BLOCK;
    let total_blocks = (blocks_per_axis * blocks_per_axis) as usize;
    total_blocks / band_count
}

/// Block origins 0, 8, 16, ... of count blocks along an axis.
pub open spec fn block_steps(count: int) -> Seq<u32> {
    Seq::new(count as nat, |i: int| (i * 8) as u32)
}

/// Origins of a count x count grid of 8 x 8 blocks, row by row.
pub open spec fn block_grid(count: int) -> Seq<(u32, u32)> {
    grid_rows(block_steps(count), block_steps(count))
}

/// Builds the grid of block origins, row by row.
fn block_origins(count: u32) -> (positions: Vec<(u32, u32)>)
    requires
        count * 8 <= u32::MAX,
    ensures
        positions@ == block_grid(count as int),
{
    let mut positions: Vec<(u32, u32)> = Vec::new();
    let mut y: u32 = 0;
    while y < count
        invariant
            count * 8 <= u32::MAX,
            y <= count,
            positions@ == grid_rows(block_steps(count as int), block_steps(count as int).take(y as int)),
        decreases count - y,
    {
        let ghost pre = positions@;
        let mut x: u32 = 0;
        while x < count
            invariant
                count * 8 <= u32::MAX,
                x <= count,
                y < count,
                positions@ == pre + block_steps(count as int).take(x as int).map_values(|v: u32| (v, (y * 8) as u32)),
            decreases count - x,
        {
            positions.push((x * DCT_BLOCK, y * DCT_BLOCK));
            x += 1;
            assert(positions@ =~= pre + block_steps(count as int).take(x as int).map_values(|v: u32| (v, (y * 8) as u32)));
        }
        assert(block_steps(count as int).take(count as int) =~= block_steps(count as int));
        assert(block_steps(count as int).take(y + 1).drop_last() =~= block_steps(count as int).take(y as int));
        y += 1;
    }
    assert(block_steps(count as int).take(count as int) =~= block_steps(count as int));
    positions
}

/// p is the origin of an 8 x 8 block of a count x count grid of them.
pub open spec fn in_block_grid(p: (u32, u32), count: int) -> bool {
    &&& p.0 % 8 == 0 && p.0 < 8 * count
    &&& p.1 % 8 == 0 && p.1 < 8 * count
}

proof fn lemma_block_steps(count: int)
    requires
        0 <= count,
        count * 8 <= u32::MAX,
    ensures
        block_steps(count).no_duplicates(),
        forall|v: u32| #[trigger] block_steps(count).contains(v) ==> v % 8 == 0 && v < 8 * count,
{
    let st = block_steps(count);
    assert forall|i: int, j: int| 0 <= i < st.len() && 0 <= j < st.len() && i != j implies st[i] != st[j] by {
        assert(st[i] == i * 8 && st[j] == j * 8);
    }
    assert forall|v: u32| #[trigger] st.contains(v) implies v % 8 == 0 && v < 8 * count by {
        let k = choose|k: int| 0 <= k < st.len() && st[k] == v;
        assert(st[k] == k * 8);
    }
}

/// Any reordering of the whole block grid lists each block of the grid once.
proof fn lemma_permuted_grid(count: int, s: Seq<(u32, u32)>)
    requires
        0 <= count,
        count * 8 <= u32::MAX,
        s.to_multiset() == block_grid(count).to_multiset(),
    ensures
        s.no_duplicates(),
        s.len() == count * count,
        forall|i: int| 0 <= i < s.len() ==> #[trigger] in_block_grid(s[i], count),
{
    broadcast use vstd::seq_lib::group_to_multiset_ensures;

    let g = block_grid(count);
    let st = block_steps(count);
    lemma_block_steps(count);
    lemma_grid_rows(st, st);
    g.lemma_multiset_has_no_duplicates();
    s.lemma_multiset_has_no_duplicates_conv();
    assert(s.len() == s.to_multiset().len());
    assert(g.len() == g.to_multiset().len());
    assert forall|i: int| 0 <= i < s.len() implies #[trigger] in_block_grid(s[i], count) by {
        assert(s.contains(s[i]));
        assert(s.to_multiset().count(s[i]) > 0);
        assert(g.contains(s[i]));
        let k = choose|k: int| 0 <= k < g.len() && g[k] == s[i];
        assert(st.contains(g[k].0));
        assert(st.contains(g[k].1));
    }
}

/// SHA-256 of a label followed by a key: the seed of a block plan.
fn plan_seed(label: &str, key: &str) -> (seed: Vec<u8>)
    ensures
        seed@ == sha256(label.spec_bytes() + key.spec_bytes()),
        seed.len() == 32,
{
    let mut input: Vec<u8> = Vec::new();
    input.extend_from_slice(label.as_bytes());
    input.extend_from_slice(key.as_bytes());
    assert(input@ =~= label.spec_bytes() + key.spec_bytes());
    sha256_digest(input.as_slice())
}

/// The key-derived order of a count x count block grid, cut to needed blocks.
pub open spec fn shuffled_plan(label: Seq<u8>, key: Seq<u8>, count: int, needed: int) -> Seq<(u32, u32)> {
    let s = chacha_shuffle(sha256(label + key), block_grid(count));
    s.take(if needed < s.len() { needed } else { s.len() as int })
}

/// The blocks of the LL sub-band that carry the payload, in key-derived order.
pub fn frequency_block_plan(key: &str, bit_len: usize, tile_size: u32, band_count: usize) -> (plan: Vec<FrequencyBlock>)
    requires
        bit_len * band_count <= usize::MAX,
        (tile_size / 2 / 8) * (tile_size / 2 / 8) <= u32::MAX,
    ensures
        plan@ == shuffled_plan(
            FREQUENCY_PLAN_LABEL.spec_bytes(),
            key.spec_bytes(),
            (tile_size / 2 / 8) as int,
            bit_len * band_count,
        ).map_values(|p: (u32, u32)| FrequencyBlock { subband: FrequencySubband::Ll, x: p.0, y: p.1 }),
        plan.len() == if bit_len * band_count < (tile_size / 2 / 8) * (tile_size / 2 / 8) {
            bit_len * band_count
        } else {
            (tile_size / 2 / 8) * (tile_size / 2 / 8)
        },
        plan@.no_duplicates(),
        forall|i: int| 0 <= i < plan.len() ==> #[trigger] in_block_grid((plan@[i].x, plan@[i].y), (tile_size / 2 / 8) as int),
{
    let sub_size = tile_size / 2;
    let grid = sub_size / DCT_BLOCK;
    let mut positions = block_origins(grid);
    let seed = plan_seed(FREQUENCY_PLAN_LABEL, key);
    shuffle_with_seed(&mut positions, seed.as_slice());
    proof {
        lemma_permuted_grid(grid as int, positions@);
    }
    let needed = bit_len * band_count;
    let keep = if needed < positions.len() { needed } else { positions.len() };
    positions.truncate(keep);
    let mut blocks: Vec<FrequencyBlock> = Vec::new();
    let mut i: usize = 0;
    while i < positions.len()
        invariant
            i <= positions.len(),
            blocks@ == positions@.take(i as int).map_values(|p: (u32, u32)| FrequencyBlock { subband: FrequencySubband::Ll, x: p.0, y: p.1 }),
        decreases positions.len() - i,
    {
        let (x, y) = positions[i];
        blocks.push(FrequencyBlock { subband: FrequencySubband::Ll, x, y });
        i += 1;
        assert(blocks@ =~= positions@.take(i as int).map_values(|p: (u32, u32)| FrequencyBlock { subband: FrequencySubband::Ll, x: p.0, y: p.1 }));
    }
    assert(positions@.take(positions.len() as int) =~= positions@);
    assert forall|i: int, j: int| 0 <= i < blocks.len() && 0 <= j < blocks.len() && i != j implies blocks@[i] != blocks@[j] by {
        assert(positions@[i] != positions@[j]);
    }
    assert forall|i: int| 0 <= i < blocks.len() implies #[trigger] in_block_grid((blocks@[i].x, blocks@[i].y), grid as int) by {
        assert(in_block_grid(positions@[i], grid as int));
    }
    blocks
}

/// The 8 x 8 blocks of a tile that carry the payload, in key-derived order.
pub fn jpeg_dct_block_plan(key: &str, bit_len: usize, tile_size: u32, band_count: usize) -> (plan: Vec<(u32, u32)>)
    requires
        bit_len * band_count <= usize::MAX,
        (tile_size / 8) * (tile_size / 8) <= u32::MAX,
    ensures
        plan@ == shuffled_plan(JPEG_DCT_PLAN_LABEL.spec_bytes(), key.spec_bytes(), (tile_size / 8) as int, bit_len * band_count),
        plan.len() == if bit_len * band_count < (tile_size / 8) * (tile_size / 8) {
            bit_len * band_count
        } else {
            (tile_size / 8) * (tile_size / 8)
        },
        plan@.no_duplicates(),
        forall|i: int| 0 <= i < plan.len() ==> #[trigger] in_block_grid(plan@[i], (tile_size / 8) as int),
{
    let blocks_per_axis = tile_size / DCT_BLOCK;
    let mut positions = block_origins(blocks_per_axis);
    let seed = plan_seed(JPEG_DCT_PLAN_LABEL, key);
    shuffle_with_seed(&mut positions, seed.as_slice());
    proof {
        lemma_permuted_grid(blocks_per_axis as int, positions@);
    }
    let needed = bit_len * band_count;
    let keep = if needed < positions.len() { needed } else { positions.len() };
    positions.truncate(keep);
    assert forall|i: int, j: int| 0 <= i < positions.len() && 0 <= j < positions.len() && i != j implies positions@[i] != positions@[j] by {
    }
    positions
}

} // verus!
