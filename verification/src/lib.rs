//! Verified core of a robust image watermarking library: payload framing,
//! BCH(127,64) error correction over GF(2^7), key-derived pseudo-random
//! sequences, zigzag coefficient selection, tile geometry and block plans.

pub mod backend;
pub mod bch;
pub mod bch_distance;
pub mod bch_laws;
pub mod codewords;
pub mod common;
pub mod frame;
pub mod generator_facts;
pub mod generator_tables;
pub mod gf;
pub mod gf_linear;
pub mod midfreq;
pub mod pgz;
pub mod poly_eval;
pub mod primitives;

pub use midfreq::{combined_prn, generate_prng_sequence, get_mid_freq_positions, BLOCK_SIZE};

use vstd::prelude::*;

verus! {

/// Integer luminance of an RGB pixel, rounded: (299 r + 587 g + 114 b + 500) / 1000.
pub open spec fn luma(r: u8, g: u8, b: u8) -> int {
    (299 * r + 587 * g + 114 * b + 500) / 1000
}

/// Luminance of each pixel of an interleaved RGB buffer.
pub fn rgb_to_y_channel(rgb: &[u8]) -> (y: Vec<u8>)
    requires
        rgb.len() % 3 == 0,
    ensures
        y.len() == rgb.len() / 3,
        forall|i: int| 0 <= i < y.len() ==> #[trigger] y@[i] as int == luma(rgb@[3 * i], rgb@[3 * i + 1], rgb@[3 * i + 2]),
{
    let n = rgb.len() / 3;
    let mut y: Vec<u8> = Vec::new();
    let mut i: usize = 0;
    while i < n
        invariant
            n == rgb.len() / 3,
            rgb.len() % 3 == 0,
            i <= n,
            y.len() == i,
            forall|j: int| 0 <= j < i ==> #[trigger] y@[j] as int == luma(rgb@[3 * j], rgb@[3 * j + 1], rgb@[3 * j + 2]),
        decreases n - i,
    {
        let r = rgb[3 * i] as u32;
        let g = rgb[3 * i + 1] as u32;
        let b = rgb[3 * i + 2] as u32;
        let v = (299 * r + 587 * g + 114 * b + 500) / 1000;
        let v = if v > 255 { 255 } else { v };
        y.push(v as u8);
        i += 1;
    }
    y
}

/// Source index, in a width-wide RGB buffer, of byte k of the cropped
/// new_width-wide buffer.
pub open spec fn crop_source(k: int, width: int, new_width: int) -> int {
    ((k / 3) / new_width * width + (k / 3) % new_width) * 3 + k % 3
}

/// Crops an interleaved RGB image to the largest multiple of BLOCK_SIZE in
/// each dimension, keeping the top-left corner.
pub fn crop_to_multiple(rgb: &[u8], width: u32, height: u32) -> (out: (Vec<u8>, u32, u32))
    requires
        rgb.len() == width * height * 3,
    ensures
        out.1 == width - width % 16,
        out.2 == height - height % 16,
        out.0.len() == out.1 * out.2 * 3,
        forall|k: int| 0 <= k < out.0.len() ==> #[trigger] out.0@[k] == rgb@[crop_source(k, width as int, out.1 as int)],
{
    let new_w = width - width % 16;
    let new_h = height - height % 16;
    let mut out: Vec<u8> = Vec::new();
    let mut y: u32 = 0;
    while y < new_h
        invariant
            rgb.len() == width * height * 3,
            new_w == width - width % 16,
            new_h == height - height % 16,
            y <= new_h,
            out.len() == y * new_w * 3,
            forall|k: int| 0 <= k < out.len() ==> #[trigger] out@[k] == rgb@[crop_source(k, width as int, new_w as int)],
        decreases new_h - y,
    {
        let mut x: u32 = 0;
        while x < new_w
            invariant
                rgb.len() == width * height * 3,
                new_w == width - width % 16,
                new_h == height - height % 16,
                y < new_h,
                x <= new_w,
                out.len() == (y * new_w + x) * 3,
                forall|k: int| 0 <= k < out.len() ==> #[trigger] out@[k] == rgb@[crop_source(k, width as int, new_w as int)],
            decreases new_w - x,
        {
            proof {
                assert((y * width + x) * 3 + 2 < width * height * 3) by (nonlinear_arith)
                    requires y < new_h, new_h <= height, x < new_w, new_w <= width;
            }
            let src = ((y as usize) * (width as usize) + x as usize) * 3;
            let mut c: usize = 0;
            while c < 3
                invariant
                    rgb.len() == width * height * 3,
                    new_w == width - width % 16,
                    y < new_h,
                    x < new_w,
                    src == (y * width + x) * 3,
                    src + 2 < rgb.len(),
                    c <= 3,
                    out.len() == (y * new_w + x) * 3 + c,
                    forall|k: int| 0 <= k < out.len() ==> #[trigger] out@[k] == rgb@[crop_source(k, width as int, new_w as int)],
                decreases 3 - c,
            {
                let ghost k = out.len() as int;
                proof {
                    let p = y * new_w + x;
                    vstd::arithmetic::div_mod::lemma_fundamental_div_mod_converse(k, 3, p as int, c as int);
                    vstd::arithmetic::div_mod::lemma_fundamental_div_mod_converse(p as int, new_w as int, y as int, x as int);
                }
                out.push(rgb[src + c]);
                c += 1;
            }
            x += 1;
        }
        proof {
            assert((y * new_w + new_w) * 3 == (y + 1) * new_w * 3) by (nonlinear_arith);
        }
        y += 1;
    }
    assert(y == new_h);
    assert(out.len() == new_h * new_w * 3);
    (out, new_w, new_h)
}

/// Blocks (by, bx) of the central region: rows start_y..blocks_y - start_y and
/// columns start_x..blocks_x - start_x, with start clamped to half the grid.
pub open spec fn center_block_at(blocks_x: int, blocks_y: int, margin_x: int, margin_y: int, by: int, bx: int) -> bool {
    let start_x = if margin_x < blocks_x / 2 { margin_x } else { blocks_x / 2 };
    let start_y = if margin_y < blocks_y / 2 { margin_y } else { blocks_y / 2 };
    start_y <= by < blocks_y - start_y && start_x <= bx < blocks_x - start_x
}

/// Row-major (by, bx) positions for rows ys and columns xs.
pub open spec fn block_rows(ys: Seq<usize>, xs: Seq<usize>) -> Seq<(usize, usize)>
    decreases ys.len(),
{
    if ys.len() == 0 {
        Seq::empty()
    } else {
        block_rows(ys.drop_last(), xs) + xs.map_values(|x: usize| (ys.last(), x))
    }
}

pub open spec fn index_range(lo: int, hi: int) -> Seq<usize> {
    Seq::new(if hi > lo { (hi - lo) as nat } else { 0 }, |i: int| (lo + i) as usize)
}

/// The blocks of the central region of a blocks_x x blocks_y grid, leaving
/// margin_x / margin_y blocks on each side (at most half the grid), row by row.
pub fn center_blocks_region(blocks_x: usize, blocks_y: usize, margin_x: usize, margin_y: usize) -> (blocks: Vec<(usize, usize)>)
    ensures
        blocks@ == block_rows(
            index_range(
                (if margin_y < blocks_y / 2 { margin_y } else { blocks_y / 2 }) as int,
                blocks_y - (if margin_y < blocks_y / 2 { margin_y } else { blocks_y / 2 }),
            ),
            index_range(
                (if margin_x < blocks_x / 2 { margin_x } else { blocks_x / 2 }) as int,
                blocks_x - (if margin_x < blocks_x / 2 { margin_x } else { blocks_x / 2 }),
            ),
        ),
{
    let start_x = if margin_x < blocks_x / 2 { margin_x } else { blocks_x / 2 };
    let start_y = if margin_y < blocks_y / 2 { margin_y } else { blocks_y / 2 };
    let end_x = blocks_x - start_x;
    let end_y = blocks_y - start_y;
    let ghost xs = index_range(start_x as int, end_x as int);
    let ghost ys = index_range(start_y as int, end_y as int);
    let mut blocks: Vec<(usize, usize)> = Vec::new();
    let mut by = start_y;
    while by < end_y
        invariant
            start_y <= by <= end_y,
            start_y <= end_y,
            start_x <= end_x,
            xs == index_range(start_x as int, end_x as int),
            ys == index_range(start_y as int, end_y as int),
            blocks@ == block_rows(ys.take(by - start_y), xs),
        decreases end_y - by,
    {
        let ghost pre = blocks@;
        let mut bx = start_x;
        while bx < end_x
            invariant
                start_x <= bx <= end_x,
                start_y <= by < end_y,
                xs == index_range(start_x as int, end_x as int),
                blocks@ == pre + xs.take(bx - start_x).map_values(|x: usize| (by, x)),
            decreases end_x - bx,
        {
            blocks.push((by, bx));
            bx += 1;
            assert(blocks@ =~= pre + xs.take(bx - start_x).map_values(|x: usize| (by, x)));
        }
        assert(xs.take(end_x - start_x) =~= xs);
        assert(ys.take(by + 1 - start_y).drop_last() =~= ys.take(by - start_y));
        assert(ys.take(by + 1 - start_y).last() == by);
        by += 1;
    }
    assert(ys.take(end_y - start_y) =~= ys);
    blocks
}

} // verus!
