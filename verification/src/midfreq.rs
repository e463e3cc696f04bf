//! Mid-frequency coefficient selection in zigzag order, and the key-derived
//! ±1 pseudo-random sequence with its cross-shaped combination.

use crate::primitives::{sha256, sha256_digest};
use vstd::prelude::*;
use vstd::string::StringSliceAdditionalSpecFns;

verus! {

pub const BLOCK_SIZE: usize = 16;
pub const MID_FREQ_START: usize = 8;
pub const MID_FREQ_END: usize = 24;

/// Smallest row on anti-diagonal s of an n x n block.
pub open spec fn diag_lo(n: int, s: int) -> int {
    if s + 1 > n {
        s + 1 - n
    } else {
        0
    }
}

/// Largest row on anti-diagonal s of an n x n block.
pub open spec fn diag_hi(n: int, s: int) -> int {
    if s < n - 1 {
        s
    } else {
        n - 1
    }
}

/// The (row, col) positions of anti-diagonal s in zigzag order: upward
/// (rows decreasing) on even diagonals, downward on odd ones.
pub open spec fn zigzag_diagonal(n: int, s: int) -> Seq<(usize, usize)> {
    let lo = diag_lo(n, s);
    let hi = diag_hi(n, s);
    Seq::new(
        (hi - lo + 1) as nat,
        |t: int|
            if s % 2 == 0 {
                ((hi - t) as usize, (s - hi + t) as usize)
            } else {
                ((lo + t) as usize, (s - lo - t) as usize)
            },
    )
}

/// The first m anti-diagonals of the zigzag scan, concatenated.
pub open spec fn zigzag_upto(n: int, m: int) -> Seq<(usize, usize)>
    decreases m,
{
    if m <= 0 {
        Seq::empty()
    } else {
        zigzag_upto(n, m - 1) + zigzag_diagonal(n, m - 1)
    }
}

/// The zigzag scan order of an n x n block.
pub open spec fn zigzag(n: int) -> Seq<(usize, usize)> {
    zigzag_upto(n, 2 * n - 1)
}

/// Zigzag scan order of a block_size x block_size block.
pub fn get_zigzag_indices(block_size: usize) -> (indices: Vec<(usize, usize)>)
    requires
        1 <= block_size <= usize::MAX / 4,
    ensures
        indices@ == zigzag(block_size as int),
{
    let n = block_size;
    let mut indices: Vec<(usize, usize)> = Vec::new();
    let mut sum_val: usize = 0;
    while sum_val < 2 * n - 1
        invariant
            1 <= n <= usize::MAX / 4,
            sum_val <= 2 * n - 1,
            indices@ == zigzag_upto(n as int, sum_val as int),
        decreases 2 * n - 1 - sum_val,
    {
        let ghost pre = indices@;
        let ghost s = sum_val as int;
        let lo: usize = if sum_val + 1 > n { sum_val + 1 - n } else { 0 };
        let hi: usize = if sum_val < n - 1 { sum_val } else { n - 1 };
        assert(lo == diag_lo(n as int, s) && hi == diag_hi(n as int, s));
        if sum_val % 2 == 0 {
            let mut row: usize = hi + 1;
            while row > lo
                invariant
                    lo <= row <= hi + 1,
                    hi < n,
                    lo == diag_lo(n as int, s),
                    hi == diag_hi(n as int, s),
                    s % 2 == 0,
                    s == sum_val,
                    sum_val < 2 * n - 1,
                    indices@ == pre + zigzag_diagonal(n as int, s).take(hi + 1 - row),
                decreases row,
            {
                row -= 1;
                let col = sum_val - row;
                if col < n {
                    indices.push((row, col));
                }
                assert(indices@ =~= pre + zigzag_diagonal(n as int, s).take(hi + 1 - row));
            }
        } else {
            let mut row: usize = lo;
            while row <= hi
                invariant
                    lo <= row <= hi + 1,
                    hi < n,
                    lo == diag_lo(n as int, s),
                    hi == diag_hi(n as int, s),
                    s % 2 == 1,
                    s == sum_val,
                    sum_val < 2 * n - 1,
                    indices@ == pre + zigzag_diagonal(n as int, s).take(row - lo),
                decreases hi + 1 - row,
            {
                let col = sum_val - row;
                if col < n {
                    indices.push((row, col));
                }
                row += 1;
                assert(indices@ =~= pre + zigzag_diagonal(n as int, s).take(row - lo));
            }
        }
        assert(zigzag_diagonal(n as int, s).take(hi + 1 - lo) =~= zigzag_diagonal(n as int, s));
        sum_val += 1;
    }
    indices
}

/// The zigzag positions MID_FREQ_START..MID_FREQ_END of a BLOCK_SIZE block.
pub fn get_mid_freq_positions() -> (positions: Vec<(usize, usize)>)
    ensures
        positions@ == zigzag(16).subrange(8, 24),
{
    let order = get_zigzag_indices(BLOCK_SIZE);
    proof {
        lemma_zigzag_len(16);
    }
    let mut positions: Vec<(usize, usize)> = Vec::new();
    let mut i: usize = MID_FREQ_START;
    while i < MID_FREQ_END
        invariant
            8 <= i <= 24,
            order@ == zigzag(16),
            order.len() == 256,
            positions@ == zigzag(16).subrange(8, i as int),
        decreases 24 - i,
    {
        positions.push(order[i]);
        i += 1;
        assert(positions@ =~= zigzag(16).subrange(8, i as int));
    }
    positions
}

/// Number of positions on anti-diagonal s.
pub open spec fn diag_len(n: int, s: int) -> int {
    diag_hi(n, s) - diag_lo(n, s) + 1
}

proof fn lemma_zigzag_upto_len(n: int, m: int)
    requires
        n >= 1,
        0 <= m <= 2 * n - 1,
    ensures
        2 * zigzag_upto(n, m).len() == (if m <= n {
            m * (m + 1)
        } else {
            n * (n + 1) + (m - n) * (3 * n - m - 1)
        }),
    decreases m,
{
    if m > 0 {
        lemma_zigzag_upto_len(n, m - 1);
        if m <= n {
            assert(m * (m + 1) == (m - 1) * m + 2 * m) by (nonlinear_arith);
        } else if m == n + 1 {
            assert(n * (n + 1) + (m - n) * (3 * n - m - 1) == n * (n + 1) + 2 * (2 * n - m)) by (nonlinear_arith)
                requires m == n + 1;
            assert((m - 1) * m == n * (n + 1)) by (nonlinear_arith)
                requires m == n + 1;
        } else {
            assert(n * (n + 1) + (m - n) * (3 * n - m - 1) == n * (n + 1) + (m - 1 - n) * (3 * n - (m - 1) - 1) + 2 * (2 * n - m)) by (nonlinear_arith);
        }
    }
}

/// The zigzag scan visits n * n positions.
pub proof fn lemma_zigzag_len(n: int)
    requires
        n >= 1,
    ensures
        zigzag(n).len() == n * n,
{
    let m = 2 * n - 1;
    lemma_zigzag_upto_len(n, m);
    if n == 1 {
        assert(zigzag(n).len() == 1);
        assert(n * n == 1) by (nonlinear_arith)
            requires n == 1;
    } else {
        assert(m > n);
        assert(2 * zigzag(n).len() == n * (n + 1) + (m - n) * (3 * n - m - 1));
        assert(n * (n + 1) + (m - n) * (3 * n - m - 1) == 2 * (n * n)) by (nonlinear_arith)
            requires m == 2 * n - 1;
    }
}

/// (r, c) lies in an n x n block.
pub open spec fn in_block(p: (usize, usize), n: int) -> bool {
    p.0 < n && p.1 < n
}

proof fn lemma_zigzag_diagonal(n: int, s: int)
    requires
        1 <= n <= usize::MAX,
        0 <= s <= 2 * n - 2,
    ensures
        zigzag_diagonal(n, s).no_duplicates(),
        forall|i: int|
            0 <= i < zigzag_diagonal(n, s).len() ==> in_block(#[trigger] zigzag_diagonal(n, s)[i], n)
                && zigzag_diagonal(n, s)[i].0 + zigzag_diagonal(n, s)[i].1 == s,
        forall|r: int, c: int|
            0 <= r < n && 0 <= c < n && r + c == s ==> #[trigger] zigzag_diagonal(n, s).contains((r as usize, c as usize)),
{
    let d = zigzag_diagonal(n, s);
    let lo = diag_lo(n, s);
    let hi = diag_hi(n, s);
    assert forall|i: int, j: int| 0 <= i < d.len() && 0 <= j < d.len() && i != j implies d[i] != d[j] by {}
    assert forall|r: int, c: int| 0 <= r < n && 0 <= c < n && r + c == s implies #[trigger] d.contains(
        (r as usize, c as usize),
    ) by {
        let t = if s % 2 == 0 { hi - r } else { r - lo };
        assert(d[t] == (r as usize, c as usize));
    }
}

proof fn lemma_zigzag_upto(n: int, m: int)
    requires
        1 <= n <= usize::MAX,
        0 <= m <= 2 * n - 1,
    ensures
        zigzag_upto(n, m).no_duplicates(),
        forall|i: int|
            0 <= i < zigzag_upto(n, m).len() ==> in_block(#[trigger] zigzag_upto(n, m)[i], n)
                && zigzag_upto(n, m)[i].0 + zigzag_upto(n, m)[i].1 < m,
        forall|i: int, j: int|
            0 <= i <= j < zigzag_upto(n, m).len() ==> #[trigger] zigzag_upto(n, m)[i].0 + zigzag_upto(n, m)[i].1
                <= #[trigger] zigzag_upto(n, m)[j].0 + zigzag_upto(n, m)[j].1,
        forall|r: int, c: int|
            0 <= r < n && 0 <= c < n && r + c < m ==> #[trigger] zigzag_upto(n, m).contains((r as usize, c as usize)),
    decreases m,
{
    if m > 0 {
        lemma_zigzag_upto(n, m - 1);
        lemma_zigzag_diagonal(n, m - 1);
        let a = zigzag_upto(n, m - 1);
        let d = zigzag_diagonal(n, m - 1);
        let z = zigzag_upto(n, m);
        assert(z == a + d);
        assert forall|i: int, j: int| 0 <= i < a.len() && 0 <= j < d.len() implies a[i] != d[j] by {
            assert(in_block(a[i], n));
            assert(in_block(d[j], n));
        }
        vstd::seq_lib::lemma_no_dup_in_concat(a, d);
        assert forall|i: int| 0 <= i < z.len() implies in_block(#[trigger] z[i], n) && z[i].0 + z[i].1 < m by {
            if i < a.len() {
                assert(z[i] == a[i]);
                assert(in_block(a[i], n));
            } else {
                assert(z[i] == d[i - a.len()]);
                assert(in_block(d[i - a.len()], n));
            }
        }
        assert forall|i: int, j: int| 0 <= i <= j < z.len() implies #[trigger] z[i].0 + z[i].1 <= #[trigger] z[j].0
            + z[j].1 by {
            assert(in_block(z[i], n));
            assert(in_block(z[j], n));
            if j < a.len() {
                assert(z[i] == a[i] && z[j] == a[j]);
                assert(a[i].0 + a[i].1 <= a[j].0 + a[j].1);
            } else if i >= a.len() {
                assert(z[i] == d[i - a.len()] && z[j] == d[j - a.len()]);
                assert(in_block(d[i - a.len()], n));
                assert(in_block(d[j - a.len()], n));
            } else {
                assert(z[i] == a[i] && z[j] == d[j - a.len()]);
                assert(in_block(a[i], n));
                assert(in_block(d[j - a.len()], n));
            }
        }
        assert forall|r: int, c: int| 0 <= r < n && 0 <= c < n && r + c < m implies #[trigger] z.contains(
            (r as usize, c as usize),
        ) by {
            let p = (r as usize, c as usize);
            if r + c < m - 1 {
                assert(a.contains(p));
                let k = choose|k: int| 0 <= k < a.len() && a[k] == p;
                assert(z[k] == p);
            } else {
                assert(d.contains(p));
                let k = choose|k: int| 0 <= k < d.len() && d[k] == p;
                assert(z[a.len() + k] == p);
            }
        }
    }
}

/// The zigzag scan of an n x n block visits every position exactly once,
/// anti-diagonal by anti-diagonal.
pub proof fn lemma_zigzag_permutation(n: int)
    requires
        1 <= n <= usize::MAX,
    ensures
        zigzag(n).len() == n * n,
        zigzag(n).no_duplicates(),
        forall|i: int| 0 <= i < zigzag(n).len() ==> in_block(#[trigger] zigzag(n)[i], n),
        forall|r: int, c: int| 0 <= r < n && 0 <= c < n ==> #[trigger] zigzag(n).contains((r as usize, c as usize)),
        forall|i: int, j: int|
            0 <= i <= j < zigzag(n).len() ==> #[trigger] zigzag(n)[i].0 + zigzag(n)[i].1 <= #[trigger] zigzag(n)[j].0
                + zigzag(n)[j].1,
{
    lemma_zigzag_len(n);
    lemma_zigzag_upto(n, 2 * n - 1);
}

/// q follows p in a zigzag walk: q is a neighbour of p (each coordinate
/// changes by at most one), and along an anti-diagonal the walk goes up
/// (row decreasing) on even diagonals and down on odd ones.
#[verifier::opaque]
pub open spec fn zig_step(p: (usize, usize), q: (usize, usize)) -> bool {
    let (pr, pc, qr, qc) = (p.0 as int, p.1 as int, q.0 as int, q.1 as int);
    &&& -1 <= qr - pr <= 1
    &&& -1 <= qc - pc <= 1
    &&& p != q
    &&& (qr + qc == pr + pc ==> qr == (if (pr + pc) % 2 == 0 {
        pr - 1
    } else {
        pr + 1
    }))
}

/// Last position walked on anti-diagonal s.
#[verifier::opaque]
spec fn diag_end(n: int, s: int) -> (usize, usize) {
    if s % 2 == 0 {
        (diag_lo(n, s) as usize, (s - diag_lo(n, s)) as usize)
    } else {
        (diag_hi(n, s) as usize, (s - diag_hi(n, s)) as usize)
    }
}

/// First position walked on anti-diagonal s.
#[verifier::opaque]
spec fn diag_start(n: int, s: int) -> (usize, usize) {
    if s % 2 == 0 {
        (diag_hi(n, s) as usize, (s - diag_hi(n, s)) as usize)
    } else {
        (diag_lo(n, s) as usize, (s - diag_lo(n, s)) as usize)
    }
}

proof fn lemma_diag_walk(n: int, s: int)
    requires
        1 <= n <= usize::MAX,
        0 <= s <= 2 * n - 2,
    ensures
        zigzag_diagonal(n, s).len() >= 1,
        zigzag_diagonal(n, s)[0] == diag_start(n, s),
        zigzag_diagonal(n, s).last() == diag_end(n, s),
        forall|t: int|
            0 <= t && t + 1 < zigzag_diagonal(n, s).len() ==> zig_step(
                #[trigger] zigzag_diagonal(n, s)[t],
                zigzag_diagonal(n, s)[t + 1],
            ),
{
    reveal(zig_step);
    reveal(diag_start);
    reveal(diag_end);
    let d = zigzag_diagonal(n, s);
    assert forall|t: int| 0 <= t && t + 1 < d.len() implies zig_step(#[trigger] d[t], d[t + 1]) by {}
}

proof fn lemma_diag_boundary(n: int, s: int)
    requires
        1 <= n <= usize::MAX,
        0 <= s < 2 * n - 2,
    ensures
        zig_step(diag_end(n, s), diag_start(n, s + 1)),
{
    reveal(zig_step);
    reveal(diag_start);
    reveal(diag_end);
}

proof fn lemma_zigzag_upto_walk(n: int, m: int)
    requires
        1 <= n <= usize::MAX,
        1 <= m <= 2 * n - 1,
    ensures
        zigzag_upto(n, m).len() >= 1,
        zigzag_upto(n, m)[0] == (0usize, 0usize),
        zigzag_upto(n, m).last() == diag_end(n, m - 1),
        forall|k: int|
            0 <= k && k + 1 < zigzag_upto(n, m).len() ==> zig_step(#[trigger] zigzag_upto(n, m)[k], zigzag_upto(n, m)[k + 1]),
    decreases m,
{
    let d = zigzag_diagonal(n, m - 1);
    let z = zigzag_upto(n, m);
    lemma_diag_walk(n, m - 1);
    if m == 1 {
        assert(zigzag_upto(n, 0) =~= Seq::<(usize, usize)>::empty());
        assert(z =~= d);
        reveal(diag_start);
        assert(d[0] == diag_start(n, 0));
    } else {
        lemma_zigzag_upto_walk(n, m - 1);
        lemma_diag_boundary(n, m - 2);
        let a = zigzag_upto(n, m - 1);
        assert(z == a + d);
        assert forall|k: int| 0 <= k && k + 1 < z.len() implies zig_step(#[trigger] z[k], z[k + 1]) by {
            if k + 1 < a.len() {
                assert(z[k] == a[k] && z[k + 1] == a[k + 1]);
            } else if k + 1 == a.len() {
                assert(z[k] == a.last() && z[k + 1] == d[0]);
            } else {
                assert(z[k] == d[k - a.len()] && z[k + 1] == d[k - a.len() + 1]);
            }
        }
        assert(z[0] == a[0]);
    }
    assert(z.last() == d.last());
}

/// The zigzag scan starts at (0, 0) and each position is a neighbour of the
/// one before; along an anti-diagonal s it goes up (row decreasing) when s is
/// even and down when s is odd.
pub proof fn lemma_zigzag_walk(n: int)
    requires
        1 <= n <= usize::MAX,
    ensures
        zigzag(n)[0] == (0usize, 0usize),
        forall|k: int| 0 <= k && k + 1 < zigzag(n).len() ==> zig_step(#[trigger] zigzag(n)[k], zigzag(n)[k + 1]),
{
    lemma_zigzag_upto_walk(n, 2 * n - 1);
}

/// Little-endian bytes of a block counter.
pub open spec fn le_bytes(x: u32) -> Seq<u8> {
    seq![x as u8, (x >> 8u32) as u8, (x >> 16u32) as u8, (x >> 24u32) as u8]
}

/// Block b of the pseudo-random stream: SHA-256 of the seed and the counter.
pub open spec fn prn_block(seed: Seq<u8>, b: int) -> Seq<u8> {
    sha256(seed + le_bytes(b as u32))
}

/// Element i of the ±1 sequence for a key: +1 when the xor of the two bytes
/// of pair i % 16 of block i / 16 has its top bit set, -1 otherwise.
pub open spec fn prn_value(key: Seq<u8>, i: int) -> i8 {
    let h = prn_block(sha256(key), i / 16);
    let t = i % 16;
    if h[2 * t] ^ h[2 * t + 1] >= 128 {
        1i8
    } else {
        -1i8
    }
}

/// The first n elements of the ±1 sequence for a key.
pub open spec fn prn_sequence(key: Seq<u8>, n: int) -> Seq<i8> {
    Seq::new(n as nat, |i: int| prn_value(key, i))
}

/// The ±1 pseudo-random sequence of the given length derived from a key.
pub fn generate_prng_sequence(key: &str, length: usize) -> (seq: Vec<i8>)
    requires
        length as int <= 16 * (u32::MAX as int),
    ensures
        seq@ == prn_sequence(key.spec_bytes(), length as int),
{
    let seed = sha256_digest(key.as_bytes());
    let ghost kb = key.spec_bytes();
    let mut result: Vec<i8> = Vec::new();
    let mut block_index: u32 = 0;
    let mut generated: usize = 0;
    while generated < length
        invariant
            length as int <= 16 * (u32::MAX as int),
            seed@ == sha256(kb),
            seed.len() == 32,
            generated <= length,
            generated < length ==> generated == 16 * block_index,
            result@ == prn_sequence(kb, generated as int),
        decreases length - generated,
    {
        let mut input: Vec<u8> = Vec::new();
        let mut i: usize = 0;
        while i < seed.len()
            invariant
                i <= seed.len(),
                input@ == seed@.take(i as int),
            decreases seed.len() - i,
        {
            input.push(seed[i]);
            i += 1;
            assert(input@ =~= seed@.take(i as int));
        }
        input.push(block_index as u8);
        input.push((block_index >> 8u32) as u8);
        input.push((block_index >> 16u32) as u8);
        input.push((block_index >> 24u32) as u8);
        assert(input@ =~= seed@ + le_bytes(block_index));
        let block_hash = sha256_digest(input.as_slice());
        let ghost b = block_index as int;
        let mut t: usize = 0;
        while t < 16 && generated < length
            invariant
                t <= 16,
                generated <= length,
                generated == 16 * b + t,
                block_hash@ == prn_block(sha256(kb), b),
                block_hash.len() == 32,
                result@ == prn_sequence(kb, generated as int),
            decreases 16 - t,
        {
            let val = block_hash[2 * t] ^ block_hash[2 * t + 1];
            proof {
                vstd::arithmetic::div_mod::lemma_fundamental_div_mod_converse(generated as int, 16, b, t as int);
            }
            if val >= 128 {
                result.push(1);
            } else {
                result.push(-1);
            }
            generated += 1;
            t += 1;
            assert(result@ =~= prn_sequence(kb, generated as int));
        }
        block_index += 1;
    }
    result
}

/// The sequence for a key does not depend on the length asked for: a
/// shorter sequence is a prefix of a longer one, and every element is ±1.
pub proof fn lemma_prn_prefix(key: Seq<u8>, n: int, m: int)
    requires
        0 <= n <= m,
    ensures
        prn_sequence(key, m).take(n) == prn_sequence(key, n),
        forall|i: int| 0 <= i < m ==> #[trigger] prn_sequence(key, m)[i] == 1 || prn_sequence(key, m)[i] == -1,
{
    assert(prn_sequence(key, m).take(n) =~= prn_sequence(key, n));
}

/// Index of coefficient i of block (by, bx) in the sequence.
pub open spec fn prn_index(blocks_x: int, band_len: int, by: int, bx: int, i: int) -> int {
    by * blocks_x * band_len + bx * band_len + i
}

/// Sum of the block's own element and those of its left, top, right and
/// bottom neighbours that exist.
pub open spec fn cross_sum(prn: Seq<i8>, blocks_x: int, blocks_y: int, band_len: int, by: int, bx: int, i: int) -> int {
    prn[prn_index(blocks_x, band_len, by, bx, i)] as int
        + (if bx > 0 { prn[prn_index(blocks_x, band_len, by, bx - 1, i)] as int } else { 0 })
        + (if by > 0 { prn[prn_index(blocks_x, band_len, by - 1, bx, i)] as int } else { 0 })
        + (if bx + 1 < blocks_x { prn[prn_index(blocks_x, band_len, by, bx + 1, i)] as int } else { 0 })
        + (if by + 1 < blocks_y { prn[prn_index(blocks_x, band_len, by + 1, bx, i)] as int } else { 0 })
}

/// The hash input of block b ends in four bytes whose little-endian value is
/// b, so distinct block numbers below 2^32 hash distinct inputs: element i of
/// the sequence is the sign of pair i % 16 of SHA-256(SHA-256(key) ++ c) for
/// the four bytes c whose little-endian value is i / 16.
pub proof fn lemma_prn_counter(key: Seq<u8>, i: int)
    requires
        0 <= i < 16 * 0x1_0000_0000,
    ensures
        exists|c: Seq<u8>|
            #![trigger sha256(sha256(key) + c)]
            c.len() == 4 && c[0] as int + 256 * (c[1] as int) + 65536 * (c[2] as int) + 16777216 * (c[3] as int) == i / 16
                && prn_value(key, i) == (if sha256(sha256(key) + c)[2 * (i % 16)] ^ sha256(sha256(key) + c)[2 * (i % 16)
                + 1] >= 128 {
                1i8
            } else {
                -1i8
            }),
{
    let b = (i / 16) as u32;
    assert(b as int == i / 16);
    let c = le_bytes(b);
    let (c0, c1, c2, c3) = (b as u8, (b >> 8u32) as u8, (b >> 16u32) as u8, (b >> 24u32) as u8);
    assert((c0 as u64) + 256 * (c1 as u64) + 65536 * (c2 as u64) + 16777216 * (c3 as u64) == b as u64) by (bit_vector)
        requires
            c0 == b as u8,
            c1 == (b >> 8u32) as u8,
            c2 == (b >> 16u32) as u8,
            c3 == (b >> 24u32) as u8,
    ;
    assert(c[0] == c0 && c[1] == c1 && c[2] == c2 && c[3] == c3);
    assert(prn_block(sha256(key), i / 16) == sha256(sha256(key) + c));
}

/// Value of the sequence at block (y, x) of a blocks_x x blocks_y grid, and
/// zero for a position outside the grid.
pub open spec fn grid_value(prn: Seq<i8>, blocks_x: int, blocks_y: int, band_len: int, y: int, x: int, i: int) -> int {
    if 0 <= y < blocks_y && 0 <= x < blocks_x {
        prn[prn_index(blocks_x, band_len, y, x, i)] as int
    } else {
        0
    }
}

/// The cross-shaped sum adds the values of the block and of its four
/// neighbours, each counted exactly when it lies inside the grid.
pub proof fn lemma_cross_sum_grid(
    prn: Seq<i8>,
    blocks_x: int,
    blocks_y: int,
    band_len: int,
    by: int,
    bx: int,
    i: int,
)
    requires
        0 <= by < blocks_y,
        0 <= bx < blocks_x,
    ensures
        cross_sum(prn, blocks_x, blocks_y, band_len, by, bx, i) == grid_value(prn, blocks_x, blocks_y, band_len, by, bx, i)
            + grid_value(prn, blocks_x, blocks_y, band_len, by, bx - 1, i) + grid_value(
            prn,
            blocks_x,
            blocks_y,
            band_len,
            by - 1,
            bx,
            i,
        ) + grid_value(prn, blocks_x, blocks_y, band_len, by, bx + 1, i) + grid_value(
            prn,
            blocks_x,
            blocks_y,
            band_len,
            by + 1,
            bx,
            i,
        ),
{
}

/// Cross-shaped combination of the sequence around block (by, bx).
pub fn combined_prn(
    prn: &[i8],
    blocks_x: usize,
    blocks_y: usize,
    band_len: usize,
    by: usize,
    bx: usize,
    i: usize,
) -> (v: i32)
    requires
        bx < usize::MAX,
        by < usize::MAX,
        by * blocks_x <= usize::MAX,
        prn_index(blocks_x as int, band_len as int, by as int, bx as int, i as int) < prn.len(),
        bx + 1 < blocks_x ==> prn_index(blocks_x as int, band_len as int, by as int, bx + 1, i as int) < prn.len(),
        by + 1 < blocks_y ==> (by + 1) * blocks_x <= usize::MAX && prn_index(
            blocks_x as int,
            band_len as int,
            by + 1,
            bx as int,
            i as int,
        ) < prn.len(),
    ensures
        v as int == cross_sum(prn@, blocks_x as int, blocks_y as int, band_len as int, by as int, bx as int, i as int),
{
    let ghost (xs, bl) = (blocks_x as int, band_len as int);
    proof {
        lemma_prn_index_parts(xs, bl, by as int, bx as int, i as int);
        if bx > 0 {
            lemma_prn_index_parts(xs, bl, by as int, bx - 1, i as int);
            lemma_prn_index_le(xs, bl, by as int, bx - 1, bx as int, i as int);
        }
        if by > 0 {
            lemma_prn_index_parts(xs, bl, by - 1, bx as int, i as int);
            lemma_prn_index_le(xs, bl, by - 1, bx as int, bx as int, i as int);
            assert((by - 1) * xs <= by * xs) by (nonlinear_arith)
                requires by >= 1, xs >= 0;
            assert((by - 1) * xs * bl <= by * xs * bl) by (nonlinear_arith)
                requires (by - 1) * xs <= by * xs, bl >= 0, (by - 1) * xs >= 0;
        }
        if bx + 1 < blocks_x {
            lemma_prn_index_parts(xs, bl, by as int, bx + 1, i as int);
        }
        if by + 1 < blocks_y {
            lemma_prn_index_parts(xs, bl, by + 1, bx as int, i as int);
        }
    }
    let row = by * blocks_x * band_len;
    let own = prn[row + bx * band_len + i] as i32;
    let left = if bx > 0 { prn[row + (bx - 1) * band_len + i] as i32 } else { 0 };
    let top = if by > 0 { prn[(by - 1) * blocks_x * band_len + bx * band_len + i] as i32 } else { 0 };
    let right = if bx + 1 < blocks_x { prn[row + (bx + 1) * band_len + i] as i32 } else { 0 };
    let bottom = if by + 1 < blocks_y { prn[(by + 1) * blocks_x * band_len + bx * band_len + i] as i32 } else { 0 };
    own + left + top + right + bottom
}

/// The parts of an index are nonnegative and add up to it.
proof fn lemma_prn_index_parts(bxs: int, bl: int, y: int, x: int, i: int)
    requires
        0 <= bxs,
        0 <= bl,
        0 <= y,
        0 <= x,
        0 <= i,
    ensures
        0 <= y * bxs,
        0 <= y * bxs * bl,
        0 <= x * bl,
        y * bxs * bl + x * bl + i == prn_index(bxs, bl, y, x, i),
{
    assert(0 <= y * bxs && 0 <= y * bxs * bl && 0 <= x * bl) by (nonlinear_arith)
        requires 0 <= y, 0 <= x, 0 <= bl, 0 <= bxs;
}

/// A block to the left lies earlier in the sequence.
proof fn lemma_prn_index_le(bxs: int, bl: int, y: int, x1: int, x2: int, i: int)
    requires
        0 <= bl,
        0 <= x1 <= x2,
    ensures
        x1 * bl <= x2 * bl,
{
    assert(x1 * bl <= x2 * bl) by (nonlinear_arith)
        requires 0 <= bl, x1 <= x2;
}

} // verus!
