//! What the BCH code promises as a whole: every encoded chunk is a codeword,
//! and decoding what was encoded gives back the data, padded to whole chunks.

use crate::bch::{
    all_chunks_near, all_zero, chunk, codeword_of, data_of, division_step, encode_chunks, generator,
    message_word, near_codeword, nearest_data, reduce, syndrome, syndrome_upto, syndromes, xor_shifted, lemma_codeword_is_near,
};
use crate::generator_facts::{lemma_generator_valid, valid_generator, binary};
use crate::gf::{alpha_pow, gf_mul, lemma_mul_basics, lemma_xor_facts};
use crate::poly_eval::{
    lemma_peval_bound, lemma_peval_scaled_shift, lemma_peval_xor, lemma_power_term, peval, scaled_shift, value_at,
    xor_seq,
};
use vstd::prelude::*;

verus! {

/// A bit string as 0/1 coefficients.
pub open spec fn bits_u8(cw: Seq<bool>) -> Seq<u8> {
    Seq::new(cw.len(), |i: int| if cw[i] { 1u8 } else { 0u8 })
}

/// The syndrome S_s of a word is the value at α^s of its polynomial.
pub proof fn lemma_syndrome_is_value(cw: Seq<bool>, s: int, n: int)
    requires
        s >= 0,
        0 <= n <= cw.len(),
    ensures
        syndrome_upto(cw, s, n) == peval(bits_u8(cw), s, n),
    decreases n,
{
    if n > 0 {
        lemma_syndrome_is_value(cw, s, n - 1);
        lemma_power_term(s, n - 1);
        lemma_mul_basics(alpha_pow(s * (n - 1)), 1);
    }
}

/// One step of long division by the generator keeps the word binary, keeps
/// its values at α^1..α^20, clears degree i and leaves higher degrees alone.
proof fn lemma_division_step(r: Seq<u8>, g: Seq<u8>, i: int)
    requires
        valid_generator(g),
        r.len() == 127,
        binary(r),
        63 <= i < 127,
    ensures
        division_step(r, g, i).len() == 127,
        binary(division_step(r, g, i)),
        forall|s: int| 1 <= s <= 20 ==> #[trigger] value_at(division_step(r, g, i), s) == value_at(r, s),
        division_step(r, g, i)[i] == 0,
        forall|x: int| i < x < 127 ==> #[trigger] division_step(r, g, i)[x] == r[x],
{
    if r[i] != 0 {
        let off = i - 63;
        let sh = scaled_shift(g, 1, off, 127);
        let r2 = xor_shifted(r, g, off);
        assert forall|x: int| 0 <= x < 127 implies #[trigger] r2[x] == xor_seq(r, sh)[x] by {
            lemma_xor_facts(r[x], 0, 0);
            if off <= x < off + 64 {
                lemma_mul_basics(g[x - off], 1);
            }
        }
        assert(r2 =~= xor_seq(r, sh));
        assert forall|x: int| 0 <= x < 127 implies #[trigger] r2[x] <= 1 by {
            if off <= x < off + 64 {
                let (a, b) = (r[x], g[x - off]);
                lemma_xor_facts(a, b, 0);
                lemma_xor_facts(b, a, 0);
            }
        }
        lemma_xor_facts(1, 1, 0);
        assert forall|s: int| 1 <= s <= 20 implies #[trigger] value_at(r2, s) == value_at(r, s) by {
            lemma_peval_scaled_shift(g, 1, s, off, 127);
            lemma_peval_xor(r, sh, s, 127);
            lemma_power_term(s, off);
            lemma_mul_basics(alpha_pow(s * off), 1);
            lemma_mul_basics(alpha_pow(s * off), 0);
            lemma_peval_bound(r, s, 127);
            lemma_xor_facts(value_at(r, s), 0, 0);
        }
    }
}

/// Long division from degree i down clears degrees 63..i, keeps the values at
/// α^1..α^20 and leaves higher degrees alone.
proof fn lemma_reduce(r: Seq<u8>, g: Seq<u8>, i: int)
    requires
        valid_generator(g),
        r.len() == 127,
        binary(r),
        -1 <= i < 127,
    ensures
        reduce(r, g, i).len() == 127,
        binary(reduce(r, g, i)),
        forall|s: int| 1 <= s <= 20 ==> #[trigger] value_at(reduce(r, g, i), s) == value_at(r, s),
        forall|x: int| 63 <= x <= i ==> #[trigger] reduce(r, g, i)[x] == 0,
        forall|x: int| i < x < 127 ==> #[trigger] reduce(r, g, i)[x] == r[x],
    decreases i + 1,
{
    if i >= 63 {
        let r2 = division_step(r, g, i);
        lemma_division_step(r, g, i);
        lemma_reduce(r2, g, i - 1);
    }
}

/// Every chunk of at most 64 data bits encodes to a word with zero syndromes.
pub proof fn lemma_codeword_syndromes_vanish(d: Seq<bool>)
    requires
        d.len() <= 64,
    ensures
        all_zero(syndromes(codeword_of(d, generator()))),
        codeword_of(d, generator()).len() == 127,
{
    let g = generator();
    lemma_generator_valid();
    let m = message_word(d);
    assert forall|x: int| 0 <= x < 127 implies #[trigger] m[x] <= 1 by {}
    lemma_reduce(m, g, 126);
    let rem = reduce(m, g, 126);
    let cw = codeword_of(d, g);
    let b = bits_u8(cw);
    assert forall|x: int| 0 <= x < 127 implies #[trigger] b[x] == xor_seq(m, rem)[x] by {
        lemma_xor_facts(m[x], 0, 0);
        lemma_xor_facts(rem[x], 0, 0);
        if x < 63 {
            assert(m[x] == 0);
        } else {
            assert(rem[x] == 0);
        }
    }
    assert(b =~= xor_seq(m, rem));
    assert forall|i: int| 0 <= i < 20 implies #[trigger] syndromes(cw)[i] == 0 by {
        let s = i + 1;
        lemma_syndrome_is_value(cw, s, 127);
        lemma_peval_xor(m, rem, s, 127);
        assert(value_at(rem, s) == value_at(m, s));
        assert(syndromes(cw)[i] == syndrome_upto(cw, s, 127));
        lemma_xor_facts(value_at(m, s), 0, 0);
    }
}

/// Chunk k of the data, padded with zero bits to 64.
pub open spec fn padded_chunk(d: Seq<bool>, k: int) -> Seq<bool> {
    Seq::new(64, |x: int| 64 * k + x < d.len() && d[64 * k + x])
}

/// The number of chunks of 64 bits that d fills, the last one partly.
pub open spec fn chunk_count(d: Seq<bool>) -> int {
    (d.len() as int + 63) / 64
}

proof fn lemma_encode_chunks_layout(d: Seq<bool>, k: int)
    requires
        0 <= k < chunk_count(d),
    ensures
        encode_chunks(d, generator()).len() == 127 * chunk_count(d),
        chunk(encode_chunks(d, generator()), k) == codeword_of(
            d.subrange(64 * k, if 64 * k + 64 < d.len() { 64 * k + 64 } else { d.len() as int }),
            generator(),
        ),
    decreases d.len(),
{
    let g = generator();
    let c = encode_chunks(d, g);
    let end = if 64 * k + 64 < d.len() { 64 * k + 64 } else { d.len() as int };
    if d.len() <= 64 {
        assert(k == 0);
        assert(d.subrange(0, d.len() as int) =~= d);
        assert(chunk(c, 0) =~= c);
    } else {
        let rest = d.skip(64);
        let head = codeword_of(d.take(64), g);
        assert(chunk_count(rest) == chunk_count(d) - 1);
        if k == 0 {
            lemma_encode_chunks_layout(rest, 0);
            assert(d.subrange(0, 64) =~= d.take(64));
            assert(chunk(c, 0) =~= head);
        } else {
            lemma_encode_chunks_layout(rest, k - 1);
            assert(rest.subrange(64 * (k - 1), end - 64) =~= d.subrange(64 * k, end));
            assert(chunk(c, k) =~= chunk(encode_chunks(rest, g), k - 1));
        }
        if k != 0 {
            lemma_encode_chunks_layout(rest, 0);
        }
    }
}

/// Decoding recovers what was encoded: every chunk of an encoding is a
/// codeword, and the data nearest to chunk k is chunk k of the input,
/// padded with zero bits. With `BchEncoder::decode`'s contract, decoding an
/// encoding of d returns d padded to a whole number of chunks.
pub proof fn lemma_encode_decode_roundtrip(d: Seq<bool>)
    ensures
        encode_chunks(d, generator()).len() == 127 * chunk_count(d),
        all_chunks_near(encode_chunks(d, generator())),
        forall|k: int|
            0 <= k < chunk_count(d) ==> #[trigger] all_zero(syndromes(chunk(encode_chunks(d, generator()), k)))
                && nearest_data(chunk(encode_chunks(d, generator()), k)) == padded_chunk(d, k),
{
    let c = encode_chunks(d, generator());
    assert forall|k: int| 0 <= k < chunk_count(d) implies #[trigger] all_zero(syndromes(chunk(c, k)))
        && nearest_data(chunk(c, k)) == padded_chunk(d, k) && near_codeword(chunk(c, k)) by {
        lemma_encode_chunks_layout(d, k);
        let end = if 64 * k + 64 < d.len() { 64 * k + 64 } else { d.len() as int };
        let dc = d.subrange(64 * k, end);
        lemma_codeword_syndromes_vanish(dc);
        lemma_codeword_is_near(chunk(c, k));
        assert(data_of(codeword_of(dc, generator())) =~= padded_chunk(d, k));
    }
    if d.len() == 0 {
        assert(c.len() == 0);
    } else {
        lemma_encode_chunks_layout(d, 0);
    }
    assert(c.len() / 127 == chunk_count(d));
}

} // verus!
