//! Few errors are corrected exactly: no nonzero word with all of
//! S_1..S_20 zero is supported on fewer than 20 positions, so two error
//! patterns of together at most 20 positions that explain the same
//! syndromes are the same pattern, and decoding a codeword with at most
//! T inverted bits gives back its data.

use crate::bch::{
    all_zero, codeword_of, data_of, decodes_to, generator, error_positions, error_syndrome, explains, flip_all, lemma_linear_product_len,
    lemma_syndrome_flip_all, linear_product, syndrome, syndrome_upto, syndromes, correctable, T,
};
use crate::bch_laws::{bits_u8, lemma_codeword_syndromes_vanish, lemma_syndrome_is_value, padded_chunk};
use crate::gf::{
    alpha_pow, gf_mul, lemma_alpha_pow, lemma_alpha_pow_injective, lemma_alpha_pow_zero, lemma_mul_basics, lemma_mul_distrib,
    lemma_xor_facts,
};
use crate::poly_eval::{
    lemma_linear_product_elems, lemma_linear_product_root, lemma_peval_bound, lemma_peval_scaled_shift,
    lemma_peval_xor, lemma_power_term, lemma_xor_swap, lemma_value_mul_linear, lemma_value_trim, peval, scaled_shift, value_at,
    xor_seq,
};
use crate::bch::mul_linear;
use vstd::prelude::*;

verus! {

/// The word with ones exactly at the positions e.
pub open spec fn indicator(e: Seq<int>) -> Seq<bool> {
    Seq::new(127, |x: int| e.contains(x))
}

/// Bitwise sum of two words.
pub open spec fn xor_words(a: Seq<bool>, b: Seq<bool>) -> Seq<bool> {
    Seq::new(127, |x: int| a[x] != b[x])
}

/// Inverting the bits at distinct positions adds their indicator.
pub(crate) proof fn lemma_flip_all_indicator(cw: Seq<bool>, e: Seq<int>)
    requires
        cw.len() == 127,
        error_positions(e),
    ensures
        flip_all(cw, e) == xor_words(cw, indicator(e)),
    decreases e.len(),
{
    if e.len() == 0 {
        assert(flip_all(cw, e) =~= xor_words(cw, indicator(e)));
    } else {
        let d = e.drop_last();
        let last = e.last();
        assert(error_positions(d));
        lemma_flip_all_indicator(cw, d);
        let c = flip_all(cw, d);
        assert forall|x: int| 0 <= x < 127 implies #[trigger] flip_all(cw, e)[x] == xor_words(cw, indicator(e))[x] by {
            if x == last {
                assert(e[e.len() - 1] == last);
                if d.contains(last) {
                    let k = choose|k: int| 0 <= k < d.len() && d[k] == last;
                    assert(e[k] == last);
                }
            } else {
                if e.contains(x) {
                    let k = choose|k: int| 0 <= k < e.len() && e[k] == x;
                    assert(d[k] == x);
                }
                if d.contains(x) {
                    let k = choose|k: int| 0 <= k < d.len() && d[k] == x;
                    assert(e[k] == x);
                }
            }
        }
        assert(flip_all(cw, e) =~= xor_words(cw, indicator(e)));
    }
}

/// Syndromes are additive over words.
pub(crate) proof fn lemma_syndrome_xor(a: Seq<bool>, b: Seq<bool>, s: int)
    requires
        a.len() == 127,
        b.len() == 127,
        s >= 0,
    ensures
        syndrome(xor_words(a, b), s) == syndrome(a, s) ^ syndrome(b, s),
{
    let u = xor_words(a, b);
    let (pa, pb) = (bits_u8(a), bits_u8(b));
    assert forall|x: int| 0 <= x < 127 implies #[trigger] bits_u8(u)[x] == xor_seq(pa, pb)[x] by {
        lemma_xor_facts(0, 0, 0);
        lemma_xor_facts(1, 0, 0);
        lemma_xor_facts(1, 1, 0);
        lemma_xor_facts(0, 1, 0);
    }
    assert(bits_u8(u) =~= xor_seq(pa, pb));
    lemma_syndrome_is_value(u, s, 127);
    lemma_syndrome_is_value(a, s, 127);
    lemma_syndrome_is_value(b, s, 127);
    lemma_peval_xor(pa, pb, s, 127);
}

pub(crate) proof fn lemma_syndrome_bound(cw: Seq<bool>, s: int, n: int)
    requires
        s >= 0,
        0 <= n <= cw.len(),
    ensures
        syndrome_upto(cw, s, n) < 128,
    decreases n,
{
    if n > 0 {
        lemma_syndrome_bound(cw, s, n - 1);
        lemma_power_term(s, n - 1);
        let t = if cw[n - 1] { alpha_pow(s * (n - 1)) } else { 0u8 };
        lemma_xor_facts(syndrome_upto(cw, s, n - 1), t, 0);
    }
}

pub(crate) proof fn lemma_zero_word_syndrome(s: int, n: int)
    requires
        0 <= n <= 127,
    ensures
        syndrome_upto(Seq::new(127, |x: int| false), s, n) == 0,
    decreases n,
{
    if n > 0 {
        lemma_zero_word_syndrome(s, n - 1);
        lemma_xor_facts(0, 0, 0);
    }
}

/// Σ over the set positions x < n of u of p(α^x), p summed to degree m.
pub open spec fn word_sum(u: Seq<bool>, p: Seq<u8>, m: int, n: int) -> u8
    decreases n,
{
    if n <= 0 {
        0
    } else {
        word_sum(u, p, m, n - 1) ^ (if u[n - 1] {
            peval(p, n - 1, m)
        } else {
            0u8
        })
    }
}

/// Σ over the set positions x < n of u of p[m] α^(x m).
spec fn term_sum(u: Seq<bool>, p: Seq<u8>, m: int, n: int) -> u8
    decreases n,
{
    if n <= 0 {
        0
    } else {
        term_sum(u, p, m, n - 1) ^ (if u[n - 1] {
            gf_mul(p[m], alpha_pow((n - 1) * m))
        } else {
            0u8
        })
    }
}

/// Σ over s < m of p[s] S_s(u), the syndromes summed over the first n positions.
pub open spec fn syndrome_sum(u: Seq<bool>, p: Seq<u8>, m: int, n: int) -> u8
    decreases m,
{
    if m <= 0 {
        0
    } else {
        syndrome_sum(u, p, m - 1, n) ^ gf_mul(p[m - 1], syndrome_upto(u, m - 1, n))
    }
}

proof fn lemma_term_sum(u: Seq<bool>, p: Seq<u8>, m: int, n: int)
    requires
        0 <= m < p.len(),
        p[m] < 128,
        0 <= n <= u.len(),
    ensures
        term_sum(u, p, m, n) == gf_mul(p[m], syndrome_upto(u, m, n)),
    decreases n,
{
    if n == 0 {
        lemma_mul_basics(p[m], 0);
    } else {
        lemma_term_sum(u, p, m, n - 1);
        lemma_syndrome_bound(u, m, n - 1);
        lemma_power_term(m, n - 1);
        assert((n - 1) * m == m * (n - 1)) by (nonlinear_arith);
        let a = alpha_pow(m * (n - 1));
        let t = if u[n - 1] { a } else { 0u8 };
        lemma_mul_distrib(p[m], syndrome_upto(u, m, n - 1), t);
        lemma_mul_basics(p[m], 0);
    }
}

proof fn lemma_word_sum_step(u: Seq<bool>, p: Seq<u8>, m: int, n: int)
    requires
        0 <= m < p.len(),
        forall|i: int| 0 <= i < p.len() ==> #[trigger] p[i] < 128,
        0 <= n <= u.len(),
    ensures
        word_sum(u, p, m + 1, n) == word_sum(u, p, m, n) ^ term_sum(u, p, m, n),
    decreases n,
{
    if n == 0 {
        lemma_xor_facts(0, 0, 0);
    } else {
        lemma_word_sum_step(u, p, m, n - 1);
        let x = n - 1;
        let a = peval(p, x, m);
        let t = gf_mul(p[m], alpha_pow(x * m));
        assert(peval(p, x, m + 1) == a ^ t);
        if u[x] {
            lemma_xor_swap(word_sum(u, p, m, n - 1), term_sum(u, p, m, n - 1), a, t);
        } else {
            lemma_xor_swap(word_sum(u, p, m, n - 1), term_sum(u, p, m, n - 1), 0, 0);
            lemma_xor_facts(0, 0, 0);
        }
    }
}

/// Summing p(α^x) over the set positions of u gives Σ_s p[s] S_s(u).
pub(crate) proof fn lemma_word_sum_syndromes(u: Seq<bool>, p: Seq<u8>, m: int)
    requires
        0 <= m <= p.len(),
        forall|i: int| 0 <= i < p.len() ==> #[trigger] p[i] < 128,
        u.len() == 127,
    ensures
        word_sum(u, p, m, 127) == syndrome_sum(u, p, m, 127),
    decreases m,
{
    if m == 0 {
        assert forall|n: int| 0 <= n <= 127 implies #[trigger] word_sum(u, p, 0, n) == 0 by {
            lemma_word_sum_zero(u, p, n);
        }
    } else {
        lemma_word_sum_syndromes(u, p, m - 1);
        lemma_word_sum_step(u, p, m - 1, 127);
        lemma_term_sum(u, p, m - 1, 127);
    }
}

proof fn lemma_word_sum_zero(u: Seq<bool>, p: Seq<u8>, n: int)
    requires
        0 <= n,
    ensures
        word_sum(u, p, 0, n) == 0,
    decreases n,
{
    if n > 0 {
        lemma_word_sum_zero(u, p, n - 1);
        lemma_xor_facts(0, 0, 0);
    }
}

/// When p(α^x) vanishes at every set position x but m, the sum is p(α^m).
proof fn lemma_word_sum_single(u: Seq<bool>, p: Seq<u8>, mpos: int, n: int)
    requires
        0 <= n <= u.len(),
        forall|x: int| 0 <= x < n && u[x] && x != mpos ==> #[trigger] value_at(p, x) == 0,
    ensures
        word_sum(u, p, p.len() as int, n) == (if 0 <= mpos < n && u[mpos] {
            value_at(p, mpos)
        } else {
            0u8
        }),
    decreases n,
{
    if n > 0 {
        lemma_word_sum_single(u, p, mpos, n - 1);
        let prev = word_sum(u, p, p.len() as int, n - 1);
        lemma_xor_facts(prev, 0, 0);
        if u[n - 1] && n - 1 != mpos {
            assert(value_at(p, n - 1) == 0);
        }
        lemma_xor_facts(value_at(p, mpos), 0, 0);
    }
}

/// A product of factors x + α^c is nonzero at α^e when no factor vanishes there.
pub(crate) proof fn lemma_linear_product_nonzero(roots: Seq<usize>, n: int, e: int)
    requires
        0 <= n <= roots.len(),
        e >= 0,
        forall|i: int| 0 <= i < n ==> alpha_pow(#[trigger] roots[i] as int) != alpha_pow(e),
    ensures
        value_at(linear_product(roots, n), e) != 0,
    decreases n,
{
    if n == 0 {
        lemma_alpha_pow_zero();
        assert(e * 0 == 0);
        assert(linear_product(roots, 0) == seq![1u8]);
        lemma_mul_basics(1, 1);
        lemma_xor_facts(1, 0, 0);
        let one = seq![1u8];
        assert(peval(one, e, 0) == 0);
        assert(one[0] == 1);
        assert(peval(one, e, 1) == 0u8 ^ gf_mul(1, alpha_pow(e * 0)));
    } else {
        lemma_linear_product_nonzero(roots, n - 1, e);
        let prev = linear_product(roots, n - 1);
        let r = alpha_pow(roots[n - 1] as int);
        lemma_linear_product_elems(roots, n - 1);
        lemma_alpha_pow(roots[n - 1] as int);
        lemma_alpha_pow(e);
        lemma_value_mul_linear(prev, r, e);
        lemma_value_trim(mul_linear(prev, r), e);
        lemma_peval_bound(prev, e, prev.len() as int);
        lemma_xor_facts(alpha_pow(e), r, 0);
        lemma_mul_basics(alpha_pow(e) ^ r, value_at(prev, e));
    }
}

proof fn lemma_syndrome_sum_zero(u: Seq<bool>, p: Seq<u8>, m: int)
    requires
        0 <= m <= p.len(),
        m <= 21,
        p.len() >= 1,
        p[0] == 0,
        u.len() == 127,
        all_zero(syndromes(u)),
    ensures
        syndrome_sum(u, p, m, 127) == 0,
    decreases m,
{
    if m > 0 {
        lemma_syndrome_sum_zero(u, p, m - 1);
        if m - 1 > 0 {
            assert(syndromes(u)[m - 2] == 0);
        }
        lemma_xor_facts(0, 0, 0);
    }
}

/// Filtering out an element that occurs shortens a sequence.
proof fn lemma_filter_drops(s: Seq<int>, p: spec_fn(int) -> bool, x: int)
    requires
        s.contains(x),
        !p(x),
    ensures
        s.filter(p).len() < s.len(),
    decreases s.len(),
{
    let d = s.drop_last();
    assert(d.push(s.last()) =~= s);
    d.lemma_filter_len_push(p, s.last());
    d.lemma_filter_len(p);
    if s.last() != x {
        let i = choose|i: int| 0 <= i < s.len() && s[i] == x;
        assert(i < s.len() - 1);
        assert(d[i] == x);
        lemma_filter_drops(d, p, x);
    }
}

/// A word with zero syndromes S_1..S_20 whose set positions lie among at most
/// 20 candidates has no set position.
pub proof fn lemma_zero_syndromes_sparse_word(u: Seq<bool>, cand: Seq<int>)
    requires
        u.len() == 127,
        all_zero(syndromes(u)),
        cand.len() <= 20,
        forall|i: int| 0 <= i < cand.len() ==> 0 <= #[trigger] cand[i] < 127,
        forall|x: int| 0 <= x < 127 && #[trigger] u[x] ==> cand.contains(x),
    ensures
        forall|x: int| 0 <= x < 127 ==> !#[trigger] u[x],
{
    broadcast use vstd::seq_lib::group_filter_ensures;

    assert forall|mpos: int| 0 <= mpos < 127 implies !#[trigger] u[mpos] by {
        if u[mpos] {
            let pred = |c: int| c != mpos;
            let rest = cand.filter(pred);
            assert(cand.contains(mpos));
            lemma_filter_drops(cand, pred, mpos);
            let roots = rest.map_values(|c: int| c as usize);
            let k = roots.len() as int;
            assert forall|i: int| 0 <= i < rest.len() implies 0 <= #[trigger] rest[i] < 127 && rest[i] != mpos by {
                assert(rest.contains(rest[i]));
                cand.lemma_filter_contains_rev(pred, rest[i]);
                let j = choose|j: int| 0 <= j < cand.len() && cand[j] == rest[i];
                assert(pred(rest[i]));
            }
            let lp = linear_product(roots, k);
            lemma_linear_product_len(roots, k);
            lemma_linear_product_elems(roots, k);
            let l = scaled_shift(lp, 1, 1, lp.len() as int + 1);
            assert forall|i: int| 0 <= i < l.len() implies #[trigger] l[i] < 128 by {
                if 1 <= i < 1 + lp.len() {
                    lemma_mul_basics(1, lp[i - 1]);
                }
            }
            // l(α^x) = α^x lp(α^x).
            assert forall|x: int| 0 <= x < 127 && u[x] && x != mpos implies #[trigger] value_at(l, x) == 0 by {
                assert(cand.contains(x));
                let j = choose|j: int| 0 <= j < cand.len() && cand[j] == x;
                cand.lemma_filter_contains(pred, j);
                let i = choose|i: int| 0 <= i < rest.len() && rest[i] == x;
                assert(roots[i] as int == x);
                lemma_linear_product_root(roots, k, x, i);
                lemma_peval_scaled_shift(lp, 1, x, 1, lp.len() as int + 1);
                lemma_power_term(x, 1);
                lemma_mul_basics(1, alpha_pow(x));
                lemma_mul_basics(alpha_pow(x), 0);
            }
            assert forall|i: int| 0 <= i < k implies alpha_pow(#[trigger] roots[i] as int) != alpha_pow(mpos) by {
                assert(0 <= rest[i] < 127 && rest[i] != mpos);
                if alpha_pow(roots[i] as int) == alpha_pow(mpos) {
                    lemma_alpha_pow_injective(roots[i] as int, mpos);
                }
            }
            lemma_linear_product_nonzero(roots, k, mpos);
            lemma_peval_scaled_shift(lp, 1, mpos, 1, lp.len() as int + 1);
            lemma_power_term(mpos, 1);
            lemma_mul_basics(1, alpha_pow(mpos));
            lemma_peval_bound(lp, mpos, lp.len() as int);
            lemma_mul_basics(alpha_pow(mpos), value_at(lp, mpos));
            lemma_word_sum_single(u, l, mpos, 127);
            lemma_word_sum_syndromes(u, l, l.len() as int);
            lemma_syndrome_sum_zero(u, l, l.len() as int);
            assert(false);
        }
    }
}

/// Two error patterns of together at most 20 positions that explain the
/// same syndromes invert the same bits.
proof fn lemma_same_syndromes_same_pattern(e0: Seq<int>, e1: Seq<int>)
    requires
        error_positions(e0),
        error_positions(e1),
        e0.len() + e1.len() <= 20,
        forall|s: int| 1 <= s <= 20 ==> #[trigger] error_syndrome(e0, s) == error_syndrome(e1, s),
    ensures
        indicator(e0) == indicator(e1),
{
    let z = Seq::new(127, |x: int| false);
    lemma_flip_all_indicator(z, e0);
    lemma_flip_all_indicator(z, e1);
    let w0 = flip_all(z, e0);
    let w1 = flip_all(z, e1);
    assert(w0 =~= indicator(e0));
    assert(w1 =~= indicator(e1));
    let u = xor_words(w0, w1);
    assert forall|i: int| 0 <= i < 20 implies #[trigger] syndromes(u)[i] == 0 by {
        let s = i + 1;
        lemma_syndrome_xor(w0, w1, s);
        lemma_syndrome_flip_all(z, e0, s);
        lemma_syndrome_flip_all(z, e1, s);
        lemma_zero_word_syndrome(s, 127);
        lemma_xor_facts(0, error_syndrome(e0, s), 0);
        lemma_xor_facts(error_syndrome(e0, s), 0, 0);
    }
    let cand = e0 + e1;
    assert forall|x: int| 0 <= x < 127 && #[trigger] u[x] implies cand.contains(x) by {
        if e0.contains(x) {
            let k = choose|k: int| 0 <= k < e0.len() && e0[k] == x;
            assert(cand[k] == x);
        } else {
            assert(e1.contains(x));
            let k = choose|k: int| 0 <= k < e1.len() && e1[k] == x;
            assert(cand[e0.len() + k] == x);
        }
    }
    assert forall|i: int| 0 <= i < cand.len() implies 0 <= #[trigger] cand[i] < 127 by {
        if i < e0.len() {
            assert(cand[i] == e0[i]);
        } else {
            assert(cand[i] == e1[i - e0.len()]);
        }
    }
    lemma_zero_syndromes_sparse_word(u, cand);
    assert forall|x: int| 0 <= x < 127 implies #[trigger] indicator(e0)[x] == indicator(e1)[x] by {
        assert(!u[x]);
    }
    assert(indicator(e0) =~= indicator(e1));
}

/// Whatever decoding returns for a codeword with at most T inverted bits is
/// the codeword's data: any correction within T bits lands back on it.
pub proof fn lemma_decoding_is_unique(c: Seq<bool>, e: Seq<int>, d: Seq<bool>)
    requires
        c.len() == 127,
        all_zero(syndromes(c)),
        error_positions(e),
        e.len() <= T,
        decodes_to(flip_all(c, e), d),
    ensures
        d == data_of(c),
{
    let cw = flip_all(c, e);
    lemma_syndrome_flip_all(c, e, 1);
    let e1 = choose|e1: Seq<int>|
        e1.len() <= T && error_positions(e1) && #[trigger] explains(e1, syndromes(cw)) && d == data_of(
            flip_all(cw, e1),
        );
    assert forall|s: int| 1 <= s <= 20 implies #[trigger] error_syndrome(e, s) == error_syndrome(e1, s) by {
        lemma_syndrome_flip_all(c, e, s);
        assert(syndromes(c)[s - 1] == 0);
        assert(syndromes(cw)[s - 1] == syndrome(cw, s));
        let i = s - 1;
        assert(error_syndrome(e1, i + 1) == syndromes(cw)[i]);
        lemma_xor_facts(error_syndrome(e, s), 0, 0);
    }
    lemma_same_syndromes_same_pattern(e, e1);
    lemma_flip_all_indicator(c, e);
    lemma_flip_all_indicator(cw, e1);
    assert forall|x: int| 0 <= x < 127 implies #[trigger] flip_all(cw, e1)[x] == c[x] by {
        assert(indicator(e)[x] == indicator(e1)[x]);
    }
    assert(flip_all(cw, e1) =~= c);
}

/// Whatever the decoder returns for a word is exact whenever at most T
/// inverted bits account for the word's syndromes: it is the data of the word
/// with those bits inverted back.
pub proof fn lemma_decoded_data_is_exact(cw: Seq<bool>, d: Seq<bool>, e: Seq<int>)
    requires
        cw.len() == 127,
        decodes_to(cw, d),
        error_positions(e),
        e.len() <= T,
        explains(e, syndromes(cw)),
    ensures
        d == data_of(flip_all(cw, e)),
{
    let e1 = choose|e1: Seq<int>|
        e1.len() <= T && error_positions(e1) && #[trigger] explains(e1, syndromes(cw)) && d == data_of(
            flip_all(cw, e1),
        );
    assert forall|s: int| 1 <= s <= 20 implies #[trigger] error_syndrome(e, s) == error_syndrome(e1, s) by {
        let i = s - 1;
        assert(error_syndrome(e, i + 1) == syndromes(cw)[i]);
        assert(error_syndrome(e1, i + 1) == syndromes(cw)[i]);
    }
    lemma_same_syndromes_same_pattern(e, e1);
    lemma_flip_all_indicator(cw, e);
    lemma_flip_all_indicator(cw, e1);
    assert forall|x: int| 0 <= x < 127 implies #[trigger] flip_all(cw, e)[x] == flip_all(cw, e1)[x] by {
        assert(indicator(e)[x] == indicator(e1)[x]);
    }
    assert(flip_all(cw, e) =~= flip_all(cw, e1));
}

/// A codeword with at most T inverted bits is within reach of the
/// decoder, and every decoding of it gives back the codeword's data.
pub proof fn lemma_corrects_up_to_t_errors(c: Seq<bool>, e: Seq<int>)
    requires
        c.len() == 127,
        all_zero(syndromes(c)),
        error_positions(e),
        e.len() <= T,
    ensures
        correctable(flip_all(c, e)),
        forall|d: Seq<bool>| #[trigger] decodes_to(flip_all(c, e), d) ==> d == data_of(c),
{
    let cw = flip_all(c, e);
    lemma_syndrome_flip_all(c, e, 1);
    assert forall|i: int| 0 <= i < 20 implies #[trigger] error_syndrome(e, i + 1) == syndromes(cw)[i] by {
        lemma_syndrome_flip_all(c, e, i + 1);
        assert(syndromes(c)[i] == 0);
        lemma_xor_facts(error_syndrome(e, i + 1), 0, 0);
    }
    assert(explains(e, syndromes(cw)));
    assert forall|d: Seq<bool>| #[trigger] decodes_to(cw, d) implies d == data_of(c) by {
        lemma_decoding_is_unique(c, e, d);
    }
}

/// Up to T bit errors in an encoded chunk are corrected: the decoder
/// reaches the damaged word, and whatever it decodes is the chunk's data,
/// padded to 64 bits.
pub proof fn lemma_chunk_survives_t_errors(d: Seq<bool>, e: Seq<int>)
    requires
        d.len() <= 64,
        error_positions(e),
        e.len() <= T,
    ensures
        correctable(flip_all(codeword_of(d, generator()), e)),
        forall|x: Seq<bool>| #[trigger] decodes_to(flip_all(codeword_of(d, generator()), e), x) ==> x == padded_chunk(d, 0),
{
    let c = codeword_of(d, generator());
    lemma_codeword_syndromes_vanish(d);
    lemma_corrects_up_to_t_errors(c, e);
    assert(data_of(c) =~= padded_chunk(d, 0));
}

} // verus!
