//! The Peterson-Gorenstein-Zierler step for a word with e errors: the e x e
//! Hankel system of syndromes S_(r+c+1) is nonsingular, the coefficients of
//! the error locator Π (x + α^j) solve it, and the reversed locator vanishes
//! at the Chien points of exactly the error positions.

use crate::bch::{
    chien_point, error_positions, error_syndrome, explains, field_elems, field_pow, lemma_linear_product_len,
    lemma_syndrome_flip_all, linear_product, locator_at, mul_linear, syndrome_upto, trim,
};
use crate::bch_distance::{
    indicator, lemma_flip_all_indicator, lemma_linear_product_nonzero, lemma_word_sum_syndromes, lemma_zero_word_syndrome,
    syndrome_sum, word_sum, xor_words,
};
use crate::gf::{
    alpha_pow, gf_mul, lemma_alpha_pow, lemma_alpha_pow_injective, lemma_alpha_pow_zero, lemma_mul_alpha_pow,
    lemma_mul_assoc, lemma_mul_basics, lemma_mul_distrib, lemma_xor_facts,
};
use crate::gf_linear::{dot, nonsingular, solves, square_rows, vec_ok, zeros};
use crate::poly_eval::{
    lemma_linear_product_root, lemma_peval_bound, lemma_peval_scaled_shift, lemma_peval_xor, lemma_peval_zero_tail,
    lemma_value_mul_linear, lemma_xor_swap, peval, scaled_shift, value_at, xor_seq,
};
use vstd::prelude::*;

verus! {

/// Row r of the Hankel matrix of syndromes: S_(r+c+1) in column c.
pub open spec fn hankel_row(syn: Seq<u8>, r: int, n: int) -> Seq<u8> {
    Seq::new(n as nat, |c: int| syn[r + c])
}

/// The v x v Hankel matrix of the syndromes S_1..S_(2v-1).
pub open spec fn hankel(syn: Seq<u8>, v: int) -> Seq<Seq<u8>> {
    Seq::new(v as nat, |r: int| hankel_row(syn, r, v))
}

/// Its right-hand side S_(v+1)..S_(2v).
pub open spec fn hankel_rhs(syn: Seq<u8>, v: int) -> Seq<u8> {
    Seq::new(v as nat, |r: int| syn[v + r])
}

/// Σ_(k < n) p(α^(e_k)), p summed to degree m.
pub open spec fn esum(e: Seq<int>, p: Seq<u8>, m: int, n: int) -> u8
    decreases n,
{
    if n <= 0 {
        0
    } else {
        esum(e, p, m, n - 1) ^ peval(p, e[n - 1], m)
    }
}

/// Σ_(k < n) w_k α^(e_k (r + 1)).
pub open spec fn vsum(e: Seq<int>, w: Seq<u8>, r: int, n: int) -> u8
    decreases n,
{
    if n <= 0 {
        0
    } else {
        vsum(e, w, r, n - 1) ^ gf_mul(w[n - 1], alpha_pow(e[n - 1] * (r + 1)))
    }
}

/// The values of y at the points α^(e_k).
pub open spec fn values_at(e: Seq<int>, y: Seq<u8>) -> Seq<u8> {
    Seq::new(e.len(), |k: int| value_at(y, e[k]))
}

/// Setting one more bit of a word adds p(α^j) to the word sum.
proof fn lemma_word_sum_set(u: Seq<bool>, j: int, p: Seq<u8>, m: int, n: int)
    requires
        0 <= j < u.len(),
        !u[j],
        0 <= n <= u.len(),
    ensures
        word_sum(u.update(j, true), p, m, n) == word_sum(u, p, m, n) ^ (if j < n {
            peval(p, j, m)
        } else {
            0u8
        }),
    decreases n,
{
    let u2 = u.update(j, true);
    if n == 0 {
        lemma_xor_facts(0, 0, 0);
    } else {
        lemma_word_sum_set(u, j, p, m, n - 1);
        let prev = word_sum(u, p, m, n - 1);
        let pj = peval(p, j, m);
        let t = if u[n - 1] { peval(p, n - 1, m) } else { 0u8 };
        let t2 = if u2[n - 1] { peval(p, n - 1, m) } else { 0u8 };
        assert(word_sum(u, p, m, n) == prev ^ t);
        assert(word_sum(u2, p, m, n) == word_sum(u2, p, m, n - 1) ^ t2);
        if n - 1 == j {
            assert(t == 0 && t2 == pj);
            lemma_xor_facts(prev, 0, pj);
        } else if j < n - 1 {
            assert(t2 == t);
            lemma_xor_facts(prev, pj, t);
            lemma_xor_facts(prev, t, pj);
            lemma_xor_facts(pj, t, 0);
        } else {
            assert(t2 == t);
            lemma_xor_facts(prev, 0, t);
            lemma_xor_facts(prev ^ t, 0, 0);
        }
    }
}

/// Over the word with ones at the error positions, the word sum is the sum
/// over the error positions.
proof fn lemma_word_sum_errors(e: Seq<int>, p: Seq<u8>, m: int)
    requires
        error_positions(e),
    ensures
        word_sum(indicator(e), p, m, 127) == esum(e, p, m, e.len() as int),
    decreases e.len(),
{
    if e.len() == 0 {
        let z = indicator(e);
        assert forall|n: int| 0 <= n <= 127 implies #[trigger] word_sum(z, p, m, n) == 0 by {
            lemma_word_sum_zero_word(z, p, m, n);
        }
    } else {
        let d = e.drop_last();
        let j = e.last();
        assert(error_positions(d));
        lemma_word_sum_errors(d, p, m);
        assert(!indicator(d)[j]) by {
            if d.contains(j) {
                let i = choose|i: int| 0 <= i < d.len() && d[i] == j;
                assert(e[i] < e[e.len() - 1]);
            }
        }
        assert(indicator(d).update(j, true) =~= indicator(e)) by {
            assert forall|x: int| 0 <= x < 127 implies #[trigger] indicator(e)[x] == indicator(d).update(j, true)[x] by {
                if x == j {
                    assert(e[e.len() - 1] == j);
                } else {
                    if e.contains(x) {
                        let i = choose|i: int| 0 <= i < e.len() && e[i] == x;
                        assert(i < e.len() - 1);
                        assert(d[i] == x);
                    }
                    if d.contains(x) {
                        let i = choose|i: int| 0 <= i < d.len() && d[i] == x;
                        assert(e[i] == x);
                    }
                }
            }
        }
        lemma_word_sum_set(indicator(d), j, p, m, 127);
        assert(esum(e, p, m, e.len() as int) == esum(d, p, m, d.len() as int) ^ peval(p, j, m)) by {
            lemma_esum_prefix(e, d, p, m, d.len() as int);
        }
    }
}

proof fn lemma_esum_prefix(e: Seq<int>, d: Seq<int>, p: Seq<u8>, m: int, n: int)
    requires
        0 <= n <= d.len(),
        n <= e.len(),
        forall|i: int| 0 <= i < n ==> #[trigger] d[i] == e[i],
    ensures
        esum(e, p, m, n) == esum(d, p, m, n),
    decreases n,
{
    if n > 0 {
        lemma_esum_prefix(e, d, p, m, n - 1);
    }
}

proof fn lemma_word_sum_zero_word(z: Seq<bool>, p: Seq<u8>, m: int, n: int)
    requires
        0 <= n <= z.len(),
        forall|x: int| 0 <= x < z.len() ==> !#[trigger] z[x],
    ensures
        word_sum(z, p, m, n) == 0,
    decreases n,
{
    if n > 0 {
        lemma_word_sum_zero_word(z, p, m, n - 1);
        lemma_xor_facts(0, 0, 0);
    }
}

/// The word with ones at the error positions has the syndromes they explain.
proof fn lemma_indicator_syndromes(e: Seq<int>, syn: Seq<u8>, s: int)
    requires
        error_positions(e),
        explains(e, syn),
        1 <= s <= 20,
    ensures
        syndrome_upto(indicator(e), s, 127) == syn[s - 1],
{
    let z = Seq::new(127, |x: int| false);
    lemma_flip_all_indicator(z, e);
    assert(xor_words(z, indicator(e)) =~= indicator(e));
    lemma_syndrome_flip_all(z, e, s);
    lemma_zero_word_syndrome(s, 127);
    assert(error_syndrome(e, (s - 1) + 1) == syn[s - 1]);
    lemma_xor_facts(error_syndrome(e, s), 0, 0);
}

/// Σ_(s < m) q[s] S_s for q = x^(r+1) y(x) is the partial Hankel row product.
proof fn lemma_shifted_syndrome_sum(u: Seq<bool>, syn: Seq<u8>, y: Seq<u8>, r: int, n: int, m: int)
    requires
        u.len() == 127,
        syn.len() == 20,
        field_elems(syn),
        forall|s: int| 1 <= s <= 20 ==> #[trigger] syndrome_upto(u, s, 127) == syn[s - 1],
        r >= 0,
        n >= 0,
        r + n <= 20,
        y.len() == n,
        field_elems(y),
        0 <= m <= r + 1 + n,
    ensures
        syndrome_sum(u, scaled_shift(y, 1, r + 1, r + 1 + n), m, 127) == (if m <= r + 1 {
            0u8
        } else {
            dot(hankel_row(syn, r, n), y, m - r - 1)
        }),
    decreases m,
{
    let q = scaled_shift(y, 1, r + 1, r + 1 + n);
    if m > 0 {
        lemma_shifted_syndrome_sum(u, syn, y, r, n, m - 1);
        let prev = syndrome_sum(u, q, m - 1, 127);
        let sv = syndrome_upto(u, m - 1, 127);
        if m - 1 <= r {
            assert(q[m - 1] == 0);
            assert(syndrome_sum(u, q, m, 127) == prev ^ gf_mul(q[m - 1], sv));
            lemma_xor_facts(0, 0, 0);
        } else {
            let c = m - r - 2;
            let row = hankel_row(syn, r, n);
            lemma_mul_basics(y[c], 1);
            assert(q[m - 1] == y[c]);
            assert(sv == syn[r + c]);
            assert(row[c] == syn[r + c]);
            lemma_mul_basics(y[c], syn[r + c]);
            assert(syndrome_sum(u, q, m, 127) == prev ^ gf_mul(y[c], syn[r + c]));
            assert(dot(row, y, c + 1) == dot(row, y, c) ^ gf_mul(syn[r + c], y[c]));
            if c == 0 {
                assert(prev == 0);
                assert(dot(row, y, 0) == 0);
            } else {
                assert(prev == dot(row, y, c));
            }
        }
    }
}

/// One term of the exchange: q(α^x) for q = x^(r+1) y(x).
proof fn lemma_esum_shift(e: Seq<int>, y: Seq<u8>, r: int, n: int, k: int)
    requires
        error_positions(e),
        0 <= k <= e.len(),
        r >= 0,
        y.len() == n,
        n >= 0,
        field_elems(y),
    ensures
        esum(e, scaled_shift(y, 1, r + 1, r + 1 + n), r + 1 + n, k) == vsum(e, values_at(e, y), r, k),
    decreases k,
{
    if k > 0 {
        lemma_esum_shift(e, y, r, n, k - 1);
        let x = e[k - 1];
        lemma_peval_scaled_shift(y, 1, x, r + 1, r + 1 + n);
        assert(x * (r + 1) >= 0) by (nonlinear_arith)
            requires x >= 0, r >= 0;
        lemma_alpha_pow(x * (r + 1));
        lemma_mul_basics(alpha_pow(x * (r + 1)), 1);
        lemma_peval_bound(y, x, n);
        lemma_mul_basics(alpha_pow(x * (r + 1)), value_at(y, x));
        assert(values_at(e, y)[k - 1] == value_at(y, x));
    }
}

/// The Hankel row times y is Σ_k y(α^(e_k)) α^(e_k (r+1)) when the errors e
/// explain the syndromes.
pub proof fn lemma_hankel_exchange(e: Seq<int>, syn: Seq<u8>, y: Seq<u8>, r: int)
    requires
        error_positions(e),
        explains(e, syn),
        field_elems(syn),
        r >= 0,
        r + y.len() <= 20,
        field_elems(y),
    ensures
        dot(hankel_row(syn, r, y.len() as int), y, y.len() as int) == vsum(e, values_at(e, y), r, e.len() as int),
{
    let n = y.len() as int;
    let u = indicator(e);
    let q = scaled_shift(y, 1, r + 1, r + 1 + n);
    assert forall|s: int| 1 <= s <= 20 implies #[trigger] syndrome_upto(u, s, 127) == syn[s - 1] by {
        lemma_indicator_syndromes(e, syn, s);
    }
    lemma_peval_scaled_shift(y, 1, 0, r + 1, r + 1 + n);
    lemma_word_sum_syndromes(u, q, r + 1 + n);
    lemma_shifted_syndrome_sum(u, syn, y, r, n, r + 1 + n);
    lemma_word_sum_errors(e, q, r + 1 + n);
    lemma_esum_shift(e, y, r, n, e.len() as int);
}

proof fn lemma_vsum_bound(e: Seq<int>, w: Seq<u8>, r: int, m: int)
    requires
        0 <= m <= w.len(),
        m <= e.len(),
        field_elems(w),
        error_positions(e),
        r >= 0,
    ensures
        vsum(e, w, r, m) < 128,
    decreases m,
{
    if m > 0 {
        lemma_vsum_bound(e, w, r, m - 1);
        let x = e[m - 1];
        assert(x * (r + 1) >= 0) by (nonlinear_arith)
            requires x >= 0, r >= 0;
        lemma_alpha_pow(x * (r + 1));
        lemma_mul_basics(w[m - 1], alpha_pow(x * (r + 1)));
        let t = gf_mul(w[m - 1], alpha_pow(x * (r + 1)));
        lemma_xor_facts(vsum(e, w, r, m - 1), t, 0);
    }
}

proof fn lemma_vsum_zero(e: Seq<int>, w: Seq<u8>, r: int, m: int)
    requires
        0 <= m <= w.len(),
        forall|k: int| 0 <= k < m ==> #[trigger] w[k] == 0,
    ensures
        vsum(e, w, r, m) == 0,
    decreases m,
{
    if m > 0 {
        lemma_vsum_zero(e, w, r, m - 1);
        assert(w[m - 1] == 0);
        lemma_xor_facts(0, 0, 0);
    }
}

/// w_k (α^(e_k) + a) for k < n.
pub open spec fn eliminated(e: Seq<int>, w: Seq<u8>, a: u8, n: int) -> Seq<u8> {
    Seq::new(n as nat, |k: int| gf_mul(w[k], alpha_pow(e[k]) ^ a))
}

/// Σ w'_k α^(e_k (r+1)) = Σ w_k α^(e_k (r+2)) + a Σ w_k α^(e_k (r+1)).
proof fn lemma_vsum_eliminate(e: Seq<int>, w: Seq<u8>, r: int, m: int, n: int, a: u8)
    requires
        0 <= m <= n,
        n <= e.len(),
        n <= w.len(),
        field_elems(w),
        error_positions(e),
        r >= 0,
        a < 128,
    ensures
        vsum(e, eliminated(e, w, a, n), r, m) == vsum(e, w, r + 1, m) ^ gf_mul(a, vsum(e, w, r, m)),
    decreases m,
{
    let w2 = eliminated(e, w, a, n);
    if m == 0 {
        lemma_mul_basics(a, 0);
        lemma_xor_facts(0, 0, 0);
    } else {
        lemma_vsum_eliminate(e, w, r, m - 1, n, a);
        let k = m - 1;
        let x = e[k];
        let ww = w[k];
        let b = alpha_pow(x);
        assert(x * (r + 1) >= 0 && x * (r + 2) == x + x * (r + 1)) by (nonlinear_arith)
            requires x >= 0, r >= 0;
        let c = alpha_pow(x * (r + 1));
        lemma_alpha_pow(x);
        lemma_alpha_pow(x * (r + 1));
        lemma_mul_alpha_pow(x, x * (r + 1));
        let v1 = vsum(e, w, r + 1, k);
        let v0 = vsum(e, w, r, k);
        lemma_vsum_bound(e, w, r, k);
        lemma_vsum_bound(e, w, r + 1, k);
        lemma_mul_distrib(ww, b, a);
        lemma_mul_basics(ww, b);
        lemma_mul_basics(ww, a);
        lemma_mul_basics(ww, c);
        lemma_mul_basics(ww, b ^ a);
        let wb = gf_mul(ww, b);
        let wa = gf_mul(ww, a);
        lemma_mul_basics(wb ^ wa, c);
        lemma_mul_distrib(c, wb, wa);
        lemma_mul_basics(wb, c);
        lemma_mul_basics(wa, c);
        lemma_mul_assoc(ww, b, c);
        lemma_mul_assoc(ww, a, c);
        lemma_mul_assoc(a, ww, c);
        lemma_mul_basics(a, ww);
        let wc = gf_mul(ww, c);
        lemma_mul_distrib(a, v0, wc);
        assert(w2[k] == gf_mul(ww, b ^ a));
        assert(gf_mul(w2[k], c) == gf_mul(ww, alpha_pow(x * (r + 2))) ^ gf_mul(a, wc));
        lemma_xor_swap(v1, gf_mul(a, v0), gf_mul(ww, alpha_pow(x * (r + 2))), gf_mul(a, wc));
    }
}

/// Vandermonde independence: Σ_k w_k α^(e_k (r+1)) = 0 for r < n forces
/// w_0 = ... = w_(n-1) = 0.
pub proof fn lemma_vandermonde(e: Seq<int>, w: Seq<u8>, n: int)
    requires
        error_positions(e),
        0 <= n <= e.len(),
        w.len() >= n,
        field_elems(w),
        forall|r: int| 0 <= r < n ==> #[trigger] vsum(e, w, r, n) == 0,
    ensures
        forall|k: int| 0 <= k < n ==> #[trigger] w[k] == 0,
    decreases n,
{
    if n > 0 {
        let x = e[n - 1];
        let a = alpha_pow(x);
        lemma_alpha_pow(x);
        let w2 = eliminated(e, w, a, n - 1);
        assert forall|k: int| 0 <= k < w2.len() implies #[trigger] w2[k] < 128 by {
            lemma_alpha_pow(e[k]);
            lemma_xor_facts(alpha_pow(e[k]), a, 0);
            lemma_mul_basics(w[k], alpha_pow(e[k]) ^ a);
        }
        assert forall|r: int| 0 <= r < n - 1 implies #[trigger] vsum(e, w2, r, n - 1) == 0 by {
            lemma_vsum_eliminate(e, w, r, n - 1, n - 1, a);
            let ww = w[n - 1];
            assert(x * (r + 1) >= 0 && x * (r + 2) == x + x * (r + 1)) by (nonlinear_arith)
                requires x >= 0, r >= 0;
            let c = alpha_pow(x * (r + 1));
            lemma_alpha_pow(x * (r + 1));
            lemma_mul_alpha_pow(x, x * (r + 1));
            let v1 = vsum(e, w, r + 1, n - 1);
            let v0 = vsum(e, w, r, n - 1);
            assert(vsum(e, w, r + 1, n) == v1 ^ gf_mul(ww, alpha_pow(x * (r + 2))));
            assert(vsum(e, w, r, n) == v0 ^ gf_mul(ww, c));
            lemma_xor_facts(v1, gf_mul(ww, alpha_pow(x * (r + 2))), 0);
            lemma_xor_facts(v0, gf_mul(ww, c), 0);
            lemma_mul_basics(ww, c);
            lemma_mul_basics(a, ww);
            lemma_mul_assoc(ww, a, c);
            lemma_mul_assoc(a, ww, c);
            let t = gf_mul(a, gf_mul(ww, c));
            lemma_xor_facts(t, 0, 0);
        }
        lemma_vandermonde(e, w2, n - 1);
        assert forall|k: int| 0 <= k < n - 1 implies #[trigger] w[k] == 0 by {
            assert(w2[k] == 0);
            lemma_alpha_pow(e[k]);
            if alpha_pow(e[k]) == a {
                lemma_alpha_pow_injective(e[k], x);
                assert(e[k] < x);
            }
            lemma_xor_facts(alpha_pow(e[k]), a, 0);
            lemma_mul_basics(w[k], alpha_pow(e[k]) ^ a);
        }
        lemma_vsum_zero(e, w, 0, n - 1);
        assert(vsum(e, w, 0, n) == 0);
        assert(x * (0 + 1) == x) by (nonlinear_arith);
        lemma_xor_facts(gf_mul(w[n - 1], a), 0, 0);
        lemma_mul_basics(w[n - 1], a);
    }
}

/// Coefficient k of the quotient of y by (x + a), by synthetic division.
pub open spec fn sdiv(y: Seq<u8>, a: u8, k: int) -> u8
    decreases y.len() - k,
{
    if k >= y.len() - 1 {
        0
    } else {
        y[k + 1] ^ gf_mul(a, sdiv(y, a, k + 1))
    }
}

pub open spec fn quotient(y: Seq<u8>, a: u8) -> Seq<u8> {
    Seq::new((y.len() - 1) as nat, |k: int| sdiv(y, a, k))
}

/// The constant polynomial r with n coefficients.
pub open spec fn constant_poly(r: u8, n: int) -> Seq<u8> {
    Seq::new(n as nat, |i: int| if i == 0 { r } else { 0u8 })
}

proof fn lemma_sdiv_bound(y: Seq<u8>, a: u8, k: int)
    requires
        field_elems(y),
        a < 128,
        k >= 0,
    ensures
        sdiv(y, a, k) < 128,
    decreases y.len() - k,
{
    if k < y.len() - 1 {
        lemma_sdiv_bound(y, a, k + 1);
        lemma_mul_basics(a, sdiv(y, a, k + 1));
        lemma_xor_facts(y[k + 1], gf_mul(a, sdiv(y, a, k + 1)), 0);
    }
}

/// y = (x + a) q(x) + r with q the synthetic quotient.
proof fn lemma_division(y: Seq<u8>, a: u8)
    requires
        y.len() >= 2,
        field_elems(y),
        a < 128,
    ensures
        field_elems(quotient(y, a)),
        y == xor_seq(
            mul_linear(quotient(y, a), a),
            constant_poly(y[0] ^ gf_mul(quotient(y, a)[0], a), y.len() as int),
        ),
{
    let n = y.len() as int;
    let q = quotient(y, a);
    assert forall|k: int| 0 <= k < q.len() implies #[trigger] q[k] < 128 by {
        lemma_sdiv_bound(y, a, k);
    }
    let r = y[0] ^ gf_mul(q[0], a);
    let ml = mul_linear(q, a);
    let cp = constant_poly(r, n);
    assert forall|i: int| 0 <= i < n implies #[trigger] y[i] == xor_seq(ml, cp)[i] by {
        if i == 0 {
            lemma_mul_basics(q[0], a);
            let g = gf_mul(q[0], a);
            assert(ml[0] == 0u8 ^ g);
            lemma_xor_facts(g, 0, 0);
            lemma_xor_facts(g, y[0], g);
            lemma_xor_facts(y[0], g, 0);
            lemma_xor_facts(g, g, y[0]);
            lemma_xor_facts(y[0], 0, 0);
        } else if i < n - 1 {
            lemma_mul_basics(q[i], a);
            let g = gf_mul(q[i], a);
            assert(q[i - 1] == y[i] ^ gf_mul(a, q[i]));
            assert(ml[i] == q[i - 1] ^ g);
            lemma_xor_facts(y[i], g, g);
            lemma_xor_facts(g, 0, 0);
            lemma_xor_facts(y[i], 0, 0);
        } else {
            assert(sdiv(y, a, n - 1) == 0);
            lemma_mul_basics(a, 0);
            assert(q[n - 2] == y[n - 1] ^ 0u8);
            lemma_xor_facts(y[n - 1], 0, 0);
            assert(ml[i] == q[i - 1] ^ 0u8);
            lemma_xor_facts(q[i - 1], 0, 0);
        }
    }
    assert(y =~= xor_seq(ml, cp));
}

/// Distinct exponents below 127, so distinct powers of α.
pub open spec fn distinct_exponents(e: Seq<int>) -> bool {
    &&& forall|i: int| 0 <= i < e.len() ==> 0 <= #[trigger] e[i] < 127
    &&& forall|i: int, j: int| 0 <= i < e.len() && 0 <= j < e.len() && i != j ==> e[i] != e[j]
}

/// A polynomial with n coefficients vanishing at n distinct powers α^(e_k) is zero.
pub proof fn lemma_poly_roots(y: Seq<u8>, e: Seq<int>)
    requires
        field_elems(y),
        distinct_exponents(e),
        y.len() <= e.len(),
        forall|k: int| 0 <= k < y.len() ==> #[trigger] value_at(y, e[k]) == 0,
    ensures
        forall|i: int| 0 <= i < y.len() ==> #[trigger] y[i] == 0,
    decreases y.len(),
{
    let n = y.len() as int;
    if n == 1 {
        assert(value_at(y, e[0]) == 0);
        assert(e[0] * (1 - 1) == 0);
        lemma_alpha_pow_zero();
        lemma_mul_basics(y[0], 1);
        lemma_xor_facts(y[0], 0, 0);
        assert(peval(y, e[0], 1) == peval(y, e[0], 0) ^ gf_mul(y[0], alpha_pow(e[0] * (1 - 1))));
    } else if n >= 2 {
        let x = e[n - 1];
        let a = alpha_pow(x);
        lemma_alpha_pow(x);
        lemma_division(y, a);
        let q = quotient(y, a);
        let r = y[0] ^ gf_mul(q[0], a);
        let ml = mul_linear(q, a);
        let cp = constant_poly(r, n);
        lemma_mul_basics(q[0], a);
        lemma_xor_facts(y[0], gf_mul(q[0], a), 0);
        assert forall|i: int| 0 <= i < cp.len() implies #[trigger] cp[i] < 128 by {}
        // y(α^z) = (α^z + a) q(α^z) + r.
        assert forall|z: int| z >= 0 implies #[trigger] value_at(y, z) == gf_mul(alpha_pow(z) ^ a, value_at(q, z)) ^ r by {
            lemma_value_mul_linear(q, a, z);
            lemma_peval_xor(ml, cp, z, n);
            lemma_peval_zero_tail(cp, z, 1, n);
            assert(z * (1 - 1) == 0);
            lemma_alpha_pow_zero();
            lemma_mul_basics(r, 1);
            lemma_xor_facts(r, 0, 0);
            assert(cp[0] == r);
            assert(peval(cp, z, 1) == peval(cp, z, 0) ^ gf_mul(cp[0], alpha_pow(z * (1 - 1))));
        }
        assert(value_at(y, x) == 0);
        lemma_xor_facts(a, a, 0);
        lemma_peval_bound(q, x, q.len() as int);
        lemma_mul_basics(0, value_at(q, x));
        lemma_xor_facts(r, 0, 0);
        assert(r == 0);
        assert forall|k: int| 0 <= k < q.len() implies #[trigger] value_at(q, e[k]) == 0 by {
            let z = e[k];
            assert(value_at(y, z) == 0);
            lemma_alpha_pow(z);
            if alpha_pow(z) == a {
                lemma_alpha_pow_injective(z, x);
                assert(e[k] != e[n - 1]);
            }
            lemma_xor_facts(alpha_pow(z), a, 0);
            lemma_peval_bound(q, z, q.len() as int);
            lemma_mul_basics(alpha_pow(z) ^ a, value_at(q, z));
            lemma_xor_facts(gf_mul(alpha_pow(z) ^ a, value_at(q, z)), 0, 0);
        }
        lemma_poly_roots(q, e);
        assert forall|i: int| 0 <= i < n implies #[trigger] y[i] == 0 by {
            assert(y[i] == xor_seq(ml, cp)[i]);
            if i < q.len() {
                lemma_mul_basics(0, a);
            }
            lemma_xor_facts(0, 0, 0);
        }
    }
}

/// For e errors the e x e Hankel system of their syndromes is nonsingular.
pub proof fn lemma_hankel_nonsingular(e: Seq<int>, syn: Seq<u8>)
    requires
        error_positions(e),
        e.len() <= 10,
        explains(e, syn),
        field_elems(syn),
    ensures
        nonsingular(hankel(syn, e.len() as int)),
{
    let v = e.len() as int;
    let m = hankel(syn, v);
    assert forall|x: Seq<u8>| vec_ok(x, m.len() as int) && #[trigger] solves(m, zeros(m.len() as int), x) implies x
        == zeros(m.len() as int) by {
        let w = values_at(e, x);
        assert forall|r: int| 0 <= r < v implies #[trigger] vsum(e, w, r, v) == 0 by {
            lemma_hankel_exchange(e, syn, x, r);
            assert(m[r] == hankel_row(syn, r, v));
            assert(dot(m[r], x, v) == zeros(v)[r]);
        }
        assert forall|k: int| 0 <= k < w.len() implies #[trigger] w[k] < 128 by {
            lemma_peval_bound(x, e[k], x.len() as int);
        }
        lemma_vandermonde(e, w, v);
        assert forall|k: int| 0 <= k < x.len() implies #[trigger] value_at(x, e[k]) == 0 by {
            assert(w[k] == 0);
        }
        assert forall|i: int, j: int| 0 <= i < e.len() && 0 <= j < e.len() && i != j implies e[i] != e[j] by {
            if i < j {
                assert(e[i] < e[j]);
            } else {
                assert(e[j] < e[i]);
            }
        }
        lemma_poly_roots(x, e);
        assert(x =~= zeros(v));
    }
}

/// The error locator Π (x + α^(e_k)), lowest degree first.
pub open spec fn locator(e: Seq<int>) -> Seq<u8> {
    linear_product(e.map_values(|x: int| x as usize), e.len() as int)
}

/// A product of n linear factors has n + 1 coefficients and leading coefficient 1.
proof fn lemma_linear_product_monic(roots: Seq<usize>, n: int)
    requires
        0 <= n <= roots.len(),
    ensures
        linear_product(roots, n).len() == n + 1,
        linear_product(roots, n)[n] == 1,
        field_elems(linear_product(roots, n)),
    decreases n,
{
    lemma_linear_product_len(roots, n);
    if n > 0 {
        lemma_linear_product_monic(roots, n - 1);
        let p = linear_product(roots, n - 1);
        let r = alpha_pow(roots[n - 1] as int);
        let q = mul_linear(p, r);
        assert(q[n] == p[n - 1] ^ 0u8);
        lemma_xor_facts(p[n - 1], 0, 0);
        assert(q.last() == 1);
        assert(trim(q) == q);
    }
}

/// The locator has e + 1 coefficients, is monic, and vanishes at α^j exactly
/// for the error positions j.
pub proof fn lemma_locator(e: Seq<int>)
    requires
        error_positions(e),
    ensures
        locator(e).len() == e.len() + 1,
        locator(e)[e.len() as int] == 1,
        field_elems(locator(e)),
        forall|j: int| 0 <= j < 127 ==> (#[trigger] value_at(locator(e), j) == 0 <==> e.contains(j)),
{
    let roots = e.map_values(|x: int| x as usize);
    let n = e.len() as int;
    lemma_linear_product_monic(roots, n);
    assert forall|j: int| 0 <= j < 127 implies (#[trigger] value_at(locator(e), j) == 0 <==> e.contains(j)) by {
        if e.contains(j) {
            let i = choose|i: int| 0 <= i < e.len() && e[i] == j;
            assert(roots[i] as int == j);
            lemma_linear_product_root(roots, n, j, i);
        } else {
            assert forall|i: int| 0 <= i < n implies alpha_pow(#[trigger] roots[i] as int) != alpha_pow(j) by {
                assert(roots[i] as int == e[i]);
                if alpha_pow(e[i]) == alpha_pow(j) {
                    lemma_alpha_pow_injective(e[i], j);
                }
            }
            lemma_linear_product_nonzero(roots, n, j);
        }
    }
}

proof fn lemma_dot_prefix(r1: Seq<u8>, x1: Seq<u8>, r2: Seq<u8>, x2: Seq<u8>, n: int)
    requires
        0 <= n,
        forall|i: int| 0 <= i < n ==> #[trigger] r1[i] == r2[i] && x1[i] == x2[i],
    ensures
        dot(r1, x1, n) == dot(r2, x2, n),
    decreases n,
{
    if n > 0 {
        assert(r1[n - 1] == r2[n - 1] && x1[n - 1] == x2[n - 1]);
        lemma_dot_prefix(r1, x1, r2, x2, n - 1);
    }
}

/// The locator's coefficients below the leading one solve the Hankel system.
pub proof fn lemma_locator_solves(e: Seq<int>, syn: Seq<u8>)
    requires
        error_positions(e),
        e.len() <= 10,
        explains(e, syn),
        field_elems(syn),
    ensures
        vec_ok(locator(e).take(e.len() as int), e.len() as int),
        solves(hankel(syn, e.len() as int), hankel_rhs(syn, e.len() as int), locator(e).take(e.len() as int)),
{
    let v = e.len() as int;
    let p = locator(e);
    lemma_locator(e);
    let w = values_at(e, p);
    assert forall|k: int| 0 <= k < v implies #[trigger] w[k] == 0 by {
        assert(e.contains(e[k]));
    }
    let m = hankel(syn, v);
    let b = hankel_rhs(syn, v);
    assert forall|r: int| 0 <= r < v implies #[trigger] dot(m[r], p.take(v), v) == b[r] by {
        lemma_hankel_exchange(e, syn, p, r);
        lemma_vsum_zero(e, w, r, v);
        let row = hankel_row(syn, r, v + 1);
        let d = dot(row, p, v);
        assert(dot(row, p, v + 1) == d ^ gf_mul(row[v], p[v]));
        lemma_mul_basics(syn[r + v], 1);
        lemma_dot_prefix(row, p, m[r], p.take(v), v);
        lemma_xor_facts(d, syn[r + v], 0);
    }
}

/// A nonsingular system has at most one solution.
pub proof fn lemma_unique_solution(m: Seq<Seq<u8>>, b: Seq<u8>, x1: Seq<u8>, x2: Seq<u8>)
    requires
        nonsingular(m),
        square_rows(m),
        vec_ok(x1, m.len() as int),
        vec_ok(x2, m.len() as int),
        solves(m, b, x1),
        solves(m, b, x2),
    ensures
        x1 == x2,
{
    let v = m.len() as int;
    let z = xor_seq(x1, x2);
    assert forall|i: int| 0 <= i < z.len() implies #[trigger] z[i] < 128 by {
        lemma_xor_facts(x1[i], x2[i], 0);
    }
    assert forall|r: int| 0 <= r < v implies #[trigger] dot(m[r], z, v) == zeros(v)[r] by {
        lemma_dot_xor(m[r], x1, x2, v);
        lemma_xor_facts(b[r], b[r], 0);
    }
    assert(solves(m, zeros(v), z));
    assert(z == zeros(v));
    assert forall|i: int| 0 <= i < v implies #[trigger] x1[i] == x2[i] by {
        assert(z[i] == 0);
        lemma_xor_facts(x1[i], x2[i], 0);
    }
    assert(x1 =~= x2);
}

proof fn lemma_dot_xor(row: Seq<u8>, x1: Seq<u8>, x2: Seq<u8>, n: int)
    requires
        0 <= n <= row.len(),
        n <= x1.len(),
        x1.len() == x2.len(),
        field_elems(row),
        field_elems(x1),
        field_elems(x2),
    ensures
        dot(row, xor_seq(x1, x2), n) == dot(row, x1, n) ^ dot(row, x2, n),
        dot(row, x1, n) < 128,
        dot(row, x2, n) < 128,
    decreases n,
{
    if n == 0 {
        lemma_xor_facts(0, 0, 0);
    } else {
        lemma_dot_xor(row, x1, x2, n - 1);
        let k = n - 1;
        lemma_mul_distrib(row[k], x1[k], x2[k]);
        lemma_mul_basics(row[k], x1[k]);
        lemma_mul_basics(row[k], x2[k]);
        lemma_xor_swap(dot(row, x1, k), dot(row, x2, k), gf_mul(row[k], x1[k]), gf_mul(row[k], x2[k]));
        lemma_xor_facts(dot(row, x1, k), gf_mul(row[k], x1[k]), 0);
        lemma_xor_facts(dot(row, x2, k), gf_mul(row[k], x2[k]), 0);
    }
}

/// a^t for a = α^m.
proof fn lemma_field_pow_alpha(m: int, t: int)
    requires
        m >= 0,
        t >= 0,
    ensures
        field_pow(alpha_pow(m), t) == alpha_pow(m * t),
    decreases t,
{
    if t == 0 {
        lemma_alpha_pow_zero();
        assert(m * 0 == 0);
    } else {
        lemma_field_pow_alpha(m, t - 1);
        assert(m * (t - 1) >= 0 && m * (t - 1) + m == m * t) by (nonlinear_arith)
            requires m >= 0, t >= 1;
        lemma_mul_alpha_pow(m * (t - 1), m);
    }
}

proof fn lemma_locator_at_bound(ld: Seq<u8>, a: u8, n: int)
    requires
        field_elems(ld),
        a < 128,
        n <= ld.len(),
    ensures
        locator_at(ld, a, n) < 128,
    decreases n,
{
    if n > 0 {
        lemma_locator_at_bound(ld, a, n - 1);
        lemma_field_pow_bound(a, n - 1);
        lemma_mul_basics(ld[n - 1], field_pow(a, n - 1));
        lemma_xor_facts(locator_at(ld, a, n - 1), gf_mul(ld[n - 1], field_pow(a, n - 1)), 0);
    }
}

proof fn lemma_field_pow_bound(a: u8, k: int)
    requires
        a < 128,
    ensures
        field_pow(a, k) < 128,
    decreases k,
{
    if k > 0 {
        lemma_field_pow_bound(a, k - 1);
        lemma_mul_basics(field_pow(a, k - 1), a);
    }
}

/// The exponent of the Chien point α^(-j).
pub open spec fn chien_exp(j: int) -> int {
    if j == 0 {
        0
    } else {
        127 - j
    }
}

/// α^(j n) (c α^(-j t)) = c α^(j (n - t)).
proof fn lemma_chien_term(coef: u8, j: int, n: int, t: int)
    requires
        coef < 128,
        0 <= j < 127,
        0 <= t <= n,
    ensures
        gf_mul(alpha_pow(j * n), gf_mul(coef, alpha_pow(chien_exp(j) * t))) == gf_mul(coef, alpha_pow(j * (n - t))),
{
    let cm = chien_exp(j);
    assert(j * n >= 0 && cm * t >= 0 && j * (n - t) >= 0) by (nonlinear_arith)
        requires j >= 0, n >= t, t >= 0, cm >= 0;
    let big_a = alpha_pow(j * n);
    lemma_alpha_pow(j * n);
    lemma_alpha_pow(cm * t);
    lemma_mul_alpha_pow(j * n, cm * t);
    assert(alpha_pow(j * n + cm * t) == alpha_pow(j * (n - t))) by {
        if j == 0 {
            assert(j * n + cm * t == 0 && j * (n - t) == 0) by (nonlinear_arith)
                requires j == 0, cm == 0;
        } else {
            assert(j * n + cm * t == 127 * t + j * (n - t)) by (nonlinear_arith)
                requires cm == 127 - j;
            vstd::arithmetic::div_mod::lemma_mod_multiples_vanish(t, j * (n - t), 127);
        }
    }
    lemma_mul_basics(big_a, coef);
    lemma_mul_assoc(big_a, coef, alpha_pow(cm * t));
    lemma_mul_assoc(coef, big_a, alpha_pow(cm * t));
}

/// α^(j n) times the reversed polynomial summed over its first k terms at
/// α^(-j) is the top k terms of p(α^j).
proof fn lemma_reversed_partial(p: Seq<u8>, j: int, n: int, k: int)
    requires
        p.len() == n + 1,
        n >= 0,
        field_elems(p),
        0 <= j < 127,
        0 <= k <= n + 1,
    ensures
        gf_mul(alpha_pow(j * n), locator_at(p.reverse(), alpha_pow(chien_exp(j)), k)) == peval(p, j, n + 1) ^ peval(
            p,
            j,
            n + 1 - k,
        ),
    decreases k,
{
    let ld = p.reverse();
    let cm = chien_exp(j);
    let c = alpha_pow(cm);
    assert(j * n >= 0) by (nonlinear_arith)
        requires j >= 0, n >= 0;
    lemma_alpha_pow(j * n);
    let big_a = alpha_pow(j * n);
    lemma_peval_bound(p, j, n + 1);
    let f = peval(p, j, n + 1);
    if k == 0 {
        lemma_mul_basics(big_a, 0);
        lemma_xor_facts(f, 0, 0);
    } else {
        lemma_reversed_partial(p, j, n, k - 1);
        let t = k - 1;
        let l = locator_at(ld, c, t);
        lemma_alpha_pow(cm);
        lemma_locator_at_bound(ld, c, t);
        lemma_field_pow_alpha(cm, t);
        assert(cm * t >= 0) by (nonlinear_arith)
            requires cm >= 0, t >= 0;
        lemma_alpha_pow(cm * t);
        let coef = p[n - t];
        assert(ld[t] == coef);
        let term = gf_mul(coef, alpha_pow(cm * t));
        lemma_mul_basics(coef, alpha_pow(cm * t));
        assert(locator_at(ld, c, k) == l ^ term);
        lemma_mul_distrib(big_a, l, term);
        lemma_chien_term(coef, j, n, t);
        let u = gf_mul(coef, alpha_pow(j * (n - t)));
        let r1 = peval(p, j, n + 1 - t);
        let r0 = peval(p, j, n - t);
        assert(r1 == r0 ^ u);
        lemma_xor_facts(f, r0 ^ u, u);
        lemma_xor_facts(r0, u, u);
        lemma_xor_facts(u, u, 0);
        lemma_xor_facts(r0, 0, 0);
    }
}

/// The reversed polynomial vanishes at the Chien point α^(-j) exactly when
/// p vanishes at α^j.
pub proof fn lemma_reversed_root(p: Seq<u8>, j: int)
    requires
        p.len() >= 1,
        field_elems(p),
        0 <= j < 127,
    ensures
        chien_point(j) == alpha_pow(chien_exp(j)),
        locator_at(p.reverse(), chien_point(j), p.len() as int) == 0 <==> value_at(p, j) == 0,
{
    let n = p.len() - 1;
    lemma_alpha_pow_zero();
    lemma_reversed_partial(p, j, n, n + 1);
    assert(j * n >= 0) by (nonlinear_arith)
        requires j >= 0, n >= 0;
    lemma_alpha_pow(j * n);
    let l = locator_at(p.reverse(), chien_point(j), p.len() as int);
    lemma_alpha_pow(chien_exp(j));
    lemma_locator_at_bound(p.reverse(), chien_point(j), p.len() as int);
    lemma_mul_basics(alpha_pow(j * n), l);
    lemma_peval_bound(p, j, p.len() as int);
    lemma_xor_facts(value_at(p, j), 0, 0);
}

/// Two increasing lists of positions with the same members are equal.
pub proof fn lemma_same_positions(a: Seq<int>, b: Seq<int>)
    requires
        error_positions(a),
        error_positions(b),
        forall|x: int| a.contains(x) <==> b.contains(x),
    ensures
        a == b,
    decreases a.len() + b.len(),
{
    if a.len() == 0 && b.len() > 0 {
        assert(b.contains(b[0]));
    } else if b.len() == 0 && a.len() > 0 {
        assert(a.contains(a[0]));
    } else if a.len() > 0 {
        let la = a.last();
        let lb = b.last();
        assert(a.contains(la));
        assert(b.contains(lb));
        let i = choose|i: int| 0 <= i < b.len() && b[i] == la;
        let k = choose|k: int| 0 <= k < a.len() && a[k] == lb;
        assert(la <= lb);
        assert(lb <= la);
        let a2 = a.drop_last();
        let b2 = b.drop_last();
        assert forall|x: int| a2.contains(x) <==> b2.contains(x) by {
            if a2.contains(x) {
                let p = choose|p: int| 0 <= p < a2.len() && a2[p] == x;
                assert(a.contains(x));
                let q = choose|q: int| 0 <= q < b.len() && b[q] == x;
                assert(x < la);
                assert(q < b.len() - 1);
                assert(b2[q] == x);
            }
            if b2.contains(x) {
                let p = choose|p: int| 0 <= p < b2.len() && b2[p] == x;
                assert(b.contains(x));
                let q = choose|q: int| 0 <= q < a.len() && a[q] == x;
                assert(x < lb);
                assert(q < a.len() - 1);
                assert(a2[q] == x);
            }
        }
        lemma_same_positions(a2, b2);
        assert(a =~= a2.push(la));
        assert(b =~= b2.push(lb));
    }
}

/// Some pattern of exactly v errors accounts for the syndromes.
pub open spec fn explained_by_size(syn: Seq<u8>, v: int) -> bool {
    exists|e: Seq<int>| error_positions(e) && e.len() == v && #[trigger] explains(e, syn)
}

/// For e errors, any solution of the e x e Hankel system, followed by a
/// leading 1, is the error locator.
pub proof fn lemma_pgz_solution(e: Seq<int>, syn: Seq<u8>, x: Seq<u8>)
    requires
        error_positions(e),
        e.len() <= 10,
        explains(e, syn),
        field_elems(syn),
        vec_ok(x, e.len() as int),
        solves(hankel(syn, e.len() as int), hankel_rhs(syn, e.len() as int), x),
    ensures
        nonsingular(hankel(syn, e.len() as int)),
        x.push(1u8) == locator(e),
{
    let v = e.len() as int;
    lemma_hankel_nonsingular(e, syn);
    lemma_locator_solves(e, syn);
    lemma_locator(e);
    let m = hankel(syn, v);
    assert forall|r: int| 0 <= r < m.len() implies (#[trigger] m[r]).len() == m.len() && field_elems(m[r]) by {
        assert forall|c: int| 0 <= c < m[r].len() implies #[trigger] m[r][c] < 128 by {
            assert(m[r][c] == syn[r + c]);
        }
    }
    lemma_unique_solution(m, hankel_rhs(syn, v), x, locator(e).take(v));
    assert(x.push(1u8) =~= locator(e));
}

/// The Chien search over the reversed locator finds exactly the error positions.
pub proof fn lemma_pgz_roots(e: Seq<int>, roots: Seq<int>)
    requires
        error_positions(e),
        error_positions(roots),
        forall|j: int|
            0 <= j < 127 ==> (roots.contains(j) <==> locator_at(
                locator(e).reverse(),
                chien_point(j),
                e.len() as int + 1,
            ) == 0),
    ensures
        roots == e,
{
    lemma_locator(e);
    assert forall|j: int| roots.contains(j) <==> e.contains(j) by {
        if 0 <= j < 127 {
            lemma_reversed_root(locator(e), j);
        } else {
            if roots.contains(j) {
                let i = choose|i: int| 0 <= i < roots.len() && roots[i] == j;
            }
            if e.contains(j) {
                let i = choose|i: int| 0 <= i < e.len() && e[i] == j;
            }
        }
    }
    lemma_same_positions(roots, e);
}

} // verus!
