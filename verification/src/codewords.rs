//! Every word with zero syndromes S_1..S_20 is the encoding of its own data
//! bits. A binary word's value at α^(2s) is the square of its value at α^s,
//! so a word with zero syndromes vanishes at the 63 distinct conjugates
//! α^(s 2^b) of α^1, α^3, ..., α^19; two such words with the same data bits
//! differ only in the 63 parity positions, and a polynomial with 63
//! coefficients and 63 distinct roots is zero. The same count shows that the
//! generator has the least degree of any binary polynomial with those roots.

use crate::bch::{
    all_zero, codeword_of, data_of, decodes_to, error_positions, explains, flip_all, generator, lemma_correction_is_codeword,
    lemma_syndrome_flip_all, syndromes, T,
};
use crate::bch_distance::{lemma_syndrome_xor, xor_words};
use crate::bch_laws::{bits_u8, lemma_codeword_syndromes_vanish, lemma_syndrome_is_value};
use crate::gf::{alpha_pow, gf_mul, lemma_alpha_pow, lemma_mul_alpha_pow, lemma_mul_basics, lemma_mul_distrib, lemma_xor_facts};
use crate::pgz::{distinct_exponents, lemma_poly_roots};
use crate::poly_eval::{lemma_peval_prefix, lemma_peval_zero_tail, peval, value_at};
use vstd::prelude::*;

verus! {

/// Every coefficient is 0 or 1.
pub open spec fn binary_poly(u: Seq<u8>) -> bool {
    forall|i: int| 0 <= i < u.len() ==> #[trigger] u[i] <= 1
}

/// (p + t)^2 = p^2 + t^2 in characteristic 2.
proof fn lemma_square_sum(p: u8, t: u8)
    requires
        p < 128,
        t < 128,
    ensures
        gf_mul(p ^ t, p ^ t) == gf_mul(p, p) ^ gf_mul(t, t),
        p ^ t < 128,
{
    lemma_xor_facts(p, t, 0);
    lemma_mul_distrib(p ^ t, p, t);
    lemma_mul_basics(p ^ t, p);
    lemma_mul_basics(p ^ t, t);
    lemma_mul_distrib(p, p, t);
    lemma_mul_distrib(t, p, t);
    lemma_mul_basics(p, p);
    lemma_mul_basics(t, t);
    lemma_mul_basics(p, t);
    let pp = gf_mul(p, p);
    let pt = gf_mul(p, t);
    let tt = gf_mul(t, t);
    lemma_xor_facts(pp, pt, pt ^ tt);
    lemma_xor_facts(pt, pt, tt);
    lemma_xor_facts(pp, 0, 0);
    lemma_xor_facts(tt, 0, 0);
}

/// A binary polynomial at α^(2x) is its value at α^x squared.
proof fn lemma_frobenius(u: Seq<u8>, x: int, n: int)
    requires
        binary_poly(u),
        x >= 0,
        0 <= n <= u.len(),
    ensures
        peval(u, 2 * x, n) == gf_mul(peval(u, x, n), peval(u, x, n)),
        peval(u, x, n) < 128,
    decreases n,
{
    if n == 0 {
        lemma_mul_basics(0, 0);
    } else {
        lemma_frobenius(u, x, n - 1);
        let p = peval(u, x, n - 1);
        assert(x * (n - 1) >= 0 && (2 * x) * (n - 1) == x * (n - 1) + x * (n - 1)) by (nonlinear_arith)
            requires x >= 0, n >= 1;
        let a = alpha_pow(x * (n - 1));
        lemma_alpha_pow(x * (n - 1));
        lemma_mul_alpha_pow(x * (n - 1), x * (n - 1));
        let c = u[n - 1];
        let t = gf_mul(c, a);
        assert(c == 0 || c == 1);
        lemma_mul_basics(c, a);
        lemma_mul_basics(a, 1);
        lemma_mul_basics(0, 0);
        lemma_alpha_pow(x * (n - 1) + x * (n - 1));
        lemma_mul_basics(alpha_pow(x * (n - 1) + x * (n - 1)), 1);
        assert(gf_mul(t, t) == gf_mul(c, alpha_pow((2 * x) * (n - 1))));
        lemma_square_sum(p, t);
    }
}

/// Exponents that agree modulo 127 give the same value.
proof fn lemma_peval_congruent(u: Seq<u8>, x: int, z: int, n: int)
    requires
        x >= 0,
        z >= 0,
        x % 127 == z % 127,
        n >= 0,
    ensures
        peval(u, x, n) == peval(u, z, n),
    decreases n,
{
    if n > 0 {
        lemma_peval_congruent(u, x, z, n - 1);
        vstd::arithmetic::div_mod::lemma_mul_mod_noop_left(x, n - 1, 127);
        vstd::arithmetic::div_mod::lemma_mul_mod_noop_left(z, n - 1, 127);
        assert(alpha_pow(x * (n - 1)) == alpha_pow(z * (n - 1)));
    }
}

/// The first coset representatives 1, 3, ..., 15, 19 of the exponents.
pub open spec fn coset_rep(a: u16) -> u16 {
    if a == 0 {
        1
    } else if a == 1 {
        3
    } else if a == 2 {
        5
    } else if a == 3 {
        7
    } else if a == 4 {
        9
    } else if a == 5 {
        11
    } else if a == 6 {
        13
    } else if a == 7 {
        15
    } else {
        19
    }
}

/// Exponent i of the 63 roots of the generator: rep(i / 7) 2^(i % 7) mod 127.
pub open spec fn root_exp(i: u16) -> u16 {
    ((coset_rep(i / 7) << (i % 7)) % 127) as u16
}

proof fn lemma_root_exps_distinct()
    by (bit_vector)
    ensures
        forall|i: u16, j: u16| i < 63 && j < 63 && i != j ==> #[trigger] root_exp(i) != #[trigger] root_exp(j),
        forall|i: u16| i < 63 ==> #[trigger] root_exp(i) < 127,
{
}

proof fn lemma_root_exp_step(r: u16, b: u16)
    by (bit_vector)
    requires
        1 <= r <= 19,
        b < 6,
    ensures
        ((r << (b + 1)) % 127) as u16 == ((2 * (((r << b) % 127) as u16)) % 127) as u16,
        ((r << b) % 127) < 127,
{
}

/// A binary polynomial vanishing at α^1..α^20 vanishes at every conjugate α^(r 2^b).
proof fn lemma_conjugates_vanish(u: Seq<u8>, r: u16, b: u16)
    requires
        binary_poly(u),
        forall|s: int| 1 <= s <= 20 ==> #[trigger] value_at(u, s) == 0,
        1 <= r <= 19,
        b < 7,
    ensures
        value_at(u, ((r << b) % 127) as int) == 0,
    decreases b,
{
    if b == 0 {
        assert((r << 0u16) % 127 == r) by (bit_vector)
            requires 1 <= r <= 19;
        assert(value_at(u, r as int) == 0);
    } else {
        lemma_conjugates_vanish(u, r, (b - 1) as u16);
        lemma_root_exp_step(r, (b - 1) as u16);
        let prev = ((r << ((b - 1) as u16)) % 127) as int;
        let cur = ((r << b) % 127) as int;
        lemma_frobenius(u, prev, u.len() as int);
        lemma_mul_basics(0, 0);
        assert(cur == (2 * prev) % 127);
        vstd::arithmetic::div_mod::lemma_mod_twice(2 * prev, 127);
        vstd::arithmetic::div_mod::lemma_small_mod(cur as nat, 127);
        lemma_peval_congruent(u, cur, 2 * prev, u.len() as int);
    }
}

/// The 63 exponents rep(i / 7) 2^(i % 7) mod 127: distinct, below 127, and
/// roots of every binary polynomial that vanishes at α^1..α^20.
proof fn lemma_root_list(u: Seq<u8>)
    requires
        binary_poly(u),
        forall|s: int| 1 <= s <= 20 ==> #[trigger] value_at(u, s) == 0,
    ensures
        distinct_exponents(Seq::new(63, |i: int| root_exp(i as u16) as int)),
        forall|k: int| 0 <= k < 63 ==> #[trigger] value_at(u, root_exp(k as u16) as int) == 0,
{
    let e = Seq::new(63, |i: int| root_exp(i as u16) as int);
    lemma_root_exps_distinct();
    assert forall|i: int| 0 <= i < e.len() implies 0 <= #[trigger] e[i] < 127 by {
        assert(root_exp(i as u16) < 127);
    }
    assert forall|i: int, j: int| 0 <= i < e.len() && 0 <= j < e.len() && i != j implies e[i] != e[j] by {
        assert(root_exp(i as u16) != root_exp(j as u16));
    }
    assert forall|k: int| 0 <= k < 63 implies #[trigger] value_at(u, root_exp(k as u16) as int) == 0 by {
        let i = k as u16;
        let r = coset_rep(i / 7);
        let b = i % 7;
        assert(1 <= r <= 19 && b < 7 && root_exp(i) == ((r << b) % 127) as u16) by (bit_vector)
            requires i < 63u16, r == coset_rep(i / 7), b == i % 7;
        lemma_conjugates_vanish(u, r, b);
    }
}

/// The generator has least degree: the only binary polynomial of degree
/// below 63 with α^1, ..., α^20 among its roots is zero.
pub proof fn lemma_generator_least_degree(p: Seq<u8>)
    requires
        binary_poly(p),
        p.len() <= 63,
        forall|s: int| 1 <= s <= 20 ==> #[trigger] value_at(p, s) == 0,
    ensures
        forall|i: int| 0 <= i < p.len() ==> #[trigger] p[i] == 0,
{
    let e = Seq::new(63, |i: int| root_exp(i as u16) as int);
    lemma_root_list(p);
    assert forall|k: int| 0 <= k < p.len() implies #[trigger] value_at(p, e[k]) == 0 by {
        assert(value_at(p, root_exp(k as u16) as int) == 0);
    }
    assert forall|i: int| 0 <= i < p.len() implies #[trigger] p[i] < 128 by {}
    lemma_poly_roots(p, e);
}

/// A word with zero syndromes is the encoding of its own data bits.
pub proof fn lemma_codeword_is_encoding(c: Seq<bool>)
    requires
        c.len() == 127,
        all_zero(syndromes(c)),
    ensures
        codeword_of(data_of(c), generator()) == c,
{
    let d = data_of(c);
    let c2 = codeword_of(d, generator());
    lemma_codeword_syndromes_vanish(d);
    let w = xor_words(c, c2);
    assert forall|i: int| 0 <= i < 20 implies #[trigger] syndromes(w)[i] == 0 by {
        lemma_syndrome_xor(c, c2, i + 1);
        assert(syndromes(c)[i] == 0 && syndromes(c2)[i] == 0);
        lemma_xor_facts(0, 0, 0);
    }
    let u = bits_u8(w);
    let y = u.take(63);
    let e = Seq::new(63, |i: int| root_exp(i as u16) as int);
    assert(binary_poly(u));
    assert forall|s: int| 1 <= s <= 20 implies #[trigger] value_at(u, s) == 0 by {
        lemma_syndrome_is_value(w, s, 127);
        assert(syndromes(w)[s - 1] == 0);
    }
    lemma_root_list(u);
    assert forall|x: int| 63 <= x < 127 implies #[trigger] u[x] == 0 by {
        assert(c2[x] == (x - 63 < d.len() && d[x - 63]));
        assert(d[x - 63] == c[x]);
    }
    assert forall|k: int| 0 <= k < y.len() implies #[trigger] value_at(y, e[k]) == 0 by {
        assert(value_at(u, root_exp(k as u16) as int) == 0);
        lemma_peval_zero_tail(u, e[k], 63, 127);
        lemma_peval_prefix(y, u, e[k], 63);
    }
    assert forall|i: int| 0 <= i < y.len() implies #[trigger] y[i] < 128 by {}
    lemma_poly_roots(y, e);
    assert forall|x: int| 0 <= x < 127 implies #[trigger] c2[x] == c[x] by {
        if x < 63 {
            assert(y[x] == 0);
            assert(u[x] == 0);
        } else {
            assert(u[x] == 0);
        }
    }
    assert(c2 =~= c);
}

/// Re-encoding what the decoder returns gives a codeword at most T bits away
/// from the received word.
pub proof fn lemma_decoded_reencodes(cw: Seq<bool>, d: Seq<bool>)
    requires
        cw.len() == 127,
        decodes_to(cw, d),
    ensures
        d.len() == 64,
        exists|e: Seq<int>|
            e.len() <= T && error_positions(e) && #[trigger] flip_all(cw, e) == codeword_of(d, generator()),
{
    let e = choose|e: Seq<int>|
        e.len() <= T && error_positions(e) && #[trigger] explains(e, syndromes(cw)) && d == data_of(flip_all(cw, e));
    lemma_correction_is_codeword(cw, e);
    lemma_syndrome_flip_all(cw, e, 1);
    lemma_codeword_is_encoding(flip_all(cw, e));
}

} // verus!
