//! Evaluation of polynomials over GF(2^7) at powers of α, and how it
//! behaves under sums, shifted multiples, products and linear factors.

use crate::bch::{conv_upto, field_elems, linear_product, mul_linear, poly_product, trim};
use crate::gf::{
    alpha_pow, gf_mul, lemma_alpha_pow, lemma_alpha_pow_zero, lemma_mul_alpha_pow, lemma_mul_assoc,
    lemma_mul_basics, lemma_mul_distrib, lemma_xor_facts,
};
use vstd::prelude::*;

verus! {

/// p(α^e) summed over the first n coefficients of p.
pub open spec fn peval(p: Seq<u8>, e: int, n: int) -> u8
    decreases n,
{
    if n <= 0 {
        0
    } else {
        peval(p, e, n - 1) ^ gf_mul(p[n - 1], alpha_pow(e * (n - 1)))
    }
}

/// p(α^e).
pub open spec fn value_at(p: Seq<u8>, e: int) -> u8 {
    peval(p, e, p.len() as int)
}

/// The coefficient-wise sum of p and q.
pub open spec fn xor_seq(p: Seq<u8>, q: Seq<u8>) -> Seq<u8> {
    Seq::new(p.len(), |i: int| p[i] ^ q[i])
}

/// The len coefficients of c * x^off * b(x).
pub open spec fn scaled_shift(b: Seq<u8>, c: u8, off: int, len: int) -> Seq<u8> {
    Seq::new(len as nat, |k: int| if off <= k < off + b.len() { gf_mul(c, b[k - off]) } else { 0u8 })
}

proof fn lemma_nonneg_mul(a: int, b: int)
    requires
        a >= 0,
        b >= 0,
    ensures
        a * b >= 0,
{
    assert(a * b >= 0) by (nonlinear_arith)
        requires a >= 0, b >= 0;
}

/// α^(e k) is a nonzero field element.
pub proof fn lemma_power_term(e: int, k: int)
    requires
        e >= 0,
        k >= 0,
    ensures
        e * k >= 0,
        1 <= alpha_pow(e * k) < 128,
{
    lemma_nonneg_mul(e, k);
    lemma_alpha_pow(e * k);
}

pub proof fn lemma_peval_bound(p: Seq<u8>, e: int, n: int)
    requires
        field_elems(p),
        e >= 0,
        n <= p.len(),
    ensures
        peval(p, e, n) < 128,
    decreases n,
{
    if n > 0 {
        lemma_peval_bound(p, e, n - 1);
        lemma_power_term(e, n - 1);
        lemma_mul_basics(p[n - 1], alpha_pow(e * (n - 1)));
        lemma_xor_facts(peval(p, e, n - 1), gf_mul(p[n - 1], alpha_pow(e * (n - 1))), 0);
    }
}

/// Zero coefficients at degrees m..n - 1 add nothing.
pub proof fn lemma_peval_zero_tail(p: Seq<u8>, e: int, m: int, n: int)
    requires
        0 <= m <= n <= p.len(),
        forall|k: int| m <= k < n ==> #[trigger] p[k] == 0,
    ensures
        peval(p, e, n) == peval(p, e, m),
    decreases n - m,
{
    if n > m {
        lemma_peval_zero_tail(p, e, m, n - 1);
        lemma_xor_facts(peval(p, e, n - 1), 0, 0);
    }
}

/// The value depends only on the first n coefficients.
pub proof fn lemma_peval_prefix(p: Seq<u8>, q: Seq<u8>, e: int, n: int)
    requires
        0 <= n <= p.len(),
        n <= q.len(),
        forall|k: int| 0 <= k < n ==> #[trigger] p[k] == q[k],
    ensures
        peval(p, e, n) == peval(q, e, n),
    decreases n,
{
    if n > 0 {
        lemma_peval_prefix(p, q, e, n - 1);
    }
}

pub proof fn lemma_xor_swap(a: u8, b: u8, c: u8, d: u8)
    ensures
        (a ^ b) ^ (c ^ d) == (a ^ c) ^ (b ^ d),
{
    assert((a ^ b) ^ (c ^ d) == (a ^ c) ^ (b ^ d)) by (bit_vector);
}

/// Evaluation is additive.
pub proof fn lemma_peval_xor(p: Seq<u8>, q: Seq<u8>, e: int, n: int)
    requires
        field_elems(p),
        field_elems(q),
        p.len() == q.len(),
        0 <= n <= p.len(),
        e >= 0,
    ensures
        peval(xor_seq(p, q), e, n) == peval(p, e, n) ^ peval(q, e, n),
    decreases n,
{
    if n == 0 {
        lemma_xor_facts(0, 0, 0);
    } else {
        lemma_peval_xor(p, q, e, n - 1);
        let a = alpha_pow(e * (n - 1));
        lemma_power_term(e, n - 1);
        let (x, y) = (p[n - 1], q[n - 1]);
        lemma_mul_distrib(a, x, y);
        lemma_mul_basics(x ^ y, a);
        lemma_mul_basics(x, a);
        lemma_mul_basics(y, a);
        assert(xor_seq(p, q)[n - 1] == x ^ y);
        lemma_xor_swap(peval(p, e, n - 1), peval(q, e, n - 1), gf_mul(x, a), gf_mul(y, a));
    }
}

/// (c b)(x y) = (c x)(b y).
proof fn lemma_mul_swap(c: u8, b: u8, x: u8, y: u8)
    requires
        c < 128,
        b < 128,
        x < 128,
        y < 128,
    ensures
        gf_mul(gf_mul(c, b), gf_mul(x, y)) == gf_mul(gf_mul(c, x), gf_mul(b, y)),
{
    lemma_mul_basics(c, b);
    lemma_mul_basics(x, y);
    lemma_mul_basics(c, x);
    lemma_mul_basics(b, y);
    lemma_mul_basics(b, x);
    lemma_mul_basics(gf_mul(b, x), y);
    lemma_mul_basics(gf_mul(x, b), y);
    lemma_mul_assoc(c, b, gf_mul(x, y));
    lemma_mul_assoc(b, x, y);
    lemma_mul_assoc(x, b, y);
    lemma_mul_assoc(c, x, gf_mul(b, y));
}

proof fn lemma_scaled_shift_prefix(b: Seq<u8>, c: u8, e: int, off: int, len: int, m: int)
    requires
        field_elems(b),
        c < 128,
        e >= 0,
        off >= 0,
        0 <= m <= b.len(),
        off + b.len() <= len,
    ensures
        peval(scaled_shift(b, c, off, len), e, off + m) == gf_mul(gf_mul(c, alpha_pow(e * off)), peval(b, e, m)),
    decreases m,
{
    let q = scaled_shift(b, c, off, len);
    lemma_power_term(e, off);
    let cc = gf_mul(c, alpha_pow(e * off));
    lemma_mul_basics(c, alpha_pow(e * off));
    if m == 0 {
        assert forall|k: int| 0 <= k < off implies #[trigger] q[k] == 0 by {}
        lemma_peval_zero_tail(q, e, 0, off);
        lemma_mul_basics(cc, 0);
    } else {
        lemma_scaled_shift_prefix(b, c, e, off, len, m - 1);
        let pm = peval(b, e, m - 1);
        lemma_peval_bound(b, e, m - 1);
        lemma_power_term(e, m - 1);
        lemma_power_term(e, off + m - 1);
        let am = alpha_pow(e * (m - 1));
        let ao = alpha_pow(e * off);
        assert(e * off + e * (m - 1) == e * (off + m - 1)) by (nonlinear_arith);
        lemma_mul_alpha_pow(e * off, e * (m - 1));
        assert(q[off + m - 1] == gf_mul(c, b[m - 1]));
        lemma_mul_swap(c, b[m - 1], ao, am);
        lemma_mul_basics(b[m - 1], am);
        lemma_mul_distrib(cc, pm, gf_mul(b[m - 1], am));
    }
}

/// Evaluation of c * x^off * b(x) is c α^(e off) b(α^e).
pub proof fn lemma_peval_scaled_shift(b: Seq<u8>, c: u8, e: int, off: int, len: int)
    requires
        field_elems(b),
        c < 128,
        e >= 0,
        off >= 0,
        off + b.len() <= len,
    ensures
        peval(scaled_shift(b, c, off, len), e, len) == gf_mul(gf_mul(c, alpha_pow(e * off)), value_at(b, e)),
        field_elems(scaled_shift(b, c, off, len)),
{
    let q = scaled_shift(b, c, off, len);
    lemma_scaled_shift_prefix(b, c, e, off, len, b.len() as int);
    assert forall|k: int| off + b.len() <= k < len implies #[trigger] q[k] == 0 by {}
    lemma_peval_zero_tail(q, e, off + b.len(), len);
    assert forall|k: int| 0 <= k < q.len() implies #[trigger] q[k] < 128 by {
        if off <= k < off + b.len() {
            lemma_mul_basics(c, b[k - off]);
        }
    }
}

pub proof fn lemma_conv_bound(a: Seq<u8>, b: Seq<u8>, k: int, n: int)
    requires
        field_elems(a),
        field_elems(b),
        n <= a.len(),
    ensures
        conv_upto(a, b, k, n) < 128,
    decreases n,
{
    if n > 0 {
        lemma_conv_bound(a, b, k, n - 1);
        if 0 <= k - (n - 1) < b.len() {
            lemma_mul_basics(a[n - 1], b[k - (n - 1)]);
        }
        let t = if 0 <= k - (n - 1) < b.len() { gf_mul(a[n - 1], b[k - (n - 1)]) } else { 0u8 };
        lemma_xor_facts(conv_upto(a, b, k, n - 1), t, 0);
    }
}

/// The first n rows of the convolution of a and b.
pub open spec fn conv_rows(a: Seq<u8>, b: Seq<u8>, n: int) -> Seq<u8> {
    Seq::new((a.len() + b.len() - 1) as nat, |k: int| conv_upto(a, b, k, n))
}

proof fn lemma_conv_rows_value(a: Seq<u8>, b: Seq<u8>, e: int, n: int)
    requires
        field_elems(a),
        field_elems(b),
        a.len() >= 1,
        b.len() >= 1,
        0 <= n <= a.len(),
        e >= 0,
    ensures
        peval(conv_rows(a, b, n), e, a.len() + b.len() - 1) == gf_mul(peval(a, e, n), value_at(b, e)),
        field_elems(conv_rows(a, b, n)),
    decreases n,
{
    let len = a.len() + b.len() - 1;
    let c = conv_rows(a, b, n);
    assert forall|k: int| 0 <= k < c.len() implies #[trigger] c[k] < 128 by {
        lemma_conv_bound(a, b, k, n);
    }
    lemma_peval_bound(b, e, b.len() as int);
    let bv = value_at(b, e);
    if n == 0 {
        assert forall|k: int| 0 <= k < len implies #[trigger] c[k] == 0 by {}
        lemma_peval_zero_tail(c, e, 0, len);
        lemma_mul_basics(0, bv);
    } else {
        lemma_conv_rows_value(a, b, e, n - 1);
        let prev = conv_rows(a, b, n - 1);
        let sh = scaled_shift(b, a[n - 1], n - 1, len);
        assert(c =~= xor_seq(prev, sh));
        lemma_peval_scaled_shift(b, a[n - 1], e, n - 1, len);
        lemma_peval_xor(prev, sh, e, len);
        lemma_peval_bound(a, e, n - 1);
        lemma_power_term(e, n - 1);
        let t = gf_mul(a[n - 1], alpha_pow(e * (n - 1)));
        lemma_mul_basics(a[n - 1], alpha_pow(e * (n - 1)));
        let pa = peval(a, e, n - 1);
        lemma_mul_basics(pa, bv);
        lemma_mul_basics(t, bv);
        lemma_mul_distrib(bv, pa, t);
        lemma_mul_basics(pa ^ t, bv);
    }
}

/// Trimming drops only zero coefficients.
pub proof fn lemma_trim_tail(p: Seq<u8>)
    requires
        p.len() >= 1,
    ensures
        1 <= trim(p).len() <= p.len(),
        forall|i: int| 0 <= i < trim(p).len() ==> #[trigger] trim(p)[i] == p[i],
        forall|i: int| trim(p).len() <= i < p.len() ==> #[trigger] p[i] == 0,
    decreases p.len(),
{
    if p.len() > 1 && p.last() == 0 {
        let q = p.drop_last();
        lemma_trim_tail(q);
        assert(trim(p) == trim(q));
        assert forall|i: int| trim(p).len() <= i < p.len() implies #[trigger] p[i] == 0 by {
            if i < q.len() {
                assert(q[i] == p[i]);
            }
        }
        assert forall|i: int| 0 <= i < trim(p).len() implies #[trigger] trim(p)[i] == p[i] by {
            assert(q[i] == p[i]);
        }
    }
}

/// Trimming keeps the value.
pub proof fn lemma_value_trim(p: Seq<u8>, e: int)
    requires
        p.len() >= 1,
    ensures
        value_at(trim(p), e) == value_at(p, e),
        field_elems(p) ==> field_elems(trim(p)),
{
    lemma_trim_tail(p);
    let t = trim(p);
    lemma_peval_zero_tail(p, e, t.len() as int, p.len() as int);
    lemma_peval_prefix(t, p, e, t.len() as int);
}

/// The value of a product is the product of the values.
pub proof fn lemma_value_product(a: Seq<u8>, b: Seq<u8>, e: int)
    requires
        field_elems(a),
        field_elems(b),
        a.len() >= 1,
        b.len() >= 1,
        e >= 0,
    ensures
        value_at(poly_product(a, b), e) == gf_mul(value_at(a, e), value_at(b, e)),
        field_elems(poly_product(a, b)),
        poly_product(a, b).len() >= 1,
{
    lemma_conv_rows_value(a, b, e, a.len() as int);
    let c = conv_rows(a, b, a.len() as int);
    assert(c =~= Seq::new((a.len() + b.len() - 1) as nat, |k: int| conv_upto(a, b, k, a.len() as int)));
    lemma_value_trim(c, e);
    lemma_trim_tail(c);
}

/// The value of p(x) (x + r) is (α^e + r) p(α^e).
pub proof fn lemma_value_mul_linear(p: Seq<u8>, r: u8, e: int)
    requires
        field_elems(p),
        p.len() >= 1,
        r < 128,
        e >= 0,
    ensures
        value_at(mul_linear(p, r), e) == gf_mul(alpha_pow(e) ^ r, value_at(p, e)),
        field_elems(mul_linear(p, r)),
{
    let len = p.len() as int + 1;
    let m = mul_linear(p, r);
    let s1 = scaled_shift(p, 1, 1, len);
    let s0 = scaled_shift(p, r, 0, len);
    assert forall|i: int| 0 <= i < len implies #[trigger] m[i] == xor_seq(s1, s0)[i] by {
        let hi = if i >= 1 { p[i - 1] } else { 0u8 };
        let lo = if i < p.len() { gf_mul(p[i], r) } else { 0u8 };
        if i >= 1 {
            lemma_mul_basics(p[i - 1], 1);
        }
        if i < p.len() {
            lemma_mul_basics(r, p[i]);
        }
        assert(s1[i] == hi);
        assert(s0[i] == lo);
        assert(m[i] == hi ^ lo);
    }
    assert(m =~= xor_seq(s1, s0));
    lemma_peval_scaled_shift(p, 1, e, 1, len);
    lemma_peval_scaled_shift(p, r, e, 0, len);
    lemma_peval_xor(s1, s0, e, len);
    lemma_power_term(e, 1);
    lemma_alpha_pow_zero();
    let ae = alpha_pow(e);
    let v = value_at(p, e);
    lemma_peval_bound(p, e, p.len() as int);
    lemma_mul_basics(ae, 1);
    lemma_mul_basics(r, 1);
    lemma_mul_basics(ae, v);
    lemma_mul_basics(r, v);
    lemma_mul_distrib(v, ae, r);
    lemma_mul_basics(v, ae ^ r);
    assert forall|i: int| 0 <= i < m.len() implies #[trigger] m[i] < 128 by {
        assert(s1[i] < 128 && s0[i] < 128);
        lemma_xor_facts(s1[i], s0[i], 0);
    }
}

/// A product of linear factors has field coefficients and degree n.
pub proof fn lemma_linear_product_elems(roots: Seq<usize>, n: int)
    requires
        0 <= n <= roots.len(),
    ensures
        field_elems(linear_product(roots, n)),
        linear_product(roots, n).len() >= 1,
    decreases n,
{
    if n > 0 {
        lemma_linear_product_elems(roots, n - 1);
        let prev = linear_product(roots, n - 1);
        lemma_alpha_pow(roots[n - 1] as int);
        lemma_value_mul_linear(prev, alpha_pow(roots[n - 1] as int), 0);
        lemma_value_trim(mul_linear(prev, alpha_pow(roots[n - 1] as int)), 0);
        lemma_trim_tail(mul_linear(prev, alpha_pow(roots[n - 1] as int)));
    }
}

/// α^e is a root of a product of linear factors (x + α^c) when one of the
/// exponents c names the same field element.
pub proof fn lemma_linear_product_root(roots: Seq<usize>, n: int, e: int, i: int)
    requires
        0 <= i < n <= roots.len(),
        e >= 0,
        alpha_pow(roots[i] as int) == alpha_pow(e),
    ensures
        value_at(linear_product(roots, n), e) == 0,
    decreases n,
{
    let prev = linear_product(roots, n - 1);
    let r = alpha_pow(roots[n - 1] as int);
    lemma_linear_product_elems(roots, n - 1);
    lemma_alpha_pow(roots[n - 1] as int);
    lemma_alpha_pow(e);
    lemma_value_mul_linear(prev, r, e);
    lemma_value_trim(mul_linear(prev, r), e);
    lemma_peval_bound(prev, e, prev.len() as int);
    lemma_xor_facts(alpha_pow(e), r, 0);
    if i == n - 1 {
        lemma_mul_basics(0, value_at(prev, e));
    } else {
        lemma_linear_product_root(roots, n - 1, e, i);
        lemma_mul_basics(alpha_pow(e) ^ r, 0);
    }
}

/// Coefficient i of p, zero outside its range.
pub open spec fn coef(p: Seq<u8>, i: int) -> u8 {
    if 0 <= i < p.len() {
        p[i]
    } else {
        0u8
    }
}

/// Σ_(i < n) a_i b_(k-i) with coefficients outside the ranges read as zero.
pub open spec fn conv_full(a: Seq<u8>, b: Seq<u8>, k: int, n: int) -> u8
    decreases n,
{
    if n <= 0 {
        0
    } else {
        conv_full(a, b, k, n - 1) ^ gf_mul(coef(a, n - 1), coef(b, k - (n - 1)))
    }
}

proof fn lemma_conv_full_upto(a: Seq<u8>, b: Seq<u8>, k: int, n: int)
    requires
        0 <= n <= a.len(),
    ensures
        conv_upto(a, b, k, n) == conv_full(a, b, k, n),
    decreases n,
{
    if n > 0 {
        lemma_conv_full_upto(a, b, k, n - 1);
    }
}

/// Terms past the ranges of a or past k add nothing.
proof fn lemma_conv_full_extend(a: Seq<u8>, b: Seq<u8>, k: int, n: int, m: int)
    requires
        0 <= n <= m,
        n >= a.len() || n > k,
    ensures
        conv_full(a, b, k, m) == conv_full(a, b, k, n),
    decreases m - n,
{
    if m > n {
        lemma_conv_full_extend(a, b, k, n, m - 1);
        assert(gf_mul(coef(a, m - 1), coef(b, k - (m - 1))) == 0);
        lemma_xor_facts(conv_full(a, b, k, n), 0, 0);
    }
}

/// The first m terms of a * b at k are the last m terms of b * a at k, read backwards.
proof fn lemma_conv_full_reversed(a: Seq<u8>, b: Seq<u8>, k: int, m: int)
    requires
        field_elems(a),
        field_elems(b),
        k >= 0,
        0 <= m <= k + 1,
    ensures
        conv_full(a, b, k, m) == conv_full(b, a, k, k + 1) ^ conv_full(b, a, k, k + 1 - m),
    decreases m,
{
    let f = conv_full(b, a, k, k + 1);
    if m == 0 {
        lemma_xor_facts(f, 0, 0);
    } else {
        lemma_conv_full_reversed(a, b, k, m - 1);
        let i = m - 1;
        let x = coef(a, i);
        let y = coef(b, k - i);
        lemma_mul_basics(x, y);
        let t = gf_mul(x, y);
        let r1 = conv_full(b, a, k, k + 1 - i);
        let r0 = conv_full(b, a, k, k - i);
        assert(k - (k - i) == i);
        assert(r1 == r0 ^ gf_mul(y, x));
        lemma_xor_facts(f, r0 ^ t, t);
        lemma_xor_facts(r0, t, t);
        lemma_xor_facts(t, t, 0);
        lemma_xor_facts(r0, 0, 0);
    }
}

/// The product of two polynomials with nonzero leading coefficients has the
/// summed degree, and its leading coefficient is the product of theirs.
pub proof fn lemma_poly_product_len(a: Seq<u8>, b: Seq<u8>)
    requires
        field_elems(a),
        field_elems(b),
        a.len() >= 1,
        b.len() >= 1,
        a.last() != 0,
        b.last() != 0,
    ensures
        poly_product(a, b).len() == a.len() + b.len() - 1,
        poly_product(a, b).last() == gf_mul(a.last(), b.last()),
        poly_product(a, b).last() != 0,
{
    let la = a.len() as int;
    let lb = b.len() as int;
    let c = Seq::new((la + lb - 1) as nat, |k: int| conv_upto(a, b, k, la));
    let top = la + lb - 2;
    crate::generator_facts::lemma_conv_high_zero(a, b, top, la - 1);
    lemma_mul_basics(a.last(), b.last());
    lemma_xor_facts(gf_mul(a.last(), b.last()), 0, 0);
    assert(c[top] == gf_mul(a[la - 1], b[top - (la - 1)]));
    assert(c.last() != 0);
    assert(trim(c) == c);
}

/// Multiplication of polynomials commutes.
pub proof fn lemma_poly_product_commutes(a: Seq<u8>, b: Seq<u8>)
    requires
        field_elems(a),
        field_elems(b),
        a.len() >= 1,
        b.len() >= 1,
    ensures
        poly_product(a, b) == poly_product(b, a),
{
    let la = a.len() as int;
    let lb = b.len() as int;
    let c1 = Seq::new((la + lb - 1) as nat, |k: int| conv_upto(a, b, k, la));
    let c2 = Seq::new((lb + la - 1) as nat, |k: int| conv_upto(b, a, k, lb));
    assert forall|k: int| 0 <= k < c1.len() implies #[trigger] c1[k] == c2[k] by {
        let big = la + lb + k + 1;
        lemma_conv_full_upto(a, b, k, la);
        lemma_conv_full_upto(b, a, k, lb);
        lemma_conv_full_extend(a, b, k, la, big);
        lemma_conv_full_extend(a, b, k, k + 1, big);
        lemma_conv_full_extend(b, a, k, lb, big);
        lemma_conv_full_extend(b, a, k, k + 1, big);
        lemma_conv_full_reversed(a, b, k, k + 1);
        lemma_xor_facts(conv_full(b, a, k, k + 1), 0, 0);
    }
    assert(c1 =~= c2);
}

} // verus!
