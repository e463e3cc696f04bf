//! BCH(127,64) code over GF(2^7) with designed distance 2T + 1: a systematic
//! encoder and a syndrome decoder that corrects every pattern of up to T
//! errors (exhaustive search for up to three errors, Peterson-Gorenstein-Zierler
//! with Chien search for more).

use crate::gf::{
    alpha_pow, exp_val, gf_inv, gf_mul, lemma_alpha_pow, lemma_alpha_pow_injective, lemma_alpha_pow_zero,
    lemma_inv, lemma_mul_alpha_pow, lemma_mul_assoc, lemma_mul_basics, lemma_mul_distrib, lemma_tables,
    lemma_xor_facts, log_alpha, Gf2m,
};
use crate::bch_distance::lemma_decoded_data_is_exact;
use crate::codewords::lemma_decoded_reencodes;
use crate::pgz::{
    explained_by_size, hankel, hankel_row, hankel_rhs, lemma_hankel_nonsingular, lemma_pgz_roots, lemma_pgz_solution, locator,
};
use crate::gf_linear::{
    elim_row, lemma_dependent_column, lemma_elim_row, lemma_identity_solves, lemma_nonsingular_transfer,
    lemma_same_trans, lemma_scale_row, lemma_swap_rows, nonsingular, rows, same_solutions, scale_row, solves,
    square_rows, unit_cols, vec_ok, zeros,
};
use vstd::prelude::*;
use vstd::set_lib::*;

verus! {

pub const M: usize = 7;
pub const N: usize = 127;
pub const K: usize = 64;
pub const T: usize = 10;
pub const PRIMITIVE_POLY: u16 = 131;

// ---------------------------------------------------------------------------
// Polynomials over GF(2^7), coefficient i of x^i at index i.

/// Drops zero coefficients of the highest degree, keeping at least one.
pub open spec fn trim(p: Seq<u8>) -> Seq<u8>
    decreases p.len(),
{
    if p.len() > 1 && p.last() == 0 {
        trim(p.drop_last())
    } else {
        p
    }
}

/// Coefficient k of a * b, summed over the first n coefficients of a.
pub open spec fn conv_upto(a: Seq<u8>, b: Seq<u8>, k: int, n: int) -> u8
    decreases n,
{
    if n <= 0 {
        0
    } else {
        conv_upto(a, b, k, n - 1) ^ (if 0 <= k - (n - 1) < b.len() {
            gf_mul(a[n - 1], b[k - (n - 1)])
        } else {
            0u8
        })
    }
}

/// The product a * b, trimmed.
pub open spec fn poly_product(a: Seq<u8>, b: Seq<u8>) -> Seq<u8> {
    trim(Seq::new((a.len() + b.len() - 1) as nat, |k: int| conv_upto(a, b, k, a.len() as int)))
}

/// The product p * (x + r).
pub open spec fn mul_linear(p: Seq<u8>, r: u8) -> Seq<u8> {
    Seq::new(
        p.len() + 1,
        |i: int|
            (if i >= 1 {
                p[i - 1]
            } else {
                0u8
            }) ^ (if i < p.len() {
                gf_mul(p[i], r)
            } else {
                0u8
            }),
    )
}

/// Cyclotomic coset of idx under doubling modulo 127, in the order visited.
pub open spec fn coset_from(c: Seq<usize>, k: usize) -> Seq<usize>
    decreases 127 - c.len(),
{
    if c.contains(k) || c.len() >= 127 {
        c
    } else {
        coset_from(c.push(k), ((k * 2) % 127) as usize)
    }
}

pub open spec fn coset(idx: usize) -> Seq<usize> {
    coset_from(Seq::empty(), idx)
}

/// Product of (x + α^c) over the first n exponents c of roots.
pub open spec fn linear_product(roots: Seq<usize>, n: int) -> Seq<u8>
    decreases n,
{
    if n <= 0 {
        seq![1u8]
    } else {
        trim(mul_linear(linear_product(roots, n - 1), alpha_pow(roots[n - 1] as int)))
    }
}

/// Minimal polynomial of α^idx: the product of (x + α^c) over its coset.
pub open spec fn minimal_poly(idx: usize) -> Seq<u8> {
    linear_product(coset(idx), coset(idx).len() as int)
}

pub open spec fn seen_contains(seen: Seq<Seq<usize>>, idx: usize) -> bool {
    exists|t: int| 0 <= t < seen.len() && #[trigger] seen[t].contains(idx)
}

/// Cosets used and generator built after the first n odd exponents 1, 3, ...
pub open spec fn generator_state(n: nat) -> (Seq<Seq<usize>>, Seq<u8>)
    decreases n,
{
    if n == 0 {
        (Seq::empty(), seq![1u8])
    } else {
        let (seen, g) = generator_state((n - 1) as nat);
        let idx = ((2 * (n - 1) + 1) % 127) as usize;
        if seen_contains(seen, idx) {
            (seen, g)
        } else {
            (seen.push(coset(idx)), poly_product(g, minimal_poly(idx)))
        }
    }
}

/// The generator polynomial: the least common multiple of the minimal
/// polynomials of α^1, ..., α^(2T).
pub open spec fn generator() -> Seq<u8> {
    generator_state(T as nat).1
}

pub open spec fn field_elems(p: Seq<u8>) -> bool {
    forall|i: int| 0 <= i < p.len() ==> #[trigger] p[i] < 128
}

proof fn lemma_trim(p: Seq<u8>)
    requires
        p.len() >= 1,
    ensures
        trim(p).len() >= 1,
        trim(p).len() <= p.len(),
        forall|i: int| 0 <= i < trim(p).len() ==> #[trigger] trim(p)[i] == p[i],
    decreases p.len(),
{
    if p.len() > 1 && p.last() == 0 {
        lemma_trim(p.drop_last());
    }
}

/// The laws of polynomial multiplication: coefficient k of a * b is the sum
/// of a_i b_j over i + j = k, the product of polynomials with nonzero leading
/// coefficients has the summed degree, and multiplication commutes.
pub proof fn lemma_poly_mul_law(a: Seq<u8>, b: Seq<u8>)
    requires
        field_elems(a),
        field_elems(b),
        a.len() >= 1,
        b.len() >= 1,
        a.last() != 0,
        b.last() != 0,
    ensures
        poly_product(a, b).len() == a.len() + b.len() - 1,
        forall|k: int| 0 <= k < a.len() + b.len() - 1 ==> #[trigger] poly_product(a, b)[k] == conv_upto(a, b, k, a.len() as int),
        poly_product(a, b) == poly_product(b, a),
{
    let c = Seq::new((a.len() + b.len() - 1) as nat, |k: int| conv_upto(a, b, k, a.len() as int));
    crate::poly_eval::lemma_poly_product_len(a, b);
    crate::poly_eval::lemma_trim_tail(c);
    crate::poly_eval::lemma_poly_product_commutes(a, b);
}

/// Multiplies two polynomials.
pub fn poly_mul(a: &Vec<u8>, b: &Vec<u8>, gf: &Gf2m) -> (r: Vec<u8>)
    requires
        gf.wf(),
        a.len() >= 1,
        b.len() >= 1,
        a.len() + b.len() <= usize::MAX,
        field_elems(a@),
        field_elems(b@),
    ensures
        r@ == poly_product(a@, b@),
        field_elems(r@),
        1 <= r.len() <= a.len() + b.len() - 1,
{
    let len = a.len() + b.len() - 1;
    let mut r: Vec<u8> = vec![0u8; len];
    let mut i: usize = 0;
    while i < a.len()
        invariant
            gf.wf(),
            i <= a.len(),
            r.len() == len,
            len == a.len() + b.len() - 1,
            field_elems(a@),
            field_elems(b@),
            forall|k: int| 0 <= k < len ==> #[trigger] r@[k] == conv_upto(a@, b@, k, i as int),
            forall|k: int| 0 <= k < len ==> #[trigger] r@[k] < 128,
        decreases a.len() - i,
    {
        let ai = a[i];
        let mut j: usize = 0;
        proof {
            assert forall|k: int| 0 <= k < len implies #[trigger] r@[k] == conv_upto(a@, b@, k, i as int) ^ 0u8 by {
                lemma_xor_facts(conv_upto(a@, b@, k, i as int), 0u8, 0u8);
            }
        }
        while j < b.len()
            invariant
                gf.wf(),
                i < a.len(),
                j <= b.len(),
                r.len() == len,
                len == a.len() + b.len() - 1,
                ai == a@[i as int],
                field_elems(a@),
                field_elems(b@),
                forall|k: int|
                    0 <= k < len ==> #[trigger] r@[k] == conv_upto(a@, b@, k, i as int) ^ (if i <= k
                        < i + j {
                        gf_mul(a@[i as int], b@[k - i])
                    } else {
                        0u8
                    }),
                forall|k: int| 0 <= k < len ==> #[trigger] r@[k] < 128,
            decreases b.len() - j,
        {
            let bj = b[j];
            let ghost before = r@;
            if ai != 0 && bj != 0 {
                let m = gf.mul(ai, bj);
                let cur = r[i + j];
                r.set(i + j, cur ^ m);
            }
            proof {
                lemma_mul_basics(ai, bj);
                assert forall|k: int| 0 <= k < len implies #[trigger] r@[k] == conv_upto(a@, b@, k, i as int) ^ (if i <= k < i + j + 1 {
                    gf_mul(a@[i as int], b@[k - i])
                } else {
                    0u8
                }) && r@[k] < 128 by {
                    let c = conv_upto(a@, b@, k, i as int);
                    lemma_xor_facts(c, 0u8, 0u8);
                    if k == i + j {
                        lemma_xor_facts(c, 0u8, gf_mul(ai, bj));
                        lemma_xor_facts(before[k], gf_mul(ai, bj), 0u8);
                    }
                }
            }
            j += 1;
        }
        proof {
            assert forall|k: int| 0 <= k < len implies #[trigger] r@[k] == conv_upto(a@, b@, k, i + 1) by {
                lemma_xor_facts(conv_upto(a@, b@, k, i as int), 0u8, 0u8);
            }
        }
        i += 1;
    }
    let ghost full = r@;
    proof {
        assert(full =~= Seq::new(len as nat, |k: int| conv_upto(a@, b@, k, a.len() as int)));
    }
    while r.len() > 1 && r[r.len() - 1] == 0
        invariant
            1 <= r.len() <= len,
            trim(r@) == trim(full),
            forall|k: int| 0 <= k < r.len() ==> #[trigger] r@[k] < 128,
        decreases r.len(),
    {
        let ghost pre = r@;
        r.pop();
        assert(r@ =~= pre.drop_last());
    }
    r
}

/// A duplicate-free sequence of exponents below 127 that misses some
/// exponent has fewer than 127 entries.
proof fn lemma_pigeonhole(s: Seq<usize>, k: usize)
    requires
        s.no_duplicates(),
        forall|i: int| 0 <= i < s.len() ==> #[trigger] s[i] < 127,
        k < 127,
        !s.contains(k),
    ensures
        s.len() < 127,
{
    let t = s.map_values(|x: usize| x as int);
    assert(t.no_duplicates()) by {
        assert forall|i: int, j: int| 0 <= i < t.len() && 0 <= j < t.len() && i != j implies t[i] != t[j] by {
            assert(s[i] != s[j]);
        }
    }
    t.unique_seq_to_set();
    let r = set_int_range(0, 127).remove(k as int);
    lemma_int_range(0, 127);
    assert forall|x: int| t.to_set().contains(x) implies r.contains(x) by {
        let i = choose|i: int| 0 <= i < t.len() && t[i] == x;
        assert(s[i] as int == x);
        assert(s[i] != k);
    }
    assert(t.to_set().subset_of(r));
    lemma_len_subset(t.to_set(), r);
}

/// Whether a vector of exponents contains x.
fn vec_contains(v: &Vec<usize>, x: usize) -> (b: bool)
    ensures
        b == v@.contains(x),
{
    let mut i: usize = 0;
    while i < v.len()
        invariant
            i <= v.len(),
            forall|j: int| 0 <= j < i ==> v@[j] != x,
        decreases v.len() - i,
    {
        if v[i] == x {
            return true;
        }
        i += 1;
    }
    false
}

/// Removes zero coefficients of the highest degree, keeping at least one.
fn trim_poly(r: &mut Vec<u8>)
    requires
        old(r).len() >= 1,
    ensures
        final(r)@ == trim(old(r)@),
        final(r).len() >= 1,
{
    while r.len() > 1 && r[r.len() - 1] == 0
        invariant
            r.len() >= 1,
            trim(r@) == trim(old(r)@),
        decreases r.len(),
    {
        let ghost pre = r@;
        r.pop();
        assert(r@ =~= pre.drop_last());
    }
}

/// Multiplies a polynomial by (x + root).
fn mul_by_linear(p: &Vec<u8>, root: u8, gf: &Gf2m) -> (np: Vec<u8>)
    requires
        gf.wf(),
        root < 128,
        field_elems(p@),
        p.len() < usize::MAX,
    ensures
        np@ == mul_linear(p@, root),
        field_elems(np@),
{
    let mut np: Vec<u8> = vec![0u8; p.len() + 1];
    let mut i: usize = 0;
    proof {
        lemma_xor_facts(0u8, 0u8, 0u8);
    }
    while i < p.len()
        invariant
            gf.wf(),
            root < 128,
            field_elems(p@),
            i <= p.len(),
            np.len() == p.len() + 1,
            forall|x: int|
                0 <= x <= p.len() ==> #[trigger] np@[x] == (if 1 <= x <= i {
                    p@[x - 1]
                } else {
                    0u8
                }) ^ (if x < i {
                    gf_mul(p@[x], root)
                } else {
                    0u8
                }),
            forall|x: int| 0 <= x <= p.len() ==> #[trigger] np@[x] < 128,
        decreases p.len() - i,
    {
        let ghost before = np@;
        let m = gf.mul(p[i], root);
        let cur = np[i];
        np.set(i, cur ^ m);
        let nxt = np[i + 1];
        np.set(i + 1, nxt ^ p[i]);
        proof {
            lemma_mul_basics(p@[i as int], root);
            assert forall|x: int| 0 <= x <= p.len() implies #[trigger] np@[x] == (if 1 <= x <= i + 1 {
                p@[x - 1]
            } else {
                0u8
            }) ^ (if x < i + 1 {
                gf_mul(p@[x], root)
            } else {
                0u8
            }) && np@[x] < 128 by {
                if x == i {
                    let a = if 1 <= x { p@[x - 1] } else { 0u8 };
                    lemma_xor_facts(a, 0u8, m);
                    lemma_xor_facts(a, m, 0u8);
                } else if x == i + 1 {
                    lemma_xor_facts(0u8, 0u8, p@[i as int]);
                    lemma_xor_facts(p@[i as int], 0u8, 0u8);
                }
            }
        }
        i += 1;
    }
    assert(np@ =~= mul_linear(p@, root));
    np
}

pub(crate) proof fn lemma_linear_product_len(roots: Seq<usize>, n: int)
    requires
        0 <= n,
    ensures
        1 <= linear_product(roots, n).len() <= n + 1,
        field_elems(linear_product(roots, n)),
    decreases n,
{
    if n > 0 {
        lemma_linear_product_len(roots, n - 1);
        let p = linear_product(roots, n - 1);
        let q = mul_linear(p, alpha_pow(roots[n - 1] as int));
        lemma_alpha_pow(roots[n - 1] as int);
        assert forall|i: int| 0 <= i < q.len() implies #[trigger] q[i] < 128 by {
            let a = if i >= 1 { p[i - 1] } else { 0u8 };
            let b = if i < p.len() { gf_mul(p[i], alpha_pow(roots[n - 1] as int)) } else { 0u8 };
            if i < p.len() {
                lemma_mul_basics(p[i], alpha_pow(roots[n - 1] as int));
            }
            lemma_xor_facts(a, b, 0u8);
        }
        lemma_trim(q);
    }
}

/// Minimal polynomial of α^idx over GF(2).
fn minimal_polynomial(gf: &Gf2m, idx: usize) -> (p: Vec<u8>)
    requires
        gf.wf(),
        idx < 127,
    ensures
        p@ == minimal_poly(idx),
        field_elems(p@),
        1 <= p.len() <= 128,
{
    let mut conj: Vec<usize> = Vec::new();
    let mut vis: Vec<bool> = vec![false; 127];
    let mut k = idx;
    while !vis[k]
        invariant
            k < 127,
            vis.len() == 127,
            conj@.no_duplicates(),
            forall|i: int| 0 <= i < conj.len() ==> #[trigger] conj@[i] < 127,
            forall|x: int| 0 <= x < 127 ==> #[trigger] vis@[x] == conj@.contains(x as usize),
            coset_from(conj@, k) == coset(idx),
        decreases 127 - conj.len(),
    {
        proof {
            lemma_pigeonhole(conj@, k);
        }
        let ghost pre = conj@;
        vis.set(k, true);
        conj.push(k);
        proof {
            assert forall|x: int| 0 <= x < 127 implies #[trigger] vis@[x] == conj@.contains(x as usize) by {
                if x == k as int {
                    assert(conj@[conj.len() - 1] == k);
                } else if pre.contains(x as usize) {
                    let j = choose|j: int| 0 <= j < pre.len() && pre[j] == x as usize;
                    assert(conj@[j] == x as usize);
                } else {
                    assert forall|j: int| 0 <= j < conj.len() implies conj@[j] != x as usize by {
                        if j < pre.len() {
                            assert(conj@[j] == pre[j]);
                        }
                    }
                }
            }
        }
        k = (k * 2) % 127;
    }
    proof {
        assert(conj@.contains(k));
    }
    let mut p: Vec<u8> = vec![1u8];
    let mut t: usize = 0;
    proof {
        lemma_pigeonhole_len(conj@);
    }
    while t < conj.len()
        invariant
            gf.wf(),
            t <= conj.len(),
            conj.len() <= 127,
            conj@ == coset(idx),
            forall|i: int| 0 <= i < conj.len() ==> #[trigger] conj@[i] < 127,
            p@ == linear_product(conj@, t as int),
            field_elems(p@),
            1 <= p.len() <= t + 1,
        decreases conj.len() - t,
    {
        let root = gf.exp[conj[t]];
        proof {
            lemma_alpha_pow(conj@[t as int] as int);
            lemma_tables();
            assert(root == alpha_pow(conj@[t as int] as int));
        }
        let mut np = mul_by_linear(&p, root, gf);
        trim_poly(&mut np);
        proof {
            lemma_linear_product_len(conj@, t + 1);
        }
        p = np;
        t += 1;
    }
    p
}

/// A duplicate-free sequence of exponents below 127 has at most 127 entries.
proof fn lemma_pigeonhole_len(s: Seq<usize>)
    requires
        s.no_duplicates(),
        forall|i: int| 0 <= i < s.len() ==> #[trigger] s[i] < 127,
    ensures
        s.len() <= 127,
{
    if s.len() > 0 {
        let d = s.drop_last();
        assert(d.no_duplicates());
        assert(!d.contains(s.last()));
        lemma_pigeonhole(d, s.last());
    }
}

pub open spec fn seen_view(seen: Seq<Vec<usize>>) -> Seq<Seq<usize>> {
    seen.map_values(|s: Vec<usize>| s@)
}

/// Whether an earlier coset already holds idx.
fn seen_contains_exec(seen: &Vec<Vec<usize>>, idx: usize) -> (b: bool)
    ensures
        b == seen_contains(seen_view(seen@), idx),
{
    let mut t: usize = 0;
    while t < seen.len()
        invariant
            t <= seen.len(),
            forall|u: int| 0 <= u < t ==> !(#[trigger] seen_view(seen@)[u]).contains(idx),
        decreases seen.len() - t,
    {
        if vec_contains(&seen[t], idx) {
            assert(seen_view(seen@)[t as int].contains(idx));
            return true;
        }
        t += 1;
    }
    false
}

/// Generator polynomial of the code: the product of the distinct minimal
/// polynomials of α, α^3, ..., α^(2T-1).
fn generator_polynomial(gf: &Gf2m) -> (g: Vec<u8>)
    requires
        gf.wf(),
    ensures
        g@ == generator(),
        field_elems(g@),
        g.len() >= 1,
{
    let mut seen: Vec<Vec<usize>> = Vec::new();
    let mut g: Vec<u8> = vec![1u8];
    let mut i: usize = 1;
    let ghost mut n: nat = 0;
    while i < 2 * T
        invariant
            gf.wf(),
            i == 2 * n + 1,
            n <= T,
            (seen_view(seen@), g@) == generator_state(n),
            field_elems(g@),
            1 <= g.len() <= 1 + 127 * n,
        decreases T - n,
    {
        let idx = i % N;
        if !seen_contains_exec(&seen, idx) {
            let mp = minimal_polynomial(gf, idx);
            let mut c: Vec<usize> = Vec::new();
            let mut k = idx;
            loop
                invariant
                    k < 127,
                    c@.no_duplicates(),
                    forall|x: int| 0 <= x < c.len() ==> #[trigger] c@[x] < 127,
                    coset_from(c@, k) == coset(idx),
                ensures
                    c@ == coset(idx),
                decreases 127 - c.len(),
            {
                if vec_contains(&c, k) {
                    break;
                }
                proof {
                    lemma_pigeonhole(c@, k);
                }
                c.push(k);
                k = (k * 2) % N;
            }
            let ghost pre = seen@;
            seen.push(c);
            proof {
                assert(seen_view(seen@) =~= seen_view(pre).push(coset(idx)));
            }
            g = poly_mul(&g, &mp, gf);
        }
        i += 2;
        proof {
            n = n + 1;
        }
    }
    g
}

/// Systematic BCH encoder and decoder.
pub struct BchEncoder {
    pub gf: Gf2m,
    pub gen_poly: Vec<u8>,
}

/// The parity-check input: data bits placed at degrees 63..126.
pub open spec fn message_word(d: Seq<bool>) -> Seq<u8> {
    Seq::new(127, |x: int| if 63 <= x && x - 63 < d.len() && d[x - 63] { 1u8 } else { 0u8 })
}

/// r with g * x^off added.
pub open spec fn xor_shifted(r: Seq<u8>, g: Seq<u8>, off: int) -> Seq<u8> {
    Seq::new(r.len(), |x: int| if off <= x < off + g.len() { r[x] ^ g[x - off] } else { r[x] })
}

/// One step of long division by g at degree i.
pub open spec fn division_step(r: Seq<u8>, g: Seq<u8>, i: int) -> Seq<u8> {
    if r[i] != 0 {
        xor_shifted(r, g, i - (g.len() - 1))
    } else {
        r
    }
}

/// Long division of r by g over degrees i, i - 1, ..., deg g: the remainder.
pub open spec fn reduce(r: Seq<u8>, g: Seq<u8>, i: int) -> Seq<u8>
    decreases i + 1,
{
    if i < 0 || i < g.len() - 1 {
        r
    } else {
        reduce(division_step(r, g, i), g, i - 1)
    }
}

/// The systematic codeword of up to 64 data bits: the remainder of
/// x^63 * d(x) modulo g at degrees 0..62, the data bits at degrees 63..126.
pub open spec fn codeword_of(d: Seq<bool>, g: Seq<u8>) -> Seq<bool> {
    let rem = reduce(message_word(d), g, 126);
    Seq::new(127, |x: int| if x < 63 { rem[x] != 0 } else { x - 63 < d.len() && d[x - 63] })
}

/// Codewords of consecutive chunks of 64 data bits, the last chunk padded.
pub open spec fn encode_chunks(d: Seq<bool>, g: Seq<u8>) -> Seq<bool>
    decreases d.len(),
{
    if d.len() == 0 {
        Seq::empty()
    } else if d.len() <= 64 {
        codeword_of(d, g)
    } else {
        codeword_of(d.take(64), g) + encode_chunks(d.skip(64), g)
    }
}

impl BchEncoder {
    /// The tables are those of GF(2^7) and the generator is the code's.
    pub open spec fn wf(&self) -> bool {
        &&& self.gf.wf()
        &&& self.gen_poly@ == generator()
        &&& self.gen_poly.len() >= 1
    }

    pub fn new() -> (e: Self)
        ensures
            e.wf(),
    {
        let gf = Gf2m::new();
        let gen_poly = generator_polynomial(&gf);
        BchEncoder { gf, gen_poly }
    }

    /// Encodes data in chunks of K bits, each into an N-bit codeword.
    pub fn encode(&self, data: &[bool]) -> (out: Vec<bool>)
        requires
            self.wf(),
        ensures
            out@ == encode_chunks(data@, self.gen_poly@),
    {
        let mut out: Vec<bool> = Vec::new();
        let mut start: usize = 0;
        assert(data@.skip(0) =~= data@);
        assert(out@ + encode_chunks(data@, self.gen_poly@) =~= encode_chunks(data@, self.gen_poly@));
        while start < data.len()
            invariant
                self.wf(),
                start <= data.len(),
                out@ + encode_chunks(data@.skip(start as int), self.gen_poly@) == encode_chunks(data@, self.gen_poly@),
            decreases data.len() - start,
        {
            let end = if data.len() - start > K { start + K } else { data.len() };
            let mut cw = self.encode_cw(&data[start..end]);
            let ghost rest = data@.skip(start as int);
            proof {
                if data.len() - start > K {
                    assert(data@.subrange(start as int, end as int) =~= rest.take(64));
                    assert(rest.skip(64) =~= data@.skip(end as int));
                } else {
                    assert(data@.subrange(start as int, end as int) =~= rest);
                    assert(data@.skip(end as int) =~= Seq::<bool>::empty());
                }
            }
            let ghost pre = out@;
            out.append(&mut cw);
            proof {
                if data.len() - start > K {
                    assert(pre + encode_chunks(rest, self.gen_poly@) =~= out@ + encode_chunks(data@.skip(end as int), self.gen_poly@));
                } else {
                    assert(out@ + encode_chunks(data@.skip(end as int), self.gen_poly@) =~= out@);
                }
            }
            start = end;
        }
        proof {
            assert(data@.skip(start as int) =~= Seq::<bool>::empty());
            assert(out@ + Seq::<bool>::empty() =~= out@);
        }
        out
    }

    /// Encodes one chunk of at most K data bits.
    pub fn encode_cw(&self, data: &[bool]) -> (cw: Vec<bool>)
        requires
            self.wf(),
        ensures
            cw@ == codeword_of(data@, self.gen_poly@),
    {
        let gd = self.gen_poly.len() - 1;
        let mut rem: Vec<u8> = vec![0u8; N];
        let mut i: usize = 0;
        while i < data.len() && i < K
            invariant
                i <= K,
                i <= data.len(),
                rem.len() == 127,
                forall|x: int| 0 <= x < 127 ==> #[trigger] rem@[x] == (if 63 <= x < 63 + i && data@[x - 63] { 1u8 } else { 0u8 }),
            decreases K - i,
        {
            if data[i] {
                rem.set(N - K + i, 1);
            }
            i += 1;
        }
        assert(rem@ =~= message_word(data@));
        let ghost g = self.gen_poly@;
        let mut i: usize = N;
        while i > gd
            invariant
                self.wf(),
                g == self.gen_poly@,
                gd == g.len() - 1,
                i <= 127,
                rem.len() == 127,
                reduce(rem@, g, i - 1) == reduce(message_word(data@), g, 126),
            decreases i,
        {
            i -= 1;
            if rem[i] != 0 {
                let ghost pre = rem@;
                let mut j: usize = 0;
                while j <= gd
                    invariant
                        g == self.gen_poly@,
                        gd == g.len() - 1,
                        gd <= i < 127,
                        j <= gd + 1,
                        rem.len() == 127,
                        forall|x: int| 0 <= x < 127 ==> #[trigger] rem@[x] == (if i - gd <= x < i - gd + j {
                            pre[x] ^ g[x - (i - gd)]
                        } else {
                            pre[x]
                        }),
                    decreases gd + 1 - j,
                {
                    let cur = rem[i - gd + j];
                    rem.set(i - gd + j, cur ^ self.gen_poly[j]);
                    j += 1;
                }
                assert(rem@ =~= division_step(pre, g, i as int));
            }
        }
        let mut cw: Vec<bool> = vec![false; N];
        let mut i: usize = 0;
        while i < data.len() && i < K
            invariant
                i <= K,
                i <= data.len(),
                cw.len() == 127,
                forall|x: int| 0 <= x < 127 ==> #[trigger] cw@[x] == (63 <= x < 63 + i && data@[x - 63]),
            decreases K - i,
        {
            cw.set(N - K + i, data[i]);
            i += 1;
        }
        let mut j: usize = 0;
        while j < N - K
            invariant
                j <= 63,
                cw.len() == 127,
                rem.len() == 127,
                forall|x: int| 0 <= x < 127 ==> #[trigger] cw@[x] == (if x < j { rem@[x] != 0 } else { 63 <= x && x - 63 < data.len() && data@[x - 63] }),
            decreases N - K - j,
        {
            cw.set(j, rem[j] != 0);
            j += 1;
        }
        assert(cw@ =~= codeword_of(data@, self.gen_poly@));
        cw
    }
}

// ---------------------------------------------------------------------------
// Syndromes and decoding.

/// S_s = c(α^s) over the first n positions of a received word.
pub open spec fn syndrome_upto(cw: Seq<bool>, s: int, n: int) -> u8
    decreases n,
{
    if n <= 0 {
        0
    } else {
        syndrome_upto(cw, s, n - 1) ^ (if cw[n - 1] {
            alpha_pow(s * (n - 1))
        } else {
            0u8
        })
    }
}

/// The syndrome S_s = c(α^s) of a 127-bit word.
pub open spec fn syndrome(cw: Seq<bool>, s: int) -> u8 {
    syndrome_upto(cw, s, 127)
}

/// S_1, ..., S_2T.
pub open spec fn syndromes(cw: Seq<bool>) -> Seq<u8> {
    Seq::new(20, |i: int| syndrome(cw, i + 1))
}

pub open spec fn all_zero(syn: Seq<u8>) -> bool {
    forall|i: int| 0 <= i < syn.len() ==> #[trigger] syn[i] == 0
}

/// Syndrome S_s of a word with ones exactly at the positions e.
pub open spec fn error_syndrome(e: Seq<int>, s: int) -> u8
    decreases e.len(),
{
    if e.len() == 0 {
        0
    } else {
        error_syndrome(e.drop_last(), s) ^ alpha_pow(s * e.last())
    }
}

/// Errors at the positions e account for the syndromes syn.
pub open spec fn explains(e: Seq<int>, syn: Seq<u8>) -> bool {
    &&& syn.len() == 20
    &&& forall|i: int| 0 <= i < 20 ==> #[trigger] error_syndrome(e, i + 1) == syn[i]
}

/// Distinct positions of a 127-bit word, in increasing order.
pub open spec fn error_positions(e: Seq<int>) -> bool {
    &&& forall|i: int| 0 <= i < e.len() ==> 0 <= #[trigger] e[i] < 127
    &&& forall|i: int, j: int| 0 <= i < j < e.len() ==> e[i] < e[j]
}

/// The word with the bits at the positions e inverted.
pub open spec fn flip_all(cw: Seq<bool>, e: Seq<int>) -> Seq<bool>
    decreases e.len(),
{
    if e.len() == 0 {
        cw
    } else {
        let c = flip_all(cw, e.drop_last());
        c.update(e.last(), !c[e.last()])
    }
}

/// The data bits of a systematic codeword.
pub open spec fn data_of(cw: Seq<bool>) -> Seq<bool> {
    cw.subrange(63, 127)
}

/// d is the data of a codeword at distance at most T from cw: inverting at
/// most T bits of cw yields a word with zero syndromes whose data is d.
pub open spec fn decodes_to(cw: Seq<bool>, d: Seq<bool>) -> bool {
    exists|e: Seq<int>|
        e.len() <= T && error_positions(e) && #[trigger] explains(e, syndromes(cw)) && d == data_of(
            flip_all(cw, e),
        )
}

pub open spec fn single(j: int) -> Seq<int> {
    seq![j]
}

pub open spec fn pair(a: int, b: int) -> Seq<int> {
    seq![a, b]
}

pub open spec fn triple(a: int, b: int, c: int) -> Seq<int> {
    seq![a, b, c]
}

pub open spec fn as_ints(v: Seq<usize>) -> Seq<int> {
    v.map_values(|x: usize| x as int)
}

/// cw is a codeword or one bit away from one.
pub open spec fn near_codeword(cw: Seq<bool>) -> bool {
    all_zero(syndromes(cw)) || exists|j: int| 0 <= j < 127 && #[trigger] explains(single(j), syndromes(cw))
}

/// The data of the codeword at distance at most 1 from cw.
pub open spec fn nearest_data(cw: Seq<bool>) -> Seq<bool> {
    if all_zero(syndromes(cw)) {
        data_of(cw)
    } else {
        data_of(flip_all(cw, single(choose|j: int| 0 <= j < 127 && #[trigger] explains(single(j), syndromes(cw)))))
    }
}

/// Some pattern of at most T errors accounts for the syndromes of cw.
pub open spec fn correctable(cw: Seq<bool>) -> bool {
    exists|e: Seq<int>| error_positions(e) && e.len() <= T && #[trigger] explains(e, syndromes(cw))
}

/// The data bits of cw once a pattern of at most T errors accounting for its
/// syndromes is inverted (any such pattern gives the same data).
pub open spec fn corrected_data(cw: Seq<bool>) -> Seq<bool> {
    data_of(
        flip_all(
            cw,
            choose|e: Seq<int>| error_positions(e) && e.len() <= T && #[trigger] explains(e, syndromes(cw)),
        ),
    )
}

proof fn lemma_error_syndrome_single(j: int, s: int)
    requires
        0 <= j,
        0 <= s,
    ensures
        error_syndrome(single(j), s) == alpha_pow(s * j),
{
    assert(single(j).drop_last() =~= Seq::<int>::empty());
    assert(single(j).last() == j);
    assert(error_syndrome(Seq::<int>::empty(), s) == 0);
    lemma_xor_facts(alpha_pow(s * j), 0u8, 0u8);
}

/// A single error is located by its syndromes.
proof fn lemma_single_unique(a: int, b: int, syn: Seq<u8>)
    requires
        0 <= a < 127,
        0 <= b < 127,
        explains(single(a), syn),
        explains(single(b), syn),
    ensures
        a == b,
{
    lemma_error_syndrome_single(a, 1);
    lemma_error_syndrome_single(b, 1);
    assert(error_syndrome(single(a), 1) == syn[0]);
    assert(error_syndrome(single(b), 1) == syn[0]);
    lemma_alpha_pow_injective(a, b);
}

/// A single error has nonzero syndromes.
proof fn lemma_single_nonzero(j: int, syn: Seq<u8>)
    requires
        0 <= j < 127,
        explains(single(j), syn),
    ensures
        !all_zero(syn),
{
    lemma_error_syndrome_single(j, 1);
    lemma_alpha_pow(j);
    assert(error_syndrome(single(j), 1) == syn[0]);
}

/// Copies a slice of bits.
fn copy_bits(s: &[bool]) -> (v: Vec<bool>)
    ensures
        v@ == s@,
{
    let mut v: Vec<bool> = Vec::new();
    let mut i: usize = 0;
    while i < s.len()
        invariant
            i <= s.len(),
            v@ == s@.take(i as int),
        decreases s.len() - i,
    {
        v.push(s[i]);
        i += 1;
        assert(v@ =~= s@.take(i as int));
    }
    assert(s@.take(s.len() as int) =~= s@);
    v
}

/// Copies a row of field elements.
fn copy_row(s: &Vec<u8>) -> (v: Vec<u8>)
    ensures
        v@ == s@,
{
    let mut v: Vec<u8> = Vec::new();
    let mut i: usize = 0;
    while i < s.len()
        invariant
            i <= s.len(),
            v@ == s@.take(i as int),
        decreases s.len() - i,
    {
        v.push(s[i]);
        i += 1;
        assert(v@ =~= s@.take(i as int));
    }
    assert(s@.take(s.len() as int) =~= s@);
    v
}

/// Inverts the bits of cw at the given positions and returns the data bits.
fn flip_and_extract(cw: &Vec<bool>, positions: &Vec<usize>) -> (d: Vec<bool>)
    requires
        cw.len() >= 127,
        forall|i: int| 0 <= i < positions.len() ==> #[trigger] positions@[i] < 127,
    ensures
        d@ == data_of(flip_all(cw@, as_ints(positions@))),
        d.len() == 64,
{
    let mut corrected = copy_bits(cw.as_slice());
    let mut t: usize = 0;
    while t < positions.len()
        invariant
            t <= positions.len(),
            forall|i: int| 0 <= i < positions.len() ==> #[trigger] positions@[i] < 127,
            corrected@ == flip_all(cw@, as_ints(positions@.take(t as int))),
            corrected.len() == cw.len(),
            cw.len() >= 127,
        decreases positions.len() - t,
    {
        let p = positions[t];
        let b = corrected[p];
        corrected.set(p, !b);
        proof {
            assert(as_ints(positions@.take(t + 1)).drop_last() =~= as_ints(positions@.take(t as int)));
        }
        t += 1;
    }
    assert(positions@.take(positions.len() as int) =~= positions@);
    let mut data: Vec<bool> = Vec::new();
    let mut i: usize = 0;
    while i < K
        invariant
            i <= K,
            corrected.len() >= 127,
            data@ == corrected@.subrange(63, 63 + i),
        decreases K - i,
    {
        data.push(corrected[N - K + i]);
        i += 1;
        assert(data@ =~= corrected@.subrange(63, 63 + i));
    }
    data
}

pub open spec fn square(m: Seq<Vec<u8>>, v: int) -> bool {
    &&& m.len() == v
    &&& forall|r: int| 0 <= r < v ==> (#[trigger] m[r]).len() == v && field_elems(m[r]@)
}

/// The rows of a square matrix of field elements.
proof fn lemma_square_rows(m: Seq<Vec<u8>>, v: int)
    requires
        square(m, v),
    ensures
        square_rows(rows(m)),
        rows(m).len() == v,
{
    assert forall|r: int| 0 <= r < rows(m).len() implies (#[trigger] rows(m)[r]).len() == rows(m).len() && field_elems(
        rows(m)[r],
    ) by {
        assert(m[r].len() == v && field_elems(m[r]@));
    }
}

/// Gauss-Jordan elimination of mat * x = aug over GF(2^7); false when a
/// column has no pivot. Every step keeps the solutions of the system; it
/// succeeds exactly when the matrix is nonsingular, and then leaves the
/// identity in mat and the unique solution in aug.
fn gaussian_solve(mat: &mut Vec<Vec<u8>>, aug: &mut Vec<u8>, gf: &Gf2m) -> (ok: bool)
    requires
        gf.wf(),
        square(old(mat)@, old(mat).len() as int),
        old(aug).len() == old(mat).len(),
        field_elems(old(aug)@),
    ensures
        square(final(mat)@, old(mat).len() as int),
        final(aug).len() == old(aug).len(),
        field_elems(final(aug)@),
        same_solutions(rows(old(mat)@), old(aug)@, rows(final(mat)@), final(aug)@),
        ok == nonsingular(rows(old(mat)@)),
        ok ==> unit_cols(rows(final(mat)@), old(mat).len() as int),
        ok ==> solves(rows(old(mat)@), old(aug)@, final(aug)@),
{
    let v = mat.len();
    let ghost m0 = rows(mat@);
    let ghost b0 = aug@;
    let ghost z = zeros(v as int);
    proof {
        lemma_square_rows(mat@, v as int);
    }
    let mut col: usize = 0;
    while col < v
        invariant
            gf.wf(),
            v == mat.len(),
            v == old(mat).len(),
            old(aug).len() == v,
            m0 == rows(old(mat)@),
            b0 == old(aug)@,
            z == zeros(v as int),
            m0.len() == v,
            square(mat@, v as int),
            aug.len() == v,
            field_elems(aug@),
            col <= v,
            unit_cols(rows(mat@), col as int),
            same_solutions(m0, b0, rows(mat@), aug@),
            same_solutions(m0, z, rows(mat@), z),
        decreases v - col,
    {
        proof {
            lemma_square_rows(mat@, v as int);
        }
        let mut pivot: usize = v;
        let mut row: usize = col;
        while row < v && pivot == v
            invariant
                square(mat@, v as int),
                col < v,
                col <= row <= v,
                pivot == v || (col <= pivot < v && mat@[pivot as int]@[col as int] != 0),
                pivot == v ==> forall|r: int| col <= r < row ==> #[trigger] mat@[r]@[col as int] == 0,
            decreases v - row,
        {
            if mat[row][col] != 0 {
                pivot = row;
            }
            row += 1;
        }
        if pivot == v {
            proof {
                let rm = rows(mat@);
                assert forall|r: int| col <= r < rm.len() implies #[trigger] rm[r][col as int] == 0 by {
                    assert(mat@[r]@[col as int] == 0);
                }
                lemma_dependent_column(rm, col as int);
                lemma_nonsingular_transfer(m0, rm);
            }
            return false;
        }
        if pivot != col {
            let ghost rm = rows(mat@);
            let ghost ba = aug@;
            let rc = copy_row(&mat[col]);
            let rp = copy_row(&mat[pivot]);
            mat.set(col, rp);
            mat.set(pivot, rc);
            let ac = aug[col];
            let ap = aug[pivot];
            aug.set(col, ap);
            aug.set(pivot, ac);
            proof {
                let c = col as int;
                let p = pivot as int;
                assert(rows(mat@) =~= rm.update(c, rm[p]).update(p, rm[c]));
                assert(aug@ =~= ba.update(c, ba[p]).update(p, ba[c]));
                lemma_swap_rows(rm, ba, c, p);
                lemma_swap_rows(rm, z, c, p);
                assert(z.update(c, z[p]).update(p, z[c]) =~= z);
                lemma_same_trans(m0, b0, rm, ba, rows(mat@), aug@);
                lemma_same_trans(m0, z, rm, z, rows(mat@), z);
                assert forall|r: int, k: int| 0 <= r < v && 0 <= k < c implies #[trigger] rows(mat@)[r][k] == (if r
                    == k {
                    1u8
                } else {
                    0u8
                }) by {
                    assert(rm[r][k] == (if r == k { 1u8 } else { 0u8 }));
                    assert(rm[c][k] == 0);
                    assert(rm[p][k] == 0);
                }
            }
        }
        proof {
            lemma_square_rows(mat@, v as int);
        }
        assert(mat@[col as int]@[col as int] != 0);
        let inv_pivot = gf.inv(mat[col][col]);
        proof {
            lemma_inv(mat@[col as int]@[col as int]);
        }
        let ghost rm = rows(mat@);
        let ghost ba = aug@;
        let ghost rc = rm[col as int];
        proof {
            assert forall|k: int| 0 <= k < col implies #[trigger] rc[k] == 0 by {
                assert(rm[col as int][k] == (if col == k { 1u8 } else { 0u8 }));
            }
        }
        let mut prow = copy_row(&mat[col]);
        let mut j: usize = col;
        while j < v
            invariant
                gf.wf(),
                1 <= inv_pivot < 128,
                prow.len() == v,
                rc.len() == v,
                field_elems(rc),
                col <= j <= v,
                forall|k: int| 0 <= k < col ==> #[trigger] rc[k] == 0,
                forall|k: int| 0 <= k < v ==> #[trigger] prow@[k] == (if col <= k < j {
                    gf_mul(rc[k], inv_pivot)
                } else {
                    rc[k]
                }),
            decreases v - j,
        {
            let x = gf.mul(prow[j], inv_pivot);
            prow.set(j, x);
            j += 1;
        }
        proof {
            assert forall|k: int| 0 <= k < v implies #[trigger] prow@[k] == scale_row(rc, inv_pivot)[k] by {
                if k < col {
                    assert(rc[k] == 0);
                }
            }
            assert(prow@ =~= scale_row(rc, inv_pivot));
            assert forall|k: int| 0 <= k < v implies #[trigger] prow@[k] < 128 by {
                lemma_mul_basics(rc[k], inv_pivot);
            }
        }
        mat.set(col, prow);
        let a = gf.mul(aug[col], inv_pivot);
        proof {
            lemma_mul_basics(aug@[col as int], inv_pivot);
        }
        aug.set(col, a);
        proof {
            let c = col as int;
            assert(rows(mat@) =~= rm.update(c, scale_row(rm[c], inv_pivot)));
            assert(aug@ =~= ba.update(c, gf_mul(ba[c], inv_pivot)));
            lemma_scale_row(rm, ba, c, inv_pivot);
            lemma_scale_row(rm, z, c, inv_pivot);
            assert(z.update(c, gf_mul(z[c], inv_pivot)) =~= z);
            lemma_same_trans(m0, b0, rm, ba, rows(mat@), aug@);
            lemma_same_trans(m0, z, rm, z, rows(mat@), z);
            lemma_mul_basics(rc[c], inv_pivot);
            assert forall|r: int, k: int| 0 <= r < v && 0 <= k < c implies #[trigger] rows(mat@)[r][k] == (if r == k {
                1u8
            } else {
                0u8
            }) by {
                assert(rm[r][k] == (if r == k { 1u8 } else { 0u8 }));
            }
        }
        let ghost pr = rows(mat@)[col as int];
        let ghost ac = aug@[col as int];
        let mut row: usize = 0;
        while row < v
            invariant
                gf.wf(),
                v == mat.len(),
                square(mat@, v as int),
                aug.len() == v,
                field_elems(aug@),
                col < v,
                row <= v,
                m0.len() == v,
                z == zeros(v as int),
                rows(mat@)[col as int] == pr,
                aug@[col as int] == ac,
                pr.len() == v,
                pr[col as int] == 1,
                forall|k: int| 0 <= k < col ==> #[trigger] pr[k] == 0,
                unit_cols(rows(mat@), col as int),
                forall|r: int| 0 <= r < row && r != col ==> #[trigger] rows(mat@)[r][col as int] == 0,
                same_solutions(m0, b0, rows(mat@), aug@),
                same_solutions(m0, z, rows(mat@), z),
            decreases v - row,
        {
            if row != col && mat[row][col] != 0 {
                let factor = mat[row][col];
                let ghost rm = rows(mat@);
                let ghost ba = aug@;
                let ghost orow = rm[row as int];
                proof {
                    lemma_square_rows(mat@, v as int);
                }
                let mut r = copy_row(&mat[row]);
                let mut j: usize = col;
                while j < v
                    invariant
                        gf.wf(),
                        square(mat@, v as int),
                        rows(mat@) == rm,
                        rm[col as int] == pr,
                        col < v,
                        factor < 128,
                        r.len() == v,
                        orow.len() == v,
                        field_elems(orow),
                        field_elems(pr),
                        pr.len() == v,
                        col <= j <= v,
                        forall|k: int| 0 <= k < v ==> #[trigger] r@[k] == (if col <= k < j {
                            orow[k] ^ gf_mul(factor, pr[k])
                        } else {
                            orow[k]
                        }),
                    decreases v - j,
                {
                    assert(mat@[col as int]@ == pr);
                    let m = gf.mul(factor, mat[col][j]);
                    let x = r[j] ^ m;
                    r.set(j, x);
                    j += 1;
                }
                proof {
                    assert forall|k: int| 0 <= k < v implies #[trigger] r@[k] == elim_row(orow, factor, pr)[k] by {
                        if k < col {
                            assert(pr[k] == 0);
                            lemma_mul_basics(factor, 0);
                            lemma_xor_facts(orow[k], 0, 0);
                        }
                    }
                    assert(r@ =~= elim_row(orow, factor, pr));
                    assert forall|k: int| 0 <= k < v implies #[trigger] r@[k] < 128 by {
                        lemma_mul_basics(factor, pr[k]);
                        lemma_xor_facts(orow[k], gf_mul(factor, pr[k]), 0);
                    }
                }
                mat.set(row, r);
                let m = gf.mul(factor, aug[col]);
                proof {
                    lemma_mul_basics(factor, aug@[col as int]);
                    lemma_xor_facts(aug@[row as int], m, 0u8);
                }
                let a = aug[row] ^ m;
                aug.set(row, a);
                proof {
                    let (q, c) = (row as int, col as int);
                    assert(rows(mat@) =~= rm.update(q, elim_row(rm[q], factor, rm[c])));
                    assert(aug@ =~= ba.update(q, ba[q] ^ gf_mul(factor, ba[c])));
                    lemma_elim_row(rm, ba, q, c, factor);
                    lemma_elim_row(rm, z, q, c, factor);
                    lemma_xor_facts(0, 0, 0);
                    assert(z.update(q, z[q] ^ gf_mul(factor, z[c])) =~= z);
                    lemma_same_trans(m0, b0, rm, ba, rows(mat@), aug@);
                    lemma_same_trans(m0, z, rm, z, rows(mat@), z);
                    lemma_mul_basics(factor, 1);
                    lemma_xor_facts(factor, 0, 0);
                    assert(rows(mat@)[q][c] == 0);
                    assert forall|rr: int, k: int| 0 <= rr < v && 0 <= k < c implies #[trigger] rows(mat@)[rr][k] == (if rr
                        == k {
                        1u8
                    } else {
                        0u8
                    }) by {
                        assert(rm[rr][k] == (if rr == k { 1u8 } else { 0u8 }));
                        if rr == q {
                            assert(rows(mat@)[q][k] == orow[k] ^ gf_mul(factor, pr[k]));
                            assert(pr[k] == 0);
                            lemma_mul_basics(factor, 0);
                            lemma_xor_facts(orow[k], 0, 0);
                        }
                    }
                    assert forall|rr: int| 0 <= rr < q + 1 && rr != c implies #[trigger] rows(mat@)[rr][c] == 0 by {
                        if rr < q {
                            assert(rm[rr][c] == 0);
                        }
                    }
                }
            }
            row += 1;
        }
        proof {
            let c = col as int;
            assert forall|r: int, k: int| 0 <= r < v && 0 <= k < c + 1 implies #[trigger] rows(mat@)[r][k] == (if r == k {
                1u8
            } else {
                0u8
            }) by {
                if k < c {
                    assert(rows(mat@)[r][k] == (if r == k { 1u8 } else { 0u8 }));
                } else if r != c {
                    assert(rows(mat@)[r][c] == 0);
                }
            }
        }
        col += 1;
    }
    proof {
        let rm = rows(mat@);
        lemma_square_rows(mat@, v as int);
        lemma_identity_solves(rm, aug@, aug@);
        assert forall|x: Seq<u8>| vec_ok(x, v as int) && #[trigger] solves(rm, z, x) implies x == z by {
            lemma_identity_solves(rm, z, x);
        }
        lemma_nonsingular_transfer(m0, rm);
    }
    true
}

/// Errors at j1 (count 1), at j1, j2 (count 2) or at j1, j2, j3 (count 3).
pub open spec fn pattern(j1: int, j2: int, j3: int, count: int) -> Seq<int> {
    if count == 1 {
        single(j1)
    } else if count == 2 {
        pair(j1, j2)
    } else {
        triple(j1, j2, j3)
    }
}

proof fn lemma_error_syndrome_small(a: int, b: int, c: int, s: int)
    requires
        0 <= a,
        0 <= b,
        0 <= c,
        0 <= s,
    ensures
        error_syndrome(single(a), s) == alpha_pow(s * a),
        error_syndrome(pair(a, b), s) == alpha_pow(s * a) ^ alpha_pow(s * b),
        error_syndrome(triple(a, b, c), s) == (alpha_pow(s * a) ^ alpha_pow(s * b)) ^ alpha_pow(s * c),
{
    lemma_error_syndrome_single(a, s);
    assert(pair(a, b).drop_last() =~= single(a));
    assert(pair(a, b).last() == b);
    assert(error_syndrome(pair(a, b), s) == alpha_pow(s * a) ^ alpha_pow(s * b));
    assert(triple(a, b, c).drop_last() =~= pair(a, b));
    assert(triple(a, b, c).last() == c);
    assert(error_syndrome(triple(a, b, c), s) == error_syndrome(pair(a, b), s) ^ alpha_pow(s * c));
}

/// Syndromes S_1..S_2T of a received word.
pub open spec fn syndromes_ok(syn: Seq<u8>) -> bool {
    syn.len() == 20 && field_elems(syn)
}

/// Value at α^(-j) of the error locator with coefficients given highest degree first.
pub open spec fn locator_at(ld: Seq<u8>, a: u8, n: int) -> u8
    decreases n,
{
    if n <= 0 {
        0
    } else {
        locator_at(ld, a, n - 1) ^ gf_mul(ld[n - 1], field_pow(a, n - 1))
    }
}

/// a^k by repeated multiplication.
pub open spec fn field_pow(a: u8, k: int) -> u8
    decreases k,
{
    if k <= 0 {
        1
    } else {
        gf_mul(field_pow(a, k - 1), a)
    }
}

/// The candidate point α^(-j) of the Chien search.
pub open spec fn chien_point(j: int) -> u8 {
    if j == 0 {
        1
    } else {
        alpha_pow(127 - j)
    }
}

impl BchEncoder {
    /// Computes S_1, ..., S_2T of a received word.
    pub fn compute_syndromes(&self, cw: &Vec<bool>) -> (syn: Vec<u8>)
        requires
            self.gf.wf(),
            cw.len() == 127,
        ensures
            syn@ == syndromes(cw@),
            syndromes_ok(syn@),
    {
        let mut syn_all: Vec<u8> = Vec::new();
        let mut i: usize = 1;
        while i <= 2 * T
            invariant
                self.gf.wf(),
                cw.len() == 127,
                1 <= i <= 21,
                syn_all.len() == i - 1,
                forall|x: int| 0 <= x < i - 1 ==> #[trigger] syn_all@[x] == syndrome(cw@, x + 1),
                field_elems(syn_all@),
            decreases 21 - i,
        {
            let ai = self.gf.exp[i % N];
            proof {
                lemma_alpha_pow(i as int);
            }
            let mut syn: u8 = 0;
            let mut ap: u8 = 1;
            let mut j: usize = 0;
            proof {
                lemma_alpha_pow_zero();
                assert(i * 0 == 0) by (nonlinear_arith);
            }
            while j < N
                invariant
                    self.gf.wf(),
                    cw.len() == 127,
                    1 <= i <= 20,
                    j <= 127,
                    ai == alpha_pow(i as int),
                    ai < 128,
                    ap == alpha_pow(i * j),
                    syn == syndrome_upto(cw@, i as int, j as int),
                    syn < 128,
                decreases N - j,
            {
                if cw[j] {
                    proof {
                        lemma_alpha_pow(i * j);
                        lemma_xor_facts(syn, ap, 0u8);
                    }
                    syn = syn ^ ap;
                } else {
                    proof {
                        lemma_xor_facts(syn, 0u8, 0u8);
                    }
                }
                proof {
                    assert(i * j >= 0) by (nonlinear_arith)
                        requires i >= 1, j >= 0;
                    lemma_mul_alpha_pow(i * j, i as int);
                    assert(i * j + i == i * (j + 1)) by (nonlinear_arith);
                    lemma_alpha_pow(i * j);
                }
                ap = self.gf.mul(ap, ai);
                j += 1;
            }
            syn_all.push(syn);
            i += 1;
        }
        assert(syn_all@ =~= syndromes(cw@));
        syn_all
    }

    /// Whether errors at the pattern's positions account for the syndromes.
    fn pattern_matches(&self, j1: usize, j2: usize, j3: usize, count: usize, syndromes: &Vec<u8>) -> (b: bool)
        requires
            self.gf.wf(),
            j1 < 127,
            j2 < 127,
            j3 < 127,
            1 <= count <= 3,
            syndromes.len() >= 20,
        ensures
            b == explains(pattern(j1 as int, j2 as int, j3 as int, count as int), syndromes@.subrange(0, 20)),
    {
        let ghost e = pattern(j1 as int, j2 as int, j3 as int, count as int);
        let mut i: usize = 0;
        while i < 2 * T
            invariant
                self.gf.wf(),
                j1 < 127,
                j2 < 127,
                j3 < 127,
                1 <= count <= 3,
                syndromes.len() >= 20,
                e == pattern(j1 as int, j2 as int, j3 as int, count as int),
                i <= 20,
                forall|x: int| 0 <= x < i ==> #[trigger] error_syndrome(e, x + 1) == syndromes@[x],
            decreases 20 - i,
        {
            let s = i + 1;
            proof {
                lemma_error_syndrome_small(j1 as int, j2 as int, j3 as int, s as int);
                lemma_alpha_pow(s * j1);
                lemma_alpha_pow(s * j2);
                lemma_alpha_pow(s * j3);
                assert(s * j1 <= 20 * 127 && s * j2 <= 20 * 127 && s * j3 <= 20 * 127) by (nonlinear_arith)
                    requires s <= 20, j1 < 127, j2 < 127, j3 < 127;
            }
            let mut expected = self.gf.exp[(s * j1) % N];
            if count >= 2 {
                expected = expected ^ self.gf.exp[(s * j2) % N];
            }
            if count >= 3 {
                expected = expected ^ self.gf.exp[(s * j3) % N];
            }
            if expected != syndromes[i] {
                return false;
            }
            i += 1;
        }
        true
    }

    /// Direct syndrome matching for one, two and three errors, trying every
    /// set of positions in increasing order; only the first 127 bits and the
    /// first 20 syndromes are read.
    pub fn syndrome_decode(&self, cw: &Vec<bool>, syndromes: &Vec<u8>) -> (r: Option<Vec<bool>>)
        requires
            self.gf.wf(),
            cw.len() >= 127,
            syndromes.len() >= 20,
        ensures
            r matches Some(d) ==> exists|e: Seq<int>|
                1 <= e.len() <= 3 && error_positions(e) && #[trigger] explains(e, syndromes@.subrange(0, 20)) && d@
                    == data_of(flip_all(cw@, e)),
            r is None ==> forall|e: Seq<int>|
                1 <= e.len() <= 3 && error_positions(e) ==> !#[trigger] explains(e, syndromes@.subrange(0, 20)),
            forall|j: int|
                0 <= j < 127 && #[trigger] explains(single(j), syndromes@.subrange(0, 20)) ==> (r matches Some(d) && d@
                    == data_of(flip_all(cw@, single(j)))),
            r matches Some(d) ==> d.len() == 64,
    {
        let mut j: usize = 0;
        while j < N
            invariant
                self.gf.wf(),
                cw.len() >= 127,
                syndromes.len() >= 20,
                j <= 127,
                forall|a: int| 0 <= a < j ==> !#[trigger] explains(single(a), syndromes@.subrange(0, 20)),
            decreases N - j,
        {
            if self.pattern_matches(j, 0, 0, 1, syndromes) {
                let mut pos: Vec<usize> = Vec::new();
                pos.push(j);
                let d = flip_and_extract(cw, &pos);
                proof {
                    assert(as_ints(pos@) =~= single(j as int));
                    assert(error_positions(single(j as int)));
                    assert forall|a: int| 0 <= a < 127 && #[trigger] explains(single(a), syndromes@.subrange(0, 20)) implies a == j by {
                        lemma_single_unique(a, j as int, syndromes@.subrange(0, 20));
                    }
                }
                return Some(d);
            }
            j += 1;
        }
        let mut j1: usize = 0;
        while j1 < N
            invariant
                self.gf.wf(),
                cw.len() >= 127,
                syndromes.len() >= 20,
                j1 <= 127,
                forall|a: int| 0 <= a < 127 ==> !#[trigger] explains(single(a), syndromes@.subrange(0, 20)),
                forall|a: int, b: int| 0 <= a < j1 && a < b < 127 ==> !#[trigger] explains(pair(a, b), syndromes@.subrange(0, 20)),
            decreases N - j1,
        {
            let mut j2: usize = j1 + 1;
            while j2 < N
                invariant
                    self.gf.wf(),
                    cw.len() >= 127,
                    syndromes.len() >= 20,
                    j1 < 127,
                    j1 + 1 <= j2 <= 127,
                    forall|a: int| 0 <= a < 127 ==> !#[trigger] explains(single(a), syndromes@.subrange(0, 20)),
                    forall|a: int, b: int| 0 <= a < j1 && a < b < 127 ==> !#[trigger] explains(pair(a, b), syndromes@.subrange(0, 20)),
                    forall|b: int| j1 < b < j2 ==> !#[trigger] explains(pair(j1 as int, b), syndromes@.subrange(0, 20)),
                decreases N - j2,
            {
                if self.pattern_matches(j1, j2, 0, 2, syndromes) {
                    let mut pos: Vec<usize> = Vec::new();
                    pos.push(j1);
                    pos.push(j2);
                    let d = flip_and_extract(cw, &pos);
                    proof {
                        assert(as_ints(pos@) =~= pair(j1 as int, j2 as int));
                        assert(error_positions(pair(j1 as int, j2 as int)));
                    }
                    return Some(d);
                }
                j2 += 1;
            }
            j1 += 1;
        }
        let mut j1: usize = 0;
        while j1 < N
            invariant
                self.gf.wf(),
                cw.len() >= 127,
                syndromes.len() >= 20,
                j1 <= 127,
                forall|a: int| 0 <= a < 127 ==> !#[trigger] explains(single(a), syndromes@.subrange(0, 20)),
                forall|a: int, b: int| 0 <= a < b < 127 ==> !#[trigger] explains(pair(a, b), syndromes@.subrange(0, 20)),
                forall|a: int, b: int, c: int|
                    0 <= a < j1 && a < b < c < 127 ==> !#[trigger] explains(triple(a, b, c), syndromes@.subrange(0, 20)),
            decreases N - j1,
        {
            let mut j2: usize = j1 + 1;
            while j2 < N
                invariant
                    self.gf.wf(),
                    cw.len() >= 127,
                    syndromes.len() >= 20,
                    j1 < 127,
                    j1 + 1 <= j2 <= 127,
                    forall|a: int| 0 <= a < 127 ==> !#[trigger] explains(single(a), syndromes@.subrange(0, 20)),
                    forall|a: int, b: int, c: int|
                        0 <= a < j1 && a < b < c < 127 ==> !#[trigger] explains(triple(a, b, c), syndromes@.subrange(0, 20)),
                    forall|b: int, c: int| j1 < b < j2 && b < c < 127 ==> !#[trigger] explains(triple(j1 as int, b, c), syndromes@.subrange(0, 20)),
                decreases N - j2,
            {
                let mut j3: usize = j2 + 1;
                while j3 < N
                    invariant
                        self.gf.wf(),
                        cw.len() >= 127,
                        syndromes.len() >= 20,
                        j1 < j2 < 127,
                        j2 + 1 <= j3 <= 127,
                        forall|a: int| 0 <= a < 127 ==> !#[trigger] explains(single(a), syndromes@.subrange(0, 20)),
                        forall|c: int| j2 < c < j3 ==> !#[trigger] explains(triple(j1 as int, j2 as int, c), syndromes@.subrange(0, 20)),
                    decreases N - j3,
                {
                    if self.pattern_matches(j1, j2, j3, 3, syndromes) {
                        let mut pos: Vec<usize> = Vec::new();
                        pos.push(j1);
                        pos.push(j2);
                        pos.push(j3);
                        let d = flip_and_extract(cw, &pos);
                        proof {
                            assert(as_ints(pos@) =~= triple(j1 as int, j2 as int, j3 as int));
                            assert(error_positions(triple(j1 as int, j2 as int, j3 as int)));
                        }
                        return Some(d);
                    }
                    j3 += 1;
                }
                j2 += 1;
            }
            j1 += 1;
        }
        proof {
            assert forall|e: Seq<int>| 1 <= e.len() <= 3 && error_positions(e) implies !#[trigger] explains(e, syndromes@.subrange(0, 20)) by {
                if e.len() == 1 {
                    assert(e =~= single(e[0]));
                } else if e.len() == 2 {
                    assert(e =~= pair(e[0], e[1]));
                } else {
                    assert(e =~= triple(e[0], e[1], e[2]));
                }
            }
        }
        None
    }
}

/// Whatever decodes a word is exact for every pattern of at most T errors
/// that accounts for the word's syndromes, is the word's corrected data, and
/// re-encodes to a codeword at most T bits from it.
proof fn lemma_decoded_exact_all(cw: Seq<bool>, d: Seq<bool>)
    requires
        cw.len() == 127,
        decodes_to(cw, d),
    ensures
        forall|e: Seq<int>|
            error_positions(e) && e.len() <= T && #[trigger] explains(e, syndromes(cw)) ==> d == data_of(flip_all(cw, e)),
        d == corrected_data(cw),
        d.len() == 64,
        exists|e: Seq<int>|
            e.len() <= T && error_positions(e) && #[trigger] flip_all(cw, e) == codeword_of(d, generator()),
{
    assert forall|e: Seq<int>| error_positions(e) && e.len() <= T && #[trigger] explains(e, syndromes(cw)) implies d
        == data_of(flip_all(cw, e)) by {
        lemma_decoded_data_is_exact(cw, d, e);
    }
    let e = choose|e: Seq<int>| error_positions(e) && e.len() <= T && #[trigger] explains(e, syndromes(cw));
    let w = choose|w: Seq<int>|
        w.len() <= T && error_positions(w) && #[trigger] explains(w, syndromes(cw)) && d == data_of(flip_all(cw, w));
    assert(error_positions(w) && w.len() <= T && explains(w, syndromes(cw)));
    assert(d == data_of(flip_all(cw, e)));
    lemma_decoded_reencodes(cw, d);
}

proof fn lemma_as_ints_contains(v: Seq<usize>, j: int)
    requires
        0 <= j < 127,
    ensures
        as_ints(v).contains(j) <==> v.contains(j as usize),
{
    if as_ints(v).contains(j) {
        let i = choose|i: int| 0 <= i < as_ints(v).len() && as_ints(v)[i] == j;
        assert(v[i] == j as usize);
    }
    if v.contains(j as usize) {
        let i = choose|i: int| 0 <= i < v.len() && v[i] == j as usize;
        assert((j as usize) as int == j);
        assert(as_ints(v)[i] == v[i] as int);
    }
}

/// chunk k of N bits of a received stream.
pub open spec fn chunk(c: Seq<bool>, k: int) -> Seq<bool> {
    c.subrange(127 * k, 127 * k + 127)
}

/// Every full chunk is a codeword or one bit away from one.
pub open spec fn all_chunks_near(c: Seq<bool>) -> bool {
    forall|k: int| 0 <= k < c.len() / 127 ==> near_codeword(#[trigger] chunk(c, k))
}

/// Every full chunk is within T errors of a codeword.
pub open spec fn all_chunks_correctable(c: Seq<bool>) -> bool {
    forall|k: int| 0 <= k < c.len() / 127 ==> correctable(#[trigger] chunk(c, k))
}

impl BchEncoder {
    /// Chien search: the exponents j for which the error locator, given
    /// highest degree first, vanishes at α^(-j).
    fn chien_search(&self, lambda_desc: &Vec<u8>) -> (roots: Vec<usize>)
        requires
            self.gf.wf(),
            field_elems(lambda_desc@),
        ensures
            error_positions(as_ints(roots@)),
            forall|i: int| 0 <= i < roots.len() ==> #[trigger] roots@[i] < 127,
            roots.len() <= 127,
            forall|j: int|
                0 <= j < 127 ==> (roots@.contains(j as usize) <==> locator_at(
                    lambda_desc@,
                    chien_point(j),
                    lambda_desc.len() as int,
                ) == 0),
    {
        let mut roots: Vec<usize> = Vec::new();
        let mut j: usize = 0;
        while j < N
            invariant
                self.gf.wf(),
                field_elems(lambda_desc@),
                j <= 127,
                roots.len() <= j,
                forall|a: int, b: int| 0 <= a < b < roots.len() ==> roots@[a] < roots@[b],
                forall|i: int| 0 <= i < roots.len() ==> #[trigger] roots@[i] < j,
                forall|x: int|
                    0 <= x < j ==> (roots@.contains(x as usize) <==> locator_at(
                        lambda_desc@,
                        chien_point(x),
                        lambda_desc.len() as int,
                    ) == 0),
            decreases N - j,
        {
            let aj = if j == 0 { 1u8 } else { self.gf.exp[N - j] };
            proof {
                if j > 0 {
                    lemma_alpha_pow(127 - j);
                }
            }
            let mut s: u8 = 0;
            let mut ap: u8 = 1;
            let mut t: usize = 0;
            while t < lambda_desc.len()
                invariant
                    self.gf.wf(),
                    field_elems(lambda_desc@),
                    aj == chien_point(j as int),
                    aj < 128,
                    t <= lambda_desc.len(),
                    ap == field_pow(aj, t as int),
                    ap < 128,
                    s == locator_at(lambda_desc@, aj, t as int),
                    s < 128,
                decreases lambda_desc.len() - t,
            {
                let c = lambda_desc[t];
                let m = self.gf.mul(c, ap);
                proof {
                    lemma_mul_basics(c, ap);
                    lemma_mul_basics(ap, aj);
                    lemma_xor_facts(s, m, 0u8);
                }
                s = s ^ m;
                ap = self.gf.mul(ap, aj);
                t += 1;
            }
            let ghost pre = roots@;
            if s == 0 {
                roots.push(j);
            }
            proof {
                assert forall|x: int| 0 <= x < j + 1 implies (roots@.contains(x as usize) <==> locator_at(
                    lambda_desc@,
                    chien_point(x),
                    lambda_desc.len() as int,
                ) == 0) by {
                    if x < j {
                        if pre.contains(x as usize) {
                            let i = choose|i: int| 0 <= i < pre.len() && pre[i] == x as usize;
                            assert(roots@[i] == x as usize);
                        }
                        if roots@.contains(x as usize) {
                            let i = choose|i: int| 0 <= i < roots.len() && roots@[i] == x as usize;
                            if i == pre.len() {
                                assert(roots@[i] == j);
                            } else {
                                assert(pre[i] == x as usize);
                            }
                        }
                    } else {
                        if s == 0 {
                            assert(roots@[roots.len() - 1] == j);
                        } else {
                            assert(roots@ == pre);
                        }
                    }
                }
            }
            j += 1;
        }
        proof {
            assert forall|i: int| 0 <= i < as_ints(roots@).len() implies 0 <= #[trigger] as_ints(roots@)[i] < 127 by {
                assert(as_ints(roots@)[i] == roots@[i] as int);
            }
            assert forall|a: int, b: int| 0 <= a < b < as_ints(roots@).len() implies as_ints(roots@)[a] < as_ints(roots@)[b] by {
                assert(as_ints(roots@)[a] == roots@[a] as int);
                assert(as_ints(roots@)[b] == roots@[b] as int);
            }
        }
        roots
    }

    /// Whether errors at the given increasing positions account for the syndromes.
    fn positions_explain(&self, roots: &Vec<usize>, syndromes: &Vec<u8>) -> (b: bool)
        requires
            self.gf.wf(),
            forall|i: int| 0 <= i < roots.len() ==> #[trigger] roots@[i] < 127,
            syndromes.len() == 20,
        ensures
            b == explains(as_ints(roots@), syndromes@),
    {
        let mut i: usize = 0;
        while i < 2 * T
            invariant
                self.gf.wf(),
                forall|x: int| 0 <= x < roots.len() ==> #[trigger] roots@[x] < 127,
                syndromes.len() == 20,
                i <= 20,
                forall|x: int| 0 <= x < i ==> #[trigger] error_syndrome(as_ints(roots@), x + 1) == syndromes@[x],
            decreases 20 - i,
        {
            let s = i + 1;
            let mut syn_check: u8 = 0;
            let mut t: usize = 0;
            while t < roots.len()
                invariant
                    self.gf.wf(),
                    forall|x: int| 0 <= x < roots.len() ==> #[trigger] roots@[x] < 127,
                    1 <= s <= 20,
                    t <= roots.len(),
                    syn_check == error_syndrome(as_ints(roots@.take(t as int)), s as int),
                decreases roots.len() - t,
            {
                let r = roots[t];
                proof {
                    assert(s * r <= 20 * 127) by (nonlinear_arith)
                        requires s <= 20, r < 127;
                    lemma_alpha_pow(s * r);
                    assert(as_ints(roots@.take(t + 1)).drop_last() =~= as_ints(roots@.take(t as int)));
                }
                syn_check = syn_check ^ self.gf.exp[(s * r) % N];
                t += 1;
            }
            proof {
                assert(roots@.take(roots.len() as int) =~= roots@);
            }
            if syn_check != syndromes[i] {
                return false;
            }
            i += 1;
        }
        true
    }

    /// Decodes one N-bit word: zero syndromes give its data directly; otherwise
    /// the nearest error patterns of up to three errors are tried, then the
    /// Peterson-Gorenstein-Zierler locator for up to T errors. Every word
    /// within T errors of a codeword is corrected; other words give None.
    pub fn decode_cw(&self, cw: &Vec<bool>) -> (r: Option<Vec<bool>>)
        requires
            self.wf(),
            cw.len() == 127,
        ensures
            r matches Some(d) ==> decodes_to(cw@, d@),
            all_zero(syndromes(cw@)) ==> (r matches Some(d) && d@ == data_of(cw@)),
            forall|j: int|
                0 <= j < 127 && #[trigger] explains(single(j), syndromes(cw@)) ==> (r matches Some(d) && d@
                    == data_of(flip_all(cw@, single(j)))),
            r is Some <==> correctable(cw@),
            forall|e: Seq<int>|
                error_positions(e) && e.len() <= T && #[trigger] explains(e, syndromes(cw@)) ==> (r matches Some(d)
                    && d@ == data_of(flip_all(cw@, e))),
            r matches Some(d) ==> d.len() == 64 && d@ == corrected_data(cw@),
            r matches Some(d) ==> exists|e: Seq<int>|
                e.len() <= T && error_positions(e) && #[trigger] flip_all(cw@, e) == codeword_of(d@, generator()),
    {
        let syn = self.compute_syndromes(cw);
        let mut has_errors = false;
        let mut i: usize = 0;
        while i < syn.len()
            invariant
                i <= syn.len(),
                has_errors == exists|x: int| 0 <= x < i && syn@[x] != 0,
            decreases syn.len() - i,
        {
            if syn[i] != 0 {
                has_errors = true;
            }
            i += 1;
        }
        if !has_errors {
            let empty: Vec<usize> = Vec::new();
            let data = flip_and_extract(cw, &empty);
            proof {
                assert(as_ints(empty@) =~= Seq::<int>::empty());
                assert(explains(Seq::<int>::empty(), syn@));
                assert(error_positions(Seq::<int>::empty()));
                assert forall|j: int| 0 <= j < 127 implies !#[trigger] explains(single(j), syndromes(cw@)) by {
                    if explains(single(j), syndromes(cw@)) {
                        lemma_single_nonzero(j, syndromes(cw@));
                    }
                }
                assert(flip_all(cw@, Seq::<int>::empty()) == cw@);
                lemma_decoded_exact_all(cw@, data@);
            }
            return Some(data);
        }
        assert(syn@.subrange(0, 20) =~= syn@);
        if let Some(result) = self.syndrome_decode(cw, &syn) {
            proof {
                lemma_decoded_exact_all(cw@, result@);
            }
            return Some(result);
        }
        let mut v: usize = T;
        while v >= 1
            invariant
                self.wf(),
                cw.len() == 127,
                syn@ == syndromes(cw@),
                syndromes_ok(syn@),
                v <= T,
                !all_zero(syndromes(cw@)),
                forall|j: int| 0 <= j < 127 ==> !#[trigger] explains(single(j), syndromes(cw@)),
                forall|s: int| v < s <= T ==> !#[trigger] explained_by_size(syn@, s),
            decreases v,
        {
            let mut start: usize = 0;
            while start <= 2 * T - 2 * v
                invariant
                    self.wf(),
                    cw.len() == 127,
                    syn@ == syndromes(cw@),
                    syndromes_ok(syn@),
                    1 <= v <= T,
                    !all_zero(syndromes(cw@)),
                        forall|j: int| 0 <= j < 127 ==> !#[trigger] explains(single(j), syndromes(cw@)),
                    forall|s: int| v < s <= T ==> !#[trigger] explained_by_size(syn@, s),
                    start > 0 ==> !explained_by_size(syn@, v as int),
                decreases 2 * T - 2 * v + 1 - start,
            {
                let mut mat: Vec<Vec<u8>> = Vec::new();
                let mut i: usize = 0;
                while i < v
                    invariant
                        syndromes_ok(syn@),
                        1 <= v <= T,
                        i <= v,
                        start <= 2 * T - 2 * v,
                        mat.len() == i,
                        forall|r: int| 0 <= r < i ==> (#[trigger] mat@[r]).len() == v && field_elems(mat@[r]@),
                        start == 0 ==> forall|r: int| 0 <= r < i ==> (#[trigger] mat@[r])@ == hankel_row(syn@, r, v as int),
                    decreases v - i,
                {
                    let mut row: Vec<u8> = Vec::new();
                    let mut j: usize = 0;
                    while j < v
                        invariant
                            syndromes_ok(syn@),
                            1 <= v <= T,
                            i < v,
                            j <= v,
                            start <= 2 * T - 2 * v,
                            row.len() == j,
                            field_elems(row@),
                            start == 0 ==> row@ == hankel_row(syn@, i as int, v as int).take(j as int),
                        decreases v - j,
                    {
                        let idx = start + i + j;
                        if idx < syn.len() {
                            row.push(syn[idx]);
                        } else {
                            row.push(0);
                        }
                        j += 1;
                        proof {
                            if start == 0 {
                                assert(row@ =~= hankel_row(syn@, i as int, v as int).take(j as int));
                            }
                        }
                    }
                    proof {
                        if start == 0 {
                            assert(row@ =~= hankel_row(syn@, i as int, v as int));
                        }
                    }
                    mat.push(row);
                    i += 1;
                }
                let mut aug: Vec<u8> = Vec::new();
                let mut i: usize = 0;
                while i < v
                    invariant
                        syndromes_ok(syn@),
                        1 <= v <= T,
                        i <= v,
                        start <= 2 * T - 2 * v,
                        aug.len() == i,
                        field_elems(aug@),
                        start == 0 ==> aug@ == hankel_rhs(syn@, v as int).take(i as int),
                    decreases v - i,
                {
                    let idx = start + v + i;
                    if idx < syn.len() {
                        aug.push(syn[idx]);
                    } else {
                        aug.push(0);
                    }
                    i += 1;
                    proof {
                        if start == 0 {
                            assert(aug@ =~= hankel_rhs(syn@, v as int).take(i as int));
                        }
                    }
                }
                let ghost m0 = rows(mat@);
                let ghost b0 = aug@;
                proof {
                    if start == 0 {
                        assert(m0 =~= hankel(syn@, v as int));
                        assert(b0 =~= hankel_rhs(syn@, v as int));
                    }
                }
                let solved = gaussian_solve(&mut mat, &mut aug, &self.gf);
                if solved {
                    // Locator coefficients from lowest degree up, leading 1 last.
                    let mut lambda: Vec<u8> = Vec::new();
                    let mut i: usize = 0;
                    while i < aug.len()
                        invariant
                            i <= aug.len(),
                            aug.len() == v,
                            v <= T,
                            field_elems(aug@),
                            lambda@ == aug@.take(i as int),
                        decreases aug.len() - i,
                    {
                        lambda.push(aug[i]);
                        i += 1;
                        assert(lambda@ =~= aug@.take(i as int));
                    }
                    lambda.push(1u8);
                    assert(lambda@ =~= aug@.push(1u8));
                    let mut lambda_desc: Vec<u8> = Vec::new();
                    let mut i: usize = lambda.len();
                    while i > 0
                        invariant
                            i <= lambda.len(),
                            field_elems(lambda@),
                            lambda_desc.len() == lambda.len() - i,
                            forall|t: int| 0 <= t < lambda_desc.len() ==> #[trigger] lambda_desc@[t] == lambda@[lambda.len() - 1 - t],
                        decreases i,
                    {
                        i -= 1;
                        lambda_desc.push(lambda[i]);
                    }
                    assert(lambda_desc@ =~= lambda@.reverse());
                    let roots = self.chien_search(&lambda_desc);
                    proof {
                        if start == 0 && explained_by_size(syn@, v as int) {
                            let e = choose|e: Seq<int>| error_positions(e) && e.len() == v && #[trigger] explains(e, syn@);
                            lemma_pgz_solution(e, syn@, aug@);
                            assert forall|j: int| 0 <= j < 127 implies (as_ints(roots@).contains(j) <==> locator_at(
                                locator(e).reverse(),
                                chien_point(j),
                                e.len() as int + 1,
                            ) == 0) by {
                                lemma_as_ints_contains(roots@, j);
                            }
                            lemma_pgz_roots(e, as_ints(roots@));
                        }
                    }
                    if roots.len() == v {
                        if self.positions_explain(&roots, &syn) {
                            let data = flip_and_extract(cw, &roots);
                            proof {
                                assert(as_ints(roots@).len() == v);
                                assert(explains(as_ints(roots@), syndromes(cw@)));
                                lemma_decoded_exact_all(cw@, data@);
                            }
                            return Some(data);
                        }
                    }
                } else {
                    proof {
                        if start == 0 && explained_by_size(syn@, v as int) {
                            let e = choose|e: Seq<int>| error_positions(e) && e.len() == v && #[trigger] explains(e, syn@);
                            lemma_hankel_nonsingular(e, syn@);
                        }
                    }
                }
                start += 1;
            }
            v -= 1;
        }
        proof {
            assert forall|e: Seq<int>| error_positions(e) && e.len() <= T implies !#[trigger] explains(e, syndromes(cw@)) by {
                if explains(e, syndromes(cw@)) {
                    if e.len() == 0 {
                        assert forall|i: int| 0 <= i < 20 implies #[trigger] syndromes(cw@)[i] == 0 by {
                            assert(error_syndrome(e, i + 1) == syndromes(cw@)[i]);
                        }
                    } else {
                        assert(explained_by_size(syn@, e.len() as int));
                    }
                }
            }
        }
        None
    }

    /// Decodes every full N-bit chunk into K data bits, the concatenation of
    /// the chunks' corrected data; None when some chunk cannot be corrected.
    /// A trailing partial chunk is ignored.
    pub fn decode(&self, coded: &[bool]) -> (r: Option<Vec<bool>>)
        requires
            self.wf(),
        ensures
            r matches Some(out) ==> out.len() == 64 * (coded.len() / 127) && forall|k: int|
                0 <= k < coded.len() / 127 ==> decodes_to(
                    #[trigger] chunk(coded@, k),
                    out@.subrange(64 * k, 64 * k + 64),
                ),
            all_chunks_near(coded@) ==> (r matches Some(out) && forall|k: int|
                0 <= k < coded.len() / 127 ==> out@.subrange(64 * k, 64 * k + 64) == nearest_data(
                    #[trigger] chunk(coded@, k),
                )),
            r is Some <==> all_chunks_correctable(coded@),
            r matches Some(out) ==> forall|k: int|
                0 <= k < coded.len() / 127 ==> out@.subrange(64 * k, 64 * k + 64) == corrected_data(
                    #[trigger] chunk(coded@, k),
                ),
            r matches Some(out) ==> forall|k: int, e: Seq<int>|
                0 <= k < coded.len() / 127 && error_positions(e) && e.len() <= T && #[trigger] explains(
                    e,
                    syndromes(chunk(coded@, k)),
                ) ==> out@.subrange(64 * k, 64 * k + 64) == data_of(flip_all(chunk(coded@, k), e)),
    {
        let mut out: Vec<bool> = Vec::new();
        let mut start: usize = 0;
        let ghost mut k: int = 0;
        while start <= coded.len() && coded.len() - start >= N
            invariant
                self.wf(),
                start == 127 * k,
                0 <= k,
                start <= coded.len(),
                out.len() == 64 * k,
                forall|x: int|
                    0 <= x < k ==> decodes_to(#[trigger] chunk(coded@, x), out@.subrange(64 * x, 64 * x + 64)),
                forall|x: int|
                    0 <= x < k ==> (near_codeword(#[trigger] chunk(coded@, x)) ==> out@.subrange(
                        64 * x,
                        64 * x + 64,
                    ) == nearest_data(chunk(coded@, x))),
            decreases coded.len() - start,
        {
            let piece = copy_bits(&coded[start..start + N]);
            proof {
                assert(piece@ =~= chunk(coded@, k));
            }
            match self.decode_cw(&piece) {
                Some(mut d) => {
                    let ghost pre = out@;
                    let ghost dd = d@;
                    out.append(&mut d);
                    proof {
                        assert forall|x: int| 0 <= x < k + 1 implies decodes_to(#[trigger] chunk(coded@, x), out@.subrange(64 * x, 64 * x + 64))
                            && (near_codeword(chunk(coded@, x)) ==> out@.subrange(64 * x, 64 * x + 64) == nearest_data(chunk(coded@, x))) by {
                            if x < k {
                                assert(out@.subrange(64 * x, 64 * x + 64) =~= pre.subrange(64 * x, 64 * x + 64));
                            } else {
                                assert(out@.subrange(64 * x, 64 * x + 64) =~= dd);
                                if near_codeword(chunk(coded@, x)) {
                                    if !all_zero(syndromes(chunk(coded@, x))) {
                                        let j = choose|j: int| 0 <= j < 127 && #[trigger] explains(single(j), syndromes(chunk(coded@, x)));
                                        assert(explains(single(j), syndromes(piece@)));
                                    }
                                }
                            }
                        }
                    }
                }
                None => {
                    proof {
                        lemma_chunk_count(coded.len() as int, k);
                        assert(!near_codeword(chunk(coded@, k)));
                        assert(!correctable(chunk(coded@, k)));
                    }
                    return None;
                }
            }
            start += N;
            proof {
                k = k + 1;
            }
        }
        proof {
            lemma_chunk_count_exact(coded.len() as int, k);
            assert forall|x: int, e: Seq<int>|
                0 <= x < coded.len() / 127 && error_positions(e) && e.len() <= T && #[trigger] explains(
                    e,
                    syndromes(chunk(coded@, x)),
                ) implies out@.subrange(64 * x, 64 * x + 64) == data_of(flip_all(chunk(coded@, x), e)) by {
                assert(decodes_to(chunk(coded@, x), out@.subrange(64 * x, 64 * x + 64)));
                lemma_decoded_data_is_exact(chunk(coded@, x), out@.subrange(64 * x, 64 * x + 64), e);
            }
            assert forall|x: int| 0 <= x < coded.len() / 127 implies out@.subrange(64 * x, 64 * x + 64) == corrected_data(
                #[trigger] chunk(coded@, x),
            ) by {
                assert(decodes_to(chunk(coded@, x), out@.subrange(64 * x, 64 * x + 64)));
                lemma_decoded_exact_all(chunk(coded@, x), out@.subrange(64 * x, 64 * x + 64));
            }
        }
        Some(out)
    }
}

proof fn lemma_chunk_count(len: int, k: int)
    requires
        0 <= k,
        127 * k + 127 <= len,
    ensures
        k < len / 127,
{
    vstd::arithmetic::div_mod::lemma_div_is_ordered(127 * k + 127, len, 127);
    vstd::arithmetic::div_mod::lemma_div_multiples_vanish(k + 1, 127);
}

proof fn lemma_chunk_count_exact(len: int, k: int)
    requires
        0 <= k,
        127 * k <= len < 127 * k + 127,
    ensures
        len / 127 == k,
{
    vstd::arithmetic::div_mod::lemma_fundamental_div_mod_converse(len, 127, k, len - 127 * k);
}

// ---------------------------------------------------------------------------
// Laws of the code.

proof fn lemma_syndrome_flip_upto(cw: Seq<bool>, p: int, s: int, n: int)
    requires
        0 <= p < cw.len(),
        0 <= n <= cw.len(),
        s >= 0,
    ensures
        syndrome_upto(cw.update(p, !cw[p]), s, n) == syndrome_upto(cw, s, n) ^ (if p < n {
            alpha_pow(s * p)
        } else {
            0u8
        }),
    decreases n,
{
    let c2 = cw.update(p, !cw[p]);
    if n == 0 {
        lemma_xor_facts(0u8, 0u8, 0u8);
    } else {
        lemma_syndrome_flip_upto(cw, p, s, n - 1);
        let prev = syndrome_upto(cw, s, n - 1);
        let t = if cw[n - 1] { alpha_pow(s * (n - 1)) } else { 0u8 };
        let t2 = if c2[n - 1] { alpha_pow(s * (n - 1)) } else { 0u8 };
        let f = alpha_pow(s * p);
        if p < n - 1 {
            lemma_xor_facts(prev, f, t);
            lemma_xor_facts(f, t, 0u8);
            lemma_xor_facts(prev, t, f);
        } else if p == n - 1 {
            lemma_xor_facts(prev, 0u8, t2);
            lemma_xor_facts(prev, t, f);
            lemma_xor_facts(f, 0u8, 0u8);
            lemma_xor_facts(f, f, 0u8);
            lemma_xor_facts(0u8, f, 0u8);
            if cw[p] {
                lemma_xor_facts(prev, f, f);
            } else {
                lemma_xor_facts(prev, 0u8, f);
            }
        } else {
            lemma_xor_facts(prev, 0u8, t);
            lemma_xor_facts(prev, t, 0u8);
            lemma_xor_facts(t, 0u8, 0u8);
        }
    }
}

/// Inverting bits at the positions e adds the syndromes of e.
pub proof fn lemma_syndrome_flip_all(cw: Seq<bool>, e: Seq<int>, s: int)
    requires
        cw.len() == 127,
        error_positions(e),
        s >= 0,
    ensures
        flip_all(cw, e).len() == 127,
        syndrome(flip_all(cw, e), s) == syndrome(cw, s) ^ error_syndrome(e, s),
    decreases e.len(),
{
    if e.len() == 0 {
        lemma_xor_facts(syndrome(cw, s), 0u8, 0u8);
    } else {
        let d = e.drop_last();
        assert(error_positions(d));
        lemma_syndrome_flip_all(cw, d, s);
        let c = flip_all(cw, d);
        lemma_syndrome_flip_upto(c, e.last(), s, 127);
        lemma_xor_facts(syndrome(cw, s), error_syndrome(d, s), alpha_pow(s * e.last()));
    }
}

/// Decoding lands on a codeword: whenever errors at e account for the
/// syndromes of cw, inverting them leaves a word with zero syndromes.
pub proof fn lemma_correction_is_codeword(cw: Seq<bool>, e: Seq<int>)
    requires
        cw.len() == 127,
        error_positions(e),
        explains(e, syndromes(cw)),
    ensures
        all_zero(syndromes(flip_all(cw, e))),
{
    assert forall|i: int| 0 <= i < 20 implies #[trigger] syndromes(flip_all(cw, e))[i] == 0 by {
        lemma_syndrome_flip_all(cw, e, i + 1);
        assert(error_syndrome(e, i + 1) == syndromes(cw)[i]);
        lemma_xor_facts(syndrome(cw, i + 1), 0u8, 0u8);
    }
}

/// Whatever decode_cw returns is the data of a codeword within T bits.
pub proof fn lemma_decoded_is_codeword_data(cw: Seq<bool>, d: Seq<bool>)
    requires
        cw.len() == 127,
        decodes_to(cw, d),
    ensures
        exists|c: Seq<bool>| c.len() == 127 && #[trigger] all_zero(syndromes(c)) && d == data_of(c),
{
    let e = choose|e: Seq<int>|
        e.len() <= T && error_positions(e) && #[trigger] explains(e, syndromes(cw)) && d == data_of(
            flip_all(cw, e),
        );
    lemma_correction_is_codeword(cw, e);
    lemma_syndrome_flip_all(cw, e, 1);
}

/// A single bit error in a codeword is corrected: the received word is near a
/// codeword and its nearest data is the data that was sent.
pub proof fn lemma_corrects_single_error(c: Seq<bool>, j: int)
    requires
        c.len() == 127,
        all_zero(syndromes(c)),
        0 <= j < 127,
    ensures
        near_codeword(flip_all(c, single(j))),
        nearest_data(flip_all(c, single(j))) == data_of(c),
{
    let r = flip_all(c, single(j));
    assert(error_positions(single(j)));
    assert forall|i: int| 0 <= i < 20 implies #[trigger] error_syndrome(single(j), i + 1) == syndromes(r)[i] by {
        lemma_syndrome_flip_all(c, single(j), i + 1);
        assert(syndromes(c)[i] == 0);
        lemma_xor_facts(error_syndrome(single(j), i + 1), 0u8, 0u8);
    }
    assert(explains(single(j), syndromes(r)));
    lemma_single_nonzero(j, syndromes(r));
    let k = choose|k: int| 0 <= k < 127 && #[trigger] explains(single(k), syndromes(r));
    lemma_single_unique(k, j, syndromes(r));
    assert(single(j).drop_last() =~= Seq::<int>::empty());
    assert(single(j).last() == j);
    assert(flip_all(c, Seq::<int>::empty()) == c);
    assert(flip_all(r, Seq::<int>::empty()) == r);
    assert(r == c.update(j, !c[j]));
    assert(flip_all(r, single(j)) =~= c);
}

/// A received word with zero syndromes decodes to its own data bits.
pub proof fn lemma_codeword_is_near(c: Seq<bool>)
    requires
        c.len() == 127,
        all_zero(syndromes(c)),
    ensures
        near_codeword(c),
        nearest_data(c) == data_of(c),
{
}

} // verus!
