//! The generator polynomial of the BCH code has degree 63, binary
//! coefficients, constant and leading coefficient 1, and α^1, ..., α^20
//! among its roots.

use crate::bch::{conv_upto, coset, field_elems, generator, generator_state, minimal_poly, poly_product, trim};
use crate::generator_tables::{
    chosen_cosets, lemma_coset_1, lemma_coset_11, lemma_coset_13, lemma_coset_15, lemma_coset_19, lemma_coset_3,
    lemma_coset_5, lemma_coset_7, lemma_coset_9, lemma_minimal_poly_1, lemma_minimal_poly_11, lemma_minimal_poly_13,
    lemma_minimal_poly_15, lemma_minimal_poly_19, lemma_minimal_poly_3, lemma_minimal_poly_5, lemma_minimal_poly_7,
    lemma_minimal_poly_9, lemma_seen_evolution,
};
use crate::gf::{gf_mul, lemma_mul_basics, lemma_xor_facts};
use crate::poly_eval::{
    lemma_linear_product_elems, lemma_linear_product_root, lemma_peval_bound, lemma_trim_tail, lemma_value_product,
    value_at,
};
use vstd::prelude::*;

verus! {

/// Every coefficient is 0 or 1.
pub open spec fn binary(p: Seq<u8>) -> bool {
    forall|i: int| 0 <= i < p.len() ==> #[trigger] p[i] <= 1
}

/// A generator of the code: degree 63, binary, monic, constant term 1, with
/// α^1..α^20 among its roots.
pub open spec fn valid_generator(g: Seq<u8>) -> bool {
    &&& g.len() == 64
    &&& binary(g)
    &&& g[63] == 1
    &&& g[0] == 1
    &&& forall|s: int| 1 <= s <= 20 ==> #[trigger] value_at(g, s) == 0
}

proof fn lemma_binary_conv(a: Seq<u8>, b: Seq<u8>, k: int, n: int)
    requires
        binary(a),
        binary(b),
        n <= a.len(),
    ensures
        conv_upto(a, b, k, n) <= 1,
    decreases n,
{
    if n > 0 {
        lemma_binary_conv(a, b, k, n - 1);
        let prev = conv_upto(a, b, k, n - 1);
        let t = if 0 <= k - (n - 1) < b.len() { gf_mul(a[n - 1], b[k - (n - 1)]) } else { 0u8 };
        if 0 <= k - (n - 1) < b.len() {
            lemma_mul_basics(a[n - 1], b[k - (n - 1)]);
        }
        lemma_xor_facts(prev, t, 0);
        lemma_xor_facts(t, prev, 0);
    }
}

/// A product of binary polynomials is binary.
proof fn lemma_binary_product(a: Seq<u8>, b: Seq<u8>)
    requires
        binary(a),
        binary(b),
        a.len() >= 1,
        b.len() >= 1,
    ensures
        binary(poly_product(a, b)),
{
    let c = Seq::new((a.len() + b.len() - 1) as nat, |k: int| conv_upto(a, b, k, a.len() as int));
    lemma_trim_tail(c);
    assert forall|i: int| 0 <= i < trim(c).len() implies #[trigger] trim(c)[i] <= 1 by {
        lemma_binary_conv(a, b, i, a.len() as int);
    }
}

/// Coefficients of degree at least n - 1 + b.len() have no terms from the
/// first n coefficients of a.
pub(crate) proof fn lemma_conv_high_zero(a: Seq<u8>, b: Seq<u8>, k: int, n: int)
    requires
        0 <= n <= a.len(),
        k >= n - 1 + b.len(),
    ensures
        conv_upto(a, b, k, n) == 0,
    decreases n,
{
    if n > 0 {
        lemma_conv_high_zero(a, b, k, n - 1);
        lemma_xor_facts(0, 0, 0);
    }
}

/// The constant coefficient of a product is the product of the constant coefficients.
pub proof fn lemma_product_constant(a: Seq<u8>, b: Seq<u8>)
    requires
        a.len() >= 1,
        b.len() >= 1,
    ensures
        poly_product(a, b)[0] == gf_mul(a[0], b[0]),
{
    let c = Seq::new((a.len() + b.len() - 1) as nat, |k: int| conv_upto(a, b, k, a.len() as int));
    lemma_conv_low(a, b, a.len() as int);
    lemma_trim_tail(c);
}

proof fn lemma_conv_low(a: Seq<u8>, b: Seq<u8>, n: int)
    requires
        1 <= n <= a.len(),
        b.len() >= 1,
    ensures
        conv_upto(a, b, 0, n) == gf_mul(a[0], b[0]),
    decreases n,
{
    let g = gf_mul(a[0], b[0]);
    lemma_xor_facts(g, 0, 0);
    if n == 1 {
        assert(conv_upto(a, b, 0, 0) == 0);
        assert(conv_upto(a, b, 0, 1) == 0u8 ^ gf_mul(a[0], b[0 - (1 - 1)]));
    } else {
        lemma_conv_low(a, b, n - 1);
        assert(conv_upto(a, b, 0, n) == conv_upto(a, b, 0, n - 1) ^ 0u8);
    }
}

/// A product of monic polynomials is monic of the summed degree.
proof fn lemma_monic_product(a: Seq<u8>, b: Seq<u8>)
    requires
        a.len() >= 1,
        b.len() >= 1,
        a[a.len() - 1] == 1,
        b[b.len() - 1] == 1,
    ensures
        poly_product(a, b).len() == a.len() + b.len() - 1,
        poly_product(a, b)[a.len() + b.len() - 2] == 1,
{
    let c = Seq::new((a.len() + b.len() - 1) as nat, |k: int| conv_upto(a, b, k, a.len() as int));
    let top = a.len() + b.len() - 2;
    lemma_conv_high_zero(a, b, top, a.len() - 1);
    lemma_mul_basics(1, 1);
    lemma_xor_facts(1, 0, 0);
    assert(c[top] == 1);
    assert(c.last() == 1);
}

/// Some coset among seen contains e.
pub open spec fn covered(seen: Seq<Seq<usize>>, e: int) -> bool {
    exists|t: int, j: int| 0 <= t < seen.len() && 0 <= j < seen[t].len() && #[trigger] seen[t][j] as int == e
}

/// What holds of the generator after each step of its construction: one
/// more factor of degree 7 for each coset used, binary, monic, and vanishing
/// at α^e for every exponent e in a used coset.
pub open spec fn state_ok(st: (Seq<Seq<usize>>, Seq<u8>)) -> bool {
    &&& st.1.len() == 1 + 7 * st.0.len()
    &&& binary(st.1)
    &&& st.1[st.1.len() - 1] == 1
    &&& st.1[0] == 1
    &&& forall|e: int| e >= 0 && covered(st.0, e) ==> #[trigger] value_at(st.1, e) == 0
}

/// The minimal polynomial of α^idx is binary and monic of degree 7, and its
/// coset has 7 exponents.
pub open spec fn minimal_ok(idx: usize) -> bool {
    &&& coset(idx).len() == 7
    &&& minimal_poly(idx).len() == 8
    &&& binary(minimal_poly(idx))
    &&& minimal_poly(idx)[7] == 1
    &&& minimal_poly(idx)[0] == 1
}

proof fn lemma_state_step(n: nat)
    requires
        n >= 1,
        state_ok(generator_state((n - 1) as nat)),
        !seen_in_state(n) ==> minimal_ok(((2 * (n - 1) + 1) % 127) as usize),
    ensures
        state_ok(generator_state(n)),
{
    let (seen, g) = generator_state((n - 1) as nat);
    let idx = ((2 * (n - 1) + 1) % 127) as usize;
    if !seen_in_state(n) {
        let m = minimal_poly(idx);
        let c = coset(idx);
        let (seen2, g2) = generator_state(n);
        assert(seen2 == seen.push(c));
        assert(g2 == poly_product(g, m));
        assert forall|i: int| 0 <= i < g.len() implies #[trigger] g[i] < 128 by {}
        assert forall|i: int| 0 <= i < m.len() implies #[trigger] m[i] < 128 by {}
        lemma_monic_product(g, m);
        lemma_binary_product(g, m);
        lemma_product_constant(g, m);
        lemma_mul_basics(1, 1);
        assert forall|e: int| e >= 0 && covered(seen2, e) implies #[trigger] value_at(g2, e) == 0 by {
            let (t, j) = choose|t: int, j: int|
                0 <= t < seen2.len() && 0 <= j < seen2[t].len() && #[trigger] seen2[t][j] as int == e;
            lemma_value_product(g, m, e);
            lemma_peval_bound(g, e, g.len() as int);
            lemma_linear_product_elems(c, 7);
            lemma_peval_bound(m, e, m.len() as int);
            if t < seen.len() {
                assert(covered(seen, e));
                lemma_mul_basics(0, value_at(m, e));
            } else {
                lemma_linear_product_root(c, 7, e, j);
                lemma_mul_basics(value_at(g, e), 0);
            }
        }
    }
}

/// The minimal polynomials used by the generator are binary and monic of degree 7.
proof fn lemma_minimal_ok(idx: usize)
    requires
        idx == 1 || idx == 3 || idx == 5 || idx == 7 || idx == 9 || idx == 11 || idx == 13 || idx == 15 || idx == 19,
    ensures
        minimal_ok(idx),
{
    if idx == 1 {
        lemma_coset_1();
        lemma_minimal_poly_1();
    } else if idx == 3 {
        lemma_coset_3();
        lemma_minimal_poly_3();
    } else if idx == 5 {
        lemma_coset_5();
        lemma_minimal_poly_5();
    } else if idx == 7 {
        lemma_coset_7();
        lemma_minimal_poly_7();
    } else if idx == 9 {
        lemma_coset_9();
        lemma_minimal_poly_9();
    } else if idx == 11 {
        lemma_coset_11();
        lemma_minimal_poly_11();
    } else if idx == 13 {
        lemma_coset_13();
        lemma_minimal_poly_13();
    } else if idx == 15 {
        lemma_coset_15();
        lemma_minimal_poly_15();
    } else if idx == 19 {
        lemma_coset_19();
        lemma_minimal_poly_19();
    }
    let m = minimal_poly(idx);
    assert(m[0] <= 1 && m[1] <= 1 && m[2] <= 1 && m[3] <= 1 && m[4] <= 1 && m[5] <= 1 && m[6] <= 1 && m[7] <= 1);
    assert forall|i: int| 0 <= i < m.len() implies #[trigger] m[i] <= 1 by {
        assert(0 <= i < 8);
    }
}

/// Each of α^1..α^20 has its exponent in one of the chosen cosets.
proof fn lemma_chosen_cover(s: int)
    requires
        1 <= s <= 20,
    ensures
        covered(chosen_cosets(), s),
{
    lemma_coset_1();
    lemma_coset_3();
    lemma_coset_5();
    lemma_coset_7();
    lemma_coset_9();
    lemma_coset_11();
    lemma_coset_13();
    lemma_coset_15();
    lemma_coset_19();
    if s == 1 {
        assert(chosen_cosets()[0][0] as int == s);
    } else if s == 2 {
        assert(chosen_cosets()[0][1] as int == s);
    } else if s == 3 {
        assert(chosen_cosets()[1][0] as int == s);
    } else if s == 4 {
        assert(chosen_cosets()[0][2] as int == s);
    } else if s == 5 {
        assert(chosen_cosets()[2][0] as int == s);
    } else if s == 6 {
        assert(chosen_cosets()[1][1] as int == s);
    } else if s == 7 {
        assert(chosen_cosets()[3][0] as int == s);
    } else if s == 8 {
        assert(chosen_cosets()[0][3] as int == s);
    } else if s == 9 {
        assert(chosen_cosets()[4][0] as int == s);
    } else if s == 10 {
        assert(chosen_cosets()[2][1] as int == s);
    } else if s == 11 {
        assert(chosen_cosets()[5][0] as int == s);
    } else if s == 12 {
        assert(chosen_cosets()[1][2] as int == s);
    } else if s == 13 {
        assert(chosen_cosets()[6][0] as int == s);
    } else if s == 14 {
        assert(chosen_cosets()[3][1] as int == s);
    } else if s == 15 {
        assert(chosen_cosets()[7][0] as int == s);
    } else if s == 16 {
        assert(chosen_cosets()[0][4] as int == s);
    } else if s == 17 {
        assert(chosen_cosets()[4][4] as int == s);
    } else if s == 18 {
        assert(chosen_cosets()[4][1] as int == s);
    } else if s == 19 {
        assert(chosen_cosets()[8][0] as int == s);
    } else if s == 20 {
        assert(chosen_cosets()[2][2] as int == s);
    }
}

/// Whether step n of the construction finds its exponent already covered.
pub open spec fn seen_in_state(n: nat) -> bool {
    crate::bch::seen_contains(generator_state((n - 1) as nat).0, ((2 * (n - 1) + 1) % 127) as usize)
}

/// The generator is monic of degree 63, binary, and vanishes at α^1..α^20.
pub proof fn lemma_generator_valid()
    ensures
        valid_generator(generator()),
{
    assert(state_ok(generator_state(0)));
    assert(state_ok(generator_state(1))) by {
        lemma_seen_evolution();
        lemma_minimal_ok(1);
        lemma_state_step(1);
    }
    assert(state_ok(generator_state(2))) by {
        lemma_seen_evolution();
        lemma_minimal_ok(3);
        lemma_state_step(2);
    }
    assert(state_ok(generator_state(3))) by {
        lemma_seen_evolution();
        lemma_minimal_ok(5);
        lemma_state_step(3);
    }
    assert(state_ok(generator_state(4))) by {
        lemma_seen_evolution();
        lemma_minimal_ok(7);
        lemma_state_step(4);
    }
    assert(state_ok(generator_state(5))) by {
        lemma_seen_evolution();
        lemma_minimal_ok(9);
        lemma_state_step(5);
    }
    assert(state_ok(generator_state(6))) by {
        lemma_seen_evolution();
        lemma_minimal_ok(11);
        lemma_state_step(6);
    }
    assert(state_ok(generator_state(7))) by {
        lemma_seen_evolution();
        lemma_minimal_ok(13);
        lemma_state_step(7);
    }
    assert(state_ok(generator_state(8))) by {
        lemma_seen_evolution();
        lemma_minimal_ok(15);
        lemma_state_step(8);
    }
    assert(state_ok(generator_state(9))) by {
        lemma_seen_evolution();
        lemma_state_step(9);
    }
    assert(state_ok(generator_state(10))) by {
        lemma_seen_evolution();
        lemma_minimal_ok(19);
        lemma_state_step(10);
    }
    let (seen, g) = generator_state(10);
    assert(seen.len() == 9) by {
        lemma_seen_evolution();
    }
    assert forall|s: int| 1 <= s <= 20 implies #[trigger] value_at(g, s) == 0 by {
        lemma_seen_evolution();
        lemma_chosen_cover(s);
        assert(covered(seen, s));
    }
}

} // verus!
