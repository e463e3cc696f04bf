//! Square linear systems over GF(2^7): dot products, solutions, and the row
//! operations of Gauss-Jordan elimination that keep the set of solutions.

use crate::bch::field_elems;
use crate::gf::{gf_inv, gf_mul, lemma_inv, lemma_mul_assoc, lemma_mul_basics, lemma_mul_distrib, lemma_xor_facts};
use crate::poly_eval::lemma_xor_swap;
use vstd::prelude::*;

verus! {

/// The rows of a matrix of vectors.
pub open spec fn rows(m: Seq<Vec<u8>>) -> Seq<Seq<u8>> {
    m.map_values(|r: Vec<u8>| r@)
}

/// Σ_{j < n} row[j] x[j].
pub open spec fn dot(row: Seq<u8>, x: Seq<u8>, n: int) -> u8
    decreases n,
{
    if n <= 0 {
        0
    } else {
        dot(row, x, n - 1) ^ gf_mul(row[n - 1], x[n - 1])
    }
}

/// x of length v with field elements.
pub open spec fn vec_ok(x: Seq<u8>, v: int) -> bool {
    x.len() == v && field_elems(x)
}

/// Every row of m has length m.len() and field elements.
pub open spec fn square_rows(m: Seq<Seq<u8>>) -> bool {
    forall|r: int| 0 <= r < m.len() ==> (#[trigger] m[r]).len() == m.len() && field_elems(m[r])
}

/// x solves m x = b.
pub open spec fn solves(m: Seq<Seq<u8>>, b: Seq<u8>, x: Seq<u8>) -> bool {
    forall|r: int| 0 <= r < m.len() ==> #[trigger] dot(m[r], x, m.len() as int) == b[r]
}

pub open spec fn zeros(v: int) -> Seq<u8> {
    Seq::new(v as nat, |i: int| 0u8)
}

/// m1 x = b1 and m2 x = b2 have the same solutions.
pub open spec fn same_solutions(m1: Seq<Seq<u8>>, b1: Seq<u8>, m2: Seq<Seq<u8>>, b2: Seq<u8>) -> bool {
    forall|x: Seq<u8>|
        #![trigger solves(m1, b1, x)]
        #![trigger solves(m2, b2, x)]
        vec_ok(x, m1.len() as int) ==> (solves(m1, b1, x) <==> solves(m2, b2, x))
}

/// Only the zero vector solves m x = 0.
pub open spec fn nonsingular(m: Seq<Seq<u8>>) -> bool {
    forall|x: Seq<u8>|
        vec_ok(x, m.len() as int) && #[trigger] solves(m, zeros(m.len() as int), x) ==> x == zeros(m.len() as int)
}

/// Columns 0..c of m are the unit vectors.
pub open spec fn unit_cols(m: Seq<Seq<u8>>, c: int) -> bool {
    forall|r: int, k: int| 0 <= r < m.len() && 0 <= k < c ==> #[trigger] m[r][k] == (if r == k { 1u8 } else { 0u8 })
}

/// row with each entry multiplied by c.
pub open spec fn scale_row(row: Seq<u8>, c: u8) -> Seq<u8> {
    Seq::new(row.len(), |j: int| gf_mul(row[j], c))
}

/// row plus f times prow.
pub open spec fn elim_row(row: Seq<u8>, f: u8, prow: Seq<u8>) -> Seq<u8> {
    Seq::new(row.len(), |j: int| row[j] ^ gf_mul(f, prow[j]))
}

pub proof fn lemma_dot_bound(row: Seq<u8>, x: Seq<u8>, n: int)
    requires
        0 <= n <= row.len(),
        n <= x.len(),
        field_elems(row),
        field_elems(x),
    ensures
        dot(row, x, n) < 128,
    decreases n,
{
    if n > 0 {
        lemma_dot_bound(row, x, n - 1);
        lemma_mul_basics(row[n - 1], x[n - 1]);
        lemma_xor_facts(dot(row, x, n - 1), gf_mul(row[n - 1], x[n - 1]), 0);
    }
}

proof fn lemma_dot_scale(row: Seq<u8>, c: u8, x: Seq<u8>, n: int)
    requires
        0 <= n <= row.len(),
        n <= x.len(),
        field_elems(row),
        field_elems(x),
        c < 128,
    ensures
        dot(scale_row(row, c), x, n) == gf_mul(c, dot(row, x, n)),
    decreases n,
{
    if n == 0 {
        lemma_mul_basics(c, 0);
    } else {
        lemma_dot_scale(row, c, x, n - 1);
        let (a, y) = (row[n - 1], x[n - 1]);
        lemma_mul_basics(a, c);
        lemma_mul_basics(a, y);
        lemma_mul_assoc(c, a, y);
        lemma_dot_bound(row, x, n - 1);
        lemma_mul_distrib(c, dot(row, x, n - 1), gf_mul(a, y));
    }
}

proof fn lemma_dot_elim(row: Seq<u8>, f: u8, prow: Seq<u8>, x: Seq<u8>, n: int)
    requires
        0 <= n <= row.len(),
        n <= prow.len(),
        n <= x.len(),
        field_elems(row),
        field_elems(prow),
        field_elems(x),
        f < 128,
    ensures
        dot(elim_row(row, f, prow), x, n) == dot(row, x, n) ^ gf_mul(f, dot(prow, x, n)),
    decreases n,
{
    if n == 0 {
        lemma_mul_basics(f, 0);
        lemma_xor_facts(0, 0, 0);
    } else {
        lemma_dot_elim(row, f, prow, x, n - 1);
        let (a, p, y) = (row[n - 1], prow[n - 1], x[n - 1]);
        lemma_mul_basics(f, p);
        lemma_mul_basics(p, y);
        lemma_mul_basics(a, y);
        lemma_mul_distrib(y, a, gf_mul(f, p));
        lemma_mul_basics(a ^ gf_mul(f, p), y);
        lemma_mul_basics(gf_mul(f, p), y);
        lemma_mul_assoc(f, p, y);
        lemma_dot_bound(row, x, n - 1);
        lemma_dot_bound(prow, x, n - 1);
        let (da, dp) = (dot(row, x, n - 1), dot(prow, x, n - 1));
        lemma_mul_distrib(f, dp, gf_mul(p, y));
        lemma_xor_swap(da, gf_mul(f, dp), gf_mul(a, y), gf_mul(f, gf_mul(p, y)));
    }
}

/// A nonzero factor can be cancelled.
proof fn lemma_mul_cancel(c: u8, y: u8, z: u8)
    requires
        1 <= c < 128,
        y < 128,
        z < 128,
        gf_mul(c, y) == gf_mul(c, z),
    ensures
        y == z,
{
    lemma_inv(c);
    let ci = gf_inv(c);
    lemma_mul_basics(c, ci);
    lemma_mul_assoc(ci, c, y);
    lemma_mul_assoc(ci, c, z);
    lemma_mul_basics(y, 1);
    lemma_mul_basics(z, 1);
}

/// Exchanging two equations keeps the solutions.
pub proof fn lemma_swap_rows(m: Seq<Seq<u8>>, b: Seq<u8>, i: int, k: int)
    requires
        0 <= i < m.len(),
        0 <= k < m.len(),
        b.len() == m.len(),
    ensures
        same_solutions(m, b, m.update(i, m[k]).update(k, m[i]), b.update(i, b[k]).update(k, b[i])),
{
    let m2 = m.update(i, m[k]).update(k, m[i]);
    let b2 = b.update(i, b[k]).update(k, b[i]);
    let n = m.len() as int;
    assert(m2.len() == m.len());
    assert forall|x: Seq<u8>| vec_ok(x, n) implies (solves(m, b, x) <==> solves(m2, b2, x)) by {
        if solves(m, b, x) {
            assert forall|r: int| 0 <= r < n implies #[trigger] dot(m2[r], x, n) == b2[r] by {
                let s = if r == k { i } else if r == i { k } else { r };
                assert(dot(m[s], x, n) == b[s]);
            }
        }
        if solves(m2, b2, x) {
            assert forall|r: int| 0 <= r < n implies #[trigger] dot(m[r], x, n) == b[r] by {
                let s = if r == i { k } else if r == k { i } else { r };
                assert(dot(m2[s], x, n) == b2[s]);
            }
        }
    }
}

/// Multiplying one equation by a nonzero factor keeps the solutions.
pub proof fn lemma_scale_row(m: Seq<Seq<u8>>, b: Seq<u8>, k: int, c: u8)
    requires
        square_rows(m),
        0 <= k < m.len(),
        b.len() == m.len(),
        field_elems(b),
        1 <= c < 128,
    ensures
        same_solutions(m, b, m.update(k, scale_row(m[k], c)), b.update(k, gf_mul(b[k], c))),
{
    let m2 = m.update(k, scale_row(m[k], c));
    let b2 = b.update(k, gf_mul(b[k], c));
    let n = m.len() as int;
    assert(m2.len() == m.len());
    assert forall|x: Seq<u8>| vec_ok(x, n) implies (solves(m, b, x) <==> solves(m2, b2, x)) by {
        assert(m[k].len() == n && field_elems(m[k]));
        lemma_dot_scale(m[k], c, x, n);
        lemma_dot_bound(m[k], x, n);
        lemma_mul_basics(b[k], c);
        if solves(m, b, x) {
            assert forall|r: int| 0 <= r < n implies #[trigger] dot(m2[r], x, n) == b2[r] by {
                assert(dot(m[r], x, n) == b[r]);
            }
        }
        if solves(m2, b2, x) {
            assert forall|r: int| 0 <= r < n implies #[trigger] dot(m[r], x, n) == b[r] by {
                assert(dot(m2[r], x, n) == b2[r]);
                if r == k {
                    lemma_mul_cancel(c, dot(m[k], x, n), b[k]);
                }
            }
        }
    }
}

/// Adding f times equation k to another equation r keeps the solutions.
pub proof fn lemma_elim_row(m: Seq<Seq<u8>>, b: Seq<u8>, r: int, k: int, f: u8)
    requires
        square_rows(m),
        0 <= r < m.len(),
        0 <= k < m.len(),
        r != k,
        b.len() == m.len(),
        field_elems(b),
        f < 128,
    ensures
        same_solutions(
            m,
            b,
            m.update(r, elim_row(m[r], f, m[k])),
            b.update(r, b[r] ^ gf_mul(f, b[k])),
        ),
{
    let m2 = m.update(r, elim_row(m[r], f, m[k]));
    let b2 = b.update(r, b[r] ^ gf_mul(f, b[k]));
    let n = m.len() as int;
    assert(m2.len() == m.len());
    assert forall|x: Seq<u8>| vec_ok(x, n) implies (solves(m, b, x) <==> solves(m2, b2, x)) by {
        assert(m[k].len() == n && field_elems(m[k]));
        assert(m[r].len() == n && field_elems(m[r]));
        lemma_dot_elim(m[r], f, m[k], x, n);
        lemma_dot_bound(m[r], x, n);
        lemma_dot_bound(m[k], x, n);
        let (dr, dk) = (dot(m[r], x, n), dot(m[k], x, n));
        lemma_mul_basics(f, dk);
        lemma_xor_facts(dr, gf_mul(f, dk), gf_mul(f, dk));
        lemma_xor_facts(gf_mul(f, dk), 0, 0);
        if solves(m, b, x) {
            assert forall|q: int| 0 <= q < n implies #[trigger] dot(m2[q], x, n) == b2[q] by {
                assert(dot(m[q], x, n) == b[q]);
                assert(dot(m[k], x, n) == b[k]);
            }
        }
        if solves(m2, b2, x) {
            assert forall|q: int| 0 <= q < n implies #[trigger] dot(m[q], x, n) == b[q] by {
                assert(dot(m2[q], x, n) == b2[q]);
                assert(dot(m2[k], x, n) == b2[k]);
                if q == r {
                    lemma_xor_facts(b[r], gf_mul(f, b[k]), gf_mul(f, b[k]));
                    lemma_xor_facts(b[r], 0, 0);
                    lemma_xor_facts(dr, 0, 0);
                }
            }
        }
    }
}

/// A dot product whose terms vanish except at a and b.
proof fn lemma_dot_two_terms(row: Seq<u8>, x: Seq<u8>, n: int, a: int, b: int)
    requires
        0 <= n,
        0 <= a,
        0 <= b,
        a != b,
        forall|j: int| 0 <= j < n && j != a && j != b ==> #[trigger] gf_mul(row[j], x[j]) == 0,
    ensures
        dot(row, x, n) == (if a < n { gf_mul(row[a], x[a]) } else { 0u8 }) ^ (if b < n {
            gf_mul(row[b], x[b])
        } else {
            0u8
        }),
    decreases n,
{
    if n == 0 {
        lemma_xor_facts(0, 0, 0);
    } else {
        lemma_dot_two_terms(row, x, n - 1, a, b);
        let ta = if a < n - 1 { gf_mul(row[a], x[a]) } else { 0u8 };
        let tb = if b < n - 1 { gf_mul(row[b], x[b]) } else { 0u8 };
        let t = gf_mul(row[n - 1], x[n - 1]);
        lemma_xor_facts(ta, tb, t);
        lemma_xor_facts(ta, t, tb);
        lemma_xor_facts(tb, t, 0);
        lemma_xor_facts(ta ^ tb, 0, 0);
    }
}

/// With the unit vectors as its columns, row r of m picks x[r].
proof fn lemma_identity_dot(m: Seq<Seq<u8>>, x: Seq<u8>, r: int)
    requires
        square_rows(m),
        unit_cols(m, m.len() as int),
        0 <= r < m.len(),
        vec_ok(x, m.len() as int),
    ensures
        dot(m[r], x, m.len() as int) == x[r],
{
    let n = m.len() as int;
    assert forall|j: int| 0 <= j < n && j != r && j != n implies #[trigger] gf_mul(m[r][j], x[j]) == 0 by {
        assert(m[r][j] == 0);
    }
    lemma_dot_two_terms(m[r], x, n, r, n);
    assert(m[r][r] == 1);
    lemma_mul_basics(x[r], 1);
    lemma_xor_facts(x[r], 0, 0);
}

/// With the unit vectors as its columns, m x = b exactly when x = b.
pub proof fn lemma_identity_solves(m: Seq<Seq<u8>>, b: Seq<u8>, x: Seq<u8>)
    requires
        square_rows(m),
        unit_cols(m, m.len() as int),
        vec_ok(x, m.len() as int),
        b.len() == m.len(),
    ensures
        solves(m, b, x) <==> x == b,
{
    let n = m.len() as int;
    assert forall|r: int| 0 <= r < n implies #[trigger] dot(m[r], x, n) == x[r] by {
        lemma_identity_dot(m, x, r);
    }
    if solves(m, b, x) {
        assert forall|r: int| 0 <= r < n implies x[r] == b[r] by {
            assert(dot(m[r], x, n) == b[r]);
        }
        assert(x =~= b);
    }
}

/// When columns 0..c are unit vectors and column c is zero from row c on,
/// column c is a combination of the earlier ones: m x = 0 for a nonzero x.
pub proof fn lemma_dependent_column(m: Seq<Seq<u8>>, c: int)
    requires
        square_rows(m),
        unit_cols(m, c),
        0 <= c < m.len(),
        forall|r: int| c <= r < m.len() ==> #[trigger] m[r][c] == 0,
    ensures
        !nonsingular(m),
{
    let n = m.len() as int;
    let x = Seq::new(n as nat, |j: int| if j < c { m[j][c] } else if j == c { 1u8 } else { 0u8 });
    assert forall|j: int| 0 <= j < n implies #[trigger] x[j] < 128 by {
        if j < c {
            assert(field_elems(m[j]));
        }
    }
    assert forall|r: int| 0 <= r < n implies #[trigger] dot(m[r], x, n) == zeros(n)[r] by {
        let row = m[r];
        assert(row.len() == n && field_elems(row));
        lemma_mul_basics(row[c], 1);
        if r < c {
            assert forall|j: int| 0 <= j < n && j != r && j != c implies #[trigger] gf_mul(row[j], x[j]) == 0 by {
                if j < c {
                    assert(row[j] == 0);
                }
            }
            lemma_dot_two_terms(row, x, n, r, c);
            assert(row[r] == 1);
            lemma_mul_basics(x[r], 1);
            lemma_xor_facts(row[c], 0, 0);
        } else {
            assert forall|j: int| 0 <= j < n && j != c && j != n implies #[trigger] gf_mul(row[j], x[j]) == 0 by {
                if j < c {
                    assert(row[j] == 0);
                }
            }
            lemma_dot_two_terms(row, x, n, c, n);
            assert(row[c] == 0);
            lemma_xor_facts(0, 0, 0);
        }
    }
    assert(x[c] == 1);
    assert(x != zeros(n));
    assert(solves(m, zeros(n), x));
}

/// Having the same solutions is transitive.
pub proof fn lemma_same_trans(
    m1: Seq<Seq<u8>>,
    b1: Seq<u8>,
    m2: Seq<Seq<u8>>,
    b2: Seq<u8>,
    m3: Seq<Seq<u8>>,
    b3: Seq<u8>,
)
    requires
        m1.len() == m2.len(),
        same_solutions(m1, b1, m2, b2),
        same_solutions(m2, b2, m3, b3),
    ensures
        same_solutions(m1, b1, m3, b3),
{
    assert forall|x: Seq<u8>| vec_ok(x, m1.len() as int) implies (solves(m1, b1, x) <==> solves(m3, b3, x)) by {
        assert(solves(m1, b1, x) <==> solves(m2, b2, x));
        assert(solves(m2, b2, x) <==> solves(m3, b3, x));
    }
}

/// Systems with the same homogeneous solutions are singular together.
pub proof fn lemma_nonsingular_transfer(m1: Seq<Seq<u8>>, m2: Seq<Seq<u8>>)
    requires
        m1.len() == m2.len(),
        same_solutions(m1, zeros(m1.len() as int), m2, zeros(m2.len() as int)),
    ensures
        nonsingular(m1) == nonsingular(m2),
{
    let n = m1.len() as int;
    if nonsingular(m1) {
        assert forall|x: Seq<u8>| vec_ok(x, n) && #[trigger] solves(m2, zeros(n), x) implies x == zeros(n) by {
            assert(solves(m1, zeros(n), x));
        }
    }
    if nonsingular(m2) {
        assert forall|x: Seq<u8>| vec_ok(x, n) && #[trigger] solves(m1, zeros(n), x) implies x == zeros(n) by {
            assert(solves(m2, zeros(n), x));
        }
    }
}

} // verus!
