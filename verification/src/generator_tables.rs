//! Concrete facts about the cyclotomic cosets and minimal polynomials that
//! build the generator: each computed step by step in GF(2^7), with field
//! products read off the logarithm table and sums computed bit by bit.

use crate::bch::{coset, coset_from, generator_state, linear_product, minimal_poly, mul_linear, seen_contains};
use crate::gf::{alpha_pow, gf_mul, lemma_tables, log_alpha};
use vstd::prelude::*;

verus! {

/// a ^ b computed bit by bit with arithmetic.
pub open spec fn xor_arith(a: u8, b: u8) -> int {
    (a % 2 + b % 2) % 2 + ((a / 2) % 2 + (b / 2) % 2) % 2 * 2 + ((a / 4) % 2 + (b / 4) % 2) % 2 * 4 + ((a / 8) % 2
        + (b / 8) % 2) % 2 * 8 + ((a / 16) % 2 + (b / 16) % 2) % 2 * 16 + ((a / 32) % 2 + (b / 32) % 2) % 2 * 32 + ((a
        / 64) % 2 + (b / 64) % 2) % 2 * 64 + ((a / 128) % 2 + (b / 128) % 2) % 2 * 128
}

proof fn lemma_xor_arith(a: u8, b: u8)
    ensures
        (a ^ b) as int == xor_arith(a, b),
{
    assert((a ^ b) as int == xor_arith(a, b)) by (bit_vector);
}

/// α^c is the element whose logarithm is c.
proof fn lemma_alpha_pow_value(c: int, v: u8)
    requires
        0 <= c < 127,
        1 <= v < 128,
        log_alpha(v) == c,
    ensures
        alpha_pow(c) == v,
{
    lemma_tables();
}

/// One coefficient hi + a r of a product by (x + r), with the product given
/// through logarithms and the sum computed bit by bit.
proof fn lemma_step_coeff(hi: u8, a: u8, r: u8, prod: u8, out: u8)
    requires
        1 <= r < 128,
        a < 128,
        a == 0 ==> prod == 0,
        a != 0 ==> 1 <= prod < 128 && (log_alpha(a) + log_alpha(r)) % 127 == log_alpha(prod),
        xor_arith(hi, prod) == out,
    ensures
        hi ^ gf_mul(a, r) == out,
{
    lemma_tables();
    lemma_xor_arith(hi, prod);
}

pub(crate) proof fn lemma_coset_1()
    ensures
        coset(1) == seq![1usize, 2, 4, 8, 16, 32, 64],
{
    assert(seq![1usize, 2, 4, 8, 16, 32, 64].contains(1usize));
    assert(coset_from(seq![1usize, 2, 4, 8, 16, 32, 64], 1) == seq![1usize, 2, 4, 8, 16, 32, 64]);
    assert(!seq![1usize, 2, 4, 8, 16, 32].contains(64usize));
    assert(seq![1usize, 2, 4, 8, 16, 32].push(64usize) == seq![1usize, 2, 4, 8, 16, 32, 64]);
    assert(coset_from(seq![1usize, 2, 4, 8, 16, 32], 64) == coset_from(seq![1usize, 2, 4, 8, 16, 32, 64], 1));
    assert(!seq![1usize, 2, 4, 8, 16].contains(32usize));
    assert(seq![1usize, 2, 4, 8, 16].push(32usize) == seq![1usize, 2, 4, 8, 16, 32]);
    assert(coset_from(seq![1usize, 2, 4, 8, 16], 32) == coset_from(seq![1usize, 2, 4, 8, 16, 32], 64));
    assert(!seq![1usize, 2, 4, 8].contains(16usize));
    assert(seq![1usize, 2, 4, 8].push(16usize) == seq![1usize, 2, 4, 8, 16]);
    assert(coset_from(seq![1usize, 2, 4, 8], 16) == coset_from(seq![1usize, 2, 4, 8, 16], 32));
    assert(!seq![1usize, 2, 4].contains(8usize));
    assert(seq![1usize, 2, 4].push(8usize) == seq![1usize, 2, 4, 8]);
    assert(coset_from(seq![1usize, 2, 4], 8) == coset_from(seq![1usize, 2, 4, 8], 16));
    assert(!seq![1usize, 2].contains(4usize));
    assert(seq![1usize, 2].push(4usize) == seq![1usize, 2, 4]);
    assert(coset_from(seq![1usize, 2], 4) == coset_from(seq![1usize, 2, 4], 8));
    assert(!seq![1usize].contains(2usize));
    assert(seq![1usize].push(2usize) == seq![1usize, 2]);
    assert(coset_from(seq![1usize], 2) == coset_from(seq![1usize, 2], 4));
    assert(!Seq::<usize>::empty().contains(1usize));
    assert(Seq::<usize>::empty().push(1usize) == seq![1usize]);
    assert(coset_from(Seq::<usize>::empty(), 1) == coset_from(seq![1usize], 2));
}

pub(crate) proof fn lemma_coset_3()
    ensures
        coset(3) == seq![3usize, 6, 12, 24, 48, 96, 65],
{
    assert(seq![3usize, 6, 12, 24, 48, 96, 65].contains(3usize));
    assert(coset_from(seq![3usize, 6, 12, 24, 48, 96, 65], 3) == seq![3usize, 6, 12, 24, 48, 96, 65]);
    assert(!seq![3usize, 6, 12, 24, 48, 96].contains(65usize));
    assert(seq![3usize, 6, 12, 24, 48, 96].push(65usize) == seq![3usize, 6, 12, 24, 48, 96, 65]);
    assert(coset_from(seq![3usize, 6, 12, 24, 48, 96], 65) == coset_from(seq![3usize, 6, 12, 24, 48, 96, 65], 3));
    assert(!seq![3usize, 6, 12, 24, 48].contains(96usize));
    assert(seq![3usize, 6, 12, 24, 48].push(96usize) == seq![3usize, 6, 12, 24, 48, 96]);
    assert(coset_from(seq![3usize, 6, 12, 24, 48], 96) == coset_from(seq![3usize, 6, 12, 24, 48, 96], 65));
    assert(!seq![3usize, 6, 12, 24].contains(48usize));
    assert(seq![3usize, 6, 12, 24].push(48usize) == seq![3usize, 6, 12, 24, 48]);
    assert(coset_from(seq![3usize, 6, 12, 24], 48) == coset_from(seq![3usize, 6, 12, 24, 48], 96));
    assert(!seq![3usize, 6, 12].contains(24usize));
    assert(seq![3usize, 6, 12].push(24usize) == seq![3usize, 6, 12, 24]);
    assert(coset_from(seq![3usize, 6, 12], 24) == coset_from(seq![3usize, 6, 12, 24], 48));
    assert(!seq![3usize, 6].contains(12usize));
    assert(seq![3usize, 6].push(12usize) == seq![3usize, 6, 12]);
    assert(coset_from(seq![3usize, 6], 12) == coset_from(seq![3usize, 6, 12], 24));
    assert(!seq![3usize].contains(6usize));
    assert(seq![3usize].push(6usize) == seq![3usize, 6]);
    assert(coset_from(seq![3usize], 6) == coset_from(seq![3usize, 6], 12));
    assert(!Seq::<usize>::empty().contains(3usize));
    assert(Seq::<usize>::empty().push(3usize) == seq![3usize]);
    assert(coset_from(Seq::<usize>::empty(), 3) == coset_from(seq![3usize], 6));
}

pub(crate) proof fn lemma_coset_5()
    ensures
        coset(5) == seq![5usize, 10, 20, 40, 80, 33, 66],
{
    assert(seq![5usize, 10, 20, 40, 80, 33, 66].contains(5usize));
    assert(coset_from(seq![5usize, 10, 20, 40, 80, 33, 66], 5) == seq![5usize, 10, 20, 40, 80, 33, 66]);
    assert(!seq![5usize, 10, 20, 40, 80, 33].contains(66usize));
    assert(seq![5usize, 10, 20, 40, 80, 33].push(66usize) == seq![5usize, 10, 20, 40, 80, 33, 66]);
    assert(coset_from(seq![5usize, 10, 20, 40, 80, 33], 66) == coset_from(seq![5usize, 10, 20, 40, 80, 33, 66], 5));
    assert(!seq![5usize, 10, 20, 40, 80].contains(33usize));
    assert(seq![5usize, 10, 20, 40, 80].push(33usize) == seq![5usize, 10, 20, 40, 80, 33]);
    assert(coset_from(seq![5usize, 10, 20, 40, 80], 33) == coset_from(seq![5usize, 10, 20, 40, 80, 33], 66));
    assert(!seq![5usize, 10, 20, 40].contains(80usize));
    assert(seq![5usize, 10, 20, 40].push(80usize) == seq![5usize, 10, 20, 40, 80]);
    assert(coset_from(seq![5usize, 10, 20, 40], 80) == coset_from(seq![5usize, 10, 20, 40, 80], 33));
    assert(!seq![5usize, 10, 20].contains(40usize));
    assert(seq![5usize, 10, 20].push(40usize) == seq![5usize, 10, 20, 40]);
    assert(coset_from(seq![5usize, 10, 20], 40) == coset_from(seq![5usize, 10, 20, 40], 80));
    assert(!seq![5usize, 10].contains(20usize));
    assert(seq![5usize, 10].push(20usize) == seq![5usize, 10, 20]);
    assert(coset_from(seq![5usize, 10], 20) == coset_from(seq![5usize, 10, 20], 40));
    assert(!seq![5usize].contains(10usize));
    assert(seq![5usize].push(10usize) == seq![5usize, 10]);
    assert(coset_from(seq![5usize], 10) == coset_from(seq![5usize, 10], 20));
    assert(!Seq::<usize>::empty().contains(5usize));
    assert(Seq::<usize>::empty().push(5usize) == seq![5usize]);
    assert(coset_from(Seq::<usize>::empty(), 5) == coset_from(seq![5usize], 10));
}

pub(crate) proof fn lemma_coset_7()
    ensures
        coset(7) == seq![7usize, 14, 28, 56, 112, 97, 67],
{
    assert(seq![7usize, 14, 28, 56, 112, 97, 67].contains(7usize));
    assert(coset_from(seq![7usize, 14, 28, 56, 112, 97, 67], 7) == seq![7usize, 14, 28, 56, 112, 97, 67]);
    assert(!seq![7usize, 14, 28, 56, 112, 97].contains(67usize));
    assert(seq![7usize, 14, 28, 56, 112, 97].push(67usize) == seq![7usize, 14, 28, 56, 112, 97, 67]);
    assert(coset_from(seq![7usize, 14, 28, 56, 112, 97], 67) == coset_from(seq![7usize, 14, 28, 56, 112, 97, 67], 7));
    assert(!seq![7usize, 14, 28, 56, 112].contains(97usize));
    assert(seq![7usize, 14, 28, 56, 112].push(97usize) == seq![7usize, 14, 28, 56, 112, 97]);
    assert(coset_from(seq![7usize, 14, 28, 56, 112], 97) == coset_from(seq![7usize, 14, 28, 56, 112, 97], 67));
    assert(!seq![7usize, 14, 28, 56].contains(112usize));
    assert(seq![7usize, 14, 28, 56].push(112usize) == seq![7usize, 14, 28, 56, 112]);
    assert(coset_from(seq![7usize, 14, 28, 56], 112) == coset_from(seq![7usize, 14, 28, 56, 112], 97));
    assert(!seq![7usize, 14, 28].contains(56usize));
    assert(seq![7usize, 14, 28].push(56usize) == seq![7usize, 14, 28, 56]);
    assert(coset_from(seq![7usize, 14, 28], 56) == coset_from(seq![7usize, 14, 28, 56], 112));
    assert(!seq![7usize, 14].contains(28usize));
    assert(seq![7usize, 14].push(28usize) == seq![7usize, 14, 28]);
    assert(coset_from(seq![7usize, 14], 28) == coset_from(seq![7usize, 14, 28], 56));
    assert(!seq![7usize].contains(14usize));
    assert(seq![7usize].push(14usize) == seq![7usize, 14]);
    assert(coset_from(seq![7usize], 14) == coset_from(seq![7usize, 14], 28));
    assert(!Seq::<usize>::empty().contains(7usize));
    assert(Seq::<usize>::empty().push(7usize) == seq![7usize]);
    assert(coset_from(Seq::<usize>::empty(), 7) == coset_from(seq![7usize], 14));
}

pub(crate) proof fn lemma_coset_9()
    ensures
        coset(9) == seq![9usize, 18, 36, 72, 17, 34, 68],
{
    assert(seq![9usize, 18, 36, 72, 17, 34, 68].contains(9usize));
    assert(coset_from(seq![9usize, 18, 36, 72, 17, 34, 68], 9) == seq![9usize, 18, 36, 72, 17, 34, 68]);
    assert(!seq![9usize, 18, 36, 72, 17, 34].contains(68usize));
    assert(seq![9usize, 18, 36, 72, 17, 34].push(68usize) == seq![9usize, 18, 36, 72, 17, 34, 68]);
    assert(coset_from(seq![9usize, 18, 36, 72, 17, 34], 68) == coset_from(seq![9usize, 18, 36, 72, 17, 34, 68], 9));
    assert(!seq![9usize, 18, 36, 72, 17].contains(34usize));
    assert(seq![9usize, 18, 36, 72, 17].push(34usize) == seq![9usize, 18, 36, 72, 17, 34]);
    assert(coset_from(seq![9usize, 18, 36, 72, 17], 34) == coset_from(seq![9usize, 18, 36, 72, 17, 34], 68));
    assert(!seq![9usize, 18, 36, 72].contains(17usize));
    assert(seq![9usize, 18, 36, 72].push(17usize) == seq![9usize, 18, 36, 72, 17]);
    assert(coset_from(seq![9usize, 18, 36, 72], 17) == coset_from(seq![9usize, 18, 36, 72, 17], 34));
    assert(!seq![9usize, 18, 36].contains(72usize));
    assert(seq![9usize, 18, 36].push(72usize) == seq![9usize, 18, 36, 72]);
    assert(coset_from(seq![9usize, 18, 36], 72) == coset_from(seq![9usize, 18, 36, 72], 17));
    assert(!seq![9usize, 18].contains(36usize));
    assert(seq![9usize, 18].push(36usize) == seq![9usize, 18, 36]);
    assert(coset_from(seq![9usize, 18], 36) == coset_from(seq![9usize, 18, 36], 72));
    assert(!seq![9usize].contains(18usize));
    assert(seq![9usize].push(18usize) == seq![9usize, 18]);
    assert(coset_from(seq![9usize], 18) == coset_from(seq![9usize, 18], 36));
    assert(!Seq::<usize>::empty().contains(9usize));
    assert(Seq::<usize>::empty().push(9usize) == seq![9usize]);
    assert(coset_from(Seq::<usize>::empty(), 9) == coset_from(seq![9usize], 18));
}

pub(crate) proof fn lemma_coset_11()
    ensures
        coset(11) == seq![11usize, 22, 44, 88, 49, 98, 69],
{
    assert(seq![11usize, 22, 44, 88, 49, 98, 69].contains(11usize));
    assert(coset_from(seq![11usize, 22, 44, 88, 49, 98, 69], 11) == seq![11usize, 22, 44, 88, 49, 98, 69]);
    assert(!seq![11usize, 22, 44, 88, 49, 98].contains(69usize));
    assert(seq![11usize, 22, 44, 88, 49, 98].push(69usize) == seq![11usize, 22, 44, 88, 49, 98, 69]);
    assert(coset_from(seq![11usize, 22, 44, 88, 49, 98], 69) == coset_from(seq![11usize, 22, 44, 88, 49, 98, 69], 11));
    assert(!seq![11usize, 22, 44, 88, 49].contains(98usize));
    assert(seq![11usize, 22, 44, 88, 49].push(98usize) == seq![11usize, 22, 44, 88, 49, 98]);
    assert(coset_from(seq![11usize, 22, 44, 88, 49], 98) == coset_from(seq![11usize, 22, 44, 88, 49, 98], 69));
    assert(!seq![11usize, 22, 44, 88].contains(49usize));
    assert(seq![11usize, 22, 44, 88].push(49usize) == seq![11usize, 22, 44, 88, 49]);
    assert(coset_from(seq![11usize, 22, 44, 88], 49) == coset_from(seq![11usize, 22, 44, 88, 49], 98));
    assert(!seq![11usize, 22, 44].contains(88usize));
    assert(seq![11usize, 22, 44].push(88usize) == seq![11usize, 22, 44, 88]);
    assert(coset_from(seq![11usize, 22, 44], 88) == coset_from(seq![11usize, 22, 44, 88], 49));
    assert(!seq![11usize, 22].contains(44usize));
    assert(seq![11usize, 22].push(44usize) == seq![11usize, 22, 44]);
    assert(coset_from(seq![11usize, 22], 44) == coset_from(seq![11usize, 22, 44], 88));
    assert(!seq![11usize].contains(22usize));
    assert(seq![11usize].push(22usize) == seq![11usize, 22]);
    assert(coset_from(seq![11usize], 22) == coset_from(seq![11usize, 22], 44));
    assert(!Seq::<usize>::empty().contains(11usize));
    assert(Seq::<usize>::empty().push(11usize) == seq![11usize]);
    assert(coset_from(Seq::<usize>::empty(), 11) == coset_from(seq![11usize], 22));
}

pub(crate) proof fn lemma_coset_13()
    ensures
        coset(13) == seq![13usize, 26, 52, 104, 81, 35, 70],
{
    assert(seq![13usize, 26, 52, 104, 81, 35, 70].contains(13usize));
    assert(coset_from(seq![13usize, 26, 52, 104, 81, 35, 70], 13) == seq![13usize, 26, 52, 104, 81, 35, 70]);
    assert(!seq![13usize, 26, 52, 104, 81, 35].contains(70usize));
    assert(seq![13usize, 26, 52, 104, 81, 35].push(70usize) == seq![13usize, 26, 52, 104, 81, 35, 70]);
    assert(coset_from(seq![13usize, 26, 52, 104, 81, 35], 70) == coset_from(seq![13usize, 26, 52, 104, 81, 35, 70], 13));
    assert(!seq![13usize, 26, 52, 104, 81].contains(35usize));
    assert(seq![13usize, 26, 52, 104, 81].push(35usize) == seq![13usize, 26, 52, 104, 81, 35]);
    assert(coset_from(seq![13usize, 26, 52, 104, 81], 35) == coset_from(seq![13usize, 26, 52, 104, 81, 35], 70));
    assert(!seq![13usize, 26, 52, 104].contains(81usize));
    assert(seq![13usize, 26, 52, 104].push(81usize) == seq![13usize, 26, 52, 104, 81]);
    assert(coset_from(seq![13usize, 26, 52, 104], 81) == coset_from(seq![13usize, 26, 52, 104, 81], 35));
    assert(!seq![13usize, 26, 52].contains(104usize));
    assert(seq![13usize, 26, 52].push(104usize) == seq![13usize, 26, 52, 104]);
    assert(coset_from(seq![13usize, 26, 52], 104) == coset_from(seq![13usize, 26, 52, 104], 81));
    assert(!seq![13usize, 26].contains(52usize));
    assert(seq![13usize, 26].push(52usize) == seq![13usize, 26, 52]);
    assert(coset_from(seq![13usize, 26], 52) == coset_from(seq![13usize, 26, 52], 104));
    assert(!seq![13usize].contains(26usize));
    assert(seq![13usize].push(26usize) == seq![13usize, 26]);
    assert(coset_from(seq![13usize], 26) == coset_from(seq![13usize, 26], 52));
    assert(!Seq::<usize>::empty().contains(13usize));
    assert(Seq::<usize>::empty().push(13usize) == seq![13usize]);
    assert(coset_from(Seq::<usize>::empty(), 13) == coset_from(seq![13usize], 26));
}

pub(crate) proof fn lemma_coset_15()
    ensures
        coset(15) == seq![15usize, 30, 60, 120, 113, 99, 71],
{
    assert(seq![15usize, 30, 60, 120, 113, 99, 71].contains(15usize));
    assert(coset_from(seq![15usize, 30, 60, 120, 113, 99, 71], 15) == seq![15usize, 30, 60, 120, 113, 99, 71]);
    assert(!seq![15usize, 30, 60, 120, 113, 99].contains(71usize));
    assert(seq![15usize, 30, 60, 120, 113, 99].push(71usize) == seq![15usize, 30, 60, 120, 113, 99, 71]);
    assert(coset_from(seq![15usize, 30, 60, 120, 113, 99], 71) == coset_from(seq![15usize, 30, 60, 120, 113, 99, 71], 15));
    assert(!seq![15usize, 30, 60, 120, 113].contains(99usize));
    assert(seq![15usize, 30, 60, 120, 113].push(99usize) == seq![15usize, 30, 60, 120, 113, 99]);
    assert(coset_from(seq![15usize, 30, 60, 120, 113], 99) == coset_from(seq![15usize, 30, 60, 120, 113, 99], 71));
    assert(!seq![15usize, 30, 60, 120].contains(113usize));
    assert(seq![15usize, 30, 60, 120].push(113usize) == seq![15usize, 30, 60, 120, 113]);
    assert(coset_from(seq![15usize, 30, 60, 120], 113) == coset_from(seq![15usize, 30, 60, 120, 113], 99));
    assert(!seq![15usize, 30, 60].contains(120usize));
    assert(seq![15usize, 30, 60].push(120usize) == seq![15usize, 30, 60, 120]);
    assert(coset_from(seq![15usize, 30, 60], 120) == coset_from(seq![15usize, 30, 60, 120], 113));
    assert(!seq![15usize, 30].contains(60usize));
    assert(seq![15usize, 30].push(60usize) == seq![15usize, 30, 60]);
    assert(coset_from(seq![15usize, 30], 60) == coset_from(seq![15usize, 30, 60], 120));
    assert(!seq![15usize].contains(30usize));
    assert(seq![15usize].push(30usize) == seq![15usize, 30]);
    assert(coset_from(seq![15usize], 30) == coset_from(seq![15usize, 30], 60));
    assert(!Seq::<usize>::empty().contains(15usize));
    assert(Seq::<usize>::empty().push(15usize) == seq![15usize]);
    assert(coset_from(Seq::<usize>::empty(), 15) == coset_from(seq![15usize], 30));
}

pub(crate) proof fn lemma_coset_19()
    ensures
        coset(19) == seq![19usize, 38, 76, 25, 50, 100, 73],
{
    assert(seq![19usize, 38, 76, 25, 50, 100, 73].contains(19usize));
    assert(coset_from(seq![19usize, 38, 76, 25, 50, 100, 73], 19) == seq![19usize, 38, 76, 25, 50, 100, 73]);
    assert(!seq![19usize, 38, 76, 25, 50, 100].contains(73usize));
    assert(seq![19usize, 38, 76, 25, 50, 100].push(73usize) == seq![19usize, 38, 76, 25, 50, 100, 73]);
    assert(coset_from(seq![19usize, 38, 76, 25, 50, 100], 73) == coset_from(seq![19usize, 38, 76, 25, 50, 100, 73], 19));
    assert(!seq![19usize, 38, 76, 25, 50].contains(100usize));
    assert(seq![19usize, 38, 76, 25, 50].push(100usize) == seq![19usize, 38, 76, 25, 50, 100]);
    assert(coset_from(seq![19usize, 38, 76, 25, 50], 100) == coset_from(seq![19usize, 38, 76, 25, 50, 100], 73));
    assert(!seq![19usize, 38, 76, 25].contains(50usize));
    assert(seq![19usize, 38, 76, 25].push(50usize) == seq![19usize, 38, 76, 25, 50]);
    assert(coset_from(seq![19usize, 38, 76, 25], 50) == coset_from(seq![19usize, 38, 76, 25, 50], 100));
    assert(!seq![19usize, 38, 76].contains(25usize));
    assert(seq![19usize, 38, 76].push(25usize) == seq![19usize, 38, 76, 25]);
    assert(coset_from(seq![19usize, 38, 76], 25) == coset_from(seq![19usize, 38, 76, 25], 50));
    assert(!seq![19usize, 38].contains(76usize));
    assert(seq![19usize, 38].push(76usize) == seq![19usize, 38, 76]);
    assert(coset_from(seq![19usize, 38], 76) == coset_from(seq![19usize, 38, 76], 25));
    assert(!seq![19usize].contains(38usize));
    assert(seq![19usize].push(38usize) == seq![19usize, 38]);
    assert(coset_from(seq![19usize], 38) == coset_from(seq![19usize, 38], 76));
    assert(!Seq::<usize>::empty().contains(19usize));
    assert(Seq::<usize>::empty().push(19usize) == seq![19usize]);
    assert(coset_from(Seq::<usize>::empty(), 19) == coset_from(seq![19usize], 38));
}

#[verifier::rlimit(60)]
#[verifier::spinoff_prover]
pub(crate) proof fn lemma_minimal_poly_1()
    ensures
        minimal_poly(1) == seq![1u8, 1, 0, 0, 0, 0, 0, 1],
{
    reveal(log_alpha);
    lemma_coset_1();
    let c = coset(1);
    assert(linear_product(c, 0) == seq![1u8]);
    assert(linear_product(c, 1) == seq![2u8, 1]) by {
        lemma_alpha_pow_value(1, 2);
        lemma_step_coeff(0, 1, 2, 2, 2);
        lemma_step_coeff(1, 0, 2, 0, 1);
        assert(mul_linear(seq![1u8], 2) =~= seq![2u8, 1]);
    }
    assert(linear_product(c, 2) == seq![8u8, 6, 1]) by {
        lemma_alpha_pow_value(2, 4);
        lemma_step_coeff(0, 2, 4, 8, 8);
        lemma_step_coeff(2, 1, 4, 4, 6);
        lemma_step_coeff(1, 0, 4, 0, 1);
        assert(mul_linear(seq![2u8, 1], 4) =~= seq![8u8, 6, 1]);
    }
    assert(linear_product(c, 3) == seq![3u8, 104, 22, 1]) by {
        lemma_alpha_pow_value(4, 16);
        lemma_step_coeff(0, 8, 16, 3, 3);
        lemma_step_coeff(8, 6, 16, 96, 104);
        lemma_step_coeff(6, 1, 16, 16, 22);
        lemma_step_coeff(1, 0, 16, 0, 1);
        assert(mul_linear(seq![8u8, 6, 1], 16) =~= seq![3u8, 104, 22, 1]);
    }
    assert(linear_product(c, 4) == seq![10u8, 117, 28, 16, 1]) by {
        lemma_alpha_pow_value(8, 6);
        lemma_step_coeff(0, 3, 6, 10, 10);
        lemma_step_coeff(3, 104, 6, 118, 117);
        lemma_step_coeff(104, 22, 6, 116, 28);
        lemma_step_coeff(22, 1, 6, 6, 16);
        lemma_step_coeff(1, 0, 6, 0, 1);
        assert(mul_linear(seq![3u8, 104, 22, 1], 6) =~= seq![10u8, 117, 28, 16, 1]);
    }
    assert(linear_product(c, 5) == seq![11u8, 25, 64, 90, 4, 1]) by {
        lemma_alpha_pow_value(16, 20);
        lemma_step_coeff(0, 10, 20, 11, 11);
        lemma_step_coeff(10, 117, 20, 19, 25);
        lemma_step_coeff(117, 28, 20, 53, 64);
        lemma_step_coeff(28, 16, 20, 70, 90);
        lemma_step_coeff(16, 1, 20, 20, 4);
        lemma_step_coeff(1, 0, 20, 0, 1);
        assert(mul_linear(seq![10u8, 117, 28, 16, 1], 20) =~= seq![11u8, 25, 64, 90, 4, 1]);
    }
    assert(linear_product(c, 6) == seq![9u8, 72, 4, 36, 2, 18, 1]) by {
        lemma_alpha_pow_value(32, 22);
        lemma_step_coeff(0, 11, 22, 9, 9);
        lemma_step_coeff(11, 25, 22, 67, 72);
        lemma_step_coeff(25, 64, 22, 29, 4);
        lemma_step_coeff(64, 90, 22, 100, 36);
        lemma_step_coeff(90, 4, 22, 88, 2);
        lemma_step_coeff(4, 1, 22, 22, 18);
        lemma_step_coeff(1, 0, 22, 0, 1);
        assert(mul_linear(seq![11u8, 25, 64, 90, 4, 1], 22) =~= seq![9u8, 72, 4, 36, 2, 18, 1]);
    }
    assert(linear_product(c, 7) == seq![1u8, 1, 0, 0, 0, 0, 0, 1]) by {
        lemma_alpha_pow_value(64, 18);
        lemma_step_coeff(0, 9, 18, 1, 1);
        lemma_step_coeff(9, 72, 18, 8, 1);
        lemma_step_coeff(72, 4, 18, 72, 0);
        lemma_step_coeff(4, 36, 18, 4, 0);
        lemma_step_coeff(36, 2, 18, 36, 0);
        lemma_step_coeff(2, 18, 18, 2, 0);
        lemma_step_coeff(18, 1, 18, 18, 0);
        lemma_step_coeff(1, 0, 18, 0, 1);
        assert(mul_linear(seq![9u8, 72, 4, 36, 2, 18, 1], 18) =~= seq![1u8, 1, 0, 0, 0, 0, 0, 1]);
    }
}

#[verifier::rlimit(60)]
#[verifier::spinoff_prover]
pub(crate) proof fn lemma_minimal_poly_3()
    ensures
        minimal_poly(3) == seq![1u8, 1, 0, 1, 0, 1, 0, 1],
{
    reveal(log_alpha);
    lemma_coset_3();
    let c = coset(3);
    assert(linear_product(c, 0) == seq![1u8]);
    assert(linear_product(c, 1) == seq![8u8, 1]) by {
        lemma_alpha_pow_value(3, 8);
        lemma_step_coeff(0, 1, 8, 8, 8);
        lemma_step_coeff(1, 0, 8, 0, 1);
        assert(mul_linear(seq![1u8], 8) =~= seq![8u8, 1]);
    }
    assert(linear_product(c, 2) == seq![12u8, 72, 1]) by {
        lemma_alpha_pow_value(6, 64);
        lemma_step_coeff(0, 8, 64, 12, 12);
        lemma_step_coeff(8, 1, 64, 64, 72);
        lemma_step_coeff(1, 0, 64, 0, 1);
        assert(mul_linear(seq![8u8, 1], 64) =~= seq![12u8, 72, 1]);
    }
    assert(linear_product(c, 3) == seq![15u8, 86, 40, 1]) by {
        lemma_alpha_pow_value(12, 96);
        lemma_step_coeff(0, 12, 96, 15, 15);
        lemma_step_coeff(12, 72, 96, 90, 86);
        lemma_step_coeff(72, 1, 96, 96, 40);
        lemma_step_coeff(1, 0, 96, 0, 1);
        assert(mul_linear(seq![12u8, 72, 1], 96) =~= seq![15u8, 86, 40, 1]);
    }
    assert(linear_product(c, 4) == seq![39u8, 76, 61, 80, 1]) by {
        lemma_alpha_pow_value(24, 120);
        lemma_step_coeff(0, 15, 120, 39, 39);
        lemma_step_coeff(15, 86, 120, 67, 76);
        lemma_step_coeff(86, 40, 120, 107, 61);
        lemma_step_coeff(40, 1, 120, 120, 80);
        lemma_step_coeff(1, 0, 120, 0, 1);
        assert(mul_linear(seq![15u8, 86, 40, 1], 120) =~= seq![39u8, 76, 61, 80, 1]);
    }
    assert(linear_product(c, 5) == seq![104u8, 8, 68, 117, 110, 1]) by {
        lemma_alpha_pow_value(48, 62);
        lemma_step_coeff(0, 39, 62, 104, 104);
        lemma_step_coeff(39, 76, 62, 47, 8);
        lemma_step_coeff(76, 61, 62, 8, 68);
        lemma_step_coeff(61, 80, 62, 72, 117);
        lemma_step_coeff(80, 1, 62, 62, 110);
        lemma_step_coeff(1, 0, 62, 0, 1);
        assert(mul_linear(seq![39u8, 76, 61, 80, 1], 62) =~= seq![104u8, 8, 68, 117, 110, 1]);
    }
    assert(linear_product(c, 6) == seq![69u8, 52, 73, 2, 9, 36, 1]) by {
        lemma_alpha_pow_value(96, 74);
        lemma_step_coeff(0, 104, 74, 69, 69);
        lemma_step_coeff(104, 8, 74, 92, 52);
        lemma_step_coeff(8, 68, 74, 65, 73);
        lemma_step_coeff(68, 117, 74, 70, 2);
        lemma_step_coeff(117, 110, 74, 124, 9);
        lemma_step_coeff(110, 1, 74, 74, 36);
        lemma_step_coeff(1, 0, 74, 0, 1);
        assert(mul_linear(seq![104u8, 8, 68, 117, 110, 1], 74) =~= seq![69u8, 52, 73, 2, 9, 36, 1]);
    }
    assert(linear_product(c, 7) == seq![1u8, 1, 0, 1, 0, 1, 0, 1]) by {
        lemma_alpha_pow_value(65, 36);
        lemma_step_coeff(0, 69, 36, 1, 1);
        lemma_step_coeff(69, 52, 36, 68, 1);
        lemma_step_coeff(52, 73, 36, 52, 0);
        lemma_step_coeff(73, 2, 36, 72, 1);
        lemma_step_coeff(2, 9, 36, 2, 0);
        lemma_step_coeff(9, 36, 36, 8, 1);
        lemma_step_coeff(36, 1, 36, 36, 0);
        lemma_step_coeff(1, 0, 36, 0, 1);
        assert(mul_linear(seq![69u8, 52, 73, 2, 9, 36, 1], 36) =~= seq![1u8, 1, 0, 1, 0, 1, 0, 1]);
    }
}

#[verifier::rlimit(60)]
#[verifier::spinoff_prover]
pub(crate) proof fn lemma_minimal_poly_5()
    ensures
        minimal_poly(5) == seq![1u8, 1, 1, 1, 0, 0, 0, 1],
{
    reveal(log_alpha);
    lemma_coset_5();
    let c = coset(5);
    assert(linear_product(c, 0) == seq![1u8]);
    assert(linear_product(c, 1) == seq![32u8, 1]) by {
        lemma_alpha_pow_value(5, 32);
        lemma_step_coeff(0, 1, 32, 32, 32);
        lemma_step_coeff(1, 0, 32, 0, 1);
        assert(mul_linear(seq![1u8], 32) =~= seq![32u8, 1]);
    }
    assert(linear_product(c, 2) == seq![10u8, 56, 1]) by {
        lemma_alpha_pow_value(10, 24);
        lemma_step_coeff(0, 32, 24, 10, 10);
        lemma_step_coeff(32, 1, 24, 24, 56);
        lemma_step_coeff(1, 0, 24, 0, 1);
        assert(mul_linear(seq![32u8, 1], 24) =~= seq![10u8, 56, 1]);
    }
    assert(linear_product(c, 3) == seq![51u8, 61, 126, 1]) by {
        lemma_alpha_pow_value(20, 70);
        lemma_step_coeff(0, 10, 70, 51, 51);
        lemma_step_coeff(10, 56, 70, 55, 61);
        lemma_step_coeff(56, 1, 70, 70, 126);
        lemma_step_coeff(1, 0, 70, 0, 1);
        assert(mul_linear(seq![10u8, 56, 1], 70) =~= seq![51u8, 61, 126, 1]);
    }
    assert(linear_product(c, 4) == seq![106u8, 78, 17, 10, 1]) by {
        lemma_alpha_pow_value(40, 116);
        lemma_step_coeff(0, 51, 116, 106, 106);
        lemma_step_coeff(51, 61, 116, 125, 78);
        lemma_step_coeff(61, 126, 116, 44, 17);
        lemma_step_coeff(126, 1, 116, 116, 10);
        lemma_step_coeff(1, 0, 116, 0, 1);
        assert(mul_linear(seq![51u8, 61, 126, 1], 116) =~= seq![106u8, 78, 17, 10, 1]);
    }
    assert(linear_product(c, 5) == seq![17u8, 43, 87, 52, 100, 1]) by {
        lemma_alpha_pow_value(80, 110);
        lemma_step_coeff(0, 106, 110, 17, 17);
        lemma_step_coeff(106, 78, 110, 65, 43);
        lemma_step_coeff(78, 17, 110, 25, 87);
        lemma_step_coeff(17, 10, 110, 37, 52);
        lemma_step_coeff(10, 1, 110, 110, 100);
        lemma_step_coeff(1, 0, 110, 0, 1);
        assert(mul_linear(seq![106u8, 78, 17, 10, 1], 110) =~= seq![17u8, 43, 87, 52, 100, 1]);
    }
    assert(linear_product(c, 6) == seq![99u8, 30, 25, 54, 32, 72, 1]) by {
        lemma_alpha_pow_value(33, 44);
        lemma_step_coeff(0, 17, 44, 99, 99);
        lemma_step_coeff(17, 43, 44, 15, 30);
        lemma_step_coeff(43, 87, 44, 50, 25);
        lemma_step_coeff(87, 52, 44, 97, 54);
        lemma_step_coeff(52, 100, 44, 20, 32);
        lemma_step_coeff(100, 1, 44, 44, 72);
        lemma_step_coeff(1, 0, 44, 0, 1);
        assert(mul_linear(seq![17u8, 43, 87, 52, 100, 1], 44) =~= seq![99u8, 30, 25, 54, 32, 72, 1]);
    }
    assert(linear_product(c, 7) == seq![1u8, 1, 1, 1, 0, 0, 0, 1]) by {
        lemma_alpha_pow_value(66, 72);
        lemma_step_coeff(0, 99, 72, 1, 1);
        lemma_step_coeff(99, 30, 72, 98, 1);
        lemma_step_coeff(30, 25, 72, 31, 1);
        lemma_step_coeff(25, 54, 72, 24, 1);
        lemma_step_coeff(54, 32, 72, 54, 0);
        lemma_step_coeff(32, 72, 72, 32, 0);
        lemma_step_coeff(72, 1, 72, 72, 0);
        lemma_step_coeff(1, 0, 72, 0, 1);
        assert(mul_linear(seq![99u8, 30, 25, 54, 32, 72, 1], 72) =~= seq![1u8, 1, 1, 1, 0, 0, 0, 1]);
    }
}

#[verifier::rlimit(60)]
#[verifier::spinoff_prover]
pub(crate) proof fn lemma_minimal_poly_7()
    ensures
        minimal_poly(7) == seq![1u8, 0, 1, 1, 1, 1, 1, 1],
{
    reveal(log_alpha);
    lemma_coset_7();
    let c = coset(7);
    assert(linear_product(c, 0) == seq![1u8]);
    assert(linear_product(c, 1) == seq![3u8, 1]) by {
        lemma_alpha_pow_value(7, 3);
        lemma_step_coeff(0, 1, 3, 3, 3);
        lemma_step_coeff(1, 0, 3, 0, 1);
        assert(mul_linear(seq![1u8], 3) =~= seq![3u8, 1]);
    }
    assert(linear_product(c, 2) == seq![15u8, 6, 1]) by {
        lemma_alpha_pow_value(14, 5);
        lemma_step_coeff(0, 3, 5, 15, 15);
        lemma_step_coeff(3, 1, 5, 5, 6);
        lemma_step_coeff(1, 0, 5, 0, 1);
        assert(mul_linear(seq![3u8, 1], 5) =~= seq![15u8, 6, 1]);
    }
    assert(linear_product(c, 3) == seq![124u8, 105, 23, 1]) by {
        lemma_alpha_pow_value(28, 17);
        lemma_step_coeff(0, 15, 17, 124, 124);
        lemma_step_coeff(15, 6, 17, 102, 105);
        lemma_step_coeff(6, 1, 17, 17, 23);
        lemma_step_coeff(1, 0, 17, 0, 1);
        assert(mul_linear(seq![15u8, 6, 1], 17) =~= seq![124u8, 105, 23, 1]);
    }
    assert(linear_product(c, 4) == seq![114u8, 101, 12, 16, 1]) by {
        lemma_alpha_pow_value(56, 7);
        lemma_step_coeff(0, 124, 7, 114, 114);
        lemma_step_coeff(124, 105, 7, 25, 101);
        lemma_step_coeff(105, 23, 7, 101, 12);
        lemma_step_coeff(23, 1, 7, 7, 16);
        lemma_step_coeff(1, 0, 7, 0, 1);
        assert(mul_linear(seq![124u8, 105, 23, 1], 7) =~= seq![114u8, 101, 12, 16, 1]);
    }
    assert(linear_product(c, 5) == seq![13u8, 66, 26, 90, 5, 1]) by {
        lemma_alpha_pow_value(112, 21);
        lemma_step_coeff(0, 114, 21, 13, 13);
        lemma_step_coeff(114, 101, 21, 48, 66);
        lemma_step_coeff(101, 12, 21, 127, 26);
        lemma_step_coeff(12, 16, 21, 86, 90);
        lemma_step_coeff(16, 1, 21, 21, 5);
        lemma_step_coeff(1, 0, 21, 0, 1);
        assert(mul_linear(seq![114u8, 101, 12, 16, 1], 21) =~= seq![13u8, 66, 26, 90, 5, 1]);
    }
    assert(linear_product(c, 6) == seq![112u8, 126, 33, 36, 17, 18, 1]) by {
        lemma_alpha_pow_value(97, 23);
        lemma_step_coeff(0, 13, 23, 112, 112);
        lemma_step_coeff(13, 66, 23, 115, 126);
        lemma_step_coeff(66, 26, 23, 99, 33);
        lemma_step_coeff(26, 90, 23, 62, 36);
        lemma_step_coeff(90, 5, 23, 75, 17);
        lemma_step_coeff(5, 1, 23, 23, 18);
        lemma_step_coeff(1, 0, 23, 0, 1);
        assert(mul_linear(seq![13u8, 66, 26, 90, 5, 1], 23) =~= seq![112u8, 126, 33, 36, 17, 18, 1]);
    }
    assert(linear_product(c, 7) == seq![1u8, 0, 1, 1, 1, 1, 1, 1]) by {
        lemma_alpha_pow_value(67, 19);
        lemma_step_coeff(0, 112, 19, 1, 1);
        lemma_step_coeff(112, 126, 19, 112, 0);
        lemma_step_coeff(126, 33, 19, 127, 1);
        lemma_step_coeff(33, 36, 19, 32, 1);
        lemma_step_coeff(36, 17, 19, 37, 1);
        lemma_step_coeff(17, 18, 19, 16, 1);
        lemma_step_coeff(18, 1, 19, 19, 1);
        lemma_step_coeff(1, 0, 19, 0, 1);
        assert(mul_linear(seq![112u8, 126, 33, 36, 17, 18, 1], 19) =~= seq![1u8, 0, 1, 1, 1, 1, 1, 1]);
    }
}

#[verifier::rlimit(60)]
#[verifier::spinoff_prover]
pub(crate) proof fn lemma_minimal_poly_9()
    ensures
        minimal_poly(9) == seq![1u8, 0, 0, 1, 1, 1, 0, 1],
{
    reveal(log_alpha);
    lemma_coset_9();
    let c = coset(9);
    assert(linear_product(c, 0) == seq![1u8]);
    assert(linear_product(c, 1) == seq![12u8, 1]) by {
        lemma_alpha_pow_value(9, 12);
        lemma_step_coeff(0, 1, 12, 12, 12);
        lemma_step_coeff(1, 0, 12, 0, 1);
        assert(mul_linear(seq![1u8], 12) =~= seq![12u8, 1]);
    }
    assert(linear_product(c, 2) == seq![73u8, 92, 1]) by {
        lemma_alpha_pow_value(18, 80);
        lemma_step_coeff(0, 12, 80, 73, 73);
        lemma_step_coeff(12, 1, 80, 80, 92);
        lemma_step_coeff(1, 0, 80, 0, 1);
        assert(mul_linear(seq![12u8, 1], 80) =~= seq![73u8, 92, 1]);
    }
    assert(linear_product(c, 3) == seq![9u8, 79, 58, 1]) by {
        lemma_alpha_pow_value(36, 102);
        lemma_step_coeff(0, 73, 102, 9, 9);
        lemma_step_coeff(73, 92, 102, 6, 79);
        lemma_step_coeff(92, 1, 102, 102, 58);
        lemma_step_coeff(1, 0, 102, 0, 1);
        assert(mul_linear(seq![73u8, 92, 1], 102) =~= seq![9u8, 79, 58, 1]);
    }
    assert(linear_product(c, 4) == seq![6u8, 59, 4, 86, 1]) by {
        lemma_alpha_pow_value(72, 108);
        lemma_step_coeff(0, 9, 108, 6, 6);
        lemma_step_coeff(9, 79, 108, 50, 59);
        lemma_step_coeff(79, 58, 108, 75, 4);
        lemma_step_coeff(58, 1, 108, 108, 86);
        lemma_step_coeff(1, 0, 108, 0, 1);
        assert(mul_linear(seq![9u8, 79, 58, 1], 108) =~= seq![6u8, 59, 4, 86, 1]);
    }
    assert(linear_product(c, 5) == seq![115u8, 41, 24, 68, 126, 1]) by {
        lemma_alpha_pow_value(17, 40);
        lemma_step_coeff(0, 6, 40, 115, 115);
        lemma_step_coeff(6, 59, 40, 47, 41);
        lemma_step_coeff(59, 4, 40, 35, 24);
        lemma_step_coeff(4, 86, 40, 64, 68);
        lemma_step_coeff(86, 1, 40, 40, 126);
        lemma_step_coeff(1, 0, 40, 0, 1);
        assert(mul_linear(seq![6u8, 59, 4, 86, 1], 40) =~= seq![115u8, 41, 24, 68, 126, 1]);
    }
    assert(linear_product(c, 6) == seq![56u8, 94, 123, 10, 13, 38, 1]) by {
        lemma_alpha_pow_value(34, 88);
        lemma_step_coeff(0, 115, 88, 56, 56);
        lemma_step_coeff(115, 41, 88, 45, 94);
        lemma_step_coeff(41, 24, 88, 82, 123);
        lemma_step_coeff(24, 68, 88, 18, 10);
        lemma_step_coeff(68, 126, 88, 73, 13);
        lemma_step_coeff(126, 1, 88, 88, 38);
        lemma_step_coeff(1, 0, 88, 0, 1);
        assert(mul_linear(seq![115u8, 41, 24, 68, 126, 1], 88) =~= seq![56u8, 94, 123, 10, 13, 38, 1]);
    }
    assert(linear_product(c, 7) == seq![1u8, 0, 0, 1, 1, 1, 0, 1]) by {
        lemma_alpha_pow_value(68, 38);
        lemma_step_coeff(0, 56, 38, 1, 1);
        lemma_step_coeff(56, 94, 38, 56, 0);
        lemma_step_coeff(94, 123, 38, 94, 0);
        lemma_step_coeff(123, 10, 38, 122, 1);
        lemma_step_coeff(10, 13, 38, 11, 1);
        lemma_step_coeff(13, 38, 38, 12, 1);
        lemma_step_coeff(38, 1, 38, 38, 0);
        lemma_step_coeff(1, 0, 38, 0, 1);
        assert(mul_linear(seq![56u8, 94, 123, 10, 13, 38, 1], 38) =~= seq![1u8, 0, 0, 1, 1, 1, 0, 1]);
    }
}

#[verifier::rlimit(60)]
#[verifier::spinoff_prover]
pub(crate) proof fn lemma_minimal_poly_11()
    ensures
        minimal_poly(11) == seq![1u8, 0, 0, 1, 0, 0, 0, 1],
{
    reveal(log_alpha);
    lemma_coset_11();
    let c = coset(11);
    assert(linear_product(c, 0) == seq![1u8]);
    assert(linear_product(c, 1) == seq![48u8, 1]) by {
        lemma_alpha_pow_value(11, 48);
        lemma_step_coeff(0, 1, 48, 48, 48);
        lemma_step_coeff(1, 0, 48, 0, 1);
        assert(mul_linear(seq![1u8], 48) =~= seq![48u8, 1]);
    }
    assert(linear_product(c, 2) == seq![44u8, 46, 1]) by {
        lemma_alpha_pow_value(22, 30);
        lemma_step_coeff(0, 48, 30, 44, 44);
        lemma_step_coeff(48, 1, 30, 30, 46);
        lemma_step_coeff(1, 0, 30, 0, 1);
        assert(mul_linear(seq![48u8, 1], 30) =~= seq![44u8, 46, 1]);
    }
    assert(linear_product(c, 3) == seq![45u8, 38, 124, 1]) by {
        lemma_alpha_pow_value(44, 82);
        lemma_step_coeff(0, 44, 82, 45, 45);
        lemma_step_coeff(44, 46, 82, 10, 38);
        lemma_step_coeff(46, 1, 82, 82, 124);
        lemma_step_coeff(1, 0, 82, 0, 1);
        assert(mul_linear(seq![44u8, 46, 1], 82) =~= seq![45u8, 38, 124, 1]);
    }
    assert(linear_product(c, 4) == seq![29u8, 15, 62, 30, 1]) by {
        lemma_alpha_pow_value(88, 98);
        lemma_step_coeff(0, 45, 98, 29, 29);
        lemma_step_coeff(45, 38, 98, 34, 15);
        lemma_step_coeff(38, 124, 98, 24, 62);
        lemma_step_coeff(124, 1, 98, 98, 30);
        lemma_step_coeff(1, 0, 98, 0, 1);
        assert(mul_linear(seq![45u8, 38, 124, 1], 98) =~= seq![29u8, 15, 62, 30, 1]);
    }
    assert(linear_product(c, 5) == seq![49u8, 6, 24, 8, 98, 1]) by {
        lemma_alpha_pow_value(49, 124);
        lemma_step_coeff(0, 29, 124, 49, 49);
        lemma_step_coeff(29, 15, 124, 27, 6);
        lemma_step_coeff(15, 62, 124, 23, 24);
        lemma_step_coeff(62, 30, 124, 54, 8);
        lemma_step_coeff(30, 1, 124, 124, 98);
        lemma_step_coeff(1, 0, 124, 0, 1);
        assert(mul_linear(seq![29u8, 15, 62, 30, 1], 124) =~= seq![49u8, 6, 24, 8, 98, 1]);
    }
    assert(linear_product(c, 6) == seq![28u8, 86, 31, 110, 48, 76, 1]) by {
        lemma_alpha_pow_value(98, 46);
        lemma_step_coeff(0, 49, 46, 28, 28);
        lemma_step_coeff(49, 6, 46, 103, 86);
        lemma_step_coeff(6, 24, 46, 25, 31);
        lemma_step_coeff(24, 8, 46, 118, 110);
        lemma_step_coeff(8, 98, 46, 56, 48);
        lemma_step_coeff(98, 1, 46, 46, 76);
        lemma_step_coeff(1, 0, 46, 0, 1);
        assert(mul_linear(seq![49u8, 6, 24, 8, 98, 1], 46) =~= seq![28u8, 86, 31, 110, 48, 76, 1]);
    }
    assert(linear_product(c, 7) == seq![1u8, 0, 0, 1, 0, 0, 0, 1]) by {
        lemma_alpha_pow_value(69, 76);
        lemma_step_coeff(0, 28, 76, 1, 1);
        lemma_step_coeff(28, 86, 76, 28, 0);
        lemma_step_coeff(86, 31, 76, 86, 0);
        lemma_step_coeff(31, 110, 76, 30, 1);
        lemma_step_coeff(110, 48, 76, 110, 0);
        lemma_step_coeff(48, 76, 76, 48, 0);
        lemma_step_coeff(76, 1, 76, 76, 0);
        lemma_step_coeff(1, 0, 76, 0, 1);
        assert(mul_linear(seq![28u8, 86, 31, 110, 48, 76, 1], 76) =~= seq![1u8, 0, 0, 1, 0, 0, 0, 1]);
    }
}

#[verifier::rlimit(60)]
#[verifier::spinoff_prover]
pub(crate) proof fn lemma_minimal_poly_13()
    ensures
        minimal_poly(13) == seq![1u8, 0, 1, 0, 0, 1, 1, 1],
{
    reveal(log_alpha);
    lemma_coset_13();
    let c = coset(13);
    assert(linear_product(c, 0) == seq![1u8]);
    assert(linear_product(c, 1) == seq![67u8, 1]) by {
        lemma_alpha_pow_value(13, 67);
        lemma_step_coeff(0, 1, 67, 67, 67);
        lemma_step_coeff(1, 0, 67, 0, 1);
        assert(mul_linear(seq![1u8], 67) =~= seq![67u8, 1]);
    }
    assert(linear_product(c, 2) == seq![58u8, 38, 1]) by {
        lemma_alpha_pow_value(26, 101);
        lemma_step_coeff(0, 67, 101, 58, 58);
        lemma_step_coeff(67, 1, 101, 101, 38);
        lemma_step_coeff(1, 0, 101, 0, 1);
        assert(mul_linear(seq![67u8, 1], 101) =~= seq![58u8, 38, 1]);
    }
    assert(linear_product(c, 3) == seq![26u8, 68, 79, 1]) by {
        lemma_alpha_pow_value(52, 105);
        lemma_step_coeff(0, 58, 105, 26, 26);
        lemma_step_coeff(58, 38, 105, 126, 68);
        lemma_step_coeff(38, 1, 105, 105, 79);
        lemma_step_coeff(1, 0, 105, 0, 1);
        assert(mul_linear(seq![58u8, 38, 1], 105) =~= seq![26u8, 68, 79, 1]);
    }
    assert(linear_product(c, 4) == seq![38u8, 25, 65, 118, 1]) by {
        lemma_alpha_pow_value(104, 57);
        lemma_step_coeff(0, 26, 57, 38, 38);
        lemma_step_coeff(26, 68, 57, 3, 25);
        lemma_step_coeff(68, 79, 57, 5, 65);
        lemma_step_coeff(79, 1, 57, 57, 118);
        lemma_step_coeff(1, 0, 57, 0, 1);
        assert(mul_linear(seq![26u8, 68, 79, 1], 57) =~= seq![38u8, 25, 65, 118, 1]);
    }
    assert(linear_product(c, 5) == seq![30u8, 99, 119, 3, 41, 1]) by {
        lemma_alpha_pow_value(81, 95);
        lemma_step_coeff(0, 38, 95, 30, 30);
        lemma_step_coeff(38, 25, 95, 69, 99);
        lemma_step_coeff(25, 65, 95, 110, 119);
        lemma_step_coeff(65, 118, 95, 66, 3);
        lemma_step_coeff(118, 1, 95, 95, 41);
        lemma_step_coeff(1, 0, 95, 0, 1);
        assert(mul_linear(seq![38u8, 25, 65, 118, 1], 95) =~= seq![30u8, 99, 119, 3, 41, 1]);
    }
    assert(linear_product(c, 6) == seq![14u8, 84, 92, 34, 89, 26, 1]) by {
        lemma_alpha_pow_value(35, 51);
        lemma_step_coeff(0, 30, 51, 14, 14);
        lemma_step_coeff(30, 99, 51, 74, 84);
        lemma_step_coeff(99, 119, 51, 63, 92);
        lemma_step_coeff(119, 3, 51, 85, 34);
        lemma_step_coeff(3, 41, 51, 90, 89);
        lemma_step_coeff(41, 1, 51, 51, 26);
        lemma_step_coeff(1, 0, 51, 0, 1);
        assert(mul_linear(seq![30u8, 99, 119, 3, 41, 1], 51) =~= seq![14u8, 84, 92, 34, 89, 26, 1]);
    }
    assert(linear_product(c, 7) == seq![1u8, 0, 1, 0, 0, 1, 1, 1]) by {
        lemma_alpha_pow_value(70, 27);
        lemma_step_coeff(0, 14, 27, 1, 1);
        lemma_step_coeff(14, 84, 27, 14, 0);
        lemma_step_coeff(84, 92, 27, 85, 1);
        lemma_step_coeff(92, 34, 27, 92, 0);
        lemma_step_coeff(34, 89, 27, 34, 0);
        lemma_step_coeff(89, 26, 27, 88, 1);
        lemma_step_coeff(26, 1, 27, 27, 1);
        lemma_step_coeff(1, 0, 27, 0, 1);
        assert(mul_linear(seq![14u8, 84, 92, 34, 89, 26, 1], 27) =~= seq![1u8, 0, 1, 0, 0, 1, 1, 1]);
    }
}

#[verifier::rlimit(60)]
#[verifier::spinoff_prover]
pub(crate) proof fn lemma_minimal_poly_15()
    ensures
        minimal_poly(15) == seq![1u8, 1, 1, 1, 1, 1, 0, 1],
{
    reveal(log_alpha);
    lemma_coset_15();
    let c = coset(15);
    assert(linear_product(c, 0) == seq![1u8]);
    assert(linear_product(c, 1) == seq![10u8, 1]) by {
        lemma_alpha_pow_value(15, 10);
        lemma_step_coeff(0, 1, 10, 10, 10);
        lemma_step_coeff(1, 0, 10, 0, 1);
        assert(mul_linear(seq![1u8], 10) =~= seq![10u8, 1]);
    }
    assert(linear_product(c, 2) == seq![39u8, 78, 1]) by {
        lemma_alpha_pow_value(30, 68);
        lemma_step_coeff(0, 10, 68, 39, 39);
        lemma_step_coeff(10, 1, 68, 68, 78);
        lemma_step_coeff(1, 0, 68, 0, 1);
        assert(mul_linear(seq![10u8, 1], 68) =~= seq![39u8, 78, 1]);
    }
    assert(linear_product(c, 3) == seq![114u8, 64, 62, 1]) by {
        lemma_alpha_pow_value(60, 112);
        lemma_step_coeff(0, 39, 112, 114, 114);
        lemma_step_coeff(39, 78, 112, 103, 64);
        lemma_step_coeff(78, 1, 112, 112, 62);
        lemma_step_coeff(1, 0, 112, 0, 1);
        assert(mul_linear(seq![39u8, 78, 1], 112) =~= seq![114u8, 64, 62, 1]);
    }
    assert(linear_product(c, 4) == seq![46u8, 51, 43, 64, 1]) by {
        lemma_alpha_pow_value(120, 126);
        lemma_step_coeff(0, 114, 126, 46, 46);
        lemma_step_coeff(114, 64, 126, 65, 51);
        lemma_step_coeff(64, 62, 126, 107, 43);
        lemma_step_coeff(62, 1, 126, 126, 64);
        lemma_step_coeff(1, 0, 126, 0, 1);
        assert(mul_linear(seq![114u8, 64, 62, 1], 126) =~= seq![46u8, 51, 43, 64, 1]);
    }
    assert(linear_product(c, 5) == seq![119u8, 33, 69, 20, 106, 1]) by {
        lemma_alpha_pow_value(113, 42);
        lemma_step_coeff(0, 46, 42, 119, 119);
        lemma_step_coeff(46, 51, 42, 15, 33);
        lemma_step_coeff(51, 43, 42, 118, 69);
        lemma_step_coeff(43, 64, 42, 63, 20);
        lemma_step_coeff(64, 1, 42, 42, 106);
        lemma_step_coeff(1, 0, 42, 0, 1);
        assert(mul_linear(seq![46u8, 51, 43, 64, 1], 42) =~= seq![119u8, 33, 69, 20, 106, 1]);
    }
    assert(linear_product(c, 6) == seq![7u8, 18, 121, 110, 11, 54, 1]) by {
        lemma_alpha_pow_value(99, 92);
        lemma_step_coeff(0, 119, 92, 7, 7);
        lemma_step_coeff(119, 33, 92, 101, 18);
        lemma_step_coeff(33, 69, 92, 88, 121);
        lemma_step_coeff(69, 20, 92, 43, 110);
        lemma_step_coeff(20, 106, 92, 31, 11);
        lemma_step_coeff(106, 1, 92, 92, 54);
        lemma_step_coeff(1, 0, 92, 0, 1);
        assert(mul_linear(seq![119u8, 33, 69, 20, 106, 1], 92) =~= seq![7u8, 18, 121, 110, 11, 54, 1]);
    }
    assert(linear_product(c, 7) == seq![1u8, 1, 1, 1, 1, 1, 0, 1]) by {
        lemma_alpha_pow_value(71, 54);
        lemma_step_coeff(0, 7, 54, 1, 1);
        lemma_step_coeff(7, 18, 54, 6, 1);
        lemma_step_coeff(18, 121, 54, 19, 1);
        lemma_step_coeff(121, 110, 54, 120, 1);
        lemma_step_coeff(110, 11, 54, 111, 1);
        lemma_step_coeff(11, 54, 54, 10, 1);
        lemma_step_coeff(54, 1, 54, 54, 0);
        lemma_step_coeff(1, 0, 54, 0, 1);
        assert(mul_linear(seq![7u8, 18, 121, 110, 11, 54, 1], 54) =~= seq![1u8, 1, 1, 1, 1, 1, 0, 1]);
    }
}

#[verifier::rlimit(60)]
#[verifier::spinoff_prover]
pub(crate) proof fn lemma_minimal_poly_19()
    ensures
        minimal_poly(19) == seq![1u8, 1, 1, 1, 0, 1, 1, 1],
{
    reveal(log_alpha);
    lemma_coset_19();
    let c = coset(19);
    assert(linear_product(c, 0) == seq![1u8]);
    assert(linear_product(c, 1) == seq![35u8, 1]) by {
        lemma_alpha_pow_value(19, 35);
        lemma_step_coeff(0, 1, 35, 35, 35);
        lemma_step_coeff(1, 0, 35, 0, 1);
        assert(mul_linear(seq![1u8], 35) =~= seq![35u8, 1]);
    }
    assert(linear_product(c, 2) == seq![14u8, 62, 1]) by {
        lemma_alpha_pow_value(38, 29);
        lemma_step_coeff(0, 35, 29, 14, 14);
        lemma_step_coeff(35, 1, 29, 29, 62);
        lemma_step_coeff(1, 0, 29, 0, 1);
        assert(mul_linear(seq![35u8, 1], 29) =~= seq![14u8, 62, 1]);
    }
    assert(linear_product(c, 3) == seq![64u8, 127, 105, 1]) by {
        lemma_alpha_pow_value(76, 87);
        lemma_step_coeff(0, 14, 87, 64, 64);
        lemma_step_coeff(14, 62, 87, 113, 127);
        lemma_step_coeff(62, 1, 87, 87, 105);
        lemma_step_coeff(1, 0, 87, 0, 1);
        assert(mul_linear(seq![14u8, 62, 1], 87) =~= seq![64u8, 127, 105, 1]);
    }
    assert(linear_product(c, 4) == seq![11u8, 99, 82, 26, 1]) by {
        lemma_alpha_pow_value(25, 115);
        lemma_step_coeff(0, 64, 115, 11, 11);
        lemma_step_coeff(64, 127, 115, 35, 99);
        lemma_step_coeff(127, 105, 115, 45, 82);
        lemma_step_coeff(105, 1, 115, 115, 26);
        lemma_step_coeff(1, 0, 115, 0, 1);
        assert(mul_linear(seq![64u8, 127, 105, 1], 115) =~= seq![11u8, 99, 82, 26, 1]);
    }
    assert(linear_product(c, 5) == seq![95u8, 64, 48, 87, 97, 1]) by {
        lemma_alpha_pow_value(50, 123);
        lemma_step_coeff(0, 11, 123, 95, 95);
        lemma_step_coeff(11, 99, 123, 75, 64);
        lemma_step_coeff(99, 82, 123, 83, 48);
        lemma_step_coeff(82, 26, 123, 5, 87);
        lemma_step_coeff(26, 1, 123, 123, 97);
        lemma_step_coeff(1, 0, 123, 0, 1);
        assert(mul_linear(seq![11u8, 99, 82, 26, 1], 123) =~= seq![95u8, 64, 48, 87, 97, 1]);
    }
    assert(linear_product(c, 6) == seq![33u8, 56, 11, 76, 121, 90, 1]) by {
        lemma_alpha_pow_value(100, 59);
        lemma_step_coeff(0, 95, 59, 33, 33);
        lemma_step_coeff(95, 64, 59, 103, 56);
        lemma_step_coeff(64, 48, 59, 75, 11);
        lemma_step_coeff(48, 87, 59, 124, 76);
        lemma_step_coeff(87, 97, 59, 46, 121);
        lemma_step_coeff(97, 1, 59, 59, 90);
        lemma_step_coeff(1, 0, 59, 0, 1);
        assert(mul_linear(seq![95u8, 64, 48, 87, 97, 1], 59) =~= seq![33u8, 56, 11, 76, 121, 90, 1]);
    }
    assert(linear_product(c, 7) == seq![1u8, 1, 1, 1, 0, 1, 1, 1]) by {
        lemma_alpha_pow_value(73, 91);
        lemma_step_coeff(0, 33, 91, 1, 1);
        lemma_step_coeff(33, 56, 91, 32, 1);
        lemma_step_coeff(56, 11, 91, 57, 1);
        lemma_step_coeff(11, 76, 91, 10, 1);
        lemma_step_coeff(76, 121, 91, 76, 0);
        lemma_step_coeff(121, 90, 91, 120, 1);
        lemma_step_coeff(90, 1, 91, 91, 1);
        lemma_step_coeff(1, 0, 91, 0, 1);
        assert(mul_linear(seq![33u8, 56, 11, 76, 121, 90, 1], 91) =~= seq![1u8, 1, 1, 1, 0, 1, 1, 1]);
    }
}


/// The cosets of α^1, α^3, ..., α^19 without repetition.
pub open spec fn chosen_cosets() -> Seq<Seq<usize>> {
    seq![coset(1), coset(3), coset(5), coset(7), coset(9), coset(11), coset(13), coset(15), coset(19)]
}

pub(crate) proof fn lemma_seen_evolution()
    ensures
        !seen_contains(generator_state(0).0, 1),
        !seen_contains(generator_state(1).0, 3),
        !seen_contains(generator_state(2).0, 5),
        !seen_contains(generator_state(3).0, 7),
        !seen_contains(generator_state(4).0, 9),
        !seen_contains(generator_state(5).0, 11),
        !seen_contains(generator_state(6).0, 13),
        !seen_contains(generator_state(7).0, 15),
        seen_contains(generator_state(8).0, 17),
        !seen_contains(generator_state(9).0, 19),
        generator_state(10).0 == chosen_cosets(),
        chosen_cosets()[0][0] == 1,
        chosen_cosets()[0][1] == 2,
        chosen_cosets()[1][0] == 3,
        chosen_cosets()[0][2] == 4,
        chosen_cosets()[2][0] == 5,
        chosen_cosets()[1][1] == 6,
        chosen_cosets()[3][0] == 7,
        chosen_cosets()[0][3] == 8,
        chosen_cosets()[4][0] == 9,
        chosen_cosets()[2][1] == 10,
        chosen_cosets()[5][0] == 11,
        chosen_cosets()[1][2] == 12,
        chosen_cosets()[6][0] == 13,
        chosen_cosets()[3][1] == 14,
        chosen_cosets()[7][0] == 15,
        chosen_cosets()[0][4] == 16,
        chosen_cosets()[4][4] == 17,
        chosen_cosets()[4][1] == 18,
        chosen_cosets()[8][0] == 19,
        chosen_cosets()[2][2] == 20,
{
    lemma_coset_1();
    lemma_coset_3();
    lemma_coset_5();
    lemma_coset_7();
    lemma_coset_9();
    lemma_coset_11();
    lemma_coset_13();
    lemma_coset_15();
    lemma_coset_19();
    let s0 = Seq::<Seq<usize>>::empty();
    assert(generator_state(0).0 == s0);
    assert(!seen_contains(s0, 1));
    let s1 = s0.push(coset(1));
    assert(generator_state(1).0 == s1);
    assert(!coset(1).contains(3usize));
    assert(!seen_contains(s1, 3));
    let s2 = s1.push(coset(3));
    assert(generator_state(2).0 == s2);
    assert(!coset(1).contains(5usize));
    assert(!coset(3).contains(5usize));
    assert(!seen_contains(s2, 5));
    let s3 = s2.push(coset(5));
    assert(generator_state(3).0 == s3);
    assert(!coset(1).contains(7usize));
    assert(!coset(3).contains(7usize));
    assert(!coset(5).contains(7usize));
    assert(!seen_contains(s3, 7));
    let s4 = s3.push(coset(7));
    assert(generator_state(4).0 == s4);
    assert(!coset(1).contains(9usize));
    assert(!coset(3).contains(9usize));
    assert(!coset(5).contains(9usize));
    assert(!coset(7).contains(9usize));
    assert(!seen_contains(s4, 9));
    let s5 = s4.push(coset(9));
    assert(generator_state(5).0 == s5);
    assert(!coset(1).contains(11usize));
    assert(!coset(3).contains(11usize));
    assert(!coset(5).contains(11usize));
    assert(!coset(7).contains(11usize));
    assert(!coset(9).contains(11usize));
    assert(!seen_contains(s5, 11));
    let s6 = s5.push(coset(11));
    assert(generator_state(6).0 == s6);
    assert(!coset(1).contains(13usize));
    assert(!coset(3).contains(13usize));
    assert(!coset(5).contains(13usize));
    assert(!coset(7).contains(13usize));
    assert(!coset(9).contains(13usize));
    assert(!coset(11).contains(13usize));
    assert(!seen_contains(s6, 13));
    let s7 = s6.push(coset(13));
    assert(generator_state(7).0 == s7);
    assert(!coset(1).contains(15usize));
    assert(!coset(3).contains(15usize));
    assert(!coset(5).contains(15usize));
    assert(!coset(7).contains(15usize));
    assert(!coset(9).contains(15usize));
    assert(!coset(11).contains(15usize));
    assert(!coset(13).contains(15usize));
    assert(!seen_contains(s7, 15));
    let s8 = s7.push(coset(15));
    assert(generator_state(8).0 == s8);
    assert(s8[4][4] == 17usize);
    assert(s8[4].contains(17usize));
    assert(seen_contains(s8, 17));
    let s9 = s8;
    assert(generator_state(9).0 == s9);
    assert(!coset(1).contains(19usize));
    assert(!coset(3).contains(19usize));
    assert(!coset(5).contains(19usize));
    assert(!coset(7).contains(19usize));
    assert(!coset(9).contains(19usize));
    assert(!coset(11).contains(19usize));
    assert(!coset(13).contains(19usize));
    assert(!coset(15).contains(19usize));
    assert(!seen_contains(s9, 19));
    let s10 = s9.push(coset(19));
    assert(generator_state(10).0 == s10);
    assert(s10 =~= chosen_cosets());
}

} // verus!
