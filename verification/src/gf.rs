//! The finite field GF(2^7) built from the primitive polynomial x^7 + x + 1,
//! represented by exp/log tables of the primitive element α.

use vstd::arithmetic::div_mod::*;
use vstd::prelude::*;

verus! {

/// Number of nonzero elements of GF(2^7): exponents of α are taken modulo it.
pub const FIELD_ORDER: usize = 127;

/// Multiplication by α (by x modulo x^7 + x + 1) on the integer value of a
/// field element below 128.
pub open spec fn times_alpha(v: int) -> int {
    if v < 64 {
        2 * v
    } else if v % 2 == 1 {
        2 * v - 129
    } else {
        2 * v - 125
    }
}

/// The same map written with the bit operations of the table construction.
pub open spec fn next_bits(v: u8) -> u8 {
    if v & 64u8 != 0u8 {
        (v << 1u8) ^ 131u8
    } else {
        v << 1u8
    }
}

/// α^i: the i-th entry of the exponent table.
#[verifier::opaque]
pub open spec fn exp_val(i: nat) -> int
    decreases i,
{
    if i == 0 {
        1
    } else {
        times_alpha(exp_val((i - 1) as nat))
    }
}

/// α^k for any exponent k >= 0.
pub open spec fn alpha_pow(k: int) -> u8 {
    exp_val((k % 127) as nat) as u8
}

/// Field multiplication.
pub open spec fn gf_mul(a: u8, b: u8) -> u8 {
    if a == 0 || b == 0 {
        0
    } else {
        alpha_pow(log_alpha(a) + log_alpha(b))
    }
}

/// Multiplicative inverse of a nonzero element.
pub open spec fn gf_inv(a: u8) -> u8 {
    alpha_pow(127 - log_alpha(a))
}

/// Discrete logarithm to base α of each nonzero field element (0 for 0).
#[verifier::opaque]
pub open spec fn log_alpha(a: u8) -> int {
    match a {
        1u8 => 0,
        2u8 => 1,
        3u8 => 7,
        4u8 => 2,
        5u8 => 14,
        6u8 => 8,
        7u8 => 56,
        8u8 => 3,
        9u8 => 63,
        10u8 => 15,
        11u8 => 31,
        12u8 => 9,
        13u8 => 90,
        14u8 => 57,
        15u8 => 21,
        16u8 => 4,
        17u8 => 28,
        18u8 => 64,
        19u8 => 67,
        20u8 => 16,
        21u8 => 112,
        22u8 => 32,
        23u8 => 97,
        24u8 => 10,
        25u8 => 108,
        26u8 => 91,
        27u8 => 70,
        28u8 => 58,
        29u8 => 38,
        30u8 => 22,
        31u8 => 47,
        32u8 => 5,
        33u8 => 54,
        34u8 => 29,
        35u8 => 19,
        36u8 => 65,
        37u8 => 95,
        38u8 => 68,
        39u8 => 45,
        40u8 => 17,
        41u8 => 43,
        42u8 => 113,
        43u8 => 115,
        44u8 => 33,
        45u8 => 77,
        46u8 => 98,
        47u8 => 117,
        48u8 => 11,
        49u8 => 87,
        50u8 => 109,
        51u8 => 35,
        52u8 => 92,
        53u8 => 74,
        54u8 => 71,
        55u8 => 79,
        56u8 => 59,
        57u8 => 104,
        58u8 => 39,
        59u8 => 100,
        60u8 => 23,
        61u8 => 82,
        62u8 => 48,
        63u8 => 119,
        64u8 => 6,
        65u8 => 126,
        66u8 => 55,
        67u8 => 13,
        68u8 => 30,
        69u8 => 62,
        70u8 => 20,
        71u8 => 89,
        72u8 => 66,
        73u8 => 27,
        74u8 => 96,
        75u8 => 111,
        76u8 => 69,
        77u8 => 107,
        78u8 => 46,
        79u8 => 37,
        80u8 => 18,
        81u8 => 53,
        82u8 => 44,
        83u8 => 94,
        84u8 => 114,
        85u8 => 42,
        86u8 => 116,
        87u8 => 76,
        88u8 => 34,
        89u8 => 86,
        90u8 => 78,
        91u8 => 73,
        92u8 => 99,
        93u8 => 103,
        94u8 => 118,
        95u8 => 81,
        96u8 => 12,
        97u8 => 125,
        98u8 => 88,
        99u8 => 61,
        100u8 => 110,
        101u8 => 26,
        102u8 => 36,
        103u8 => 106,
        104u8 => 93,
        105u8 => 52,
        106u8 => 75,
        107u8 => 41,
        108u8 => 72,
        109u8 => 85,
        110u8 => 80,
        111u8 => 102,
        112u8 => 60,
        113u8 => 124,
        114u8 => 105,
        115u8 => 25,
        116u8 => 40,
        117u8 => 51,
        118u8 => 101,
        119u8 => 84,
        120u8 => 24,
        121u8 => 123,
        122u8 => 83,
        123u8 => 50,
        124u8 => 49,
        125u8 => 122,
        126u8 => 120,
        127u8 => 121,
        _ => 0,
    }
}

spec fn exp_ok(k: nat) -> bool {
    1 <= exp_val(k) < 128 && log_alpha(exp_val(k) as u8) == k
}

spec fn exp_ok_upto(n: nat) -> bool
    decreases n,
{
    if n == 0 {
        true
    } else {
        exp_ok((n - 1) as nat) && exp_ok_upto((n - 1) as nat)
    }
}

spec fn log_ok(a: nat) -> bool {
    a == 0 || (0 <= log_alpha(a as u8) < 127 && exp_val(log_alpha(a as u8) as nat) == a)
}

spec fn log_ok_upto(n: nat) -> bool
    decreases n,
{
    if n == 0 {
        true
    } else {
        log_ok((n - 1) as nat) && log_ok_upto((n - 1) as nat)
    }
}

proof fn lemma_exp_ok_upto(n: nat, k: nat)
    requires
        exp_ok_upto(n),
        k < n,
    ensures
        exp_ok(k),
    decreases n,
{
    if k + 1 < n {
        lemma_exp_ok_upto((n - 1) as nat, k);
    }
}

proof fn lemma_log_ok_upto(n: nat, a: nat)
    requires
        log_ok_upto(n),
        a < n,
    ensures
        log_ok(a),
    decreases n,
{
    if a + 1 < n {
        lemma_log_ok_upto((n - 1) as nat, a);
    }
}

/// The exponent and logarithm tables, evaluated entry by entry.
proof fn lemma_tables_evaluated()
    ensures
        exp_ok_upto(127),
        log_ok_upto(128),
        times_alpha(exp_val(126)) == 1,
        exp_val(0) == 1,
        log_alpha(0) == 0,
{
    reveal(exp_val);
    reveal(log_alpha);
    assert(exp_val(0) == 1);
    assert(exp_val(0) as u8 == 1u8);
    assert(log_alpha(1u8) == 0);
    assert(exp_ok(0));
    assert(exp_ok_upto(0));
    assert(exp_ok_upto(1));
    assert(exp_val(1) == 2);
    assert(exp_ok_upto(2));
    assert(exp_val(2) == 4);
    assert(exp_ok_upto(3));
    assert(exp_val(3) == 8);
    assert(exp_ok_upto(4));
    assert(exp_val(4) == 16);
    assert(exp_ok_upto(5));
    assert(exp_val(5) == 32);
    assert(exp_ok_upto(6));
    assert(exp_val(6) == 64);
    assert(exp_ok_upto(7));
    assert(exp_val(7) == 3);
    assert(exp_ok_upto(8));
    assert(exp_val(8) == 6);
    assert(exp_ok_upto(9));
    assert(exp_val(9) == 12);
    assert(exp_ok_upto(10));
    assert(exp_val(10) == 24);
    assert(exp_ok_upto(11));
    assert(exp_val(11) == 48);
    assert(exp_ok_upto(12));
    assert(exp_val(12) == 96);
    assert(exp_ok_upto(13));
    assert(exp_val(13) == 67);
    assert(exp_ok_upto(14));
    assert(exp_val(14) == 5);
    assert(exp_ok_upto(15));
    assert(exp_val(15) == 10);
    assert(exp_ok_upto(16));
    assert(exp_val(16) == 20);
    assert(exp_ok_upto(17));
    assert(exp_val(17) == 40);
    assert(exp_ok_upto(18));
    assert(exp_val(18) == 80);
    assert(exp_ok_upto(19));
    assert(exp_val(19) == 35);
    assert(exp_ok_upto(20));
    assert(exp_val(20) == 70);
    assert(exp_ok_upto(21));
    assert(exp_val(21) == 15);
    assert(exp_ok_upto(22));
    assert(exp_val(22) == 30);
    assert(exp_ok_upto(23));
    assert(exp_val(23) == 60);
    assert(exp_ok_upto(24));
    assert(exp_val(24) == 120);
    assert(exp_ok_upto(25));
    assert(exp_val(25) == 115);
    assert(exp_ok_upto(26));
    assert(exp_val(26) == 101);
    assert(exp_ok_upto(27));
    assert(exp_val(27) == 73);
    assert(exp_ok_upto(28));
    assert(exp_val(28) == 17);
    assert(exp_ok_upto(29));
    assert(exp_val(29) == 34);
    assert(exp_ok_upto(30));
    assert(exp_val(30) == 68);
    assert(exp_ok_upto(31));
    assert(exp_val(31) == 11);
    assert(exp_ok_upto(32));
    assert(exp_val(32) == 22);
    assert(exp_ok_upto(33));
    assert(exp_val(33) == 44);
    assert(exp_ok_upto(34));
    assert(exp_val(34) == 88);
    assert(exp_ok_upto(35));
    assert(exp_val(35) == 51);
    assert(exp_ok_upto(36));
    assert(exp_val(36) == 102);
    assert(exp_ok_upto(37));
    assert(exp_val(37) == 79);
    assert(exp_ok_upto(38));
    assert(exp_val(38) == 29);
    assert(exp_ok_upto(39));
    assert(exp_val(39) == 58);
    assert(exp_ok_upto(40));
    assert(exp_val(40) == 116);
    assert(exp_ok_upto(41));
    assert(exp_val(41) == 107);
    assert(exp_ok_upto(42));
    assert(exp_val(42) == 85);
    assert(exp_ok_upto(43));
    assert(exp_val(43) == 41);
    assert(exp_ok_upto(44));
    assert(exp_val(44) == 82);
    assert(exp_ok_upto(45));
    assert(exp_val(45) == 39);
    assert(exp_ok_upto(46));
    assert(exp_val(46) == 78);
    assert(exp_ok_upto(47));
    assert(exp_val(47) == 31);
    assert(exp_ok_upto(48));
    assert(exp_val(48) == 62);
    assert(exp_ok_upto(49));
    assert(exp_val(49) == 124);
    assert(exp_ok_upto(50));
    assert(exp_val(50) == 123);
    assert(exp_ok_upto(51));
    assert(exp_val(51) == 117);
    assert(exp_ok_upto(52));
    assert(exp_val(52) == 105);
    assert(exp_ok_upto(53));
    assert(exp_val(53) == 81);
    assert(exp_ok_upto(54));
    assert(exp_val(54) == 33);
    assert(exp_ok_upto(55));
    assert(exp_val(55) == 66);
    assert(exp_ok_upto(56));
    assert(exp_val(56) == 7);
    assert(exp_ok_upto(57));
    assert(exp_val(57) == 14);
    assert(exp_ok_upto(58));
    assert(exp_val(58) == 28);
    assert(exp_ok_upto(59));
    assert(exp_val(59) == 56);
    assert(exp_ok_upto(60));
    assert(exp_val(60) == 112);
    assert(exp_ok_upto(61));
    assert(exp_val(61) == 99);
    assert(exp_ok_upto(62));
    assert(exp_val(62) == 69);
    assert(exp_ok_upto(63));
    assert(exp_val(63) == 9);
    assert(exp_ok_upto(64));
    assert(exp_val(64) == 18);
    assert(exp_ok_upto(65));
    assert(exp_val(65) == 36);
    assert(exp_ok_upto(66));
    assert(exp_val(66) == 72);
    assert(exp_ok_upto(67));
    assert(exp_val(67) == 19);
    assert(exp_ok_upto(68));
    assert(exp_val(68) == 38);
    assert(exp_ok_upto(69));
    assert(exp_val(69) == 76);
    assert(exp_ok_upto(70));
    assert(exp_val(70) == 27);
    assert(exp_ok_upto(71));
    assert(exp_val(71) == 54);
    assert(exp_ok_upto(72));
    assert(exp_val(72) == 108);
    assert(exp_ok_upto(73));
    assert(exp_val(73) == 91);
    assert(exp_ok_upto(74));
    assert(exp_val(74) == 53);
    assert(exp_ok_upto(75));
    assert(exp_val(75) == 106);
    assert(exp_ok_upto(76));
    assert(exp_val(76) == 87);
    assert(exp_ok_upto(77));
    assert(exp_val(77) == 45);
    assert(exp_ok_upto(78));
    assert(exp_val(78) == 90);
    assert(exp_ok_upto(79));
    assert(exp_val(79) == 55);
    assert(exp_ok_upto(80));
    assert(exp_val(80) == 110);
    assert(exp_ok_upto(81));
    assert(exp_val(81) == 95);
    assert(exp_ok_upto(82));
    assert(exp_val(82) == 61);
    assert(exp_ok_upto(83));
    assert(exp_val(83) == 122);
    assert(exp_ok_upto(84));
    assert(exp_val(84) == 119);
    assert(exp_ok_upto(85));
    assert(exp_val(85) == 109);
    assert(exp_ok_upto(86));
    assert(exp_val(86) == 89);
    assert(exp_ok_upto(87));
    assert(exp_val(87) == 49);
    assert(exp_ok_upto(88));
    assert(exp_val(88) == 98);
    assert(exp_ok_upto(89));
    assert(exp_val(89) == 71);
    assert(exp_ok_upto(90));
    assert(exp_val(90) == 13);
    assert(exp_ok_upto(91));
    assert(exp_val(91) == 26);
    assert(exp_ok_upto(92));
    assert(exp_val(92) == 52);
    assert(exp_ok_upto(93));
    assert(exp_val(93) == 104);
    assert(exp_ok_upto(94));
    assert(exp_val(94) == 83);
    assert(exp_ok_upto(95));
    assert(exp_val(95) == 37);
    assert(exp_ok_upto(96));
    assert(exp_val(96) == 74);
    assert(exp_ok_upto(97));
    assert(exp_val(97) == 23);
    assert(exp_ok_upto(98));
    assert(exp_val(98) == 46);
    assert(exp_ok_upto(99));
    assert(exp_val(99) == 92);
    assert(exp_ok_upto(100));
    assert(exp_val(100) == 59);
    assert(exp_ok_upto(101));
    assert(exp_val(101) == 118);
    assert(exp_ok_upto(102));
    assert(exp_val(102) == 111);
    assert(exp_ok_upto(103));
    assert(exp_val(103) == 93);
    assert(exp_ok_upto(104));
    assert(exp_val(104) == 57);
    assert(exp_ok_upto(105));
    assert(exp_val(105) == 114);
    assert(exp_ok_upto(106));
    assert(exp_val(106) == 103);
    assert(exp_ok_upto(107));
    assert(exp_val(107) == 77);
    assert(exp_ok_upto(108));
    assert(exp_val(108) == 25);
    assert(exp_ok_upto(109));
    assert(exp_val(109) == 50);
    assert(exp_ok_upto(110));
    assert(exp_val(110) == 100);
    assert(exp_ok_upto(111));
    assert(exp_val(111) == 75);
    assert(exp_ok_upto(112));
    assert(exp_val(112) == 21);
    assert(exp_ok_upto(113));
    assert(exp_val(113) == 42);
    assert(exp_ok_upto(114));
    assert(exp_val(114) == 84);
    assert(exp_ok_upto(115));
    assert(exp_val(115) == 43);
    assert(exp_ok_upto(116));
    assert(exp_val(116) == 86);
    assert(exp_ok_upto(117));
    assert(exp_val(117) == 47);
    assert(exp_ok_upto(118));
    assert(exp_val(118) == 94);
    assert(exp_ok_upto(119));
    assert(exp_val(119) == 63);
    assert(exp_ok_upto(120));
    assert(exp_val(120) == 126);
    assert(exp_ok_upto(121));
    assert(exp_val(121) == 127);
    assert(exp_ok_upto(122));
    assert(exp_val(122) == 125);
    assert(exp_ok_upto(123));
    assert(exp_val(123) == 121);
    assert(exp_ok_upto(124));
    assert(exp_val(124) == 113);
    assert(exp_ok_upto(125));
    assert(exp_val(125) == 97);
    assert(exp_ok_upto(126));
    assert(exp_val(126) == 65);
    assert(exp_ok_upto(127));
    assert(log_ok(0));
    assert(log_ok_upto(0));
    assert(log_ok_upto(1));
    assert(log_ok_upto(2));
    assert(log_ok_upto(3));
    assert(log_ok_upto(4));
    assert(log_ok_upto(5));
    assert(log_ok_upto(6));
    assert(log_ok_upto(7));
    assert(log_ok_upto(8));
    assert(log_ok_upto(9));
    assert(log_ok_upto(10));
    assert(log_ok_upto(11));
    assert(log_ok_upto(12));
    assert(log_ok_upto(13));
    assert(log_ok_upto(14));
    assert(log_ok_upto(15));
    assert(log_ok_upto(16));
    assert(log_ok_upto(17));
    assert(log_ok_upto(18));
    assert(log_ok_upto(19));
    assert(log_ok_upto(20));
    assert(log_ok_upto(21));
    assert(log_ok_upto(22));
    assert(log_ok_upto(23));
    assert(log_ok_upto(24));
    assert(log_ok_upto(25));
    assert(log_ok_upto(26));
    assert(log_ok_upto(27));
    assert(log_ok_upto(28));
    assert(log_ok_upto(29));
    assert(log_ok_upto(30));
    assert(log_ok_upto(31));
    assert(log_ok_upto(32));
    assert(log_ok_upto(33));
    assert(log_ok_upto(34));
    assert(log_ok_upto(35));
    assert(log_ok_upto(36));
    assert(log_ok_upto(37));
    assert(log_ok_upto(38));
    assert(log_ok_upto(39));
    assert(log_ok_upto(40));
    assert(log_ok_upto(41));
    assert(log_ok_upto(42));
    assert(log_ok_upto(43));
    assert(log_ok_upto(44));
    assert(log_ok_upto(45));
    assert(log_ok_upto(46));
    assert(log_ok_upto(47));
    assert(log_ok_upto(48));
    assert(log_ok_upto(49));
    assert(log_ok_upto(50));
    assert(log_ok_upto(51));
    assert(log_ok_upto(52));
    assert(log_ok_upto(53));
    assert(log_ok_upto(54));
    assert(log_ok_upto(55));
    assert(log_ok_upto(56));
    assert(log_ok_upto(57));
    assert(log_ok_upto(58));
    assert(log_ok_upto(59));
    assert(log_ok_upto(60));
    assert(log_ok_upto(61));
    assert(log_ok_upto(62));
    assert(log_ok_upto(63));
    assert(log_ok_upto(64));
    assert(log_ok_upto(65));
    assert(log_ok_upto(66));
    assert(log_ok_upto(67));
    assert(log_ok_upto(68));
    assert(log_ok_upto(69));
    assert(log_ok_upto(70));
    assert(log_ok_upto(71));
    assert(log_ok_upto(72));
    assert(log_ok_upto(73));
    assert(log_ok_upto(74));
    assert(log_ok_upto(75));
    assert(log_ok_upto(76));
    assert(log_ok_upto(77));
    assert(log_ok_upto(78));
    assert(log_ok_upto(79));
    assert(log_ok_upto(80));
    assert(log_ok_upto(81));
    assert(log_ok_upto(82));
    assert(log_ok_upto(83));
    assert(log_ok_upto(84));
    assert(log_ok_upto(85));
    assert(log_ok_upto(86));
    assert(log_ok_upto(87));
    assert(log_ok_upto(88));
    assert(log_ok_upto(89));
    assert(log_ok_upto(90));
    assert(log_ok_upto(91));
    assert(log_ok_upto(92));
    assert(log_ok_upto(93));
    assert(log_ok_upto(94));
    assert(log_ok_upto(95));
    assert(log_ok_upto(96));
    assert(log_ok_upto(97));
    assert(log_ok_upto(98));
    assert(log_ok_upto(99));
    assert(log_ok_upto(100));
    assert(log_ok_upto(101));
    assert(log_ok_upto(102));
    assert(log_ok_upto(103));
    assert(log_ok_upto(104));
    assert(log_ok_upto(105));
    assert(log_ok_upto(106));
    assert(log_ok_upto(107));
    assert(log_ok_upto(108));
    assert(log_ok_upto(109));
    assert(log_ok_upto(110));
    assert(log_ok_upto(111));
    assert(log_ok_upto(112));
    assert(log_ok_upto(113));
    assert(log_ok_upto(114));
    assert(log_ok_upto(115));
    assert(log_ok_upto(116));
    assert(log_ok_upto(117));
    assert(log_ok_upto(118));
    assert(log_ok_upto(119));
    assert(log_ok_upto(120));
    assert(log_ok_upto(121));
    assert(log_ok_upto(122));
    assert(log_ok_upto(123));
    assert(log_ok_upto(124));
    assert(log_ok_upto(125));
    assert(log_ok_upto(126));
    assert(log_ok_upto(127));
    assert(log_ok_upto(128));
    assert(times_alpha(exp_val(126)) == 1);
}

/// α generates the multiplicative group: α^0..α^126 are the 127 nonzero
/// elements, each once, and the logarithm table inverts the exponent table.
pub proof fn lemma_tables()
    ensures
        forall|k: nat| k < 127 ==> 1 <= #[trigger] exp_val(k) < 128 && log_alpha(exp_val(k) as u8) == k,
        forall|a: u8| 1 <= a < 128 ==> 0 <= #[trigger] log_alpha(a) < 127 && exp_val(log_alpha(a) as nat) == a,
        forall|a: u8| 0 <= #[trigger] log_alpha(a),
        times_alpha(exp_val(126)) == 1,
        exp_val(0) == 1,
        log_alpha(0) == 0,
        log_alpha(1) == 0,
{
    lemma_tables_evaluated();
    assert forall|k: nat| k < 127 implies 1 <= #[trigger] exp_val(k) < 128 && log_alpha(exp_val(k) as u8) == k by {
        lemma_exp_ok_upto(127, k);
    }
    assert forall|a: u8| 1 <= a < 128 implies 0 <= #[trigger] log_alpha(a) < 127 && exp_val(log_alpha(a) as nat) == a by {
        lemma_log_ok_upto(128, a as nat);
    }
    assert forall|a: u8| 0 <= #[trigger] log_alpha(a) by {
        if 1 <= a < 128 {
            lemma_log_ok_upto(128, a as nat);
        } else {
            reveal(log_alpha);
        }
    }
    lemma_exp_ok_upto(127, 0);
}

/// Successive table entries differ by a factor α.
pub proof fn lemma_exp_step(i: nat)
    ensures
        exp_val(i + 1) == times_alpha(exp_val(i)),
{
    reveal(exp_val);
}

/// The bitwise step of the table construction is multiplication by α.
pub proof fn lemma_next_bits(v: u8)
    requires
        v < 128,
    ensures
        next_bits(v) as int == times_alpha(v as int),
        next_bits(v) < 128,
{
    if v < 64 {
        assert(v & 64u8 == 0u8 && (v << 1u8) as int == 2 * (v as int)) by (bit_vector)
            requires v < 64u8;
    } else if v % 2 == 1 {
        assert(v & 64u8 != 0u8 && ((v << 1u8) ^ 131u8) as int == 2 * (v as int) - 129) by (bit_vector)
            requires 64u8 <= v < 128u8, v % 2 == 1;
    } else {
        assert(v & 64u8 != 0u8 && ((v << 1u8) ^ 131u8) as int == 2 * (v as int) - 125) by (bit_vector)
            requires 64u8 <= v < 128u8, v % 2 == 0;
    }
}

/// Multiplication by α distributes over field addition (xor).
pub proof fn lemma_next_bits_xor(a: u8, b: u8)
    requires
        a < 128,
        b < 128,
    ensures
        next_bits(a ^ b) == next_bits(a) ^ next_bits(b),
        a ^ b < 128,
{
    assert(next_bits(a ^ b) == next_bits(a) ^ next_bits(b) && a ^ b < 128u8) by (bit_vector)
        requires a < 128u8, b < 128u8;
}

/// Field addition (xor) facts.
pub proof fn lemma_xor_facts(a: u8, b: u8, c: u8)
    ensures
        a ^ 0u8 == a,
        0u8 ^ a == a,
        a ^ a == 0u8,
        a ^ b == b ^ a,
        (a ^ b) ^ c == a ^ (b ^ c),
        a < 128 && b < 128 ==> a ^ b < 128,
        (a ^ b == 0u8) == (a == b),
{
    assert(a ^ 0u8 == a && 0u8 ^ a == a && a ^ a == 0u8 && a ^ b == b ^ a && (a ^ b) ^ c == a ^ (b ^ c)
        && (a < 128u8 && b < 128u8 ==> a ^ b < 128u8) && ((a ^ b == 0u8) == (a == b))) by (bit_vector);
}

/// k-fold multiplication by α.
pub open spec fn xpow(k: nat, v: u8) -> u8
    decreases k,
{
    if k == 0 {
        v
    } else {
        next_bits(xpow((k - 1) as nat, v))
    }
}

pub proof fn lemma_xpow_linear(k: nat, a: u8, b: u8)
    requires
        a < 128,
        b < 128,
    ensures
        xpow(k, a ^ b) == xpow(k, a) ^ xpow(k, b),
        xpow(k, a) < 128,
        xpow(k, b) < 128,
        xpow(k, 0) == 0,
    decreases k,
{
    lemma_next_bits_xor(a, b);
    if k > 0 {
        lemma_xpow_linear((k - 1) as nat, a, b);
        lemma_next_bits_xor(xpow((k - 1) as nat, a), xpow((k - 1) as nat, b));
        lemma_next_bits(xpow((k - 1) as nat, a));
        lemma_next_bits(xpow((k - 1) as nat, b));
        assert(next_bits(0u8) == 0u8) by (bit_vector);
    }
}

/// α^k is a nonzero field element whose logarithm is k mod 127.
pub proof fn lemma_alpha_pow(k: int)
    requires
        k >= 0,
    ensures
        1 <= alpha_pow(k) < 128,
        alpha_pow(k) as int == exp_val((k % 127) as nat),
        log_alpha(alpha_pow(k)) == k % 127,
{
    lemma_tables();
    let m = (k % 127) as nat;
    assert(m < 127);
    assert(1 <= exp_val(m) < 128);
}

/// α^0 = 1.
pub proof fn lemma_alpha_pow_zero()
    ensures
        alpha_pow(0) == 1,
{
    lemma_tables();
}

/// Exponents add under multiplication.
pub proof fn lemma_mul_alpha_pow(x: int, y: int)
    requires
        x >= 0,
        y >= 0,
    ensures
        gf_mul(alpha_pow(x), alpha_pow(y)) == alpha_pow(x + y),
{
    lemma_alpha_pow(x);
    lemma_alpha_pow(y);
    lemma_add_mod_noop(x, y, 127);
}

/// Every nonzero element is the power of α given by its logarithm.
pub proof fn lemma_pow_of_log(a: u8)
    requires
        1 <= a < 128,
    ensures
        alpha_pow(log_alpha(a)) == a,
{
    lemma_tables();
    lemma_small_mod(log_alpha(a) as nat, 127);
}

/// α^x = α^y exactly when x and y agree modulo 127.
pub proof fn lemma_alpha_pow_injective(x: int, y: int)
    requires
        x >= 0,
        y >= 0,
        alpha_pow(x) == alpha_pow(y),
    ensures
        x % 127 == y % 127,
{
    lemma_alpha_pow(x);
    lemma_alpha_pow(y);
}

/// Basic facts about field multiplication.
pub proof fn lemma_mul_basics(a: u8, b: u8)
    requires
        a < 128,
        b < 128,
    ensures
        gf_mul(a, b) < 128,
        gf_mul(a, b) == gf_mul(b, a),
        a != 0 && b != 0 ==> gf_mul(a, b) != 0,
        gf_mul(a, 0) == 0,
        gf_mul(0, a) == 0,
        gf_mul(a, 1) == a,
        gf_mul(1, a) == a,
{
    lemma_tables();
    if a != 0 && b != 0 {
        lemma_alpha_pow(log_alpha(a) + log_alpha(b));
    }
    if a != 0 {
        lemma_pow_of_log(a);
    }
}

/// Multiplication by a nonzero a is log(a)-fold multiplication by α.
pub proof fn lemma_mul_as_xpow(a: u8, b: u8)
    requires
        1 <= a < 128,
        b < 128,
    ensures
        gf_mul(a, b) == xpow(log_alpha(a) as nat, b),
{
    lemma_tables();
    lemma_xpow_linear(log_alpha(a) as nat, 0, 0);
    if b != 0 {
        lemma_pow_of_log(b);
        lemma_xpow_alpha_pow(log_alpha(a) as nat, log_alpha(b));
    }
}

/// Multiplying α^m by α once more.
pub proof fn lemma_next_alpha_pow(j: int)
    requires
        j >= 0,
    ensures
        next_bits(alpha_pow(j)) == alpha_pow(j + 1),
{
    lemma_tables();
    lemma_alpha_pow(j);
    lemma_alpha_pow(j + 1);
    let m = (j % 127) as nat;
    lemma_next_bits(alpha_pow(j));
    lemma_add_mod_noop(j, 1, 127);
    if m < 126 {
        lemma_exp_step(m);
        lemma_small_mod(m + 1, 127);
    } else {
        assert((m + 1) % 127 == 0);
    }
}

pub proof fn lemma_xpow_alpha_pow(k: nat, m: int)
    requires
        m >= 0,
    ensures
        xpow(k, alpha_pow(m)) == alpha_pow(m + k),
    decreases k,
{
    if k > 0 {
        lemma_xpow_alpha_pow((k - 1) as nat, m);
        lemma_next_alpha_pow(m + k - 1);
    }
}

/// Multiplication distributes over addition.
pub proof fn lemma_mul_distrib(a: u8, b: u8, c: u8)
    requires
        a < 128,
        b < 128,
        c < 128,
    ensures
        gf_mul(a, b ^ c) == gf_mul(a, b) ^ gf_mul(a, c),
        b ^ c < 128,
{
    lemma_next_bits_xor(b, c);
    if a == 0 {
        assert(0u8 ^ 0u8 == 0u8) by (bit_vector);
    } else {
        lemma_mul_as_xpow(a, b);
        lemma_mul_as_xpow(a, c);
        lemma_mul_as_xpow(a, b ^ c);
        lemma_xpow_linear(log_alpha(a) as nat, b, c);
    }
}

/// Multiplication is associative.
pub proof fn lemma_mul_assoc(a: u8, b: u8, c: u8)
    requires
        a < 128,
        b < 128,
        c < 128,
    ensures
        gf_mul(gf_mul(a, b), c) == gf_mul(a, gf_mul(b, c)),
{
    lemma_mul_basics(a, b);
    lemma_mul_basics(b, c);
    lemma_tables();
    if a != 0 && b != 0 && c != 0 {
        let (la, lb, lc) = (log_alpha(a), log_alpha(b), log_alpha(c));
        lemma_pow_of_log(a);
        lemma_pow_of_log(b);
        lemma_pow_of_log(c);
        lemma_mul_alpha_pow(la, lb);
        lemma_mul_alpha_pow(lb, lc);
        lemma_mul_alpha_pow(la + lb, lc);
        lemma_mul_alpha_pow(la, lb + lc);
        assert(la + lb + lc == la + (lb + lc));
    } else {
        lemma_mul_basics(gf_mul(a, b), c);
        lemma_mul_basics(a, gf_mul(b, c));
    }
}

/// The inverse of a nonzero element is nonzero and multiplies it to 1.
pub proof fn lemma_inv(a: u8)
    requires
        1 <= a < 128,
    ensures
        1 <= gf_inv(a) < 128,
        gf_mul(a, gf_inv(a)) == 1,
{
    lemma_tables();
    let la = log_alpha(a);
    lemma_alpha_pow(127 - la);
    lemma_pow_of_log(a);
    lemma_mul_alpha_pow(la, 127 - la);
    lemma_alpha_pow_zero();
    lemma_mod_self_0(127);
    assert(alpha_pow(127) == alpha_pow(0));
}

/// Exponent and logarithm tables of GF(2^7).
pub struct Gf2m {
    pub exp: Vec<u8>,
    pub log: Vec<u8>,
}

impl Gf2m {
    /// The tables hold α^i and log_α(a) for every index.
    pub open spec fn wf(&self) -> bool {
        &&& self.exp.len() == 127
        &&& self.log.len() == 128
        &&& forall|k: int| 0 <= k < 127 ==> #[trigger] self.exp@[k] as int == exp_val(k as nat)
        &&& forall|a: int| 0 <= a < 128 ==> #[trigger] self.log@[a] as int == log_alpha(a as u8)
    }

    /// Builds the tables by repeated multiplication by α.
    pub fn new() -> (gf: Self)
        ensures
            gf.wf(),
    {
        let mut exp: Vec<u8> = Vec::new();
        let mut log: Vec<u8> = vec![0u8; 128];
        let mut val: u16 = 1;
        let mut i: usize = 0;
        proof {
            lemma_tables();
        }
        while i < 127
            invariant
                i <= 127,
                exp.len() == i,
                log.len() == 128,
                val < 128,
                val as int == exp_val(i as nat),
                forall|k: int| 0 <= k < i ==> #[trigger] exp@[k] as int == exp_val(k as nat),
                forall|k: nat| k < i ==> log@[#[trigger] exp_val(k)] as int == k,
                log@[0] == 0,
                forall|k: nat| k < 127 ==> 1 <= #[trigger] exp_val(k) < 128 && log_alpha(exp_val(k) as u8) == k,
                times_alpha(exp_val(126)) == 1,
            decreases 127 - i,
        {
            let ghost old_log = log@;
            exp.push(val as u8);
            log.set(val as usize, i as u8);
            assert forall|k: nat| k < i + 1 implies log@[#[trigger] exp_val(k)] as int == k by {
                if k < i {
                    assert(log_alpha(exp_val(k) as u8) != log_alpha(exp_val(i as nat) as u8));
                }
            }
            let ghost v0 = val;
            val = val << 1u16;
            if val & 128u16 != 0 {
                val = val ^ 131u16;
            }
            proof {
                lemma_step_bits(v0);
                lemma_exp_step(i as nat);
            }
            i += 1;
        }
        proof {
            assert forall|a: int| 0 <= a < 128 implies #[trigger] log@[a] as int == log_alpha(a as u8) by {
                if a > 0 {
                    let k = log_alpha(a as u8) as nat;
                    assert(exp_val(k) == a);
                }
            }
        }
        Gf2m { exp, log }
    }

    /// Field multiplication through the tables.
    pub fn mul(&self, a: u8, b: u8) -> (r: u8)
        requires
            self.wf(),
            a != 0 && b != 0 ==> a < 128 && b < 128,
        ensures
            r == gf_mul(a, b),
    {
        if a == 0 || b == 0 {
            return 0;
        }
        proof {
            lemma_tables();
        }
        let la = self.log[a as usize] as usize;
        let lb = self.log[b as usize] as usize;
        let r = self.exp[(la + lb) % 127];
        proof {
            lemma_alpha_pow(la + lb);
        }
        r
    }

    /// Multiplicative inverse of a nonzero element.
    pub fn inv(&self, a: u8) -> (r: u8)
        requires
            self.wf(),
            1 <= a < 128,
        ensures
            r == gf_inv(a),
    {
        proof {
            lemma_tables();
        }
        let la = self.log[a as usize] as usize;
        let r = self.exp[(127 - la) % 127];
        proof {
            lemma_alpha_pow(127 - la);
        }
        r
    }
}

/// One step of the table construction, on the 16-bit working value.
proof fn lemma_step_bits(v: u16)
    requires
        v < 128,
    ensures
        ({
            let w = v << 1u16;
            let n = if w & 128u16 != 0 { w ^ 131u16 } else { w };
            n < 128 && n as int == times_alpha(v as int)
        }),
{
    if v < 64 {
        assert((v << 1u16) & 128u16 == 0u16 && (v << 1u16) as int == 2 * (v as int)) by (bit_vector)
            requires v < 64u16;
    } else if v % 2 == 1 {
        assert((v << 1u16) & 128u16 != 0u16 && ((v << 1u16) ^ 131u16) as int == 2 * (v as int) - 129) by (bit_vector)
            requires 64u16 <= v < 128u16, v % 2 == 1;
    } else {
        assert((v << 1u16) & 128u16 != 0u16 && ((v << 1u16) ^ 131u16) as int == 2 * (v as int) - 125) by (bit_vector)
            requires 64u16 <= v < 128u16, v % 2 == 0;
    }
}

} // verus!
