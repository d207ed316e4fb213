use vstd::prelude::*;
use vstd::std_specs::bits::{u64_trailing_zeros, u64_leading_zeros, axiom_u64_trailing_zeros, axiom_u64_leading_zeros};

verus! {

/// Whether bit `i` (counted from the least significant bit) of `x` is set.
pub open spec fn bit_set(x: u64, i: u64) -> bool {
    (x >> i) & 1u64 == 1u64
}

/// A word with only bit `i` set.
pub open spec fn single(i: u64) -> u64 {
    1u64 << i
}

pub proof fn lemma_bit_and(a: u64, b: u64, i: u64)
    requires
        i < 64,
    ensures
        bit_set(a & b, i) == (bit_set(a, i) && bit_set(b, i)),
{
    assert(((a & b) >> i) & 1u64 == 1u64 <==> ((a >> i) & 1u64 == 1u64 && (b >> i) & 1u64 == 1u64))
        by (bit_vector)
        requires
            i < 64,
    ;
}

pub proof fn lemma_bit_or(a: u64, b: u64, i: u64)
    requires
        i < 64,
    ensures
        bit_set(a | b, i) == (bit_set(a, i) || bit_set(b, i)),
{
    assert(((a | b) >> i) & 1u64 == 1u64 <==> ((a >> i) & 1u64 == 1u64 || (b >> i) & 1u64 == 1u64))
        by (bit_vector)
        requires
            i < 64,
    ;
}

pub proof fn lemma_bit_xor(a: u64, b: u64, i: u64)
    requires
        i < 64,
    ensures
        bit_set(a ^ b, i) == (bit_set(a, i) != bit_set(b, i)),
{
    assert(((a ^ b) >> i) & 1u64 == 1u64 <==> ((a >> i) & 1u64 == 1u64) != ((b >> i) & 1u64
        == 1u64)) by (bit_vector)
        requires
            i < 64,
    ;
}

pub proof fn lemma_bit_not(a: u64, i: u64)
    requires
        i < 64,
    ensures
        bit_set(!a, i) == !bit_set(a, i),
{
    assert(((!a) >> i) & 1u64 == 1u64 <==> !((a >> i) & 1u64 == 1u64)) by (bit_vector)
        requires
            i < 64,
    ;
}

pub proof fn lemma_bit_single(k: u64, i: u64)
    requires
        i < 64,
        k < 64,
    ensures
        bit_set(single(k), i) == (i == k),
{
    assert(((1u64 << k) >> i) & 1u64 == 1u64 <==> i == k) by (bit_vector)
        requires
            i < 64,
            k < 64,
    ;
}

pub proof fn lemma_bit_zero(i: u64)
    ensures
        !bit_set(0, i),
{
    assert((0u64 >> i) & 1u64 != 1u64) by (bit_vector);
}

/// Every bit of the full word is set.
pub proof fn lemma_all_bits(i: u64)
    requires
        i < 64,
    ensures
        bit_set(0xFFFF_FFFF_FFFF_FFFFu64, i),
{
    assert((0xFFFF_FFFF_FFFF_FFFFu64 >> i) & 1u64 == 1u64) by (bit_vector)
        requires
            i < 64,
    ;
}

/// The word of the eight squares of rank `r` holds exactly the squares on that rank.
pub proof fn lemma_rank_word(r: u64, p: u64)
    requires
        r < 8,
        p < 64,
    ensures
        bit_set(0xFFu64 << (r * 8), p) == (p / 8 == r),
{
    assert(((0xFFu64 << (r * 8)) >> p) & 1u64 == 1u64 <==> p / 8 == r) by (bit_vector)
        requires
            r < 8,
            p < 64,
    ;
}

/// The word of the eight squares of file `f` holds exactly the squares on that file.
pub proof fn lemma_file_word(f: u64, p: u64)
    requires
        f < 8,
        p < 64,
    ensures
        bit_set(0x101010101010101u64 << f, p) == (p % 8 == f),
{
    assert(((0x101010101010101u64 << f) >> p) & 1u64 == 1u64 <==> p % 8 == f) by (bit_vector)
        requires
            f < 8,
            p < 64,
    ;
}

/// Two words that agree on every bit are equal.
pub proof fn lemma_bits_ext(a: u64, b: u64)
    requires
        forall|i: u64| i < 64 ==> bit_set(a, i) == bit_set(b, i),
    ensures
        a == b,
{
    assert(bit_set(a, 0) == bit_set(b, 0));
    assert(bit_set(a, 1) == bit_set(b, 1));
    assert(bit_set(a, 2) == bit_set(b, 2));
    assert(bit_set(a, 3) == bit_set(b, 3));
    assert(bit_set(a, 4) == bit_set(b, 4));
    assert(bit_set(a, 5) == bit_set(b, 5));
    assert(bit_set(a, 6) == bit_set(b, 6));
    assert(bit_set(a, 7) == bit_set(b, 7));
    assert(bit_set(a, 8) == bit_set(b, 8));
    assert(bit_set(a, 9) == bit_set(b, 9));
    assert(bit_set(a, 10) == bit_set(b, 10));
    assert(bit_set(a, 11) == bit_set(b, 11));
    assert(bit_set(a, 12) == bit_set(b, 12));
    assert(bit_set(a, 13) == bit_set(b, 13));
    assert(bit_set(a, 14) == bit_set(b, 14));
    assert(bit_set(a, 15) == bit_set(b, 15));
    assert(bit_set(a, 16) == bit_set(b, 16));
    assert(bit_set(a, 17) == bit_set(b, 17));
    assert(bit_set(a, 18) == bit_set(b, 18));
    assert(bit_set(a, 19) == bit_set(b, 19));
    assert(bit_set(a, 20) == bit_set(b, 20));
    assert(bit_set(a, 21) == bit_set(b, 21));
    assert(bit_set(a, 22) == bit_set(b, 22));
    assert(bit_set(a, 23) == bit_set(b, 23));
    assert(bit_set(a, 24) == bit_set(b, 24));
    assert(bit_set(a, 25) == bit_set(b, 25));
    assert(bit_set(a, 26) == bit_set(b, 26));
    assert(bit_set(a, 27) == bit_set(b, 27));
    assert(bit_set(a, 28) == bit_set(b, 28));
    assert(bit_set(a, 29) == bit_set(b, 29));
    assert(bit_set(a, 30) == bit_set(b, 30));
    assert(bit_set(a, 31) == bit_set(b, 31));
    assert(bit_set(a, 32) == bit_set(b, 32));
    assert(bit_set(a, 33) == bit_set(b, 33));
    assert(bit_set(a, 34) == bit_set(b, 34));
    assert(bit_set(a, 35) == bit_set(b, 35));
    assert(bit_set(a, 36) == bit_set(b, 36));
    assert(bit_set(a, 37) == bit_set(b, 37));
    assert(bit_set(a, 38) == bit_set(b, 38));
    assert(bit_set(a, 39) == bit_set(b, 39));
    assert(bit_set(a, 40) == bit_set(b, 40));
    assert(bit_set(a, 41) == bit_set(b, 41));
    assert(bit_set(a, 42) == bit_set(b, 42));
    assert(bit_set(a, 43) == bit_set(b, 43));
    assert(bit_set(a, 44) == bit_set(b, 44));
    assert(bit_set(a, 45) == bit_set(b, 45));
    assert(bit_set(a, 46) == bit_set(b, 46));
    assert(bit_set(a, 47) == bit_set(b, 47));
    assert(bit_set(a, 48) == bit_set(b, 48));
    assert(bit_set(a, 49) == bit_set(b, 49));
    assert(bit_set(a, 50) == bit_set(b, 50));
    assert(bit_set(a, 51) == bit_set(b, 51));
    assert(bit_set(a, 52) == bit_set(b, 52));
    assert(bit_set(a, 53) == bit_set(b, 53));
    assert(bit_set(a, 54) == bit_set(b, 54));
    assert(bit_set(a, 55) == bit_set(b, 55));
    assert(bit_set(a, 56) == bit_set(b, 56));
    assert(bit_set(a, 57) == bit_set(b, 57));
    assert(bit_set(a, 58) == bit_set(b, 58));
    assert(bit_set(a, 59) == bit_set(b, 59));
    assert(bit_set(a, 60) == bit_set(b, 60));
    assert(bit_set(a, 61) == bit_set(b, 61));
    assert(bit_set(a, 62) == bit_set(b, 62));
    assert(bit_set(a, 63) == bit_set(b, 63));
    lemma_ext_64(a, b);
}

proof fn lemma_ext_64(a: u64, b: u64)
    requires
        bit_set(a, 0) == bit_set(b, 0),
        bit_set(a, 1) == bit_set(b, 1),
        bit_set(a, 2) == bit_set(b, 2),
        bit_set(a, 3) == bit_set(b, 3),
        bit_set(a, 4) == bit_set(b, 4),
        bit_set(a, 5) == bit_set(b, 5),
        bit_set(a, 6) == bit_set(b, 6),
        bit_set(a, 7) == bit_set(b, 7),
        bit_set(a, 8) == bit_set(b, 8),
        bit_set(a, 9) == bit_set(b, 9),
        bit_set(a, 10) == bit_set(b, 10),
        bit_set(a, 11) == bit_set(b, 11),
        bit_set(a, 12) == bit_set(b, 12),
        bit_set(a, 13) == bit_set(b, 13),
        bit_set(a, 14) == bit_set(b, 14),
        bit_set(a, 15) == bit_set(b, 15),
        bit_set(a, 16) == bit_set(b, 16),
        bit_set(a, 17) == bit_set(b, 17),
        bit_set(a, 18) == bit_set(b, 18),
        bit_set(a, 19) == bit_set(b, 19),
        bit_set(a, 20) == bit_set(b, 20),
        bit_set(a, 21) == bit_set(b, 21),
        bit_set(a, 22) == bit_set(b, 22),
        bit_set(a, 23) == bit_set(b, 23),
        bit_set(a, 24) == bit_set(b, 24),
        bit_set(a, 25) == bit_set(b, 25),
        bit_set(a, 26) == bit_set(b, 26),
        bit_set(a, 27) == bit_set(b, 27),
        bit_set(a, 28) == bit_set(b, 28),
        bit_set(a, 29) == bit_set(b, 29),
        bit_set(a, 30) == bit_set(b, 30),
        bit_set(a, 31) == bit_set(b, 31),
        bit_set(a, 32) == bit_set(b, 32),
        bit_set(a, 33) == bit_set(b, 33),
        bit_set(a, 34) == bit_set(b, 34),
        bit_set(a, 35) == bit_set(b, 35),
        bit_set(a, 36) == bit_set(b, 36),
        bit_set(a, 37) == bit_set(b, 37),
        bit_set(a, 38) == bit_set(b, 38),
        bit_set(a, 39) == bit_set(b, 39),
        bit_set(a, 40) == bit_set(b, 40),
        bit_set(a, 41) == bit_set(b, 41),
        bit_set(a, 42) == bit_set(b, 42),
        bit_set(a, 43) == bit_set(b, 43),
        bit_set(a, 44) == bit_set(b, 44),
        bit_set(a, 45) == bit_set(b, 45),
        bit_set(a, 46) == bit_set(b, 46),
        bit_set(a, 47) == bit_set(b, 47),
        bit_set(a, 48) == bit_set(b, 48),
        bit_set(a, 49) == bit_set(b, 49),
        bit_set(a, 50) == bit_set(b, 50),
        bit_set(a, 51) == bit_set(b, 51),
        bit_set(a, 52) == bit_set(b, 52),
        bit_set(a, 53) == bit_set(b, 53),
        bit_set(a, 54) == bit_set(b, 54),
        bit_set(a, 55) == bit_set(b, 55),
        bit_set(a, 56) == bit_set(b, 56),
        bit_set(a, 57) == bit_set(b, 57),
        bit_set(a, 58) == bit_set(b, 58),
        bit_set(a, 59) == bit_set(b, 59),
        bit_set(a, 60) == bit_set(b, 60),
        bit_set(a, 61) == bit_set(b, 61),
        bit_set(a, 62) == bit_set(b, 62),
        bit_set(a, 63) == bit_set(b, 63),
    ensures
        a == b,
{
    // Each group of eight bits is compared by the bit-vector solver.
    assert(a == b) by (bit_vector)
        requires
            (a >> 0u64) & 1u64 == 1u64 <==> (b >> 0u64) & 1u64 == 1u64,
            (a >> 1u64) & 1u64 == 1u64 <==> (b >> 1u64) & 1u64 == 1u64,
            (a >> 2u64) & 1u64 == 1u64 <==> (b >> 2u64) & 1u64 == 1u64,
            (a >> 3u64) & 1u64 == 1u64 <==> (b >> 3u64) & 1u64 == 1u64,
            (a >> 4u64) & 1u64 == 1u64 <==> (b >> 4u64) & 1u64 == 1u64,
            (a >> 5u64) & 1u64 == 1u64 <==> (b >> 5u64) & 1u64 == 1u64,
            (a >> 6u64) & 1u64 == 1u64 <==> (b >> 6u64) & 1u64 == 1u64,
            (a >> 7u64) & 1u64 == 1u64 <==> (b >> 7u64) & 1u64 == 1u64,
            (a >> 8u64) & 1u64 == 1u64 <==> (b >> 8u64) & 1u64 == 1u64,
            (a >> 9u64) & 1u64 == 1u64 <==> (b >> 9u64) & 1u64 == 1u64,
            (a >> 10u64) & 1u64 == 1u64 <==> (b >> 10u64) & 1u64 == 1u64,
            (a >> 11u64) & 1u64 == 1u64 <==> (b >> 11u64) & 1u64 == 1u64,
            (a >> 12u64) & 1u64 == 1u64 <==> (b >> 12u64) & 1u64 == 1u64,
            (a >> 13u64) & 1u64 == 1u64 <==> (b >> 13u64) & 1u64 == 1u64,
            (a >> 14u64) & 1u64 == 1u64 <==> (b >> 14u64) & 1u64 == 1u64,
            (a >> 15u64) & 1u64 == 1u64 <==> (b >> 15u64) & 1u64 == 1u64,
            (a >> 16u64) & 1u64 == 1u64 <==> (b >> 16u64) & 1u64 == 1u64,
            (a >> 17u64) & 1u64 == 1u64 <==> (b >> 17u64) & 1u64 == 1u64,
            (a >> 18u64) & 1u64 == 1u64 <==> (b >> 18u64) & 1u64 == 1u64,
            (a >> 19u64) & 1u64 == 1u64 <==> (b >> 19u64) & 1u64 == 1u64,
            (a >> 20u64) & 1u64 == 1u64 <==> (b >> 20u64) & 1u64 == 1u64,
            (a >> 21u64) & 1u64 == 1u64 <==> (b >> 21u64) & 1u64 == 1u64,
            (a >> 22u64) & 1u64 == 1u64 <==> (b >> 22u64) & 1u64 == 1u64,
            (a >> 23u64) & 1u64 == 1u64 <==> (b >> 23u64) & 1u64 == 1u64,
            (a >> 24u64) & 1u64 == 1u64 <==> (b >> 24u64) & 1u64 == 1u64,
            (a >> 25u64) & 1u64 == 1u64 <==> (b >> 25u64) & 1u64 == 1u64,
            (a >> 26u64) & 1u64 == 1u64 <==> (b >> 26u64) & 1u64 == 1u64,
            (a >> 27u64) & 1u64 == 1u64 <==> (b >> 27u64) & 1u64 == 1u64,
            (a >> 28u64) & 1u64 == 1u64 <==> (b >> 28u64) & 1u64 == 1u64,
            (a >> 29u64) & 1u64 == 1u64 <==> (b >> 29u64) & 1u64 == 1u64,
            (a >> 30u64) & 1u64 == 1u64 <==> (b >> 30u64) & 1u64 == 1u64,
            (a >> 31u64) & 1u64 == 1u64 <==> (b >> 31u64) & 1u64 == 1u64,
            (a >> 32u64) & 1u64 == 1u64 <==> (b >> 32u64) & 1u64 == 1u64,
            (a >> 33u64) & 1u64 == 1u64 <==> (b >> 33u64) & 1u64 == 1u64,
            (a >> 34u64) & 1u64 == 1u64 <==> (b >> 34u64) & 1u64 == 1u64,
            (a >> 35u64) & 1u64 == 1u64 <==> (b >> 35u64) & 1u64 == 1u64,
            (a >> 36u64) & 1u64 == 1u64 <==> (b >> 36u64) & 1u64 == 1u64,
            (a >> 37u64) & 1u64 == 1u64 <==> (b >> 37u64) & 1u64 == 1u64,
            (a >> 38u64) & 1u64 == 1u64 <==> (b >> 38u64) & 1u64 == 1u64,
            (a >> 39u64) & 1u64 == 1u64 <==> (b >> 39u64) & 1u64 == 1u64,
            (a >> 40u64) & 1u64 == 1u64 <==> (b >> 40u64) & 1u64 == 1u64,
            (a >> 41u64) & 1u64 == 1u64 <==> (b >> 41u64) & 1u64 == 1u64,
            (a >> 42u64) & 1u64 == 1u64 <==> (b >> 42u64) & 1u64 == 1u64,
            (a >> 43u64) & 1u64 == 1u64 <==> (b >> 43u64) & 1u64 == 1u64,
            (a >> 44u64) & 1u64 == 1u64 <==> (b >> 44u64) & 1u64 == 1u64,
            (a >> 45u64) & 1u64 == 1u64 <==> (b >> 45u64) & 1u64 == 1u64,
            (a >> 46u64) & 1u64 == 1u64 <==> (b >> 46u64) & 1u64 == 1u64,
            (a >> 47u64) & 1u64 == 1u64 <==> (b >> 47u64) & 1u64 == 1u64,
            (a >> 48u64) & 1u64 == 1u64 <==> (b >> 48u64) & 1u64 == 1u64,
            (a >> 49u64) & 1u64 == 1u64 <==> (b >> 49u64) & 1u64 == 1u64,
            (a >> 50u64) & 1u64 == 1u64 <==> (b >> 50u64) & 1u64 == 1u64,
            (a >> 51u64) & 1u64 == 1u64 <==> (b >> 51u64) & 1u64 == 1u64,
            (a >> 52u64) & 1u64 == 1u64 <==> (b >> 52u64) & 1u64 == 1u64,
            (a >> 53u64) & 1u64 == 1u64 <==> (b >> 53u64) & 1u64 == 1u64,
            (a >> 54u64) & 1u64 == 1u64 <==> (b >> 54u64) & 1u64 == 1u64,
            (a >> 55u64) & 1u64 == 1u64 <==> (b >> 55u64) & 1u64 == 1u64,
            (a >> 56u64) & 1u64 == 1u64 <==> (b >> 56u64) & 1u64 == 1u64,
            (a >> 57u64) & 1u64 == 1u64 <==> (b >> 57u64) & 1u64 == 1u64,
            (a >> 58u64) & 1u64 == 1u64 <==> (b >> 58u64) & 1u64 == 1u64,
            (a >> 59u64) & 1u64 == 1u64 <==> (b >> 59u64) & 1u64 == 1u64,
            (a >> 60u64) & 1u64 == 1u64 <==> (b >> 60u64) & 1u64 == 1u64,
            (a >> 61u64) & 1u64 == 1u64 <==> (b >> 61u64) & 1u64 == 1u64,
            (a >> 62u64) & 1u64 == 1u64 <==> (b >> 62u64) & 1u64 == 1u64,
            (a >> 63u64) & 1u64 == 1u64 <==> (b >> 63u64) & 1u64 == 1u64,
    ;
}


/// Number of set bits of `x`.
pub open spec fn popcount(x: u64) -> nat
    decreases x,
{
    if x == 0 {
        0
    } else {
        (x % 2) as nat + popcount(x / 2)
    }
}

/// Facts about shifting a word one bit further.
pub proof fn lemma_shift_step(x: u64, i: u64)
    requires
        i < 64,
    ensures
        (x >> i) / 2 == x >> ((i + 1) as u64),
        (x >> i) & 1 == (x >> i) % 2,
        i == 63 ==> x >> ((i + 1) as u64) == 0,
{
    assert((x >> i) / 2 == x >> ((i + 1) as u64) && (x >> i) & 1 == (x >> i) % 2 && (i == 63
        ==> x >> ((i + 1) as u64) == 0)) by (bit_vector)
        requires
            i < 64,
    ;
}

/// Clearing the lowest set bit lowers the count by one.
pub proof fn lemma_popcount_clear_lowest(x: u64)
    requires
        x != 0,
    ensures
        popcount(x & ((x - 1) as u64)) + 1 == popcount(x),
    decreases x,
{
    let y = x & ((x - 1) as u64);
    if x % 2 == 1 {
        assert(x % 2 == 1 ==> (x & (x - 1) as u64) / 2 == x / 2 && (x & (x - 1) as u64) % 2 == 0)
            by (bit_vector);
        if y != 0 {
            assert(popcount(y) == (y % 2) as nat + popcount(y / 2));
        }
        if x / 2 == 0 {
            assert(y / 2 == 0);
        }
    } else {
        assert(x != 0 && x % 2 == 0 ==> (x & (x - 1) as u64) / 2 == (x / 2) & ((x / 2) - 1) as u64 && (x
            & (x - 1) as u64) % 2 == 0 && x / 2 != 0) by (bit_vector);
        lemma_popcount_clear_lowest(x / 2);
        assert(popcount(y) == (y % 2) as nat + popcount(y / 2));
    }
}

/// The lowest set bit of a non-zero word: where it is, and what clearing it does.
pub proof fn lemma_lowest_bit(x: u64)
    requires
        x != 0,
    ensures
        u64_trailing_zeros(x) < 64,
        bit_set(x, u64_trailing_zeros(x) as u64),
        forall|j: u64| j < u64_trailing_zeros(x) ==> !bit_set(x, j),
        x ^ single(u64_trailing_zeros(x) as u64) == x & ((x - 1) as u64),
{
    axiom_u64_trailing_zeros(x);
    let t = u64_trailing_zeros(x) as u64;
    assert forall|j: u64| j < u64_trailing_zeros(x) implies !bit_set(x, j) by {
        assert((x >> j) & 1u64 == 0u64);
    }
    let s = (64 - t) as u64;
    assert(x << s == 0);
    assert(x ^ (1u64 << t) == x & ((x - 1) as u64)) by (bit_vector)
        requires
            t < 64,
            x != 0,
            s == (64 - t) as u64,
            (x >> t) & 1u64 == 1u64,
            x << s == 0,
    ;
}

/// The highest set bit of a non-zero word: where it is.
pub proof fn lemma_highest_bit(x: u64)
    requires
        x != 0,
    ensures
        0 <= 63 - u64_leading_zeros(x) < 64,
        bit_set(x, (63 - u64_leading_zeros(x)) as u64),
        forall|j: u64| 63 - u64_leading_zeros(x) < j < 64 ==> !bit_set(x, j),
{
    axiom_u64_leading_zeros(x);
    let l = (63 - u64_leading_zeros(x)) as u64;
    assert((x >> l) & 1u64 != 0u64);
    assert((x >> l) & 1u64 != 0u64 ==> (x >> l) & 1u64 == 1u64) by (bit_vector);
    assert forall|j: u64| 63 - u64_leading_zeros(x) < j < 64 implies !bit_set(x, j) by {
        assert((x >> j) & 1u64 == 0u64);
    }
}

pub proof fn lemma_popcount_bound(x: u64)
    ensures
        popcount(x) <= 64,
{
    lemma_popcount_bound_shift(x, 0);
    assert(x >> 0u64 == x) by (bit_vector);
}

proof fn lemma_popcount_bound_shift(x: u64, i: u64)
    requires
        i <= 64,
    ensures
        popcount(x >> i) <= 64 - i,
    decreases 64 - i,
{
    if i == 64 {
        assert(x >> 64u64 == 0) by (bit_vector);
    } else {
        lemma_shift_step(x, i);
        lemma_popcount_bound_shift(x, (i + 1) as u64);
        let y = x >> i;
        if y != 0 {
            assert(popcount(y) == (y % 2) as nat + popcount(y / 2));
        }
    }
}

/// The algebra of exclusive or.
pub proof fn lemma_xor_facts(a: u64, b: u64, c: u64)
    ensures
        (a ^ b) ^ c == a ^ (b ^ c),
        a ^ b == b ^ a,
        a ^ 0 == a,
        a ^ a == 0,
{
    assert((a ^ b) ^ c == a ^ (b ^ c) && a ^ b == b ^ a && a ^ 0 == a && a ^ a == 0) by (bit_vector);
}

/// Changing one term of a chain of six exclusive ors by `k` changes the result by `k`.
pub proof fn lemma_xor_chain(t0: u64, t1: u64, t2: u64, t3: u64, t4: u64, t5: u64, k: u64)
    ensures
        ((((((t0 ^ k) ^ t1) ^ t2) ^ t3) ^ t4) ^ t5) == (((((t0 ^ t1) ^ t2) ^ t3) ^ t4) ^ t5) ^ k,
        ((((t0 ^ (t1 ^ k)) ^ t2) ^ t3) ^ t4) ^ t5 == (((((t0 ^ t1) ^ t2) ^ t3) ^ t4) ^ t5) ^ k,
        ((((t0 ^ t1) ^ (t2 ^ k)) ^ t3) ^ t4) ^ t5 == (((((t0 ^ t1) ^ t2) ^ t3) ^ t4) ^ t5) ^ k,
        ((((t0 ^ t1) ^ t2) ^ (t3 ^ k)) ^ t4) ^ t5 == (((((t0 ^ t1) ^ t2) ^ t3) ^ t4) ^ t5) ^ k,
        ((((t0 ^ t1) ^ t2) ^ t3) ^ (t4 ^ k)) ^ t5 == (((((t0 ^ t1) ^ t2) ^ t3) ^ t4) ^ t5) ^ k,
        ((((t0 ^ t1) ^ t2) ^ t3) ^ t4) ^ (t5 ^ k) == (((((t0 ^ t1) ^ t2) ^ t3) ^ t4) ^ t5) ^ k,
{
    assert(((((((t0 ^ k) ^ t1) ^ t2) ^ t3) ^ t4) ^ t5) == (((((t0 ^ t1) ^ t2) ^ t3) ^ t4) ^ t5) ^ k
        && ((((t0 ^ (t1 ^ k)) ^ t2) ^ t3) ^ t4) ^ t5 == (((((t0 ^ t1) ^ t2) ^ t3) ^ t4) ^ t5) ^ k
        && ((((t0 ^ t1) ^ (t2 ^ k)) ^ t3) ^ t4) ^ t5 == (((((t0 ^ t1) ^ t2) ^ t3) ^ t4) ^ t5) ^ k
        && ((((t0 ^ t1) ^ t2) ^ (t3 ^ k)) ^ t4) ^ t5 == (((((t0 ^ t1) ^ t2) ^ t3) ^ t4) ^ t5) ^ k
        && ((((t0 ^ t1) ^ t2) ^ t3) ^ (t4 ^ k)) ^ t5 == (((((t0 ^ t1) ^ t2) ^ t3) ^ t4) ^ t5) ^ k
        && ((((t0 ^ t1) ^ t2) ^ t3) ^ t4) ^ (t5 ^ k) == (((((t0 ^ t1) ^ t2) ^ t3) ^ t4) ^ t5) ^ k)
        by (bit_vector);
}

/// Moving the same key into both sides of a difference leaves the difference unchanged.
pub proof fn lemma_xor_drift(h: u64, p: u64, s: u64, k: u64)
    ensures
        (h ^ k) ^ (p ^ (s ^ k)) == h ^ (p ^ s),
        (h ^ k) ^ (p ^ k) == h ^ p,
        h ^ p == 0 <==> h == p,
{
    assert((h ^ k) ^ (p ^ (s ^ k)) == h ^ (p ^ s) && (h ^ k) ^ (p ^ k) == h ^ p && (h ^ p == 0
        <==> h == p)) by (bit_vector);
}

/// The word holding the squares below `n` that satisfy `pred`.
pub open spec fn bits_below(pred: spec_fn(int) -> bool, n: nat) -> u64
    decreases n,
{
    if n == 0 {
        0
    } else {
        bits_below(pred, (n - 1) as nat) | (if pred(n - 1) { single((n - 1) as u64) } else { 0 })
    }
}

/// The word whose set bits are exactly the squares (0 to 63) that satisfy `pred`.
pub open spec fn bits_where(pred: spec_fn(int) -> bool) -> u64 {
    bits_below(pred, 64)
}

proof fn lemma_bits_below(pred: spec_fn(int) -> bool, n: nat, i: u64)
    requires
        n <= 64,
        i < 64,
    ensures
        bit_set(bits_below(pred, n), i) == (i < n && pred(i as int)),
    decreases n,
{
    if n == 0 {
        lemma_bit_zero(i);
    } else {
        let j = (n - 1) as u64;
        lemma_bits_below(pred, (n - 1) as nat, i);
        let t = if pred(n - 1) { single(j) } else { 0 };
        lemma_bit_or(bits_below(pred, (n - 1) as nat), t, i);
        lemma_bit_single(j, i);
        lemma_bit_zero(i);
    }
}

/// A word whose bits follow `pred` is `bits_where(pred)`.
pub proof fn lemma_bits_where(x: u64, pred: spec_fn(int) -> bool)
    requires
        forall|i: u64| i < 64 ==> (#[trigger] bit_set(x, i) == pred(i as int)),
    ensures
        bits_where(pred) == x,
{
    let y = bits_where(pred);
    assert forall|i: u64| i < 64 implies bit_set(y, i) == bit_set(x, i) by {
        lemma_bits_below(pred, 64, i);
    }
    lemma_bits_ext(y, x);
}

/// The bits of `bits_where(pred)` follow `pred`.
pub proof fn lemma_bits_where_has(pred: spec_fn(int) -> bool, i: u64)
    requires
        i < 64,
    ensures
        bit_set(bits_where(pred), i) == pred(i as int),
{
    lemma_bits_below(pred, 64, i);
}

/// Number of set bits of a one-bit word.
pub proof fn lemma_popcount_single(i: u64)
    requires
        i < 64,
    ensures
        popcount(single(i)) == 1,
    decreases i,
{
    let x = single(i);
    if i == 0 {
        assert(single(0) == 1u64) by (bit_vector);
        assert(popcount(1) == 1 + popcount(0));
    } else {
        assert(i < 64 && i > 0 ==> (1u64 << i) / 2 == 1u64 << ((i - 1) as u64) && (1u64 << i) % 2 == 0
            && (1u64 << i) != 0) by (bit_vector);
        lemma_popcount_single((i - 1) as u64);
    }
}

/// Flipping one bit changes the number of set bits by one.
pub proof fn lemma_popcount_flip(x: u64, i: u64)
    requires
        i < 64,
    ensures
        popcount(x ^ single(i)) as int == if bit_set(x, i) { popcount(x) - 1 } else { popcount(x) + 1int },
    decreases i,
{
    let y = x ^ single(i);
    assert(i < 64 ==> ((i == 0 ==> ((x ^ (1u64 << i)) / 2 == x / 2 && (x
        ^ (1u64 << i)) % 2 == 1 - x % 2 && (((x >> i) & 1u64 == 1u64) == (x % 2 == 1)))) && (i > 0
        ==> ((x ^ (1u64 << i)) / 2 == (x / 2) ^ (1u64 << ((i - 1) as u64)) && (x ^ (1u64 << i)) % 2
        == x % 2 && (((x >> i) & 1u64 == 1u64) == (((x / 2) >> ((i - 1) as u64)) & 1u64 == 1u64)))))) by (bit_vector);
    assert(popcount(y) == (y % 2) as nat + popcount(y / 2));
    if x != 0 {
        assert(popcount(x) == (x % 2) as nat + popcount(x / 2));
    }
    if i > 0 {
        lemma_popcount_flip(x / 2, (i - 1) as u64);
    }
}

/// Only the empty word has no set bit.
pub proof fn lemma_popcount_zero(y: u64)
    requires
        popcount(y) == 0,
    ensures
        y == 0,
    decreases y,
{
    if y != 0 {
        assert(popcount(y) == (y % 2) as nat + popcount(y / 2));
        if y % 2 == 0 {
            lemma_popcount_zero(y / 2);
            assert(y / 2 == 0 && y % 2 == 0 ==> y == 0) by (bit_vector);
        }
    }
}

/// A word with one set bit is that bit.
pub proof fn lemma_popcount_one(x: u64)
    requires
        popcount(x) == 1,
    ensures
        u64_trailing_zeros(x) < 64,
        x == single(u64_trailing_zeros(x) as u64),
{
    assert(x != 0) by {
        if x == 0 {
            assert(popcount(0) == 0);
        }
    }
    lemma_lowest_bit(x);
    lemma_popcount_clear_lowest(x);
    lemma_popcount_zero(x & ((x - 1) as u64));
    let t = single(u64_trailing_zeros(x) as u64);
    assert(x ^ t == 0);
    lemma_xor_facts(x, t, t);
    lemma_xor_facts(t, 0, 0);
    lemma_xor_facts(x, 0, 0);
    lemma_xor_facts(0, t, 0);
    assert(x == (x ^ t) ^ t);
}

} // verus!
