//! Single-bit facts about `u32` occupancy masks.
use vstd::prelude::*;

verus! {

/// Whether bit `i` of `m` is set.
pub open spec fn has_bit(m: u32, i: u32) -> bool {
    (m >> i) & 1u32 == 1u32
}

pub proof fn lemma_or_single(a: u32, k: u32, i: u32)
    requires
        k < 32,
        i < 32,
    ensures
        has_bit(a | (1u32 << k), i) == (has_bit(a, i) || i == k),
{
    assert(((a | (1u32 << k)) >> i) & 1u32 == 1u32 <==> (((a >> i) & 1u32 == 1u32) || i == k))
        by (bit_vector)
        requires
            k < 32,
            i < 32,
    ;
}

pub proof fn lemma_and_not_single(a: u32, k: u32, i: u32)
    requires
        k < 32,
        i < 32,
    ensures
        has_bit(a & !(1u32 << k), i) == (has_bit(a, i) && i != k),
{
    assert(((a & !(1u32 << k)) >> i) & 1u32 == 1u32 <==> (((a >> i) & 1u32 == 1u32) && i != k))
        by (bit_vector)
        requires
            k < 32,
            i < 32,
    ;
}

pub proof fn lemma_or(a: u32, b: u32, i: u32)
    requires
        i < 32,
    ensures
        has_bit(a | b, i) == (has_bit(a, i) || has_bit(b, i)),
{
    assert(((a | b) >> i) & 1u32 == 1u32 <==> (((a >> i) & 1u32 == 1u32) || ((b >> i) & 1u32
        == 1u32))) by (bit_vector)
        requires
            i < 32,
    ;
}

pub proof fn lemma_zero(i: u32)
    requires
        i < 32,
    ensures
        !has_bit(0u32, i),
{
    assert(!((0u32 >> i) & 1u32 == 1u32)) by (bit_vector);
}

pub proof fn lemma_test_single(a: u32, k: u32)
    requires
        k < 32,
    ensures
        ((a & (1u32 << k)) != 0u32) == has_bit(a, k),
{
    assert(((a & (1u32 << k)) != 0u32) <==> ((a >> k) & 1u32 == 1u32)) by (bit_vector)
        requires
            k < 32,
    ;
}

/// Two masks that agree on every bit are equal.
pub proof fn lemma_ext(a: u32, b: u32)
    requires
        forall|i: u32| i < 32 ==> has_bit(a, i) == has_bit(b, i),
    ensures
        a == b,
{
    assert(has_bit(a, 0) == has_bit(b, 0));
    assert(has_bit(a, 1) == has_bit(b, 1));
    assert(has_bit(a, 2) == has_bit(b, 2));
    assert(has_bit(a, 3) == has_bit(b, 3));
    assert(has_bit(a, 4) == has_bit(b, 4));
    assert(has_bit(a, 5) == has_bit(b, 5));
    assert(has_bit(a, 6) == has_bit(b, 6));
    assert(has_bit(a, 7) == has_bit(b, 7));
    assert(has_bit(a, 8) == has_bit(b, 8));
    assert(has_bit(a, 9) == has_bit(b, 9));
    assert(has_bit(a, 10) == has_bit(b, 10));
    assert(has_bit(a, 11) == has_bit(b, 11));
    assert(has_bit(a, 12) == has_bit(b, 12));
    assert(has_bit(a, 13) == has_bit(b, 13));
    assert(has_bit(a, 14) == has_bit(b, 14));
    assert(has_bit(a, 15) == has_bit(b, 15));
    assert(has_bit(a, 16) == has_bit(b, 16));
    assert(has_bit(a, 17) == has_bit(b, 17));
    assert(has_bit(a, 18) == has_bit(b, 18));
    assert(has_bit(a, 19) == has_bit(b, 19));
    assert(has_bit(a, 20) == has_bit(b, 20));
    assert(has_bit(a, 21) == has_bit(b, 21));
    assert(has_bit(a, 22) == has_bit(b, 22));
    assert(has_bit(a, 23) == has_bit(b, 23));
    assert(has_bit(a, 24) == has_bit(b, 24));
    assert(has_bit(a, 25) == has_bit(b, 25));
    assert(has_bit(a, 26) == has_bit(b, 26));
    assert(has_bit(a, 27) == has_bit(b, 27));
    assert(has_bit(a, 28) == has_bit(b, 28));
    assert(has_bit(a, 29) == has_bit(b, 29));
    assert(has_bit(a, 30) == has_bit(b, 30));
    assert(has_bit(a, 31) == has_bit(b, 31));
    lemma_ext_bits(a, b);
}

proof fn lemma_ext_bits(a: u32, b: u32)
    by (bit_vector)
    requires
        (a >> 0u32) & 1u32 == 1u32 <==> (b >> 0u32) & 1u32 == 1u32,
        (a >> 1u32) & 1u32 == 1u32 <==> (b >> 1u32) & 1u32 == 1u32,
        (a >> 2u32) & 1u32 == 1u32 <==> (b >> 2u32) & 1u32 == 1u32,
        (a >> 3u32) & 1u32 == 1u32 <==> (b >> 3u32) & 1u32 == 1u32,
        (a >> 4u32) & 1u32 == 1u32 <==> (b >> 4u32) & 1u32 == 1u32,
        (a >> 5u32) & 1u32 == 1u32 <==> (b >> 5u32) & 1u32 == 1u32,
        (a >> 6u32) & 1u32 == 1u32 <==> (b >> 6u32) & 1u32 == 1u32,
        (a >> 7u32) & 1u32 == 1u32 <==> (b >> 7u32) & 1u32 == 1u32,
        (a >> 8u32) & 1u32 == 1u32 <==> (b >> 8u32) & 1u32 == 1u32,
        (a >> 9u32) & 1u32 == 1u32 <==> (b >> 9u32) & 1u32 == 1u32,
        (a >> 10u32) & 1u32 == 1u32 <==> (b >> 10u32) & 1u32 == 1u32,
        (a >> 11u32) & 1u32 == 1u32 <==> (b >> 11u32) & 1u32 == 1u32,
        (a >> 12u32) & 1u32 == 1u32 <==> (b >> 12u32) & 1u32 == 1u32,
        (a >> 13u32) & 1u32 == 1u32 <==> (b >> 13u32) & 1u32 == 1u32,
        (a >> 14u32) & 1u32 == 1u32 <==> (b >> 14u32) & 1u32 == 1u32,
        (a >> 15u32) & 1u32 == 1u32 <==> (b >> 15u32) & 1u32 == 1u32,
        (a >> 16u32) & 1u32 == 1u32 <==> (b >> 16u32) & 1u32 == 1u32,
        (a >> 17u32) & 1u32 == 1u32 <==> (b >> 17u32) & 1u32 == 1u32,
        (a >> 18u32) & 1u32 == 1u32 <==> (b >> 18u32) & 1u32 == 1u32,
        (a >> 19u32) & 1u32 == 1u32 <==> (b >> 19u32) & 1u32 == 1u32,
        (a >> 20u32) & 1u32 == 1u32 <==> (b >> 20u32) & 1u32 == 1u32,
        (a >> 21u32) & 1u32 == 1u32 <==> (b >> 21u32) & 1u32 == 1u32,
        (a >> 22u32) & 1u32 == 1u32 <==> (b >> 22u32) & 1u32 == 1u32,
        (a >> 23u32) & 1u32 == 1u32 <==> (b >> 23u32) & 1u32 == 1u32,
        (a >> 24u32) & 1u32 == 1u32 <==> (b >> 24u32) & 1u32 == 1u32,
        (a >> 25u32) & 1u32 == 1u32 <==> (b >> 25u32) & 1u32 == 1u32,
        (a >> 26u32) & 1u32 == 1u32 <==> (b >> 26u32) & 1u32 == 1u32,
        (a >> 27u32) & 1u32 == 1u32 <==> (b >> 27u32) & 1u32 == 1u32,
        (a >> 28u32) & 1u32 == 1u32 <==> (b >> 28u32) & 1u32 == 1u32,
        (a >> 29u32) & 1u32 == 1u32 <==> (b >> 29u32) & 1u32 == 1u32,
        (a >> 30u32) & 1u32 == 1u32 <==> (b >> 30u32) & 1u32 == 1u32,
        (a >> 31u32) & 1u32 == 1u32 <==> (b >> 31u32) & 1u32 == 1u32,
    ensures
        a == b,
{
}

} // verus!
