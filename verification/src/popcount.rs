//! Counting set bits and agreeing bits of 16- and 32-bit words.
use vstd::prelude::*;

verus! {

/// Whether bit `i` of `x` is set.
pub open spec fn bit16(x: u16, i: nat) -> bool {
    (x >> (i as u16)) & 1u16 == 1u16
}

/// Whether bit `i` of `x` is set.
pub open spec fn bit32(x: u32, i: nat) -> bool {
    (x >> (i as u32)) & 1u32 == 1u32
}

/// The number of set bits among the `n` lowest bits of `x`.
pub open spec fn ones16(x: u16, n: nat) -> nat
    decreases n,
{
    if n == 0 {
        0
    } else {
        ones16(x, (n - 1) as nat) + if bit16(x, (n - 1) as nat) { 1nat } else { 0nat }
    }
}

/// The number of set bits among the `n` lowest bits of `x`.
pub open spec fn ones32(x: u32, n: nat) -> nat
    decreases n,
{
    if n == 0 {
        0
    } else {
        ones32(x, (n - 1) as nat) + if bit32(x, (n - 1) as nat) { 1nat } else { 0nat }
    }
}

/// The number of positions among the `n` lowest on which `a` and `b` carry the same bit.
pub open spec fn agreement16(a: u16, b: u16, n: nat) -> nat
    decreases n,
{
    if n == 0 {
        0
    } else {
        agreement16(a, b, (n - 1) as nat) + if bit16(a, (n - 1) as nat) == bit16(b, (n - 1) as nat) {
            1nat
        } else {
            0nat
        }
    }
}

/// The number of positions among the `n` lowest on which `a` and `b` carry the same bit.
pub open spec fn agreement32(a: u32, b: u32, n: nat) -> nat
    decreases n,
{
    if n == 0 {
        0
    } else {
        agreement32(a, b, (n - 1) as nat) + if bit32(a, (n - 1) as nat) == bit32(b, (n - 1) as nat) {
            1nat
        } else {
            0nat
        }
    }
}

/// The number of ones in the binary representation of `x`.
pub(crate) fn count_ones16(x: u16) -> (r: u32)
    ensures
        r == ones16(x, 16),
        r <= 16,
{
    let mut count: u32 = 0;
    let mut i: u16 = 0;
    while i < 16
        invariant
            i <= 16,
            count == ones16(x, i as nat),
            count <= i,
        decreases 16 - i,
    {
        if (x >> i) & 1 == 1 {
            count += 1;
        }
        i += 1;
    }
    count
}

/// The number of ones in the binary representation of `x`.
pub(crate) fn count_ones32(x: u32) -> (r: u32)
    ensures
        r == ones32(x, 32),
        r <= 32,
{
    let mut count: u32 = 0;
    let mut i: u32 = 0;
    while i < 32
        invariant
            i <= 32,
            count == ones32(x, i as nat),
            count <= i,
        decreases 32 - i,
    {
        if (x >> i) & 1 == 1 {
            count += 1;
        }
        i += 1;
    }
    count
}

/// Whether the `n` lowest bits of `x` are all clear.
pub open spec fn low_clear16(x: u16, n: u32) -> bool {
    (x as u32) & (((1u32 << n) - 1) as u32) == 0
}

/// Whether the `n` lowest bits of `x` are all clear.
pub open spec fn low_clear32(x: u32, n: u64) -> bool {
    (x as u64) & (((1u64 << n) - 1) as u64) == 0
}

/// No bit is counted exactly when the counted bits are all clear; no bit of all 16
/// is set exactly when the word is zero.
pub proof fn lemma_ones16_zero(x: u16, n: nat)
    requires
        n <= 16,
    ensures
        (ones16(x, n) == 0) == low_clear16(x, n as u32),
        n == 16 ==> ((ones16(x, n) == 0) == (x == 0)),
    decreases n,
{
    if n == 0 {
        assert(low_clear16(x, 0)) by (bit_vector);
    } else {
        lemma_ones16_zero(x, (n - 1) as nat);
        let k = (n - 1) as u32;
        let k1 = n as u32;
        let ks = (n - 1) as u16;
        assert(low_clear16(x, k1) == (low_clear16(x, k) && (x >> ks) & 1u16 != 1u16)) by (bit_vector)
            requires
                k < 16u32,
                k1 == k + 1,
                ks == k,
        ;
    }
    if n == 16 {
        assert(low_clear16(x, 16) == (x == 0)) by (bit_vector);
    }
}

/// No bit is counted exactly when the counted bits are all clear; no bit of all 32
/// is set exactly when the word is zero.
pub proof fn lemma_ones32_zero(x: u32, n: nat)
    requires
        n <= 32,
    ensures
        (ones32(x, n) == 0) == low_clear32(x, n as u64),
        n == 32 ==> ((ones32(x, n) == 0) == (x == 0)),
    decreases n,
{
    if n == 0 {
        assert(low_clear32(x, 0)) by (bit_vector);
    } else {
        lemma_ones32_zero(x, (n - 1) as nat);
        let k = (n - 1) as u64;
        let k1 = n as u64;
        let ks = (n - 1) as u32;
        assert(low_clear32(x, k1) == (low_clear32(x, k) && (x >> ks) & 1u32 != 1u32)) by (bit_vector)
            requires
                k < 32u64,
                k1 == k + 1,
                ks == k,
        ;
    }
    if n == 32 {
        assert(low_clear32(x, 32) == (x == 0)) by (bit_vector);
    }
}

/// The positions where `a` and `b` differ, counted by `a ^ b`, and those where they
/// agree make up all `n` positions.
pub proof fn lemma_xor_ones16(a: u16, b: u16, n: nat)
    requires
        n <= 16,
    ensures
        ones16(a ^ b, n) + agreement16(a, b, n) == n,
    decreases n,
{
    if n > 0 {
        lemma_xor_ones16(a, b, (n - 1) as nat);
        let i = (n - 1) as u16;
        assert((((a ^ b) >> i) & 1u16 == 1u16) == (((a >> i) & 1u16 == 1u16) != ((b >> i) & 1u16 == 1u16)))
            by (bit_vector)
            requires
                i < 16,
        ;
    }
}

/// The positions where `a` and `b` differ, counted by `a ^ b`, and those where they
/// agree make up all `n` positions.
pub proof fn lemma_xor_ones32(a: u32, b: u32, n: nat)
    requires
        n <= 32,
    ensures
        ones32(a ^ b, n) + agreement32(a, b, n) == n,
    decreases n,
{
    if n > 0 {
        lemma_xor_ones32(a, b, (n - 1) as nat);
        let i = (n - 1) as u32;
        assert((((a ^ b) >> i) & 1u32 == 1u32) == (((a >> i) & 1u32 == 1u32) != ((b >> i) & 1u32 == 1u32)))
            by (bit_vector)
            requires
                i < 32,
        ;
    }
}

/// Two words agree on all 16 bits exactly when they are equal, and their agreement is
/// 16 less the number of bits set in their XOR.
pub proof fn lemma_agreement16_full(a: u16, b: u16)
    ensures
        agreement16(a, b, 16) == 16 - ones16(a ^ b, 16),
        (agreement16(a, b, 16) == 16) == (a == b),
{
    lemma_xor_ones16(a, b, 16);
    lemma_ones16_zero(a ^ b, 16);
    assert((a ^ b == 0) == (a == b)) by (bit_vector);
}

/// Two words agree on all 32 bits exactly when they are equal, and their agreement is
/// 32 less the number of bits set in their XOR.
pub proof fn lemma_agreement32_full(a: u32, b: u32)
    ensures
        agreement32(a, b, 32) == 32 - ones32(a ^ b, 32),
        (agreement32(a, b, 32) == 32) == (a == b),
{
    lemma_xor_ones32(a, b, 32);
    lemma_ones32_zero(a ^ b, 32);
    assert((a ^ b == 0) == (a == b)) by (bit_vector);
}

proof fn lemma_xnor_bit16(a: u16, b: u16, i: u16)
    requires
        i < 16,
    ensures
        ((!(a ^ b)) >> i) & 1u16 == 1u16 <==> ((a >> i) & 1u16 == 1u16) == ((b >> i) & 1u16 == 1u16),
{
    assert(((!(a ^ b)) >> i) & 1u16 == 1u16 <==> ((a >> i) & 1u16 == 1u16) == ((b >> i) & 1u16 == 1u16))
        by (bit_vector)
        requires
            i < 16,
    ;
}

proof fn lemma_xnor_bit32(a: u32, b: u32, i: u32)
    requires
        i < 32,
    ensures
        ((!(a ^ b)) >> i) & 1u32 == 1u32 <==> ((a >> i) & 1u32 == 1u32) == ((b >> i) & 1u32 == 1u32),
{
    assert(((!(a ^ b)) >> i) & 1u32 == 1u32 <==> ((a >> i) & 1u32 == 1u32) == ((b >> i) & 1u32 == 1u32))
        by (bit_vector)
        requires
            i < 32,
    ;
}

/// The set bits of the complement of `a ^ b` are the positions where `a` and `b` agree.
pub proof fn lemma_xnor_ones16(a: u16, b: u16, n: nat)
    requires
        n <= 16,
    ensures
        ones16(!(a ^ b), n) == agreement16(a, b, n),
        agreement16(a, b, n) <= n,
    decreases n,
{
    if n > 0 {
        lemma_xnor_ones16(a, b, (n - 1) as nat);
        lemma_xnor_bit16(a, b, (n - 1) as u16);
    }
}

/// The set bits of the complement of `a ^ b` are the positions where `a` and `b` agree.
pub proof fn lemma_xnor_ones32(a: u32, b: u32, n: nat)
    requires
        n <= 32,
    ensures
        ones32(!(a ^ b), n) == agreement32(a, b, n),
        agreement32(a, b, n) <= n,
    decreases n,
{
    if n > 0 {
        lemma_xnor_ones32(a, b, (n - 1) as nat);
        lemma_xnor_bit32(a, b, (n - 1) as u32);
    }
}

/// Agreement is symmetric, a word agrees with itself everywhere and with its
/// complement nowhere.
pub proof fn lemma_agreement16_laws(a: u16, b: u16, n: nat)
    requires
        n <= 16,
    ensures
        agreement16(a, b, n) == agreement16(b, a, n),
        agreement16(a, a, n) == n,
        agreement16(a, !a, n) == 0,
    decreases n,
{
    if n > 0 {
        lemma_agreement16_laws(a, b, (n - 1) as nat);
        let i = (n - 1) as u16;
        assert(((!a) >> i) & 1u16 == 1u16 <==> !((a >> i) & 1u16 == 1u16)) by (bit_vector)
            requires
                i < 16,
        ;
    }
}

/// Agreement is symmetric, a word agrees with itself everywhere and with its
/// complement nowhere.
pub proof fn lemma_agreement32_laws(a: u32, b: u32, n: nat)
    requires
        n <= 32,
    ensures
        agreement32(a, b, n) == agreement32(b, a, n),
        agreement32(a, a, n) == n,
        agreement32(a, !a, n) == 0,
    decreases n,
{
    if n > 0 {
        lemma_agreement32_laws(a, b, (n - 1) as nat);
        let i = (n - 1) as u32;
        assert(((!a) >> i) & 1u32 == 1u32 <==> !((a >> i) & 1u32 == 1u32)) by (bit_vector)
            requires
                i < 32,
        ;
    }
}

} // verus!
