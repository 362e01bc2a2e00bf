//! Bits of 16-bit masks and their counts.
use vstd::prelude::*;

verus! {

/// Bit `j` of `m` is set.
pub open spec fn bit16(m: u16, j: u16) -> bool {
    (m >> j) & 1u16 == 1u16
}

/// Number of set bits of `m` below position `k`.
pub open spec fn ones_below(m: u16, k: int) -> nat
    decreases k,
{
    if k <= 0 {
        0
    } else {
        ones_below(m, k - 1) + if k - 1 < 16 && bit16(m, (k - 1) as u16) {
            1nat
        } else {
            0nat
        }
    }
}

/// Calls `u16::count_ones`. Trusted: as std documents, it returns the
/// number of ones in the binary representation of `x`.
#[verifier::external_body]
pub(crate) fn count_ones_u16(x: u16) -> (r: u32)
    ensures
        r as nat == ones_below(x, 16),
{
    x.count_ones()
}

/// Calls `i16::count_ones`. Trusted: as std documents, it returns the
/// number of ones in the binary representation of `x` (two's complement,
/// the same 16 bits as `x as u16`).
#[verifier::external_body]
pub(crate) fn count_ones_i16(x: i16) -> (r: u32)
    ensures
        r as nat == ones_below(x as u16, 16),
{
    x.count_ones()
}

/// Counting set bits of masks that agree below `k` gives the same number.
pub proof fn lemma_ones_agree(a: u16, b: u16, k: int)
    requires
        0 <= k <= 16,
        forall|j: u16| j < k ==> bit16(a, j) == bit16(b, j),
    ensures
        ones_below(a, k) == ones_below(b, k),
    decreases k,
{
    if k > 0 {
        lemma_ones_agree(a, b, k - 1);
        assert(bit16(a, (k - 1) as u16) == bit16(b, (k - 1) as u16));
    }
}

/// Bits from `k` upward that are clear add nothing to the count.
pub proof fn lemma_ones_clear_above(a: u16, k: int, t: int)
    requires
        0 <= k <= t <= 16,
        forall|j: u16| k <= j < t ==> !bit16(a, j),
    ensures
        ones_below(a, t) == ones_below(a, k),
    decreases t,
{
    if t > k {
        lemma_ones_clear_above(a, k, t - 1);
        assert(!bit16(a, (t - 1) as u16));
    }
}

pub proof fn lemma_ones_le(a: u16, k: int)
    requires
        0 <= k,
    ensures
        ones_below(a, k) <= k,
    decreases k,
{
    if k > 0 {
        lemma_ones_le(a, k - 1);
    }
}

pub proof fn lemma_bit_or_shift(m: u16, k: u16, j: u16)
    requires
        k < 16,
        j < 16,
    ensures
        bit16(m | (1u16 << k), j) == (bit16(m, j) || j == k),
{
    assert(((m | (1u16 << k)) >> j) & 1u16 == 1u16 <==> (((m >> j) & 1u16 == 1u16) || j == k)) by (bit_vector)
        requires
            k < 16,
            j < 16,
    ;
}

pub proof fn lemma_bit_and(a: u16, b: u16, j: u16)
    requires
        j < 16,
    ensures
        bit16(a & b, j) == (bit16(a, j) && bit16(b, j)),
{
    assert((((a & b) >> j) & 1u16 == 1u16) <==> (((a >> j) & 1u16 == 1u16) && ((b >> j) & 1u16 == 1u16))) by (bit_vector)
        requires
            j < 16,
    ;
}

pub proof fn lemma_bit_xor(a: u16, b: u16, j: u16)
    requires
        j < 16,
    ensures
        bit16(a ^ b, j) == (bit16(a, j) != bit16(b, j)),
{
    assert((((a ^ b) >> j) & 1u16 == 1u16) <==> (((a >> j) & 1u16 == 1u16) != ((b >> j) & 1u16 == 1u16))) by (bit_vector)
        requires
            j < 16,
    ;
}

pub proof fn lemma_bit_not(a: u16, j: u16)
    requires
        j < 16,
    ensures
        bit16(!a, j) == !bit16(a, j),
{
    assert((((!a) >> j) & 1u16 == 1u16) <==> !(((a >> j) & 1u16 == 1u16))) by (bit_vector)
        requires
            j < 16,
    ;
}

pub proof fn lemma_bit_shl1(a: u16, j: u16)
    requires
        j < 16,
    ensures
        bit16(a << 1u16, j) == (j >= 1 && bit16(a, (j - 1) as u16)),
{
    if j >= 1 {
        let i = (j - 1) as u16;
        assert((((a << 1u16) >> j) & 1u16 == 1u16) <==> ((a >> i) & 1u16 == 1u16)) by (bit_vector)
            requires
                1 <= j < 16,
                i == j - 1,
        ;
    } else {
        assert(((a << 1u16) >> j) & 1u16 != 1u16) by (bit_vector)
            requires
                j == 0,
        ;
    }
}

pub proof fn lemma_bit_zero(j: u16)
    requires
        j < 16,
    ensures
        !bit16(0u16, j),
{
    assert((0u16 >> j) & 1u16 != 1u16) by (bit_vector);
}

/// Bit `j` of the 32-bit `m` is set.
pub open spec fn bit32(m: u32, j: u32) -> bool {
    (m >> j) & 1u32 == 1u32
}

/// A 16-bit mask read as 32 bits keeps its bits.
pub proof fn lemma_bit32_of_u16(m: u16, j: u16)
    requires
        j < 16,
    ensures
        bit32(m as u32, j as u32) == bit16(m, j),
        bit32(m as u32, 16) == false,
{
    assert((((m as u32) >> (j as u32)) & 1u32 == 1u32) <==> ((m >> j) & 1u16 == 1u16)) by (bit_vector)
        requires
            j < 16,
    ;
    assert(((m as u32) >> 16u32) & 1u32 != 1u32) by (bit_vector);
}

/// Testing bit `k` with a one-bit mask reads `bit16`.
pub proof fn lemma_bit_test(m: u16, k: u16)
    requires
        k < 16,
    ensures
        ((m & (1u16 << k)) != 0u16) == bit16(m, k),
{
    assert(((m & (1u16 << k)) != 0u16) == (((m >> k) & 1u16) == 1u16)) by (bit_vector)
        requires
            k < 16,
    ;
}

} // verus!
