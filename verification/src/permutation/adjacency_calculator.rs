//! Constant-time updates of Lehmer codes when one item slides left past a
//! block, from tables computed once per size.
use vstd::prelude::*;
use crate::permutation::theory::{
    fact, sum_fact, is_permutation, distinct_upto, count_in, lehmer_digit, lehmer_upto, lehmer_value,
    smaller_before, lemma_small_facts, lemma_sum_fact_monotone, lemma_fact_monotone, lemma_fact_pos, lemma_digit_bounds,
    lemma_lehmer_gap, lemma_permutation_onto, lemma_pigeonhole, lemma_count_split, lemma_count_none,
    lemma_count_witness,
};
use crate::permutation::mask_bits::{
    bit16, bit32, ones_below, count_ones_u16, count_ones_i16, lemma_ones_agree, lemma_ones_clear_above,
    lemma_ones_le, lemma_bit_or_shift, lemma_bit_and, lemma_bit_xor, lemma_bit_not, lemma_bit_shl1,
    lemma_bit_zero, lemma_bit32_of_u16,
};
use crate::permutation::constants::{FACTORIALS, lemma_factorials_table};
use crate::permutation::slide::{run_part, big_part, lemma_moved_lehmer};
use crate::permutation::permutation_label::{
    get_permutation_from_lehmer_code, get_lehmer_code_from_permutation, perm_of_code, lemma_perm_of_code,
    codes_decode,
};

verus! {

/// Bits of `m` mark exactly the positions of `p` holding a value below `item`.
pub open spec fn marks_lesser(m: u16, p: Seq<u8>, item: int) -> bool {
    forall|j: u16| j < 16 ==> (#[trigger] bit16(m, j) == ((j as int) < p.len() && (p[j as int] as int) < item))
}

/// Bits of `m` mark exactly the values occurring among the first `k` entries of `p`.
pub open spec fn marks_values(m: u16, p: Seq<u8>, k: int) -> bool {
    forall|v: u16| v < 16 ==> (#[trigger] bit16(m, v) == exists|i: int| 0 <= i < k && p[i] as int == v as int)
}

/// Sum of `(n-1-pos)!` over the set bits `pos < k` of `m`.
pub open spec fn mask_fact_sum(n: int, m: u32, k: int) -> int
    decreases k,
{
    if k <= 0 {
        0
    } else {
        mask_fact_sum(n, m, k - 1) + if k - 1 < 32 && bit32(m, (k - 1) as u32) {
            fact((n - k) as nat) as int
        } else {
            0
        }
    }
}

/// Sum of the first `k` Lehmer digits, the digit at `j` weighted by
/// `(len - 1 - e - j)!`: with `e == 0` these are the running Lehmer sums, with
/// `e == 1` the sums the digits would give one position further right.
pub open spec fn running_digit_sum(p: Seq<u8>, k: int, e: int) -> int
    decreases k,
{
    if k <= 0 {
        0
    } else {
        running_digit_sum(p, k - 1, e) + lehmer_digit(p, k - 1) * fact((p.len() - e - k) as nat)
    }
}

/// Counts of set bits below `pos` in `mask` (at most 16 positions exist).
pub fn get_bit_count_before_pos_in_mask(mask: u16, pos: u8) -> (r: u8)
    requires
        pos < 31,
    ensures
        r as nat == ones_below(mask, if pos < 16 { pos as int } else { 16 }),
{
    proof {
        assert(1i32 <= (1i32 << pos)) by (bit_vector)
            requires
                pos < 31,
        ;
    }
    let new_mask: u16 = ((1i32 << pos) - 1) as u16;
    proof {
        let k: int = if pos < 16 { pos as int } else { 16 };
        assert forall|j: u16| j < 16 implies bit16(new_mask & mask, j) == (bit16(mask, j) && (j as int) < k) by {
            lemma_bit_and(new_mask, mask, j);
            assert((((((1i32 << pos) - 1) as u16) >> j) & 1u16 == 1u16) <==> (j < pos)) by (bit_vector)
                requires
                    pos < 31,
                    j < 16,
            ;
        }
        assert forall|j: u16| k <= j < 16 implies !#[trigger] bit16(new_mask & mask, j) by {
            lemma_bit_and(new_mask, mask, j);
            assert((((((1i32 << pos) - 1) as u16) >> j) & 1u16 == 1u16) <==> (j < pos)) by (bit_vector)
                requires
                    pos < 31,
                    j < 16,
            ;
        }
        lemma_ones_clear_above(new_mask & mask, k, 16);
        assert forall|j: u16| j < k implies bit16(new_mask & mask, j) == bit16(mask, j) by {}
        lemma_ones_agree(new_mask & mask, mask, k);
        lemma_ones_le(mask, k);
    }
    count_ones_u16(new_mask & mask) as u8
}

/// A mask with the bits below `old_pos` set.
pub fn get_mask_with_bits_set_before(old_pos: i8) -> (r: i16)
    requires
        old_pos < 15,
    ensures
        0 <= r,
        forall|j: u16| j < 16 ==> (#[trigger] bit16(r as u16, j) == ((j as int) < old_pos)),
{
    if old_pos <= 0 {
        proof {
            assert forall|j: u16| j < 16 implies !#[trigger] bit16(0i16 as u16, j) by {
                lemma_bit_zero(j);
            }
        }
        return 0;
    }
    proof {
        let k = old_pos as u16;
        assert(1i16 <= (1i16 << k) && (1i16 << k) <= 16384i16) by (bit_vector)
            requires
                0 < k < 15,
        ;
        assert forall|j: u16| j < 16 implies (#[trigger] bit16((((1i16 << k) - 1) as i16) as u16, j) == ((j as int) < old_pos)) by {
            assert((((((((1i16 << k) - 1) as i16) as u16) >> j) & 1u16) == 1u16) <==> (j < k)) by (bit_vector)
                requires
                    0 < k < 15,
                    j < 16,
            ;
        }
    }
    (1 << (old_pos as u16)) - 1
}

/// Sum of `(size-1-pos)!` over the set bits `pos < size` of `mask`.
pub fn get_position_factorial_for_set_bits_in_mask(size: usize, mask: u32) -> (r: u32)
    requires
        size <= 13,
    ensures
        r as int == mask_fact_sum(size as int, mask, size as int),
{
    let mut sum: u32 = 0;
    proof {
        if size > 0 {
            lemma_sum_fact_monotone((size - 1) as nat, 12);
        }
    }
    for pos in 0..size
        invariant
            size <= 13,
            sum as int == mask_fact_sum(size as int, mask, pos as int),
            mask_fact_sum(size as int, mask, pos as int) + sum_fact_below(size as int, pos as int) <= sum_fact(12),
    {
        proof {
            assert(((1usize << pos) & (mask as usize) > 0) == bit32(mask, pos as u32)) by (bit_vector)
                requires
                    pos < 13,
            ;
            lemma_factorials_table(size - pos - 1);
            lemma_sum_fact_below_step(size as int, pos as int);
            lemma_small_facts();
        }
        if (1 << pos) & mask as usize > 0 {
            sum += FACTORIALS[size - pos - 1] as u32;
        }
    }
    sum
}

/// `(n-1-k)! + (n-2-k)! + ... + 0!`, the factorials of the positions after `k - 1`.
pub open spec fn sum_fact_below(n: int, k: int) -> int {
    if n - 1 - k >= 0 {
        sum_fact((n - 1 - k) as nat) as int
    } else {
        0
    }
}

proof fn lemma_sum_fact_below_step(n: int, k: int)
    requires
        0 <= k < n <= 13,
    ensures
        sum_fact_below(n, k) == sum_fact_below(n, k + 1) + fact((n - 1 - k) as nat),
{
    if n - 1 - k == 0 {
        assert(sum_fact(0) == 1);
        assert(fact(0) == 1);
    }
}

/// For each mask of `size` bits, the sum of the factorials of the positions
/// after its set bits.
pub fn get_mask_sum_of_bits_position_factorial(size: usize) -> (r: Vec<u32>)
    requires
        size <= 13,
    ensures
        r@.len() == vstd::arithmetic::power2::pow2(size as nat),
        forall|m: int| 0 <= m < r@.len() ==> #[trigger] r@[m] as int == mask_fact_sum(size as int, m as u32, size as int),
{
    let count = (1i32 << size) as u32;
    proof {
        assert((1i32 << size) as u32 == (1u32 << size)) by (bit_vector)
            requires
                size <= 13,
        ;
        vstd::arithmetic::power2::lemma2_to64();
        vstd::arithmetic::power2::lemma_pow2_strictly_increases(size as nat, 14);
        vstd::bits::lemma_u32_shl_is_mul(1u32, size as u32);
    }
    let mut r: Vec<u32> = vec![];
    for mask in 0..count
        invariant
            size <= 13,
            r@.len() == mask,
            forall|m: int| 0 <= m < mask ==> #[trigger] r@[m] as int == mask_fact_sum(size as int, m as u32, size as int),
    {
        r.push(get_position_factorial_for_set_bits_in_mask(size, mask));
    }
    r
}

/// All permutations of `0..size`, indexed by Lehmer code.
pub fn get_permutations_of_size(size: usize) -> (r: Vec<Vec<u8>>)
    requires
        size <= 12,
    ensures
        r@.len() == fact(size as nat),
        forall|c: int| 0 <= c < r@.len() ==> (#[trigger] r@[c])@ == perm_of_code(size as int, c),
        codes_decode(size as int),
{
    proof {
        lemma_factorials_table(size as int);
    }
    let total = FACTORIALS[size] as usize;
    let mut r: Vec<Vec<u8>> = vec![];
    for code in 0..total
        invariant
            size <= 12,
            total == fact(size as nat),
            r@.len() == code,
            forall|c: int| 0 <= c < code ==> (#[trigger] r@[c])@ == perm_of_code(size as int, c),
            forall|c: int|
                0 <= c < code ==> is_permutation(#[trigger] perm_of_code(size as int, c), size as int) && lehmer_value(
                    perm_of_code(size as int, c),
                ) == c,
    {
        let p = get_permutation_from_lehmer_code(size, code);
        proof {
            lemma_perm_of_code(p@, size as int, code as int);
            vstd::arithmetic::div_mod::lemma_small_mod(code as nat, fact(size as nat));
        }
        r.push(p);
    }
    r
}

/// For each item, the mask of the positions holding smaller items, in the
/// permutation with Lehmer code `code`.
pub fn get_mask_for_pos_with_items_lesser_than_item_for_code(size: usize, code: u32) -> (r: Vec<u16>)
    requires
        size <= 12,
    ensures
        r@.len() == size,
        forall|item: int| 0 <= item < size ==> marks_lesser(#[trigger] r@[item], perm_of_code(size as int, code as int), item),
{
    let mut mask_vector: Vec<u16> = vec![];
    let permutation = get_permutation_from_lehmer_code(size, code as usize);
    let ghost p = permutation@;
    proof {
        lemma_perm_of_code(p, size as int, code as int);
    }
    let mut item_positions = vec![0 as u8; size];
    for pos in 0..permutation.len()
        invariant
            p == permutation@,
            is_permutation(p, size as int),
            size <= 12,
            item_positions@.len() == size,
            forall|i: int| 0 <= i < pos ==> item_positions@[#[trigger] p[i] as int] as int == i,
    {
        proof {
            assert forall|i: int| 0 <= i < pos implies p[i] != p[pos as int] by {}
        }
        item_positions[permutation[pos] as usize] = pos as u8;
    }
    proof {
        assert forall|v: int| 0 <= v < size implies (item_positions@[v] as int) < size && p[item_positions@[v] as int] as int == v by {
            let i = lemma_permutation_onto(p, size as int, v);
            assert(item_positions@[p[i] as int] as int == i);
        }
    }
    for item in 0..size
        invariant
            p == permutation@,
            is_permutation(p, size as int),
            size <= 12,
            item_positions@.len() == size,
            forall|v: int| 0 <= v < size ==> (item_positions@[v] as int) < size && p[#[trigger] item_positions@[v] as int] as int == v,
            mask_vector@.len() == item,
            forall|it: int| 0 <= it < item ==> marks_lesser(#[trigger] mask_vector@[it], p, it),
    {
        let mut mask: u16 = 0;
        proof {
            assert forall|j: u16| j < 16 implies (#[trigger] bit16(mask, j) == ((j as int) < p.len() && (p[j as int] as int) < 0)) by {
                lemma_bit_zero(j);
            }
        }
        for lesser in 0..item
            invariant
                p == permutation@,
                is_permutation(p, size as int),
                size <= 12,
                item < size,
                item_positions@.len() == size,
                forall|v: int| 0 <= v < size ==> (item_positions@[v] as int) < size && p[#[trigger] item_positions@[v] as int] as int == v,
                marks_lesser(mask, p, lesser as int),
        {
            let k = item_positions[lesser];
            proof {
                assert(p[k as int] as int == lesser);
                assert((1i32 << k) as u16 == (1u16 << (k as u16))) by (bit_vector)
                    requires
                        k < 16,
                ;
                assert forall|j: u16| j < 16 implies (#[trigger] bit16(mask | (1u16 << (k as u16)), j) == ((j as int) < p.len() && (p[j as int] as int) < lesser + 1)) by {
                    lemma_bit_or_shift(mask, k as u16, j);
                    if (j as int) < p.len() && p[j as int] as int == lesser && j != k as u16 {
                        if (j as int) < (k as int) {
                            assert(p[j as int] != p[k as int]);
                        } else {
                            assert(p[k as int] != p[j as int]);
                        }
                    }
                }
            }
            mask = (mask | (1 << item_positions[lesser]) as u16)
        }
        mask_vector.push(mask);
    }
    mask_vector
}

/// The masks of `get_mask_for_pos_with_items_lesser_than_item_for_code` for
/// every Lehmer code of the size.
pub fn get_masks_for_pos_with_items_lesser_than_item_for_permutation(size: usize) -> (r: Vec<Vec<u16>>)
    requires
        size <= 12,
    ensures
        r@.len() == fact(size as nat),
        forall|c: int| 0 <= c < r@.len() ==> (#[trigger] r@[c])@.len() == size,
        forall|c: int, item: int|
            0 <= c < r@.len() && 0 <= item < size ==> marks_lesser(#[trigger] r@[c]@[item], perm_of_code(size as int, c), item),
{
    proof {
        lemma_factorials_table(size as int);
    }
    let total = FACTORIALS[size] as usize;
    let mut r: Vec<Vec<u16>> = vec![];
    for code in 0..total
        invariant
            size <= 12,
            total == fact(size as nat),
            total <= 479001600,
            r@.len() == code,
            forall|c: int| 0 <= c < code ==> (#[trigger] r@[c])@.len() == size,
            forall|c: int, item: int|
                0 <= c < code && 0 <= item < size ==> marks_lesser(#[trigger] r@[c]@[item], perm_of_code(size as int, c), item),
    {
        r.push(get_mask_for_pos_with_items_lesser_than_item_for_code(size, code as u32));
    }
    r
}


/// The bits of a mask marking the values of a distinct prefix count those
/// values below `t`.
proof fn lemma_ones_values(m: u16, p: Seq<u8>, k: int, t: int)
    requires
        marks_values(m, p, k),
        0 <= k <= p.len(),
        distinct_upto(p, k),
        0 <= t <= 16,
    ensures
        ones_below(m, t) == count_in(p, k, 0, t),
    decreases t,
{
    if t > 0 {
        lemma_ones_values(m, p, k, t - 1);
        lemma_count_split(p, k, 0, t - 1, t);
        lemma_pigeonhole(p, k, t - 1, t);
        let v = (t - 1) as u16;
        if bit16(m, v) {
            let i = choose|i: int| 0 <= i < k && p[i] as int == v as int;
            lemma_count_at_least_one(p, k, t - 1, t, i);
        } else {
            if count_in(p, k, t - 1, t) > 0 {
                let i = lemma_count_witness(p, k, t - 1, t);
                assert(p[i] as int == v as int);
            }
        }
        assert(ones_below(m, t) == ones_below(m, t - 1) + if bit16(m, v) { 1nat } else { 0nat });
    } else {
        lemma_count_none(p, k, 0, 0);
    }
}

proof fn lemma_count_at_least_one(p: Seq<u8>, k: int, lo: int, hi: int, i: int)
    requires
        0 <= i < k,
        lo <= p[i] < hi,
    ensures
        count_in(p, k, lo, hi) >= 1,
    decreases k,
{
    if i < k - 1 {
        lemma_count_at_least_one(p, k - 1, lo, hi, i);
    }
}

/// The bits of a mask marking the positions below `k` that hold values
/// under `x` count those positions.
proof fn lemma_ones_positions(m: u16, p: Seq<u8>, k: int, x: int, t: int)
    requires
        forall|j: u16| j < 16 ==> (#[trigger] bit16(m, j) == ((j as int) < k && (p[j as int] as int) < x)),
        0 <= k <= p.len(),
        k <= 16,
        0 <= t <= 16,
    ensures
        ones_below(m, t) == count_in(p, if t < k { t } else { k }, 0, x),
    decreases t,
{
    if t > 0 {
        lemma_ones_positions(m, p, k, x, t - 1);
        assert(bit16(m, (t - 1) as u16) == ((t - 1) < k && (p[t - 1] as int) < x));
    }
}

/// Running digit sums with weight offset `0` are the partial Lehmer sums.
proof fn lemma_running_is_lehmer(p: Seq<u8>, k: int)
    requires
        0 <= k,
    ensures
        running_digit_sum(p, k, 0) == lehmer_upto(p, k),
    decreases k,
{
    if k > 0 {
        lemma_running_is_lehmer(p, k - 1);
    }
}

/// Shifting the weights one position right does not increase the sums.
proof fn lemma_running_shift_le(p: Seq<u8>, n: int, k: int)
    requires
        is_permutation(p, n),
        0 <= k < n,
    ensures
        0 <= running_digit_sum(p, k, 1) <= running_digit_sum(p, k, 0),
    decreases k,
{
    if k > 0 {
        lemma_running_shift_le(p, n, k - 1);
        lemma_digit_bounds(p, n, k - 1);
        let d = lehmer_digit(p, k - 1);
        lemma_fact_monotone((n - 1 - k) as nat, (n - k) as nat);
        let f1 = fact((n - 1 - k) as nat) as int;
        let f0 = fact((n - k) as nat) as int;
        assert(0 <= d * f1 <= d * f0) by (nonlinear_arith)
            requires
                d >= 0,
                0 <= f1 <= f0,
        ;
    }
}

/// The running Lehmer sums of the permutation with code `code`: first with
/// the weights of the positions themselves, then with the weights one
/// position further right (for all positions but the last).
pub fn get_running_sum_of_item_pos_factorial_for_code(size: usize, code: u32) -> (r: Vec<Vec<u32>>)
    requires
        size <= 12,
    ensures
        running_sums_of(r@, perm_of_code(size as int, code as int)),
{
    let mut vector_for_current_code: Vec<Vec<u32>> = vec![];
    let mut sum_0: u32 = 0;
    let mut sum_1: u32 = 0;
    let mut mask: u16 = 0;

    let mut vector_for_i_0: Vec<u32> = vec![];
    let mut vector_for_i_1: Vec<u32> = vec![];

    let permutation = get_permutation_from_lehmer_code(size, code as usize);
    let ghost p = permutation@;
    proof {
        lemma_perm_of_code(p, size as int, code as int);
        assert forall|v: u16| v < 16 implies (#[trigger] bit16(mask, v) == exists|i: int| 0 <= i < 0 && p[i] as int == v as int) by {
            lemma_bit_zero(v);
        }
        lemma_lehmer_range_local(p, size as int);
    }

    for pos in 0..size
        invariant
            p == permutation@,
            is_permutation(p, size as int),
            size <= 12,
            lehmer_value(p) < 479001600,
            marks_values(mask, p, pos as int),
            sum_0 as int == running_digit_sum(p, pos as int, 0),
            sum_1 as int == running_digit_sum(p, if (pos as int) < size { pos as int } else if size > 0 { size - 1 } else { 0 }, 1),
            vector_for_i_0@.len() == pos,
            vector_for_i_1@.len() == if (pos as int) < size { pos as int } else if size > 0 { size - 1 } else { 0 },
            forall|i: int| 0 <= i < pos ==> #[trigger] vector_for_i_0@[i] as int == running_digit_sum(p, i + 1, 0),
            forall|i: int| 0 <= i < vector_for_i_1@.len() ==> #[trigger] vector_for_i_1@[i] as int == running_digit_sum(p, i + 1, 1),
    {
        let v = permutation[pos];
        proof {
            assert((1i32 << v) as u16 == (1u16 << (v as u16))) by (bit_vector)
                requires
                    v < 16,
            ;
            assert forall|w: u16| w < 16 implies (#[trigger] bit16(mask | (1u16 << (v as u16)), w) == exists|i: int|
                0 <= i < pos + 1 && p[i] as int == w as int) by {
                lemma_bit_or_shift(mask, v as u16, w);
                if exists|i: int| 0 <= i < pos + 1 && p[i] as int == w as int {
                    let i = choose|i: int| 0 <= i < pos + 1 && p[i] as int == w as int;
                    if i < pos {
                        assert(bit16(mask, w));
                    }
                }
                if bit16(mask, w) {
                    let i = choose|i: int| 0 <= i < pos && p[i] as int == w as int;
                    assert(0 <= i < pos + 1 && p[i] as int == w as int);
                }
                if w == v as u16 {
                    assert(p[pos as int] as int == w as int);
                }
            }
        }
        mask |= (1 << permutation[pos]) as u16;
        let items_less_than_item_before = get_bit_count_before_pos_in_mask(mask, permutation[pos]);
        proof {
            assert(distinct_upto(p, pos + 1));
            lemma_ones_values(mask, p, pos + 1, v as int);
            lemma_count_split(p, pos + 1, 0, v as int, v as int);
            assert(count_in(p, pos + 1, 0, v as int) == count_in(p, pos as int, 0, v as int));
            assert(items_less_than_item_before as int == smaller_before(p, pos as int));
            lemma_digit_bounds(p, size as int, pos as int);
            lemma_factorials_table(size - pos - 1);
            lemma_running_is_lehmer(p, pos + 1);
            lemma_lehmer_gap(p, size as int, pos + 1, size as int);
            lemma_lehmer_gap(p, size as int, 0, pos as int);
            assert(lehmer_upto(p, 0) == 0);
            let d = lehmer_digit(p, pos as int);
            let f = fact((size - pos - 1) as nat) as int;
            lemma_fact_pos((size - pos - 1) as nat);
            assert(0 <= d * f) by (nonlinear_arith)
                requires
                    d >= 0,
                    f >= 0,
            ;
            assert(running_digit_sum(p, pos + 1, 0) == sum_0 + d * f);
            assert(lehmer_upto(p, size as int) == lehmer_value(p));
        }
        let digit = permutation[pos] as u32 - items_less_than_item_before as u32;
        let w0 = FACTORIALS[size - pos - 1] as u32;
        proof {
            assert(digit * w0 == lehmer_digit(p, pos as int) * fact((size - pos - 1) as nat)) by (nonlinear_arith)
                requires
                    digit as int == lehmer_digit(p, pos as int),
                    w0 as int == fact((size - pos - 1) as nat),
            ;
        }
        sum_0 += digit * w0;
        vector_for_i_0.push(sum_0.clone());
        if pos < size - 1 {
            proof {
                lemma_factorials_table(size - pos - 2);
                lemma_running_shift_le(p, size as int, pos + 1);
                assert(running_digit_sum(p, pos + 1, 1) == sum_1 + lehmer_digit(p, pos as int) * fact((size - pos - 2) as nat));
            }
            let w1 = FACTORIALS[size - pos - 2] as u32;
            proof {
                assert(digit * w1 == lehmer_digit(p, pos as int) * fact((size - pos - 2) as nat)) by (nonlinear_arith)
                    requires
                        digit as int == lehmer_digit(p, pos as int),
                        w1 as int == fact((size - pos - 2) as nat),
                ;
            }
            sum_1 += digit * w1;
            vector_for_i_1.push(sum_1.clone());
        }
    }
    vector_for_current_code.push(vector_for_i_0);
    vector_for_current_code.push(vector_for_i_1);
    vector_for_current_code
}

proof fn lemma_lehmer_range_local(p: Seq<u8>, n: int)
    requires
        is_permutation(p, n),
        n <= 12,
    ensures
        lehmer_value(p) < 479001600,
{
    crate::permutation::theory::lemma_lehmer_range(p, n);
    lemma_small_facts();
    lemma_fact_monotone(n as nat, 12);
}

/// `r` holds the running Lehmer sums of `p` (see
/// `get_running_sum_of_item_pos_factorial_for_code`).
pub open spec fn running_sums_of(r: Seq<Vec<u32>>, p: Seq<u8>) -> bool {
    &&& r.len() == 2
    &&& r[0]@.len() == p.len()
    &&& r[1]@.len() == if p.len() > 0 { p.len() - 1 } else { 0 }
    &&& forall|i: int| 0 <= i < r[0]@.len() ==> #[trigger] r[0]@[i] as int == running_digit_sum(p, i + 1, 0)
    &&& forall|i: int| 0 <= i < r[1]@.len() ==> #[trigger] r[1]@[i] as int == running_digit_sum(p, i + 1, 1)
}

/// The running Lehmer sums for every Lehmer code of the size.
pub fn get_running_sum_of_item_pos_factorial_for_all_codes(size: usize) -> (r: Vec<Vec<Vec<u32>>>)
    requires
        size <= 12,
    ensures
        r@.len() == fact(size as nat),
        forall|c: int| 0 <= c < r@.len() ==> running_sums_of(#[trigger] r@[c]@, perm_of_code(size as int, c)),
{
    proof {
        lemma_factorials_table(size as int);
    }
    let total = FACTORIALS[size] as usize;
    let mut r: Vec<Vec<Vec<u32>>> = vec![];
    for code in 0..total
        invariant
            size <= 12,
            total == fact(size as nat),
            total <= 479001600,
            r@.len() == code,
            forall|c: int| 0 <= c < code ==> running_sums_of(#[trigger] r@[c]@, perm_of_code(size as int, c)),
    {
        r.push(get_running_sum_of_item_pos_factorial_for_code(size, code as u32));
    }
    r
}


/// Precomputed tables for one size `n`: the permutations by Lehmer code;
/// for each permutation and item, the mask of the positions of smaller items;
/// for each permutation, its running Lehmer sums; and for each `n`-bit mask,
/// the sum of the factorials of the positions after its set bits.
pub struct AdjacencyCalculator {
    size: usize,
    permutations: Vec<Vec<u8>>,
    // [code][item] = mask
    mask_for_pos_with_items_greater_than_item_for_permutation: Vec<Vec<u16>>,
    // [code][pos][0] = Sum(p_i*i!), [code][pos][1] = Sum(p_i*(i+1)!),
    running_sum_of_item_pos_factorial: Vec<Vec<Vec<u32>>>,
    mask_sum_of_bits_position_factorial: Vec<u32>,
}

impl AdjacencyCalculator {
    /// The size of the permutations the tables are for.
    pub closed spec fn dimension(&self) -> int {
        self.size as int
    }

    /// The tables hold what `init` computes for the size.
    pub closed spec fn well_formed(&self) -> bool {
        let n = self.size as int;
        &&& n <= 12
        &&& codes_decode(n)
        &&& self.permutations@.len() == fact(n as nat)
        &&& forall|c: int| 0 <= c < fact(n as nat) ==> (#[trigger] self.permutations@[c])@ == perm_of_code(n, c)
        &&& self.mask_for_pos_with_items_greater_than_item_for_permutation@.len() == fact(n as nat)
        &&& forall|c: int|
            0 <= c < fact(n as nat) ==> (#[trigger] self.mask_for_pos_with_items_greater_than_item_for_permutation@[c])@.len() == n
        &&& forall|c: int, item: int|
            0 <= c < fact(n as nat) && 0 <= item < n ==> marks_lesser(
                #[trigger] self.mask_for_pos_with_items_greater_than_item_for_permutation@[c]@[item],
                perm_of_code(n, c),
                item,
            )
        &&& self.running_sum_of_item_pos_factorial@.len() == fact(n as nat)
        &&& forall|c: int|
            0 <= c < fact(n as nat) ==> running_sums_of(#[trigger] self.running_sum_of_item_pos_factorial@[c]@, perm_of_code(n, c))
        &&& self.mask_sum_of_bits_position_factorial@.len() == vstd::arithmetic::power2::pow2(n as nat)
        &&& forall|m: int|
            0 <= m < self.mask_sum_of_bits_position_factorial@.len() ==> #[trigger] self.mask_sum_of_bits_position_factorial@[m] as int
                == mask_fact_sum(n, m as u32, n)
    }

    /// Well-formed tables are for a size of at most 12 whose codes all decode.
    pub proof fn lemma_well_formed_facts(&self)
        requires
            self.well_formed(),
        ensures
            0 <= self.dimension() <= 12,
            codes_decode(self.dimension()),
    {
    }

    /// Builds the tables for permutations of `size` items.
    pub fn init(size: usize) -> (r: AdjacencyCalculator)
        requires
            size <= 12,
        ensures
            r.well_formed(),
            r.dimension() == size,
    {
        let permutations = get_permutations_of_size(size);
        let mask_for_pos_with_items_greater_than_item_for_permutation =
            get_masks_for_pos_with_items_lesser_than_item_for_permutation(size);
        let running_sum_of_item_pos_factorial = get_running_sum_of_item_pos_factorial_for_all_codes(size);
        let mask_sum_of_bits_position_factorial = get_mask_sum_of_bits_position_factorial(size);
        return AdjacencyCalculator {
            size,
            permutations,
            mask_for_pos_with_items_greater_than_item_for_permutation,
            running_sum_of_item_pos_factorial,
            mask_sum_of_bits_position_factorial,
        };
    }

    /// How much the Lehmer code `code` changes when the item at `old_pos`
    /// slides left to just after position `new_pos` (`-1` for the front):
    /// the sum of the changes to the block it passes, to the item itself,
    /// and to the block items greater than it.
    pub fn get_delta_for_moving_item(&self, code: u32, old_pos: usize, new_pos: i8) -> (r: i32)
        requires
            self.well_formed(),
            (code as int) < fact(self.dimension() as nat),
            -1 <= new_pos,
            new_pos + 1 <= old_pos < self.dimension(),
            1 <= old_pos,
        ensures
            code + r == lehmer_value(
                crate::permutation::precompute::moved_item(perm_of_code(self.dimension(), code as int), old_pos as int, new_pos + 1),
            ),
    {
        let size = self.size;
        let mut delta: i32 = 0;
        let block_running_sum_delta = self.get_block_running_sum_delta(code, old_pos, new_pos);
        let item_move_delta = self.get_item_move_delta(code, old_pos, new_pos);
        let block_delta_due_to_item_move = self.get_block_delta_due_to_item_move(code, old_pos, new_pos);
        proof {
            let n = size as int;
            let p = perm_of_code(n, code as int);
            assert(is_permutation(perm_of_code(n, code as int), n) && lehmer_value(perm_of_code(n, code as int)) == code);
            if new_pos + 1 < old_pos {
                lemma_moved_lehmer(p, n, old_pos as int, new_pos + 1);
            } else {
                assert(crate::permutation::precompute::moved_item(p, old_pos as int, new_pos + 1) =~= p);
                assert(run_part(p, new_pos + 1, old_pos as int) == 0);
                assert(big_part(p, p[old_pos as int] as int, new_pos + 1, old_pos as int) == 0);
            }
            crate::permutation::precompute::lemma_moved_item_permutation(p, n, old_pos as int, new_pos + 1);
            lemma_lehmer_range_local(p, n);
            lemma_lehmer_range_local(crate::permutation::precompute::moved_item(p, old_pos as int, new_pos + 1), n);
            assert(-522956314 <= block_delta_due_to_item_move <= 0);
            let q = crate::permutation::precompute::moved_item(p, old_pos as int, new_pos + 1);
            let total = lehmer_value(q) - lehmer_value(p);
            let x = p[old_pos as int] as int;
            assert(item_move_delta == (x - count_in(p, new_pos + 1, 0, x)) * fact((n - 1 - (new_pos + 1)) as nat)
                - (x - count_in(p, old_pos as int, 0, x)) * fact((n - 1 - old_pos) as nat));
            assert(block_running_sum_delta + item_move_delta + block_delta_due_to_item_move == total);
            crate::permutation::theory::lemma_lehmer_range(p, n);
            crate::permutation::theory::lemma_lehmer_range(q, n);
            assert(-479001600 < total < 479001600);
            assert(-479001600 < block_running_sum_delta + item_move_delta < 479001600 + 522956314);
        }
        block_running_sum_delta + item_move_delta + block_delta_due_to_item_move
    }

    /// The change, for the items of the block `(new_pos, old_pos)` that move
    /// one position right, of their weighted digits.
    fn get_block_running_sum_delta(&self, code: u32, old_pos: usize, new_pos: i8) -> (r: i32)
        requires
            self.well_formed(),
            (code as int) < fact(self.dimension() as nat),
            -1 <= new_pos,
            new_pos + 1 <= old_pos < self.dimension(),
            1 <= old_pos,
        ensures
            r == run_part(perm_of_code(self.dimension(), code as int), new_pos + 1, old_pos as int),
    {
        let ghost n = self.size as int;
        let ghost p = perm_of_code(n, code as int);
        proof {
            assert(is_permutation(perm_of_code(n, code as int), n) && lehmer_value(perm_of_code(n, code as int)) == code);
            assert(running_sums_of(self.running_sum_of_item_pos_factorial@[code as int]@, p));
            lemma_running_is_lehmer(p, old_pos as int);
            lemma_lehmer_range_local(p, n);
            lemma_lehmer_gap(p, n, old_pos as int, n);
            lemma_lehmer_gap(p, n, 0, old_pos as int);
            lemma_lehmer_gap(p, n, new_pos + 1, old_pos as int);
            lemma_lehmer_gap(p, n, 0, new_pos + 1);
            assert(lehmer_upto(p, 0) == 0);
            lemma_running_is_lehmer(p, new_pos + 1);
            lemma_running_shift_le(p, n, old_pos as int);
            lemma_running_shift_le(p, n, new_pos + 1);
            lemma_run_part_running(p, n, new_pos + 1, old_pos as int);
            assert(lehmer_upto(p, n) == lehmer_value(p));
        }
        let block_original_right = self.running_sum_of_item_pos_factorial[code as usize][0][old_pos - 1];
        let block_original_left = if new_pos >= 0 {
            self.running_sum_of_item_pos_factorial[code as usize][0][new_pos as usize]
        } else {
            0
        };
        let block_original_running_sum = block_original_right as i32 - block_original_left as i32;
        let block_new_right = self.running_sum_of_item_pos_factorial[code as usize][1][old_pos - 1];
        let block_new_left = if new_pos >= 0 {
            self.running_sum_of_item_pos_factorial[code as usize][1][new_pos as usize]
        } else {
            0
        };
        let block_new_running_sum = block_new_right as i32 - block_new_left as i32;
        block_new_running_sum as i32 - block_original_running_sum
    }

    /// The change of the moving item's own weighted digit.
    fn get_item_move_delta(&self, code: u32, old_pos: usize, new_pos: i8) -> (r: i32)
        requires
            self.well_formed(),
            (code as int) < fact(self.dimension() as nat),
            -1 <= new_pos,
            new_pos + 1 <= old_pos < self.dimension(),
            1 <= old_pos,
        ensures
            ({
                let p = perm_of_code(self.dimension(), code as int);
                let x = p[old_pos as int] as int;
                let n = self.dimension();
                r == (x - count_in(p, new_pos + 1, 0, x)) * fact((n - 2 - new_pos) as nat)
                    - (x - count_in(p, old_pos as int, 0, x)) * fact((n - 1 - old_pos) as nat)
            }),
    {
        let ghost n = self.size as int;
        let ghost p = perm_of_code(n, code as int);
        proof {
            assert(is_permutation(perm_of_code(n, code as int), n) && lehmer_value(perm_of_code(n, code as int)) == code);
        }
        let item_to_be_moved = self.permutations[code as usize][old_pos];
        let lower_than_item_mask =
            self.mask_for_pos_with_items_greater_than_item_for_permutation[code as usize][item_to_be_moved as usize];
        let original_position_range_to_left_mask: i16 = get_mask_with_bits_set_before(old_pos as i8);
        let new_position_to_left_mask: i16 = get_mask_with_bits_set_before(new_pos + 1 as i8);
        let mask_for_sum_of_lower_items_to_left_original_pos = (original_position_range_to_left_mask
            & lower_than_item_mask as i16);
        let mask_for_sum_of_lower_items_to_left_new_pos = (new_position_to_left_mask & lower_than_item_mask as i16);
        let ghost x = item_to_be_moved as int;
        proof {
            assert(marks_lesser(lower_than_item_mask, p, x));
            assert forall|j: u16| j < 16 implies (#[trigger] bit16(mask_for_sum_of_lower_items_to_left_original_pos as u16, j)
                == ((j as int) < old_pos && (p[j as int] as int) < x)) by {
                assert((mask_for_sum_of_lower_items_to_left_original_pos as u16) == ((original_position_range_to_left_mask as u16) & lower_than_item_mask)) by (bit_vector)
                    requires
                        mask_for_sum_of_lower_items_to_left_original_pos == original_position_range_to_left_mask & (lower_than_item_mask as i16),
                ;
                lemma_bit_and(original_position_range_to_left_mask as u16, lower_than_item_mask, j);
                assert(bit16(original_position_range_to_left_mask as u16, j) == ((j as int) < old_pos));
                assert(bit16(lower_than_item_mask, j) == ((j as int) < p.len() && (p[j as int] as int) < x));
            }
            assert forall|j: u16| j < 16 implies (#[trigger] bit16(mask_for_sum_of_lower_items_to_left_new_pos as u16, j)
                == ((j as int) < new_pos + 1 && (p[j as int] as int) < x)) by {
                assert((mask_for_sum_of_lower_items_to_left_new_pos as u16) == ((new_position_to_left_mask as u16) & lower_than_item_mask)) by (bit_vector)
                    requires
                        mask_for_sum_of_lower_items_to_left_new_pos == new_position_to_left_mask & (lower_than_item_mask as i16),
                ;
                lemma_bit_and(new_position_to_left_mask as u16, lower_than_item_mask, j);
                assert(bit16(new_position_to_left_mask as u16, j) == ((j as int) < new_pos + 1));
                assert(bit16(lower_than_item_mask, j) == ((j as int) < p.len() && (p[j as int] as int) < x));
            }
        }
        let items_lower_in_original = count_ones_i16(mask_for_sum_of_lower_items_to_left_original_pos);
        let items_lower_in_new = count_ones_i16(mask_for_sum_of_lower_items_to_left_new_pos);
        proof {
            lemma_ones_positions(mask_for_sum_of_lower_items_to_left_original_pos as u16, p, old_pos as int, x, 16);
            lemma_ones_positions(mask_for_sum_of_lower_items_to_left_new_pos as u16, p, new_pos + 1, x, 16);
            assert(distinct_upto(p, n));
            lemma_pigeonhole(p, old_pos as int, 0, x);
            lemma_pigeonhole(p, new_pos + 1, 0, x);
            lemma_factorials_table(n - 2 - new_pos);
            lemma_factorials_table(n - 1 - old_pos);
            lemma_small_facts();
            lemma_fact_monotone((n - 2 - new_pos) as nat, 11);
            lemma_fact_monotone((n - 1 - old_pos) as nat, 11);
        }
        let f_new = FACTORIALS[(self.size as i8 - new_pos - 2) as usize] as i32;
        let f_old = FACTORIALS[(self.size - old_pos - 1) as usize] as i32;
        proof {
            let xx = item_to_be_moved as int;
            let a1 = items_lower_in_original as int;
            let b1 = items_lower_in_new as int;
            assert(0 <= xx * (f_new - f_old) + 39916800 * 11 && xx * (f_new - f_old) <= 39916800 * 11) by (nonlinear_arith)
                requires
                    0 <= xx <= 11,
                    0 <= f_new <= 39916800,
                    0 <= f_old <= 39916800,
            ;
            assert(0 <= a1 * f_old <= 39916800 * 11) by (nonlinear_arith)
                requires
                    0 <= a1 <= 11,
                    0 <= f_old <= 39916800,
            ;
            assert(0 <= b1 * f_new <= 39916800 * 11) by (nonlinear_arith)
                requires
                    0 <= b1 <= 11,
                    0 <= f_new <= 39916800,
            ;
            assert(xx * (f_new - f_old) + (a1 * f_old - b1 * f_new) == (xx - b1) * f_new - (xx - a1) * f_old) by (nonlinear_arith);
        }
        let position_factorial_delta = self.permutations[code as usize][old_pos] as i32 * (f_new - f_old);
        let original_lower_value = items_lower_in_original as i32 * f_old;
        let new_lower_value = items_lower_in_new as i32 * f_new;
        let move_before_item_delta = original_lower_value - new_lower_value;
        position_factorial_delta as i32 + move_before_item_delta
    }

    /// The change, for the block items greater than the moving item, of
    /// their digits (each loses one), read off the mask-sum table.
    fn get_block_delta_due_to_item_move(&self, code: u32, old_pos: usize, new_pos: i8) -> (r: i32)
        requires
            self.well_formed(),
            (code as int) < fact(self.dimension() as nat),
            -1 <= new_pos,
            new_pos + 1 <= old_pos < self.dimension(),
            1 <= old_pos,
        ensures
            r == -big_part(
                perm_of_code(self.dimension(), code as int),
                perm_of_code(self.dimension(), code as int)[old_pos as int] as int,
                new_pos + 1,
                old_pos as int,
            ),
            -522956314 <= r <= 0,
    {
        let ghost n = self.size as int;
        let ghost p = perm_of_code(n, code as int);
        proof {
            assert(is_permutation(perm_of_code(n, code as int), n) && lehmer_value(perm_of_code(n, code as int)) == code);
        }
        let item = self.permutations[code as usize][old_pos];
        let lower_than_item_mask = self.mask_for_pos_with_items_greater_than_item_for_permutation[code as usize][item as usize];
        let m_old = get_mask_with_bits_set_before(old_pos as i8);
        let m_new = get_mask_with_bits_set_before((new_pos + 1) as i8);
        let block_mask = m_old ^ m_new;
        let greater_than_item_in_block_mask = !lower_than_item_mask & block_mask as u16;
        let greater_than_item_in_new_block_mask = (greater_than_item_in_block_mask << 1);
        let ghost x = item as int;
        let ghost a = new_pos + 1;
        let ghost g = greater_than_item_in_new_block_mask;
        proof {
            assert(marks_lesser(lower_than_item_mask, p, x));
            assert forall|j: u16| j < 16 implies (#[trigger] bit16(g, j) == (j >= 1 && a <= j - 1 < old_pos && (p[j - 1] as int) > x)) by {
                lemma_bit_shl1(greater_than_item_in_block_mask, j);
                if j >= 1 {
                    let i = (j - 1) as u16;
                    lemma_bit_and(!lower_than_item_mask, block_mask as u16, i);
                    lemma_bit_not(lower_than_item_mask, i);
                    assert((block_mask as u16) == ((m_old as u16) ^ (m_new as u16))) by (bit_vector)
                        requires
                            block_mask == m_old ^ m_new,
                    ;
                    lemma_bit_xor(m_old as u16, m_new as u16, i);
                    assert(bit16(m_old as u16, i) == ((i as int) < old_pos));
                    assert(bit16(m_new as u16, i) == ((i as int) < a));
                    assert(bit16(lower_than_item_mask, i) == ((i as int) < p.len() && (p[i as int] as int) < x));
                    if a <= i < old_pos {
                        assert(p[i as int] != p[old_pos as int]);
                    }
                }
            }
            lemma_mask_big_part(g, p, x, a, old_pos as int, n, n);
            // the mask only uses positions below n, so it indexes the table
            assert forall|j: u16| n <= j < 16 implies !bit16(g, j) by {}
            lemma_mask_below_pow2(g, n);
        }
        proof {
            assert(self.mask_sum_of_bits_position_factorial@[g as int] as int == mask_fact_sum(n, g as u32, n));
            lemma_mask_fact_sum_bound(n, g as u32, n);
        }
        -1 * self.mask_sum_of_bits_position_factorial[greater_than_item_in_new_block_mask as usize] as i32
    }

    /// Computes the deltas of every slide of one item to the left over a
    /// block of at least one item, for every code; nothing is recorded yet,
    /// so the table returned is empty.
    pub fn get_single_item_transposition_memo(&self) -> (r: Vec<Vec<Vec<u32>>>)
        requires
            self.well_formed(),
        ensures
            r@.len() == 0,
    {
        let memo: Vec<Vec<Vec<u32>>> = vec![];
        proof {
            lemma_factorials_table(self.size as int);
        }
        let total = FACTORIALS[self.size];
        for code in 0..total
            invariant
                self.well_formed(),
                total as int == fact(self.size as nat),
        {
            let mut i: i8 = -1;
            while i < (self.size as i8 - 2)
                invariant
                    self.well_formed(),
                    (code as int) < fact(self.size as nat),
                    -1 <= i,
                    i <= self.size as i8 - 2 || i == -1,
                decreases self.size - i,
            {
                let mut j: i8 = i + 2;
                while j < self.size as i8
                    invariant
                        self.well_formed(),
                        (code as int) < fact(self.size as nat),
                        -1 <= i < self.size as i8 - 2,
                        i + 2 <= j <= self.size as i8,
                    decreases self.size - j,
                {
                    let code_delta = self.get_delta_for_moving_item(code, j as usize, i);
                    j = j + 1;
                }
                i = i + 1;
            }
        }
        memo
    }
}


/// A mask sum is at most the sum of all factorials involved.
proof fn lemma_mask_fact_sum_bound(n: int, m: u32, k: int)
    requires
        0 <= k <= n <= 13,
    ensures
        0 <= mask_fact_sum(n, m, k),
        mask_fact_sum(n, m, k) + sum_fact_below(n, k) <= sum_fact_below(n, 0),
        sum_fact_below(n, 0) <= 522956314,
    decreases k,
{
    if k > 0 {
        lemma_mask_fact_sum_bound(n, m, k - 1);
        lemma_sum_fact_below_step(n, k - 1);
    }
    if n > 0 {
        lemma_sum_fact_monotone((n - 1) as nat, 12);
    }
    lemma_small_facts();
}

/// The running sums differ by the block part between two positions.
proof fn lemma_run_part_running(p: Seq<u8>, n: int, a: int, o: int)
    requires
        is_permutation(p, n),
        0 <= a <= o < n,
    ensures
        running_digit_sum(p, o, 1) - running_digit_sum(p, a, 1) - (running_digit_sum(p, o, 0) - running_digit_sum(p, a, 0))
            == run_part(p, a, o),
    decreases o - a,
{
    if o > a {
        lemma_run_part_running(p, n, a, o - 1);
    }
}

/// A shifted mask of block positions sums the factorials of the block items
/// greater than the moving one, one position further right.
proof fn lemma_mask_big_part(g: u16, p: Seq<u8>, x: int, a: int, o: int, n: int, k: int)
    requires
        forall|j: u16| j < 16 ==> (#[trigger] bit16(g, j) == (j >= 1 && a <= j - 1 < o && (p[j - 1] as int) > x)),
        p.len() == n,
        0 <= a <= o < n <= 12,
        0 <= k <= n,
    ensures
        mask_fact_sum(n, g as u32, k) == big_part(p, x, a, if k - 1 < o { k - 1 } else { o }),
    decreases k,
{
    if k > 0 {
        lemma_mask_big_part(g, p, x, a, o, n, k - 1);
        lemma_bit32_of_u16(g, (k - 1) as u16);
        assert(bit16(g, (k - 1) as u16) == (k - 1 >= 1 && a <= k - 2 < o && (p[k - 2] as int) > x));
    } else {
    }
}

/// A 16-bit mask with no set bit from position `n` up is below `2^n`.
proof fn lemma_mask_below_pow2(g: u16, n: int)
    requires
        0 <= n <= 12,
        forall|j: u16| n <= j < 16 ==> !#[trigger] bit16(g, j),
    ensures
        (g as int) < vstd::arithmetic::power2::pow2(n as nat),
{
    let k = n as u16;
    let h = g >> k;
    assert forall|j: u16| j < 16 implies !#[trigger] bit16(h, j) by {
        if j + k < 16 {
            let jk = (j + k) as u16;
            assert(((g >> k) >> j) & 1u16 == (g >> jk) & 1u16) by (bit_vector)
                requires
                    k <= 12,
                    j < 16,
                    j + k < 16,
                    jk == j + k,
            ;
            assert(!bit16(g, jk));
        } else {
            assert(((g >> k) >> j) & 1u16 == 0u16) by (bit_vector)
                requires
                    k <= 12,
                    j < 16,
                    j + k >= 16,
            ;
        }
    }
    assert(!bit16(h, 0) && !bit16(h, 1) && !bit16(h, 2) && !bit16(h, 3));
    assert(!bit16(h, 4) && !bit16(h, 5) && !bit16(h, 6) && !bit16(h, 7));
    assert(!bit16(h, 8) && !bit16(h, 9) && !bit16(h, 10) && !bit16(h, 11));
    assert(!bit16(h, 12) && !bit16(h, 13) && !bit16(h, 14) && !bit16(h, 15));
    assert(h == 0u16) by (bit_vector)
        requires
            (h >> 0u16) & 1u16 != 1u16,
            (h >> 1u16) & 1u16 != 1u16,
            (h >> 2u16) & 1u16 != 1u16,
            (h >> 3u16) & 1u16 != 1u16,
            (h >> 4u16) & 1u16 != 1u16,
            (h >> 5u16) & 1u16 != 1u16,
            (h >> 6u16) & 1u16 != 1u16,
            (h >> 7u16) & 1u16 != 1u16,
            (h >> 8u16) & 1u16 != 1u16,
            (h >> 9u16) & 1u16 != 1u16,
            (h >> 10u16) & 1u16 != 1u16,
            (h >> 11u16) & 1u16 != 1u16,
            (h >> 12u16) & 1u16 != 1u16,
            (h >> 13u16) & 1u16 != 1u16,
            (h >> 14u16) & 1u16 != 1u16,
            (h >> 15u16) & 1u16 != 1u16,
    ;
    assert(g < (1u16 << k)) by (bit_vector)
        requires
            k <= 12,
            h == g >> k,
            h == 0u16,
    ;
    vstd::arithmetic::power2::lemma2_to64();
    vstd::arithmetic::power2::lemma_pow2_strictly_increases(n as nat, 13);
    vstd::bits::lemma_u16_shl_is_mul(1u16, k);
}

/// The code of the permutation of `lehmer_code` with the item at
/// `original_pos` moved to just after position `new_after_pos` (`-1` for
/// the front), computed by decoding the code, moving the item and encoding
/// the result.
pub fn get_code_shifting_item_to_new_position(
    size: usize,
    lehmer_code: u32,
    original_pos: usize,
    new_after_pos: i8,
) -> (r: u32)
    requires
        size <= 12,
        (lehmer_code as int) < fact(size as nat),
        -1 <= new_after_pos,
        new_after_pos + 1 <= original_pos < size,
    ensures
        r as int == lehmer_value(
            crate::permutation::precompute::moved_item(
                perm_of_code(size as int, lehmer_code as int),
                original_pos as int,
                new_after_pos + 1,
            ),
        ),
{
    let permutation = get_permutation_from_lehmer_code(size, lehmer_code as usize);
    proof {
        vstd::arithmetic::div_mod::lemma_small_mod(lehmer_code as nat, fact(size as nat));
        lemma_perm_of_code(permutation@, size as int, lehmer_code as int);
    }
    let ghost p = permutation@;
    let mut new_permutation: Vec<u8> = vec![];
    let pos_1 = (new_after_pos + 1) as usize;
    for i in 0..pos_1
        invariant
            pos_1 <= original_pos < size,
            p == permutation@,
            p.len() == size,
            new_permutation@ == p.subrange(0, i as int),
    {
        new_permutation.push(permutation[i]);
        proof {
            assert(new_permutation@ =~= p.subrange(0, i + 1));
        }
    }
    new_permutation.push(permutation[original_pos]);
    let ghost head = new_permutation@;
    for i in pos_1..original_pos
        invariant
            pos_1 <= original_pos < size,
            p == permutation@,
            p.len() == size,
            head == p.subrange(0, pos_1 as int).push(p[original_pos as int]),
            new_permutation@ == head + p.subrange(pos_1 as int, i as int),
    {
        new_permutation.push(permutation[i]);
        proof {
            assert(new_permutation@ =~= head + p.subrange(pos_1 as int, i + 1));
        }
    }
    let ghost mid = new_permutation@;
    for i in original_pos + 1..size
        invariant
            original_pos < size,
            p == permutation@,
            p.len() == size,
            mid == head + p.subrange(pos_1 as int, original_pos as int),
            new_permutation@ == mid + p.subrange(original_pos + 1, i as int),
    {
        new_permutation.push(permutation[i]);
        proof {
            assert(new_permutation@ =~= mid + p.subrange(original_pos + 1, i + 1));
        }
    }
    proof {
        let q = crate::permutation::precompute::moved_item(p, original_pos as int, pos_1 as int);
        assert(new_permutation@ =~= q);
        crate::permutation::precompute::lemma_moved_item_permutation(p, size as int, original_pos as int, pos_1 as int);
    }
    return get_lehmer_code_from_permutation(&new_permutation);
}

} // verus!
