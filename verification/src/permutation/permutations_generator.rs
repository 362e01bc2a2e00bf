//! Enumeration of all permutations of each size in lexicographic order.
use vstd::prelude::*;
use permutohedron::LexicalPermutation;
use crate::permutation::theory::{
    is_permutation, lemma_permutation_onto, fact, lehmer_value, lehmer_upto, lehmer_digit, count_in, distinct_upto,
    lemma_lehmer_prefix, lemma_count_prefix, lemma_count_split, lemma_count_none, lemma_pigeonhole, lemma_lehmer_gap,
    lemma_digit_bounds, lemma_lehmer_range,
};
use crate::permutation::permutation_label::{codes_decode, perm_of_code, lemma_perm_of_code, lemma_codes_decode};

verus! {

/// `a` comes strictly before `b` in lexicographic order (same lengths).
pub open spec fn lex_less(a: Seq<u8>, b: Seq<u8>) -> bool
    decreases a.len(),
{
    if a.len() == 0 || a.len() != b.len() {
        false
    } else if a[0] != b[0] {
        a[0] < b[0]
    } else {
        lex_less(a.drop_first(), b.drop_first())
    }
}

/// Where `a` first differs from `b` when it comes before it.
proof fn lemma_lex_first_diff(a: Seq<u8>, b: Seq<u8>) -> (i: int)
    requires
        lex_less(a, b),
    ensures
        a.len() == b.len(),
        0 <= i < a.len(),
        forall|j: int| 0 <= j < i ==> a[j] == b[j],
        a[i] < b[i],
    decreases a.len(),
{
    if a[0] != b[0] {
        0
    } else {
        let i0 = lemma_lex_first_diff(a.drop_first(), b.drop_first());
        assert forall|j: int| 0 <= j < i0 + 1 implies a[j] == b[j] by {
            if j > 0 {
                assert(a[j] == a.drop_first()[j - 1]);
                assert(b[j] == b.drop_first()[j - 1]);
            }
        }
        assert(a[i0 + 1] == a.drop_first()[i0]);
        assert(b[i0 + 1] == b.drop_first()[i0]);
        i0 + 1
    }
}

/// Of two permutations of `0..n`, the one first in lexicographic order has
/// the smaller Lehmer code: code order is lexicographic order.
pub proof fn lemma_lex_lehmer(s: Seq<u8>, t: Seq<u8>, n: int)
    requires
        is_permutation(s, n),
        is_permutation(t, n),
        lex_less(s, t),
    ensures
        lehmer_value(s) < lehmer_value(t),
{
    let i = lemma_lex_first_diff(s, t);
    let x = s[i] as int;
    let y = t[i] as int;
    lemma_lehmer_prefix(s, t, i);
    lemma_count_prefix(s, t, i, 0, y);
    lemma_count_split(s, i, 0, x, y);
    lemma_count_split(s, i, x, x + 1, y);
    assert forall|j: int| 0 <= j < i implies !(x <= #[trigger] s[j] < x + 1) by {
        assert(s[j] != s[i]);
    }
    lemma_count_none(s, i, x, x + 1);
    assert(distinct_upto(s, i));
    lemma_pigeonhole(s, i, x + 1, y);
    let ds = lehmer_digit(s, i);
    let dt = lehmer_digit(t, i);
    assert(dt >= ds + 1);
    let w = fact((n - 1 - i) as nat);
    assert(lehmer_upto(s, i + 1) == lehmer_upto(s, i) + ds * w);
    assert(lehmer_upto(t, i + 1) == lehmer_upto(t, i) + dt * w);
    lemma_lehmer_gap(s, n, i + 1, n);
    lemma_lehmer_gap(t, n, i + 1, n);
    assert(fact(0) == 1);
    assert(w > 0) by {
        crate::permutation::theory::lemma_fact_pos((n - 1 - i) as nat);
    }
    assert(dt * w >= ds * w + w) by (nonlinear_arith)
        requires
            dt >= ds + 1,
            w > 0,
    ;
}

/// Of two codes of size `n`, the smaller names the permutation first in
/// lexicographic order: code order is lexicographic order.
pub proof fn lemma_code_order_is_lex(n: int, c1: int, c2: int)
    requires
        0 <= n <= 12,
        0 <= c1 < c2 < fact(n as nat),
    ensures
        is_permutation(perm_of_code(n, c1), n),
        is_permutation(perm_of_code(n, c2), n),
        lex_less(perm_of_code(n, c1), perm_of_code(n, c2)),
{
    lemma_codes_decode(n);
    let p1 = perm_of_code(n, c1);
    let p2 = perm_of_code(n, c2);
    assert(is_permutation(p1, n) && lehmer_value(p1) == c1);
    assert(is_permutation(p2, n) && lehmer_value(p2) == c2);
    assert(p1 != p2);
    lemma_lex_total(p1, p2);
    if lex_less(p2, p1) {
        lemma_lex_lehmer(p2, p1, n);
    }
}

/// The code of the entry at each place of a list holding every permutation
/// of `0..n` once, in increasing order, is that place.
proof fn lemma_codes_in_place(r: Seq<Vec<u8>>, n: int, c: int)
    requires
        lists_all_permutations(r, n),
        codes_decode(n),
        0 <= c < fact(n as nat),
    ensures
        c < r.len(),
        forall|j: int| 0 <= j <= c ==> lehmer_value(#[trigger] r[j]@) == j,
    decreases c,
{
    if c > 0 {
        lemma_codes_in_place(r, n, c - 1);
    }
    let q = perm_of_code(n, c);
    assert(is_permutation(q, n));
    let k = choose|k: int| 0 <= k < r.len() && #[trigger] r[k]@ == q;
    assert(lehmer_value(r[k]@) == c);
    lemma_codes_at_least(r, n, k);
    if k < c {
        assert(lehmer_value(r[k]@) == k);
    }
    assert(k == c);
}

/// In such a list the code at each place is at least that place.
proof fn lemma_codes_at_least(r: Seq<Vec<u8>>, n: int, k: int)
    requires
        lists_all_permutations(r, n),
        0 <= k < r.len(),
    ensures
        lehmer_value(r[k]@) >= k,
    decreases k,
{
    lemma_lehmer_range(r[k]@, n);
    if k > 0 {
        lemma_codes_at_least(r, n, k - 1);
        lemma_lex_lehmer(r[k - 1]@, r[k]@, n);
    }
}

/// A list of every permutation of `0..n` in lexicographic order holds
/// them in the order of their Lehmer codes: `n!` of them, the one at
/// place `c` being the permutation of code `c`.
pub proof fn lemma_generated_in_code_order(r: Seq<Vec<u8>>, n: int)
    requires
        lists_all_permutations(r, n),
        0 <= n <= 12,
    ensures
        r.len() == fact(n as nat),
        forall|c: int| 0 <= c < r.len() ==> #[trigger] r[c]@ == perm_of_code(n, c),
{
    lemma_codes_decode(n);
    crate::permutation::theory::lemma_fact_pos(n as nat);
    let total = fact(n as nat) as int;
    lemma_codes_in_place(r, n, total - 1);
    let last = r.len() - 1;
    lemma_codes_at_least(r, n, last);
    lemma_lehmer_range(r[last]@, n);
    assert forall|c: int| 0 <= c < r.len() implies #[trigger] r[c]@ == perm_of_code(n, c) by {
        assert(lehmer_value(r[c]@) == c);
        assert(c < total);
        vstd::arithmetic::div_mod::lemma_small_mod(c as nat, total as nat);
        lemma_perm_of_code(r[c]@, n, c);
    }
}

/// The identity permutation `0, 1, ..., n-1`.
pub open spec fn identity(n: int) -> Seq<u8> {
    Seq::new(n as nat, |i: int| i as u8)
}

/// `r` lists every permutation of `0..n` exactly once, in increasing
/// lexicographic order.
pub open spec fn lists_all_permutations(r: Seq<Vec<u8>>, n: int) -> bool {
    &&& forall|k: int| 0 <= k < r.len() ==> is_permutation(#[trigger] r[k]@, n)
    &&& forall|a: int, b: int| 0 <= a < b < r.len() ==> lex_less(#[trigger] r[a]@, #[trigger] r[b]@)
    &&& forall|q: Seq<u8>| is_permutation(q, n) ==> exists|k: int| 0 <= k < r.len() && #[trigger] r[k]@ == q
}

/// The sequence read as a number in base 256.
pub open spec fn base256(s: Seq<u8>) -> int
    decreases s.len(),
{
    if s.len() == 0 {
        0
    } else {
        s[0] * pow256((s.len() - 1) as nat) + base256(s.drop_first())
    }
}

pub open spec fn pow256(k: nat) -> int
    decreases k,
{
    if k == 0 {
        1
    } else {
        256 * pow256((k - 1) as nat)
    }
}

proof fn lemma_base256_bound(s: Seq<u8>)
    ensures
        0 <= base256(s) < pow256(s.len()),
    decreases s.len(),
{
    if s.len() > 0 {
        lemma_base256_bound(s.drop_first());
        let w = pow256((s.len() - 1) as nat);
        let d = s[0] as int;
        assert(0 <= d * w && d * w + w <= 256 * w) by (nonlinear_arith)
            requires
                0 <= d < 256,
                w >= 1,
        ;
    } else {
    }
    lemma_pow256_pos(s.len());
}

proof fn lemma_pow256_pos(k: nat)
    ensures
        pow256(k) >= 1,
    decreases k,
{
    if k > 0 {
        lemma_pow256_pos((k - 1) as nat);
    }
}

/// Lexicographic order agrees with the base-256 reading.
proof fn lemma_lex_base256(a: Seq<u8>, b: Seq<u8>)
    requires
        lex_less(a, b),
    ensures
        base256(a) < base256(b),
    decreases a.len(),
{
    lemma_base256_bound(a.drop_first());
    lemma_base256_bound(b.drop_first());
    lemma_pow256_pos((a.len() - 1) as nat);
    let w = pow256((a.len() - 1) as nat);
    if a[0] != b[0] {
        let x = a[0] as int;
        let y = b[0] as int;
        assert(x * w + w <= y * w) by (nonlinear_arith)
            requires
                x < y,
                w >= 1,
        ;
    } else {
        lemma_lex_base256(a.drop_first(), b.drop_first());
    }
}

pub proof fn lemma_lex_irreflexive(a: Seq<u8>)
    ensures
        !lex_less(a, a),
    decreases a.len(),
{
    if a.len() > 0 {
        lemma_lex_irreflexive(a.drop_first());
    }
}

pub proof fn lemma_lex_transitive(a: Seq<u8>, b: Seq<u8>, c: Seq<u8>)
    requires
        lex_less(a, b),
        lex_less(b, c),
    ensures
        lex_less(a, c),
    decreases a.len(),
{
    if a[0] == b[0] && b[0] == c[0] {
        lemma_lex_transitive(a.drop_first(), b.drop_first(), c.drop_first());
    }
}

pub proof fn lemma_lex_total(a: Seq<u8>, b: Seq<u8>)
    requires
        a.len() == b.len(),
        a != b,
    ensures
        lex_less(a, b) || lex_less(b, a),
    decreases a.len(),
{
    if a.len() == 0 {
        assert(a =~= b);
    } else if a[0] == b[0] {
        if a.drop_first() == b.drop_first() {
            assert(a =~= b) by {
                assert forall|i: int| 0 <= i < a.len() implies a[i] == b[i] by {
                    if i > 0 {
                        assert(a[i] == a.drop_first()[i - 1]);
                        assert(b[i] == b.drop_first()[i - 1]);
                    }
                }
            }
        }
        lemma_lex_total(a.drop_first(), b.drop_first());
    }
}

/// A first difference at position `i`, smaller in `a`, puts `a` before `b`.
proof fn lemma_lex_from_index(a: Seq<u8>, b: Seq<u8>, i: int)
    requires
        a.len() == b.len(),
        0 <= i < a.len(),
        forall|j: int| 0 <= j < i ==> a[j] == b[j],
        a[i] < b[i],
    ensures
        lex_less(a, b),
    decreases i,
{
    if i > 0 {
        assert(a[0] == b[0]);
        lemma_lex_from_index(a.drop_first(), b.drop_first(), i - 1);
    }
}

/// The identity comes first among the permutations of `0..n`.
pub proof fn lemma_identity_least(q: Seq<u8>, n: int)
    requires
        is_permutation(q, n),
        q != identity(n),
    ensures
        lex_less(identity(n), q),
{
    let id = identity(n);
    assert(exists|i: int| 0 <= i < n && q[i] != id[i]) by {
        if forall|i: int| 0 <= i < n ==> q[i] == id[i] {
            assert(q =~= id);
        }
    }
    let i0 = choose|i: int| 0 <= i < n && q[i] != id[i];
    let i = first_mismatch(q, id, i0);
    assert(q[i] as int >= i) by {
        if (q[i] as int) < i {
            let v = q[i] as int;
            assert(q[v] == id[v]);
            assert(q[v] as int == v);
            assert(q[v] != q[i]);
        }
    }
    lemma_lex_from_index(id, q, i);
}

proof fn first_mismatch(q: Seq<u8>, id: Seq<u8>, k: int) -> (i: int)
    requires
        0 <= k < q.len(),
        q.len() == id.len(),
        q[k] != id[k],
    ensures
        0 <= i <= k,
        q[i] != id[i],
        forall|j: int| 0 <= j < i ==> q[j] == id[j],
    decreases k,
{
    if exists|j: int| 0 <= j < k && q[j] != id[j] {
        let j = choose|j: int| 0 <= j < k && q[j] != id[j];
        first_mismatch(q, id, j)
    } else {
        k
    }
}

/// Two permutations of `0..n` hold the same values with the same multiplicities.
pub proof fn lemma_permutations_same_multiset(a: Seq<u8>, b: Seq<u8>, n: int)
    requires
        is_permutation(a, n),
        is_permutation(b, n),
    ensures
        a.to_multiset() == b.to_multiset(),
{
    assert(a.no_duplicates()) by {
        assert forall|i: int, j: int| 0 <= i < a.len() && 0 <= j < a.len() && i != j implies a[i] != a[j] by {
            if i < j {
                assert(a[i] != a[j]);
            } else {
                assert(a[j] != a[i]);
            }
        }
    }
    assert(b.no_duplicates()) by {
        assert forall|i: int, j: int| 0 <= i < b.len() && 0 <= j < b.len() && i != j implies b[i] != b[j] by {
            if i < j {
                assert(b[i] != b[j]);
            } else {
                assert(b[j] != b[i]);
            }
        }
    }
    a.lemma_multiset_has_no_duplicates();
    b.lemma_multiset_has_no_duplicates();
    a.to_multiset_ensures();
    b.to_multiset_ensures();
    assert forall|x: u8| a.to_multiset().count(x) == b.to_multiset().count(x) by {
        if a.contains(x) {
            let i = choose|i: int| 0 <= i < a.len() && a[i] == x;
            let j = lemma_permutation_onto(b, n, x as int);
            assert(b.contains(x));
        } else if b.contains(x) {
            let i = choose|i: int| 0 <= i < b.len() && b[i] == x;
            let j = lemma_permutation_onto(a, n, x as int);
            assert(a.contains(x));
        }
    }
    assert(a.to_multiset() =~= b.to_multiset());
}

/// A sequence holding the same values as a permutation of `0..n` is one too.
pub proof fn lemma_same_multiset_permutation(a: Seq<u8>, b: Seq<u8>, n: int)
    requires
        is_permutation(a, n),
        b.to_multiset() == a.to_multiset(),
    ensures
        is_permutation(b, n),
{
    a.to_multiset_ensures();
    b.to_multiset_ensures();
    assert(a.no_duplicates()) by {
        assert forall|i: int, j: int| 0 <= i < a.len() && 0 <= j < a.len() && i != j implies a[i] != a[j] by {
            if i < j {
                assert(a[i] != a[j]);
            } else {
                assert(a[j] != a[i]);
            }
        }
    }
    a.lemma_multiset_has_no_duplicates();
    b.lemma_multiset_has_no_duplicates_conv();
    assert forall|i: int| 0 <= i < n implies (#[trigger] b[i] as int) < n by {
        assert(b.contains(b[i]));
        assert(b.to_multiset().count(b[i]) > 0);
        assert(a.to_multiset().count(b[i]) > 0);
        assert(a.contains(b[i]));
    }
}

/// Calls `permutohedron::LexicalPermutation::next_permutation` on the slice
/// of the vector. Trusted: as its documentation says, when a lexicographically
/// greater arrangement of the same values exists it rearranges the values into
/// the least such arrangement and returns `true`; otherwise it leaves them as
/// they are and returns `false`.
#[verifier::external_body]
fn next_permutation(permutation: &mut Vec<u8>) -> (permuted: bool)
    ensures
        permuted == exists|q: Seq<u8>|
            q.to_multiset() == old(permutation)@.to_multiset() && #[trigger] lex_less(old(permutation)@, q),
        !permuted ==> final(permutation)@ == old(permutation)@,
        permuted ==> final(permutation)@.to_multiset() == old(permutation)@.to_multiset(),
        permuted ==> lex_less(old(permutation)@, final(permutation)@),
        permuted ==> forall|q: Seq<u8>|
            q.to_multiset() == old(permutation)@.to_multiset() && lex_less(old(permutation)@, q)
                ==> !#[trigger] lex_less(q, final(permutation)@),
{
    permutation.next_permutation()
}

/// All permutations of `0..n`, in lexicographic order.
pub fn generate_permutations(n: u8) -> (r: Vec<Vec<u8>>)
    ensures
        lists_all_permutations(r@, n as int),
        n <= 12 ==> r@.len() == fact(n as nat) && forall|c: int|
            0 <= c < r@.len() ==> #[trigger] r@[c]@ == perm_of_code(n as int, c),
{
    let mut permutation = vec![0; n as usize];
    for value in 0..n
        invariant
            permutation@.len() == n,
            forall|i: int| 0 <= i < value ==> permutation@[i] as int == i,
    {
        permutation[value as usize] = value;
    }
    proof {
        assert(permutation@ =~= identity(n as int));
    }
    let ghost id = identity(n as int);
    proof {
        assert forall|q: Seq<u8>| is_permutation(q, n as int) implies !lex_less(q, id) by {
            lemma_lex_irreflexive(q);
            if q != id {
                lemma_identity_least(q, n as int);
                if lex_less(q, id) {
                    lemma_lex_transitive(q, id, q);
                }
            }
        }
    }
    let mut permutations: Vec<Vec<u8>> = Vec::new();
    loop
        invariant_except_break
            is_permutation(permutation@, n as int),
            permutations@.len() == 0 ==> permutation@ == id,
            permutations@.len() > 0 ==> lex_less(permutations@[permutations@.len() - 1]@, permutation@),
            forall|k: int| 0 <= k < permutations@.len() ==> is_permutation(#[trigger] permutations@[k]@, n as int),
            forall|a: int, b: int|
                0 <= a < b < permutations@.len() ==> lex_less(#[trigger] permutations@[a]@, #[trigger] permutations@[b]@),
            forall|q: Seq<u8>|
                is_permutation(q, n as int) && lex_less(q, permutation@) ==> exists|k: int|
                    0 <= k < permutations@.len() && #[trigger] permutations@[k]@ == q,
        invariant
            id == identity(n as int),
        ensures
            lists_all_permutations(permutations@, n as int),
        decreases pow256(n as nat) - base256(permutation@),
    {
        let ghost before = permutations@;
        let ghost current = permutation@;
        permutations.push(permutation.clone());
        proof {
            assert(permutations@[before.len() as int]@ == current);
            assert forall|a: int, b: int|
                0 <= a < b < permutations@.len() implies lex_less(#[trigger] permutations@[a]@, #[trigger] permutations@[b]@) by {
                if b == before.len() {
                    if a < before.len() - 1 {
                        lemma_lex_transitive(before[a]@, before[before.len() - 1]@, current);
                    }
                } else {
                    assert(permutations@[a] == before[a]);
                }
            }
            assert forall|k: int| 0 <= k < permutations@.len() implies is_permutation(
                #[trigger] permutations@[k]@,
                n as int,
            ) by {
                if k < before.len() {
                    assert(permutations@[k] == before[k]);
                }
            }
        }
        let permuted = next_permutation(&mut permutation);
        if !permuted {
            proof {
                assert forall|q: Seq<u8>| is_permutation(q, n as int) implies exists|k: int|
                    0 <= k < permutations@.len() && #[trigger] permutations@[k]@ == q by {
                    if q == current {
                        assert(permutations@[before.len() as int]@ == q);
                    } else {
                        lemma_lex_total(q, current);
                        if lex_less(current, q) {
                            lemma_permutations_same_multiset(q, current, n as int);
                            assert(false);
                        }
                        let k = choose|k: int| 0 <= k < before.len() && #[trigger] before[k]@ == q;
                        assert(permutations@[k] == before[k]);
                    }
                }
            }
            break;
        }
        proof {
            lemma_same_multiset_permutation(current, permutation@, n as int);
            lemma_lex_base256(current, permutation@);
            lemma_base256_bound(permutation@);
            assert forall|q: Seq<u8>|
                is_permutation(q, n as int) && lex_less(q, permutation@) implies exists|k: int|
                    0 <= k < permutations@.len() && #[trigger] permutations@[k]@ == q by {
                if q == current {
                    assert(permutations@[before.len() as int]@ == q);
                } else {
                    lemma_lex_total(q, current);
                    if lex_less(current, q) {
                        lemma_permutations_same_multiset(q, current, n as int);
                        assert(false);
                    }
                    let k = choose|k: int| 0 <= k < before.len() && #[trigger] before[k]@ == q;
                    assert(permutations@[k] == before[k]);
                }
            }
        }
    }
    proof {
        if n <= 12 {
            lemma_generated_in_code_order(permutations@, n as int);
        }
    }
    permutations
}

/// For each size from 1 to `n`, all permutations of that size in
/// lexicographic order.
pub fn generate_permutations_up_to_size(n: u8) -> (r: Vec<Vec<Vec<u8>>>)
    ensures
        r@.len() == n,
        forall|k: int| 0 <= k < n ==> lists_all_permutations(#[trigger] r@[k]@, k + 1),
{
    let mut list_of_permutations: Vec<Vec<Vec<u8>>> = vec![];
    for permutation_size in 0..n
        invariant
            list_of_permutations@.len() == permutation_size,
            forall|k: int| 0 <= k < permutation_size ==> lists_all_permutations(#[trigger] list_of_permutations@[k]@, k + 1),
    {
        let permutations = generate_permutations(permutation_size + 1);
        list_of_permutations.push(permutations);
    }
    return list_of_permutations;
}

} // verus!
