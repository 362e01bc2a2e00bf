//! The Lehmer codes of the pure permutations of every size up to a bound.
use vstd::prelude::*;
use crate::permutation::theory::fact;
use crate::permutation::permutation_label::{get_all_pure_lehmer_codes_of_size, pure_codes};

verus! {

/// `pure_lehmer_codes_for_size[n]` lists the codes of the pure permutations of size `n`.
pub struct PermutationTracker {
    pub pure_lehmer_codes_for_size: Vec<Vec<u32>>,
}

impl PermutationTracker {
    /// The codes of the pure permutations of each size from `0` to `size`.
    pub fn upto_size(size: u8) -> (r: PermutationTracker)
        requires
            size <= 12,
        ensures
            r.pure_lehmer_codes_for_size@.len() == size + 1,
            r.pure_lehmer_codes_for_size@[0]@ == seq![0u32],
            forall|n: int|
                1 <= n <= size ==> (#[trigger] r.pure_lehmer_codes_for_size@[n])@ == pure_codes(n, fact(n as nat) as int),
    {
        let mut pure_lehmer_codes_upto_size: Vec<Vec<u32>> = vec![];
        for n in 0..size + 1
            invariant
                size <= 12,
                pure_lehmer_codes_upto_size@.len() == n,
                n > 0 ==> pure_lehmer_codes_upto_size@[0]@ == seq![0u32],
                forall|m: int|
                    1 <= m < n ==> (#[trigger] pure_lehmer_codes_upto_size@[m])@ == pure_codes(m, fact(m as nat) as int),
        {
            let pure_lehmer_codes_for_n = get_all_pure_lehmer_codes_of_size(n);
            pure_lehmer_codes_upto_size.push(pure_lehmer_codes_for_n);
        }
        return PermutationTracker { pure_lehmer_codes_for_size: pure_lehmer_codes_upto_size };
    }
}

} // verus!
