//! Integer keys of ordered maps behave as integers.

use vstd::prelude::*;

verus! {

/// `i32` keys compare as integers, so ordered maps keyed by them are plain maps.
pub proof fn lemma_i32_keys_ordered()
    ensures
        vstd::laws_cmp::obeys_cmp::<i32>(),
{
    broadcast use vstd::laws_cmp::group_laws_cmp;
}

} // verus!
