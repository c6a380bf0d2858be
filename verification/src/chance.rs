//! The random draws the engine makes, through the `rand` crate.

use vstd::prelude::*;
use rand::Rng;
use rand::seq::SliceRandom;

verus! {

/// A number drawn by `rand`'s thread-local generator with
/// `Rng::gen_range(0..n)`. The crate promises a value in `0..n` (and panics
/// on an empty range, which `requires` rules out); which value comes out is
/// left to chance and is not stated.
#[verifier::external_body]
pub(crate) fn random_below(n: usize) -> (r: usize)
    requires
        n > 0,
    ensures
        r < n,
{
    rand::thread_rng().gen_range(0..n)
}

/// Items drawn by `SliceRandom::choose_multiple` with the thread-local
/// generator: `min(amount, len)` items at distinct positions of `items`, in
/// random order. Which items, and their order, is left to chance and not
/// stated.
#[verifier::external_body]
pub(crate) fn choose_several<T: Copy>(items: &Vec<T>, amount: usize) -> (chosen: Vec<T>)
    ensures
        chosen@.len() == if amount < items@.len() { amount as int } else { items@.len() as int },
        exists|idx: Seq<int>|
            #![trigger idx.len()]
            idx.len() == chosen@.len() && idx.no_duplicates() && forall|k: int|
                0 <= k < idx.len() ==> 0 <= #[trigger] idx[k] < items@.len() && chosen@[k]
                    == items@[idx[k]],
{
    items.as_slice().choose_multiple(&mut rand::thread_rng(), amount).copied().collect()
}

} // verus!
