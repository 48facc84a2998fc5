//! Random draws from the thread-local generator of `rand`.
use vstd::prelude::*;
use rand::seq::SliceRandom;
use rand::Rng;
use rand::rngs::ThreadRng;

verus! {

#[verifier::external_type_specification]
#[verifier::external_body]
pub struct ExThreadRng(rand::rngs::ThreadRng);

/// Relies on `Rng::gen_range`: a value drawn from `lo..hi`, which is not
/// empty (the call panics on an empty range).
#[verifier::external_body]
pub(crate) fn gen_range(rng: &mut ThreadRng, lo: usize, hi: usize) -> (r: usize)
    requires
        lo < hi,
    ensures
        lo <= r < hi,
{
    rng.gen_range(lo..hi)
}

/// Relies on `SliceRandom::shuffle`: the elements are permuted in place by
/// swaps.
#[verifier::external_body]
pub(crate) fn shuffle<T>(v: &mut Vec<T>, rng: &mut ThreadRng)
    ensures
        final(v)@.to_multiset() == old(v)@.to_multiset(),
{
    v.shuffle(rng)
}

/// Relies on `rand::seq::index::sample`: `amount` distinct indices below
/// `length`, in random order (the call panics when `amount > length`). It is
/// what `SliceRandom::choose_multiple` draws its elements by.
#[verifier::external_body]
pub(crate) fn sample_indices(rng: &mut ThreadRng, length: usize, amount: usize) -> (r: Vec<usize>)
    requires
        amount <= length,
    ensures
        r@.len() == amount,
        forall|i: int| 0 <= i < r@.len() ==> #[trigger] r@[i] < length,
        forall|i: int, j: int| 0 <= i < j < r@.len() ==> #[trigger] r@[i] != #[trigger] r@[j],
{
    rand::seq::index::sample(rng, length, amount).into_vec()
}

/// Relies on `SliceRandom::choose`: one element of the slice, which is not
/// empty (on an empty slice it returns `None`).
#[verifier::external_body]
pub(crate) fn choose_one<'a, T>(v: &'a Vec<T>, rng: &mut ThreadRng) -> (r: &'a T)
    requires
        v@.len() > 0,
    ensures
        v@.contains(*r),
{
    v.choose(rng).unwrap()
}

} // verus!
