//! The calls into outside code that the search relies on: `rand`, `itertools`, and
//! one conversion of `std`. Each states what the called function guarantees.
use rand::distributions::{Distribution, WeightedIndex};
use rand::seq::SliceRandom;
use rand::Rng;
use itertools::Itertools;
use vstd::prelude::*;

use crate::genalg::NurseStop;

verus! {

/// Sum of a sequence of weights.
pub open spec fn weight_sum(w: Seq<u64>) -> int
    decreases w.len(),
{
    if w.len() == 0 {
        0
    } else {
        weight_sum(w.drop_last()) + w.last()
    }
}

/// Relies on `rand::Rng::gen_range` over the thread-local generator: a value in `0..hi`
/// (it panics on an empty range).
#[verifier::external_body]
pub(crate) fn random_below(hi: usize) -> (r: usize)
    requires
        hi > 0,
    ensures
        r < hi,
{
    rand::thread_rng().gen_range(0..hi)
}

/// Relies on `rand::random::<bool>`: a fair coin.
#[verifier::external_body]
pub(crate) fn random_bool() -> bool {
    rand::random::<bool>()
}

/// Relies on `rand::seq::SliceRandom::shuffle`, which only swaps elements: the result
/// holds the same elements.
#[verifier::external_body]
pub(crate) fn shuffle_in_place(v: &mut Vec<NurseStop>)
    ensures
        final(v)@.len() == old(v)@.len(),
        final(v)@.to_multiset() == old(v)@.to_multiset(),
{
    v.shuffle(&mut rand::thread_rng())
}

/// Relies on `rand::seq::index::sample`: exactly `amount` distinct indices from
/// `0..length` (it panics when `amount > length`).
#[verifier::external_body]
pub(crate) fn sample_distinct(length: usize, amount: usize) -> (r: Vec<usize>)
    requires
        amount <= length,
    ensures
        r@.len() == amount,
        forall|i: int| 0 <= i < r@.len() ==> r@[i] < length,
        forall|i: int, j: int| 0 <= i < j < r@.len() ==> r@[i] != r@[j],
{
    rand::seq::index::sample(&mut rand::thread_rng(), length, amount).into_vec()
}

/// Relies on `rand::distributions::WeightedIndex`: builds the distribution (which fails
/// only on no weights, or all of them zero; summing may not overflow) and draws an index
/// of `weights`; the draw is the first index whose running sum exceeds a uniform value
/// below the total, so it never lands on a zero weight.
#[verifier::external_body]
pub(crate) fn weighted_index(weights: &Vec<u64>) -> (r: usize)
    requires
        exists|i: int| 0 <= i < weights@.len() && weights@[i] > 0,
        weight_sum(weights@) <= u64::MAX,
    ensures
        r < weights@.len(),
        weights@[r as int] > 0,
{
    WeightedIndex::new(weights).unwrap().sample(&mut rand::thread_rng())
}

/// Relies on `itertools::Itertools::permutations` with `k` equal to the length: every
/// ordering of the elements' positions, so each output is a rearrangement of `v` and
/// every rearrangement of `v` is among the outputs.
#[verifier::external_body]
pub(crate) fn all_orderings(v: &Vec<NurseStop>) -> (r: Vec<Vec<NurseStop>>)
    requires
        v@.len() <= 5,
    ensures
        forall|i: int| 0 <= i < r@.len() ==> #[trigger] r@[i]@.to_multiset() == v@.to_multiset(),
        forall|w: Seq<NurseStop>|
            #[trigger] w.to_multiset() == v@.to_multiset() ==> exists|i: int| 0 <= i < r@.len() && r@[i]@ == w,
{
    v.iter().cloned().permutations(v.len()).collect()
}

/// Relies on `String`'s `FromIterator<char>`: the characters in order.
#[verifier::external_body]
pub(crate) fn chars_to_string(v: &Vec<char>) -> (r: String)
    ensures
        r@ == v@,
{
    v.iter().collect()
}

} // verus!
