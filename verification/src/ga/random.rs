//! The random choices of the genetic operators.
//!
//! Randomness comes from `rand` and from `u_numflow`, the numerical crate
//! that `u_metaheur` builds on and that holds its Fisher-Yates shuffle. The
//! functions here make the calls; their contracts say what holds of every
//! outcome and are not proved.

use vstd::prelude::*;
use rand::rngs::SmallRng;
use rand::seq::IndexedRandom;
use rand::RngExt;
use crate::collections::texts;

verus! {

/// The small, fast generator of `rand`, carried through as an opaque value.
#[verifier::external_type_specification]
#[verifier::external_body]
pub struct ExSmallRng(SmallRng);

/// A uniformly drawn number of `low..=high`, by `RngExt::random_range`.
/// The contract claims that the number lies in the range; the call panics
/// on an empty range, which `low <= high` rules out.
#[verifier::external_body]
pub(crate) fn random_in(rng: &mut SmallRng, low: usize, high: usize) -> (r: usize)
    requires
        low <= high,
    ensures
        low <= r <= high,
{
    rng.random_range(low..=high)
}

/// Shuffles the items in place, by `u_numflow::random::shuffle`, which swaps
/// items pairwise. The contract claims that the items are the same
/// afterwards, each as often as before.
#[verifier::external_body]
pub(crate) fn shuffle_texts(items: &mut Vec<String>, rng: &mut SmallRng)
    ensures
        final(items)@.len() == old(items)@.len(),
        texts(final(items)@).to_multiset() == texts(old(items)@).to_multiset(),
{
    u_numflow::random::shuffle(items.as_mut_slice(), rng)
}

/// One uniformly drawn item, by `IndexedRandom::choose`. The contract
/// claims that the result is one of the items.
#[verifier::external_body]
pub(crate) fn choose_text(items: &Vec<String>, rng: &mut SmallRng) -> (r: String)
    requires
        items@.len() > 0,
    ensures
        texts(items@).contains(r@),
{
    items.choose(rng).unwrap().clone()
}

/// `amount` items drawn without repetition, in random order, by
/// `IndexedRandom::sample`; all items when there are fewer than `amount`.
/// The contract claims the number of results and that no item is drawn
/// more often than it occurs.
#[verifier::external_body]
pub(crate) fn sample_texts(items: &Vec<String>, amount: usize, rng: &mut SmallRng) -> (out: Vec<String>)
    ensures
        out@.len() == if amount <= items@.len() { amount as int } else { items@.len() as int },
        texts(out@).to_multiset().subset_of(texts(items@).to_multiset()),
{
    items.sample(rng, amount).cloned().collect()
}

} // verus!
