//! Hand comparison, supplied by each poker variant.

use vstd::prelude::*;

use crate::poker::card::Card;

verus! {

/// A drawn hand of cards.
pub type Hand = Vec<Card>;

/// Ranks hands for a particular game's rules.  Implementations assign each
/// hand an ordered rank value; two hands compare as their ranks do.
pub trait HandComparator {
    type HandRank;

    fn hand_rank(&self, hand: &Hand) -> Self::HandRank;

    fn compare_hands(&self, a: &Hand, b: &Hand) -> Option<core::cmp::Ordering>;
}

} // verus!
