//! A deck: an ordered pile of distinct cards with a bitmap of what is
//! still in it.  Cards are dealt from the back of the pile; the bitmap
//! shrinks as they leave.

use vstd::prelude::*;

use crate::poker::card::{bit_at, card_from_index, card_index, spec_card_index, Card, CardRange};

verus! {

/// An ordered pile of distinct cards; the first `range.len()` entries of
/// `cards` are still in the deck.
#[derive(Clone, Debug)]
pub struct Deck {
    range: CardRange,
    cards: Vec<Card>,
}

impl Deck {
    pub closed spec fn spec_cards(&self) -> Seq<Card> {
        self.cards@
    }

    pub closed spec fn spec_range(&self) -> CardRange {
        self.range
    }

    /// The undealt prefix of the pile matches the bitmap: every undealt
    /// card is present, and no two undealt cards share an index.
    pub open spec fn wf(&self) -> bool {
        &&& self.spec_range().wf()
        &&& 0 <= self.spec_range().spec_len() <= self.spec_cards().len()
        &&& forall|i: int|
            0 <= i < self.spec_range().spec_len() ==> self.spec_range().spec_contains(
                #[trigger] self.spec_cards()[i],
            )
        &&& forall|i: int, j: int|
            0 <= i < j < self.spec_range().spec_len() ==> spec_card_index(
                #[trigger] self.spec_cards()[i],
            ) != spec_card_index(#[trigger] self.spec_cards()[j])
    }

    /// A deck holding exactly the given distinct cards, in order.
    pub fn from_cards(cards: Vec<Card>) -> (deck: Deck)
        requires
            cards@.len() >= 1,
            forall|i: int, j: int|
                0 <= i < j < cards@.len() ==> spec_card_index(#[trigger] cards@[i])
                    != spec_card_index(#[trigger] cards@[j]),
        ensures
            deck.wf(),
            deck.spec_cards() == cards@,
            deck.spec_range().spec_len() == cards@.len(),
    {
        let range = CardRange::from_cards(&cards);
        Deck { range, cards }
    }

    /// Cards left in the deck.
    pub fn len(&self) -> (n: usize)
        ensures
            n == self.spec_range().spec_len(),
    {
        self.range.len()
    }

    /// The ordered pile, dealt cards included.
    pub fn cards(&self) -> (cards: &Vec<Card>)
        ensures
            cards@ == self.spec_cards(),
    {
        &self.cards
    }

    /// Deals the last undealt card.
    pub fn deal_card(&mut self) -> (card: Card)
        requires
            old(self).wf(),
            old(self).spec_range().spec_len() >= 1,
        ensures
            final(self).wf(),
            card == old(self).spec_cards()[old(self).spec_range().spec_len() - 1],
            !final(self).spec_range().spec_contains(card),
            final(self).spec_cards() == old(self).spec_cards(),
            final(self).spec_range().spec_len() == old(self).spec_range().spec_len() - 1,
    {
        let remaining = self.range.len();
        let card = self.cards[remaining - 1];
        let removed = self.range.remove(card);
        proof {
            assert(removed);
            let start = old(self).spec_range().spec_start();
            assert forall|i: int|
                0 <= i < self.spec_range().spec_len() implies self.spec_range().spec_contains(
                #[trigger] self.spec_cards()[i],
            ) by {
                assert(old(self).spec_range().spec_contains(old(self).spec_cards()[i]));
                assert(spec_card_index(old(self).spec_cards()[i]) != spec_card_index(
                    old(self).spec_cards()[old(self).spec_range().spec_len() - 1],
                ));
                assert(old(self).spec_range().wf());
                assert(start <= spec_card_index(old(self).spec_cards()[i]) <= old(
                    self,
                ).spec_range().spec_end() < 52);
                let q = spec_card_index(old(self).spec_cards()[i]) - start;
                assert(0 <= q < 64);
                assert(q != spec_card_index(card) - start);
                assert(bit_at(self.spec_range().spec_present(), q) == bit_at(
                    old(self).spec_range().spec_present(),
                    q,
                ));
            }
        }
        card
    }

    /// Deals the last `out.len()` undealt cards, oldest first, into `out`.
    pub fn deal_cards(&mut self, out: &mut Vec<Card>)
        requires
            old(self).wf(),
            old(out)@.len() <= old(self).spec_range().spec_len(),
        ensures
            final(self).wf(),
            final(self).spec_cards() == old(self).spec_cards(),
            final(out)@.len() == old(out)@.len(),
            final(self).spec_range().spec_len() == old(self).spec_range().spec_len() - old(
                out,
            )@.len(),
            forall|j: int|
                0 <= j < final(out)@.len() ==> #[trigger] final(out)@[j] == old(
                    self,
                ).spec_cards()[old(self).spec_range().spec_len() - old(out)@.len() + j],
            forall|j: int|
                0 <= j < final(out)@.len() ==> !final(self).spec_range().spec_contains(
                    #[trigger] final(out)@[j],
                ),
    {
        let k = out.len();
        let remaining = self.range.len();
        let mut j: usize = 0;
        while j < k
            invariant
                self.spec_cards() == old(self).spec_cards(),
                self.spec_range() == old(self).spec_range(),
                self.wf(),
                j <= k,
                out@.len() == k,
                old(self).wf(),
                remaining == old(self).spec_range().spec_len(),
                k <= remaining <= old(self).spec_cards().len(),
                forall|m: int|
                    0 <= m < j ==> #[trigger] out@[m] == old(self).spec_cards()[remaining - k
                        + m],
            decreases k - j,
        {
            let card = self.cards[remaining - k + j];
            out[j] = card;
            j = j + 1;
        }
        let mut d: usize = 0;
        while d < k
            invariant
                d <= k,
                out@.len() == k,
                self.wf(),
                self.spec_cards() == old(self).spec_cards(),
                remaining == old(self).spec_range().spec_len(),
                k <= remaining <= old(self).spec_cards().len(),
                self.spec_range().spec_len() == remaining - d,
                forall|m: int|
                    0 <= m < d ==> !self.spec_range().spec_contains(
                        #[trigger] self.spec_cards()[remaining - 1 - m],
                    ),
                forall|m: int|
                    0 <= m < k ==> #[trigger] out@[m] == old(self).spec_cards()[remaining - k
                        + m],
            decreases k - d,
        {
            let idx = remaining - 1 - d;
            let card = self.cards[idx];
            let ghost pre = *self;
            let removed = self.range.remove(card);
            proof {
                assert(pre.spec_range().spec_contains(pre.spec_cards()[idx as int]));
                assert(removed);
                let start = pre.spec_range().spec_start();
                assert forall|i: int|
                    0 <= i < self.spec_range().spec_len() implies self.spec_range(
                ).spec_contains(#[trigger] self.spec_cards()[i]) by {
                    assert(pre.spec_range().spec_contains(pre.spec_cards()[i]));
                    assert(spec_card_index(pre.spec_cards()[i]) != spec_card_index(
                        pre.spec_cards()[idx as int],
                    ));
                    assert(pre.spec_range().wf());
                    assert(start <= spec_card_index(pre.spec_cards()[i]) <= pre.spec_range().spec_end() < 52);
                    let q = spec_card_index(pre.spec_cards()[i]) - start;
                    assert(0 <= q < 64);
                    assert(q != spec_card_index(card) - start);
                    assert(bit_at(self.spec_range().spec_present(), q) == bit_at(
                        pre.spec_range().spec_present(),
                        q,
                    ));
                }
                assert forall|m: int|
                    0 <= m < d + 1 implies !self.spec_range().spec_contains(
                    #[trigger] self.spec_cards()[remaining - 1 - m],
                ) by {
                    if m < d {
                        assert(!pre.spec_range().spec_contains(pre.spec_cards()[remaining - 1
                            - m]));
                        if pre.spec_range().spec_start() <= spec_card_index(
                            pre.spec_cards()[remaining - 1 - m],
                        ) <= pre.spec_range().spec_end() {
                            let q = spec_card_index(pre.spec_cards()[remaining - 1 - m])
                                - pre.spec_range().spec_start();
                            if q != spec_card_index(card) - pre.spec_range().spec_start() {
                                assert(bit_at(self.spec_range().spec_present(), q) == bit_at(
                                    pre.spec_range().spec_present(),
                                    q,
                                ));
                            }
                        }
                    } else {
                        assert(!self.spec_range().spec_contains(pre.spec_cards()[idx as int]));
                    }
                }
            }
            d = d + 1;
        }
        proof {
            assert forall|j: int| 0 <= j < out@.len() implies !self.spec_range().spec_contains(
                #[trigger] out@[j],
            ) by {
                let m = k - 1 - j;
                assert(!self.spec_range().spec_contains(
                    self.spec_cards()[remaining - 1 - m],
                ));
                assert(out@[j] == old(self).spec_cards()[remaining - k + j]);
            }
        }
    }

    /// Whether a card is still in the deck.
    pub fn contains(&self, card: Card) -> (present: bool)
        ensures
            present == self.spec_range().spec_contains(card),
    {
        self.range.contains(card)
    }
}

/// The full 52-card deck, clubs through spades, twos through aces.
pub fn full_deck() -> (deck: Deck)
    ensures
        deck.wf(),
        deck.spec_cards().len() == 52,
        deck.spec_range().spec_len() == 52,
        forall|i: int|
            0 <= i < 52 ==> spec_card_index(#[trigger] deck.spec_cards()[i]) == i,
{
    let mut cards: Vec<Card> = Vec::new();
    let mut i: usize = 0;
    while i < 52
        invariant
            i <= 52,
            cards@.len() == i,
            forall|j: int| 0 <= j < i ==> spec_card_index(#[trigger] cards@[j]) == j,
        decreases 52 - i,
    {
        cards.push(card_from_index(i as u8));
        i = i + 1;
    }
    Deck::from_cards(cards)
}

} // verus!
