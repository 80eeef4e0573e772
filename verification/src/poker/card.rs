//! Playing cards and bitmap card sets.
//!
//! A card is one of 52 rank-and-suit combinations, densely indexed from 0
//! (the two of clubs) to 51 (the ace of spades), thirteen ranks per suit.
//! A `CardRange` is a set of cards over a contiguous index window, stored
//! as one bit per card relative to the window's start.

use vstd::prelude::*;

use crate::poker::rank::Rank;
use crate::poker::suit::Suit;

verus! {

/// One of the 52 playing cards: suits in club, diamond, heart, spade
/// order, ranks from two to ace within each suit.
#[derive(Clone, Copy, Debug, PartialEq, Eq, Hash, PartialOrd, Ord, Structural)]
pub enum Card {
    C2, C3, C4, C5, C6, C7, C8, C9, CT, CJ, CQ, CK, CA,
    D2, D3, D4, D5, D6, D7, D8, D9, DT, DJ, DQ, DK, DA,
    H2, H3, H4, H5, H6, H7, H8, H9, HT, HJ, HQ, HK, HA,
    S2, S3, S4, S5, S6, S7, S8, S9, ST, SJ, SQ, SK, SA,
}

/// Dense index of a card: thirteen ranks per suit.
pub open spec fn spec_card_index(card: Card) -> int {
    match card {
        Card::C2 => 0,
        Card::C3 => 1,
        Card::C4 => 2,
        Card::C5 => 3,
        Card::C6 => 4,
        Card::C7 => 5,
        Card::C8 => 6,
        Card::C9 => 7,
        Card::CT => 8,
        Card::CJ => 9,
        Card::CQ => 10,
        Card::CK => 11,
        Card::CA => 12,
        Card::D2 => 13,
        Card::D3 => 14,
        Card::D4 => 15,
        Card::D5 => 16,
        Card::D6 => 17,
        Card::D7 => 18,
        Card::D8 => 19,
        Card::D9 => 20,
        Card::DT => 21,
        Card::DJ => 22,
        Card::DQ => 23,
        Card::DK => 24,
        Card::DA => 25,
        Card::H2 => 26,
        Card::H3 => 27,
        Card::H4 => 28,
        Card::H5 => 29,
        Card::H6 => 30,
        Card::H7 => 31,
        Card::H8 => 32,
        Card::H9 => 33,
        Card::HT => 34,
        Card::HJ => 35,
        Card::HQ => 36,
        Card::HK => 37,
        Card::HA => 38,
        Card::S2 => 39,
        Card::S3 => 40,
        Card::S4 => 41,
        Card::S5 => 42,
        Card::S6 => 43,
        Card::S7 => 44,
        Card::S8 => 45,
        Card::S9 => 46,
        Card::ST => 47,
        Card::SJ => 48,
        Card::SQ => 49,
        Card::SK => 50,
        Card::SA => 51,
    }
}

/// Dense index of a card, from 0 for the two of clubs to 51 for the ace
/// of spades.
pub fn card_index(card: Card) -> (i: u8)
    ensures
        i == spec_card_index(card),
        i < 52,
{
    match card {
        Card::C2 => 0,
        Card::C3 => 1,
        Card::C4 => 2,
        Card::C5 => 3,
        Card::C6 => 4,
        Card::C7 => 5,
        Card::C8 => 6,
        Card::C9 => 7,
        Card::CT => 8,
        Card::CJ => 9,
        Card::CQ => 10,
        Card::CK => 11,
        Card::CA => 12,
        Card::D2 => 13,
        Card::D3 => 14,
        Card::D4 => 15,
        Card::D5 => 16,
        Card::D6 => 17,
        Card::D7 => 18,
        Card::D8 => 19,
        Card::D9 => 20,
        Card::DT => 21,
        Card::DJ => 22,
        Card::DQ => 23,
        Card::DK => 24,
        Card::DA => 25,
        Card::H2 => 26,
        Card::H3 => 27,
        Card::H4 => 28,
        Card::H5 => 29,
        Card::H6 => 30,
        Card::H7 => 31,
        Card::H8 => 32,
        Card::H9 => 33,
        Card::HT => 34,
        Card::HJ => 35,
        Card::HQ => 36,
        Card::HK => 37,
        Card::HA => 38,
        Card::S2 => 39,
        Card::S3 => 40,
        Card::S4 => 41,
        Card::S5 => 42,
        Card::S6 => 43,
        Card::S7 => 44,
        Card::S8 => 45,
        Card::S9 => 46,
        Card::ST => 47,
        Card::SJ => 48,
        Card::SQ => 49,
        Card::SK => 50,
        Card::SA => 51,
    }
}

/// The card at a dense index.
pub fn card_from_index(index: u8) -> (card: Card)
    requires
        index < 52,
    ensures
        spec_card_index(card) == index,
{
    match index {
        0 => Card::C2,
        1 => Card::C3,
        2 => Card::C4,
        3 => Card::C5,
        4 => Card::C6,
        5 => Card::C7,
        6 => Card::C8,
        7 => Card::C9,
        8 => Card::CT,
        9 => Card::CJ,
        10 => Card::CQ,
        11 => Card::CK,
        12 => Card::CA,
        13 => Card::D2,
        14 => Card::D3,
        15 => Card::D4,
        16 => Card::D5,
        17 => Card::D6,
        18 => Card::D7,
        19 => Card::D8,
        20 => Card::D9,
        21 => Card::DT,
        22 => Card::DJ,
        23 => Card::DQ,
        24 => Card::DK,
        25 => Card::DA,
        26 => Card::H2,
        27 => Card::H3,
        28 => Card::H4,
        29 => Card::H5,
        30 => Card::H6,
        31 => Card::H7,
        32 => Card::H8,
        33 => Card::H9,
        34 => Card::HT,
        35 => Card::HJ,
        36 => Card::HQ,
        37 => Card::HK,
        38 => Card::HA,
        39 => Card::S2,
        40 => Card::S3,
        41 => Card::S4,
        42 => Card::S5,
        43 => Card::S6,
        44 => Card::S7,
        45 => Card::S8,
        46 => Card::S9,
        47 => Card::ST,
        48 => Card::SJ,
        49 => Card::SQ,
        50 => Card::SK,
        51 => Card::SA,
        _ => {
            proof {
                assert(false);
            }
            Card::C2
        },
    }
}

impl Card {
    /// Builds the card with the given rank and suit.
    pub fn from_rank_and_suit(rank: Rank, suit: Suit) -> (card: Card)
        ensures
            spec_card_index(card) == (suit.spec_value() / 16 - 1) * 13 + rank.spec_value() - 2,
    {
        let index = (suit.value() / 16 - 1) * 13 + rank.value() - 2;
        card_from_index(index)
    }

    pub fn rank(self) -> (r: Rank)
        ensures
            r.spec_value() == spec_card_index(self) % 13 + 2,
    {
        let value = card_index(self) % 13 + 2;
        match Rank::from_value(value) {
            Some(r) => r,
            None => {
                proof {
                    assert(false);
                }
                Rank::Two
            },
        }
    }

    pub fn suit(self) -> (s: Suit)
        ensures
            s.spec_value() == (spec_card_index(self) / 13 + 1) * 16,
    {
        let value = (card_index(self) / 13 + 1) * 16;
        match Suit::from_value(value) {
            Some(s) => s,
            None => {
                proof {
                    assert(false);
                }
                Suit::Clubs
            },
        }
    }
}

/// Bit `k` of a card-set bitmap.
pub open spec fn bit_at(present: u64, k: int) -> bool {
    (present >> (k as u64)) & 1 == 1
}

/// Number of set bits below `k`.
pub open spec fn count_bits(m: u64, k: int) -> int
    decreases k,
{
    if k <= 0 {
        0
    } else {
        count_bits(m, k - 1) + if bit_at(m, k - 1) {
            1int
        } else {
            0int
        }
    }
}

proof fn lemma_set_bit64(m: u64, k: u64)
    by (bit_vector)
    requires
        k < 64,
    ensures
        ((m | (1u64 << k)) >> k) & 1 == 1,
{
}

proof fn lemma_set_bit64_other(m: u64, k: u64, q: u64)
    by (bit_vector)
    requires
        k < 64,
        q < 64,
        k != q,
    ensures
        ((m | (1u64 << k)) >> q) & 1 == (m >> q) & 1,
{
}

proof fn lemma_clear_bit64(m: u64, k: u64)
    by (bit_vector)
    requires
        k < 64,
    ensures
        ((m & !(1u64 << k)) >> k) & 1 == 0,
{
}

proof fn lemma_clear_bit64_other(m: u64, k: u64, q: u64)
    by (bit_vector)
    requires
        k < 64,
        q < 64,
        k != q,
    ensures
        ((m & !(1u64 << k)) >> q) & 1 == (m >> q) & 1,
{
}

/// An all-clear bitmap counts zero.
proof fn lemma_count_zero(m: u64, n: int)
    requires
        0 <= n,
        forall|q: int| 0 <= q < n ==> !bit_at(m, q),
    ensures
        count_bits(m, n) == 0,
    decreases n,
{
    if n > 0 {
        lemma_count_zero(m, n - 1);
    }
}

/// Two bitmaps agreeing everywhere but at `k` count the same except for
/// that one bit.
proof fn lemma_count_bits_agree(m1: u64, m2: u64, k: int, n: int)
    requires
        0 <= n <= 64,
        forall|q: int| 0 <= q < n && q != k ==> #[trigger] bit_at(m2, q) == bit_at(m1, q),
    ensures
        count_bits(m2, n) == count_bits(m1, n) + (if 0 <= k < n {
            (if bit_at(m2, k) {
                1int
            } else {
                0int
            }) - (if bit_at(m1, k) {
                1int
            } else {
                0int
            })
        } else {
            0
        }),
    decreases n,
{
    if n > 0 {
        lemma_count_bits_agree(m1, m2, k, n - 1);
    }
}

proof fn lemma_count_bits_bound(m: u64, n: int)
    requires
        n >= 0,
    ensures
        0 <= count_bits(m, n) <= n,
    decreases n,
{
    if n > 0 {
        lemma_count_bits_bound(m, n - 1);
    }
}

/// The largest falling factorial a five-card combination index can use.
proof fn lemma_falling_63_5()
    ensures
        crate::math::falling(63, 5) == 843461640,
{
    assert(crate::math::falling(58, 0) == 1);
    assert(crate::math::falling(59, 1) == 59);
    assert(crate::math::falling(60, 2) == 3540);
    assert(crate::math::falling(61, 3) == 215940);
    assert(crate::math::falling(62, 4) == 13388280);
    assert(crate::math::falling(63, 5) == 843461640);
}

/// A set of cards within a contiguous window of dense indices, one bit
/// per card relative to `start`.
#[derive(Clone, Copy, Debug)]
pub struct CardRange {
    start: u8,
    end: u8,
    present: u64,
}

impl CardRange {
    pub closed spec fn spec_start(&self) -> int {
        self.start as int
    }

    pub closed spec fn spec_end(&self) -> int {
        self.end as int
    }

    pub closed spec fn spec_present(&self) -> u64 {
        self.present
    }

    pub open spec fn wf(&self) -> bool {
        0 <= self.spec_start() <= self.spec_end() < 52
    }

    /// The number of cards in the set.
    pub open spec fn spec_len(&self) -> int {
        count_bits(self.spec_present(), 64)
    }

    /// Whether `card` is in the set.
    pub open spec fn spec_contains(&self, card: Card) -> bool {
        &&& self.spec_start() <= spec_card_index(card) <= self.spec_end()
        &&& bit_at(self.spec_present(), spec_card_index(card) - self.spec_start())
    }

    /// A range over the window `[start, end]` holding exactly the cards of
    /// `present`.
    pub(crate) fn from_parts(start: Card, end: Card, present: u64) -> (range: CardRange)
        requires
            spec_card_index(start) <= spec_card_index(end),
        ensures
            range.spec_start() == spec_card_index(start),
            range.spec_end() == spec_card_index(end),
            range.spec_present() == present,
            range.wf(),
    {
        CardRange { start: card_index(start), end: card_index(end), present }
    }

    /// The smallest range whose window covers every given card, holding
    /// exactly the given cards.  The cards must be distinct.
    pub fn from_cards(cards: &Vec<Card>) -> (range: CardRange)
        requires
            cards@.len() >= 1,
            forall|i: int, j: int|
                0 <= i < j < cards@.len() ==> spec_card_index(#[trigger] cards@[i])
                    != spec_card_index(#[trigger] cards@[j]),
        ensures
            range.wf(),
            range.spec_len() == cards@.len(),
            forall|i: int|
                0 <= i < cards@.len() ==> range.spec_start() <= spec_card_index(
                    #[trigger] cards@[i],
                ) <= range.spec_end(),
            exists|i: int|
                0 <= i < cards@.len() && spec_card_index(#[trigger] cards@[i])
                    == range.spec_start(),
            exists|i: int|
                0 <= i < cards@.len() && spec_card_index(#[trigger] cards@[i])
                    == range.spec_end(),
            forall|i: int|
                0 <= i < cards@.len() ==> range.spec_contains(#[trigger] cards@[i]),
            forall|c: Card|
                range.spec_contains(c) ==> exists|i: int|
                    0 <= i < cards@.len() && spec_card_index(#[trigger] cards@[i])
                        == spec_card_index(c),
    {
        let n = cards.len();
        let mut lo: u8 = card_index(cards[0]);
        let mut hi: u8 = lo;
        let mut i: usize = 1;
        while i < n
            invariant
                n == cards@.len(),
                1 <= i <= n,
                lo <= hi < 52,
                lo <= spec_card_index(cards@[0]) <= hi,
                forall|j: int|
                    0 <= j < i ==> lo <= spec_card_index(#[trigger] cards@[j]) <= hi,
                exists|w: int| 0 <= w < i && spec_card_index(#[trigger] cards@[w]) == lo,
                exists|w: int| 0 <= w < i && spec_card_index(#[trigger] cards@[w]) == hi,
            decreases n - i,
        {
            let ci = card_index(cards[i]);
            if ci < lo {
                lo = ci;
            }
            if ci > hi {
                hi = ci;
            }
            i = i + 1;
        }
        let mut present: u64 = 0;
        let mut t: usize = 0;
        proof {
            assert forall|q: int| 0 <= q < 64 implies !bit_at(0u64, q) by {
                let qu = q as u64;
                assert((0u64 >> qu) & 1 == 0) by (bit_vector);
            }
            lemma_count_zero(0u64, 64);
        }
        while t < n
            invariant
                n == cards@.len(),
                t <= n,
                lo <= hi < 52,
                forall|i: int, j: int|
                    0 <= i < j < cards@.len() ==> spec_card_index(#[trigger] cards@[i])
                        != spec_card_index(#[trigger] cards@[j]),
                forall|j: int|
                    0 <= j < n ==> lo <= spec_card_index(#[trigger] cards@[j]) <= hi,
                forall|j: int|
                    0 <= j < t ==> bit_at(present, spec_card_index(#[trigger] cards@[j]) - lo),
                forall|q: int|
                    0 <= q < 64 ==> (#[trigger] bit_at(present, q) ==> exists|j: int|
                        0 <= j < t && spec_card_index(#[trigger] cards@[j]) - lo == q),
                count_bits(present, 64) == t,
            decreases n - t,
        {
            let ci = card_index(cards[t]);
            let k = ci - lo;
            proof {
                let ku = k as u64;
                lemma_set_bit64(present, ku);
                assert forall|q: int| 0 <= q < 64 && q != k implies #[trigger] bit_at(
                    present | (1u64 << ku),
                    q,
                ) == bit_at(present, q) by {
                    lemma_set_bit64_other(present, ku, q as u64);
                }
                assert(bit_at(present | (1u64 << ku), k as int));
                assert(!bit_at(present, k as int));
                lemma_count_bits_agree(present, present | (1u64 << ku), k as int, 64);
            }
            present = present | (1u64 << (k as u64));
            t = t + 1;
        }
        CardRange { start: lo, end: hi, present }
    }

    /// The number of cards in the set.
    pub fn len(&self) -> (n: usize)
        ensures
            n == self.spec_len(),
    {
        let mut count: usize = 0;
        let mut k: usize = 0;
        while k < 64
            invariant
                k <= 64,
                count == count_bits(self.spec_present(), k as int),
                count <= k,
            decreases 64 - k,
        {
            if (self.present >> (k as u64)) & 1 == 1 {
                count = count + 1;
            }
            k = k + 1;
        }
        count
    }

    pub fn contains(&self, card: Card) -> (present: bool)
        ensures
            present == self.spec_contains(card),
    {
        let i = card_index(card);
        if self.start <= i && i <= self.end {
            (self.present >> ((i - self.start) as u64)) & 1 == 1
        } else {
            false
        }
    }

    /// Inserts a card.  Returns true exactly when the card lies in the
    /// window and was not already present.
    pub fn add(&mut self, card: Card) -> (added: bool)
        requires
            old(self).wf(),
        ensures
            final(self).wf(),
            final(self).spec_start() == old(self).spec_start(),
            final(self).spec_end() == old(self).spec_end(),
            added == (old(self).spec_start() <= spec_card_index(card) <= old(self).spec_end()
                && !old(self).spec_contains(card)),
            (old(self).spec_start() <= spec_card_index(card) <= old(self).spec_end()) ==> {
                &&& final(self).spec_contains(card)
                &&& forall|q: int|
                    0 <= q < 64 && q != spec_card_index(card) - old(self).spec_start()
                        ==> #[trigger] bit_at(final(self).spec_present(), q) == bit_at(
                        old(self).spec_present(),
                        q,
                    )
                &&& final(self).spec_len() == old(self).spec_len() + (if old(
                    self,
                ).spec_contains(card) {
                    0int
                } else {
                    1int
                })
            },
            !(old(self).spec_start() <= spec_card_index(card) <= old(self).spec_end())
                ==> *final(self) == *old(self),
    {
        let i = card_index(card);
        if self.start <= i && i <= self.end {
            let k = (i - self.start) as u64;
            let existed = (self.present >> k) & 1 == 1;
            proof {
                lemma_set_bit64(self.present, k);
                assert forall|q: int| 0 <= q < 64 && q != k implies #[trigger] bit_at(
                    self.present | (1u64 << k),
                    q,
                ) == bit_at(self.present, q) by {
                    lemma_set_bit64_other(self.present, k, q as u64);
                }
                lemma_count_bits_agree(self.present, self.present | (1u64 << k), k as int, 64);
            }
            self.present = self.present | (1u64 << k);
            !existed
        } else {
            false
        }
    }

    /// Removes a card.  Returns true exactly when the card lies in the
    /// window and was present.
    pub fn remove(&mut self, card: Card) -> (removed: bool)
        requires
            old(self).wf(),
        ensures
            final(self).wf(),
            final(self).spec_start() == old(self).spec_start(),
            final(self).spec_end() == old(self).spec_end(),
            removed == old(self).spec_contains(card),
            (old(self).spec_start() <= spec_card_index(card) <= old(self).spec_end()) ==> {
                &&& !final(self).spec_contains(card)
                &&& forall|q: int|
                    0 <= q < 64 && q != spec_card_index(card) - old(self).spec_start()
                        ==> #[trigger] bit_at(final(self).spec_present(), q) == bit_at(
                        old(self).spec_present(),
                        q,
                    )
                &&& final(self).spec_len() == old(self).spec_len() - (if old(
                    self,
                ).spec_contains(card) {
                    1int
                } else {
                    0int
                })
            },
            !(old(self).spec_start() <= spec_card_index(card) <= old(self).spec_end())
                ==> *final(self) == *old(self),
    {
        let i = card_index(card);
        if self.start <= i && i <= self.end {
            let k = (i - self.start) as u64;
            let existed = (self.present >> k) & 1 == 1;
            proof {
                lemma_clear_bit64(self.present, k);
                assert forall|q: int| 0 <= q < 64 && q != k implies #[trigger] bit_at(
                    self.present & !(1u64 << k),
                    q,
                ) == bit_at(self.present, q) by {
                    lemma_clear_bit64_other(self.present, k, q as u64);
                }
                lemma_count_bits_agree(self.present, self.present & !(1u64 << k), k as int, 64);
            }
            self.present = self.present & !(1u64 << k);
            existed
        } else {
            false
        }
    }


    /// Position of the card within the set, as `index_of` reports it.
    pub open spec fn spec_position(&self, card: Card) -> Option<int> {
        if self.spec_contains(card) {
            Some(count_bits(self.spec_present(), spec_card_index(card) - self.spec_start()))
        } else {
            None
        }
    }

    /// The combinatorial index of a descending combination of present
    /// cards: the sum over the cards of `C(position, remaining)`.  `None`
    /// as soon as any card is missing from the set.
    pub open spec fn spec_combo_index(&self, cards: Seq<Card>, i: int) -> Option<int>
        decreases cards.len() - i,
    {
        if i < 0 || i >= cards.len() {
            Some(0)
        } else {
            match self.spec_position(cards[i]) {
                None => None,
                Some(x) => match self.spec_combo_index(cards, i + 1) {
                    None => None,
                    Some(rest) => Some(
                        crate::math::spec_ncr(x, (cards.len() - i) as nat) + rest,
                    ),
                },
            }
        }
    }

    /// The combinatorial index of a hand of at most five cards, sorted
    /// into descending order.  `None` if any card is not in the set.
    pub fn combo_index_of(&self, cards: &Vec<Card>) -> (combo: Option<usize>)
        requires
            self.wf(),
            cards@.len() <= 5,
        ensures
            (match combo {
                Some(v) => self.spec_combo_index(cards@, 0) == Some(v as int),
                None => self.spec_combo_index(cards@, 0) is None,
            }),
    {
        let n = cards.len();
        let mut sum: usize = 0;
        let mut i: usize = 0;
        proof {
            lemma_falling_63_5();
        }
        while i < n
            invariant
                self.wf(),
                n == cards@.len() <= 5,
                i <= n,
                sum <= (i as int) * 843461640,
                (match self.spec_combo_index(cards@, i as int) {
                    Some(rest) => self.spec_combo_index(cards@, 0) == Some(sum + rest),
                    None => self.spec_combo_index(cards@, 0) is None,
                }),
            decreases n - i,
        {
            match self.index_of(cards[i]) {
                Some(x) => {
                    let r = n - i;
                    proof {
                        lemma_falling_63_5();
                        lemma_count_bits_bound(
                            self.spec_present(),
                            spec_card_index(cards@[i as int]) - self.spec_start(),
                        );
                        crate::math::lemma_falling_pos(r as int, r as nat);
                        assert(self.spec_contains(cards@[i as int]));
                        assert(x <= spec_card_index(cards@[i as int]) - self.spec_start());
                        assert(x <= 63);
                        assert(1 <= r <= 5);
                        if x > r {
                            crate::math::lemma_falling_mono_n(x as int, 63, r as nat);
                            crate::math::lemma_falling_mono_r(63, r as nat, 5);
                            crate::math::lemma_falling_pos(x as int, r as nat);
                            assert(crate::math::spec_ncr(x as int, r as nat) <= crate::math::falling(
                                x as int,
                                r as nat,
                            )) by (nonlinear_arith)
                                requires
                                    crate::math::spec_ncr(x as int, r as nat) == crate::math::falling(
                                        x as int,
                                        r as nat,
                                    ) / crate::math::factorial(r as nat),
                                    crate::math::factorial(r as nat) >= 1,
                                    crate::math::falling(x as int, r as nat) >= 0,
                            ;
                        }
                        assert((i as int + 1) * 843461640 == (i as int) * 843461640
                            + 843461640) by (nonlinear_arith);
                    }
                    proof {
                        assert(x > r ==> crate::math::falling(x as int, r as nat)
                            <= usize::MAX);
                    }
                    let term = crate::math::ncr(x, r);
                    sum = sum + term;
                },
                None => {
                    return None;
                },
            }
            i = i + 1;
        }
        Some(sum)
    }

    /// Position of the card within the set: the number of present cards
    /// with a smaller dense index.  `None` if the card is not in the set.
    pub fn index_of(&self, card: Card) -> (position: Option<usize>)
        ensures
            (match position {
                Some(p) => self.spec_contains(card) && p == count_bits(
                    self.spec_present(),
                    spec_card_index(card) - self.spec_start(),
                ),
                None => !self.spec_contains(card),
            }),
    {
        let i = card_index(card);
        if self.start <= i && i <= self.end && (self.present >> ((i - self.start) as u64)) & 1
            == 1 {
            let rel = (i - self.start) as usize;
            let mut count: usize = 0;
            let mut k: usize = 0;
            while k < rel
                invariant
                    k <= rel,
                    rel < 64,
                    count == count_bits(self.spec_present(), k as int),
                    count <= k,
                decreases rel - k,
            {
                if (self.present >> (k as u64)) & 1 == 1 {
                    count = count + 1;
                }
                k = k + 1;
            }
            Some(count)
        } else {
            None
        }
    }
}

} // verus!
