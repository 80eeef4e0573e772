//! Card ranks, two through ace, with their numeric values 2 to 14.

use vstd::prelude::*;

verus! {

#[derive(Clone, Copy, Debug, PartialEq, Eq, Hash, PartialOrd, Ord, Structural)]
pub enum Rank {
    Two,
    Three,
    Four,
    Five,
    Six,
    Seven,
    Eight,
    Nine,
    Ten,
    Jack,
    Queen,
    King,
    Ace,
}

impl Rank {
    pub open spec fn spec_value(self) -> int {
        match self {
            Rank::Two => 2,
            Rank::Three => 3,
            Rank::Four => 4,
            Rank::Five => 5,
            Rank::Six => 6,
            Rank::Seven => 7,
            Rank::Eight => 8,
            Rank::Nine => 9,
            Rank::Ten => 10,
            Rank::Jack => 11,
            Rank::Queen => 12,
            Rank::King => 13,
            Rank::Ace => 14,
        }
    }

    /// Numeric value of the rank, 2 to 14.
    pub fn value(self) -> (v: u8)
        ensures
            v == self.spec_value(),
            2 <= v <= 14,
    {
        match self {
            Rank::Two => 2,
            Rank::Three => 3,
            Rank::Four => 4,
            Rank::Five => 5,
            Rank::Six => 6,
            Rank::Seven => 7,
            Rank::Eight => 8,
            Rank::Nine => 9,
            Rank::Ten => 10,
            Rank::Jack => 11,
            Rank::Queen => 12,
            Rank::King => 13,
            Rank::Ace => 14,
        }
    }

    /// The rank with the given numeric value, if 2 to 14.
    pub fn from_value(value: u8) -> (r: Option<Rank>)
        ensures
            (match r {
                Some(rank) => 2 <= value <= 14 && rank.spec_value() == value,
                None => value < 2 || value > 14,
            }),
    {
        match value {
            2 => Some(Rank::Two),
            3 => Some(Rank::Three),
            4 => Some(Rank::Four),
            5 => Some(Rank::Five),
            6 => Some(Rank::Six),
            7 => Some(Rank::Seven),
            8 => Some(Rank::Eight),
            9 => Some(Rank::Nine),
            10 => Some(Rank::Ten),
            11 => Some(Rank::Jack),
            12 => Some(Rank::Queen),
            13 => Some(Rank::King),
            14 => Some(Rank::Ace),
            _ => None,
        }
    }

    /// The next rank up, or `None` past the ace.
    pub fn next(self) -> (r: Option<Rank>)
        ensures
            (match r {
                Some(rank) => rank.spec_value() == self.spec_value() + 1,
                None => self == Rank::Ace,
            }),
    {
        Rank::from_value(self.value() + 1)
    }

    /// The next rank down, or `None` below the two.
    pub fn previous(self) -> (r: Option<Rank>)
        ensures
            (match r {
                Some(rank) => rank.spec_value() == self.spec_value() - 1,
                None => self == Rank::Two,
            }),
    {
        Rank::from_value(self.value() - 1)
    }
}

} // verus!
