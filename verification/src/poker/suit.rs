//! Card suits, with their nibble-coded values 0x10 to 0x40.

use vstd::prelude::*;

verus! {

#[derive(Clone, Copy, Debug, PartialEq, Eq, Hash, PartialOrd, Ord, Structural)]
pub enum Suit {
    Clubs,
    Diamonds,
    Hearts,
    Spades,
}

impl Suit {
    pub open spec fn spec_value(self) -> int {
        match self {
            Suit::Clubs => 0x10,
            Suit::Diamonds => 0x20,
            Suit::Hearts => 0x30,
            Suit::Spades => 0x40,
        }
    }

    /// Nibble-coded value of the suit: 0x10 clubs up to 0x40 spades.
    pub fn value(self) -> (v: u8)
        ensures
            v == self.spec_value(),
            0x10 <= v <= 0x40,
    {
        match self {
            Suit::Clubs => 0x10,
            Suit::Diamonds => 0x20,
            Suit::Hearts => 0x30,
            Suit::Spades => 0x40,
        }
    }

    /// The suit with the given coded value, if any.
    pub fn from_value(value: u8) -> (s: Option<Suit>)
        ensures
            (match s {
                Some(suit) => suit.spec_value() == value,
                None => value != 0x10 && value != 0x20 && value != 0x30 && value != 0x40,
            }),
    {
        match value {
            0x10 => Some(Suit::Clubs),
            0x20 => Some(Suit::Diamonds),
            0x30 => Some(Suit::Hearts),
            0x40 => Some(Suit::Spades),
            _ => None,
        }
    }

    /// The next suit up, or `None` past spades.
    pub fn next(self) -> (s: Option<Suit>)
        ensures
            (match s {
                Some(suit) => suit.spec_value() == self.spec_value() + 0x10,
                None => self == Suit::Spades,
            }),
    {
        Suit::from_value(self.value() + 0x10)
    }

    /// The next suit down, or `None` below clubs.
    pub fn previous(self) -> (s: Option<Suit>)
        ensures
            (match s {
                Some(suit) => suit.spec_value() == self.spec_value() - 0x10,
                None => self == Suit::Clubs,
            }),
    {
        Suit::from_value(self.value() - 0x10)
    }
}

} // verus!
