//! Standard playing-card utilities: cards, ranks, suits, decks, hands and
//! a generic betting-round state.

pub mod card;
pub mod deck;
pub mod hand;
pub mod rank;
pub mod state;
pub mod suit;
