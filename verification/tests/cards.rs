//! Tests of the playing-card utilities.

use game_tree::math::ncr;
use game_tree::poker::card::{card_from_index, card_index, Card, CardRange};
use game_tree::poker::deck::{full_deck, Deck};
use game_tree::poker::rank::Rank;
use game_tree::poker::state::{Player, State};
use game_tree::poker::suit::Suit;

#[test]
fn test_ncr() {
    assert_eq!(ncr(5, 2), 10);
    assert_eq!(ncr(52, 1), 52);
    assert_eq!(ncr(4, 4), 1);
    assert_eq!(ncr(3, 4), 0);
    assert_eq!(ncr(13, 3), 286);
}

#[test]
fn test_card_round_trip() {
    for i in 0..52u8 {
        let card = card_from_index(i);
        assert_eq!(card_index(card), i);
    }
    assert_eq!(Card::from_rank_and_suit(Rank::Two, Suit::Clubs), Card::C2);
    assert_eq!(Card::from_rank_and_suit(Rank::Ace, Suit::Spades), Card::SA);
    assert_eq!(Card::HQ.rank(), Rank::Queen);
    assert_eq!(Card::HQ.suit(), Suit::Hearts);
}

#[test]
fn test_rank_and_suit_steps() {
    assert_eq!(Rank::Two.next(), Some(Rank::Three));
    assert_eq!(Rank::Ace.next(), None);
    assert_eq!(Rank::Ace.previous(), Some(Rank::King));
    assert_eq!(Rank::Two.previous(), None);
    assert_eq!(Suit::Clubs.next(), Some(Suit::Diamonds));
    assert_eq!(Suit::Spades.next(), None);
    assert_eq!(Suit::Spades.previous(), Some(Suit::Hearts));
    assert_eq!(Suit::Clubs.previous(), None);
}

#[test]
fn test_card_range() {
    let cards = vec![Card::C2, Card::C5, Card::C9];
    let mut range = CardRange::from_cards(&cards);
    assert_eq!(range.len(), 3);
    assert!(range.contains(Card::C5));
    assert!(!range.contains(Card::C3));

    // Adding a card inside the window that is absent succeeds once.
    assert!(range.add(Card::C3));
    assert!(!range.add(Card::C3));
    assert_eq!(range.len(), 4);

    // Removing works exactly once, and out-of-window cards never change
    // the set.
    assert!(range.remove(Card::C3));
    assert!(!range.remove(Card::C3));
    assert!(!range.add(Card::SA));
    assert_eq!(range.len(), 3);

    assert_eq!(range.index_of(Card::C2), Some(0));
    assert_eq!(range.index_of(Card::C5), Some(1));
    assert_eq!(range.index_of(Card::C9), Some(2));
    assert_eq!(range.index_of(Card::C4), None);
}

#[test]
fn test_combo_index() {
    let cards = vec![Card::C2, Card::C3, Card::C4, Card::C5, Card::C6];
    let range = CardRange::from_cards(&cards);
    // Positions 3 and 1, descending: C(3, 2) + C(1, 1).
    let combo = vec![Card::C5, Card::C3];
    assert_eq!(range.combo_index_of(&combo), Some(4));
    // A missing card yields no index.
    let missing = vec![Card::C9, Card::C3];
    assert_eq!(range.combo_index_of(&missing), None);
}

#[test]
fn test_full_deck_deals() {
    let mut deck = full_deck();
    assert_eq!(deck.len(), 52);
    assert!(deck.contains(Card::SA));

    // Cards come off the back of the pile.
    let top = deck.deal_card();
    assert_eq!(top, Card::SA);
    assert_eq!(deck.len(), 51);
    assert!(!deck.contains(Card::SA));

    let mut hand = vec![Card::C2; 2];
    deck.deal_cards(&mut hand);
    assert_eq!(hand, vec![Card::SQ, Card::SK]);
    assert_eq!(deck.len(), 49);
}

#[test]
fn test_deck_from_cards() {
    let deck = Deck::from_cards(vec![Card::D7, Card::H9, Card::C2]);
    assert_eq!(deck.len(), 3);
    assert!(deck.contains(Card::H9));
    assert!(!deck.contains(Card::HQ));
}

#[test]
fn test_betting_state() {
    let state: State<()> = State {
        player_stacks: vec![100, 100, 100, 100],
        player_committed: vec![0, 0, 0, 0],
        player_folded: vec![false, true, true, false],
        active_player: Player(0),
        last_aggressor: None,
        pot: 0,
        last_raise: 0,
        current_bet: 0,
        game_data: (),
    };
    assert_eq!(state.active_player_count(), 2);
    let next = state.next_active_player().unwrap();
    assert_eq!(next.0, 3);

    let all_folded: State<()> = State {
        player_stacks: vec![100, 100],
        player_committed: vec![0, 0],
        player_folded: vec![true, true],
        active_player: Player(0),
        last_aggressor: None,
        pot: 0,
        last_raise: 0,
        current_bet: 0,
        game_data: (),
    };
    assert!(all_folded.next_active_player().is_none());
}
