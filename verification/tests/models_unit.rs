//! Unit tests for the card, deck and configuration models.

use datongzi_rules::{Card, Deck, GameConfig, Rank, Suit};

#[test]
fn card_test_suit_ordering() {
    assert!(Suit::Spades > Suit::Hearts);
    assert!(Suit::Hearts > Suit::Clubs);
    assert!(Suit::Clubs > Suit::Diamonds);
}

#[test]
fn card_test_rank_ordering() {
    assert!(Rank::Two > Rank::Ace);
    assert!(Rank::Ace > Rank::King);
    assert!(Rank::King > Rank::Three);
}

#[test]
fn card_test_card_creation() {
    let card = Card::new(Suit::Spades, Rank::Ace);
    assert_eq!(card.suit, Suit::Spades);
    assert_eq!(card.rank, Rank::Ace);
}

#[test]
fn test_scoring_cards() {
    assert!(Card::new(Suit::Spades, Rank::Five).is_scoring_card());
    assert!(Card::new(Suit::Spades, Rank::Ten).is_scoring_card());
    assert!(Card::new(Suit::Spades, Rank::King).is_scoring_card());
    assert!(!Card::new(Suit::Spades, Rank::Ace).is_scoring_card());
}

#[test]
fn test_score_value() {
    assert_eq!(Card::new(Suit::Spades, Rank::Five).score_value(), 5);
    assert_eq!(Card::new(Suit::Spades, Rank::Ten).score_value(), 10);
    assert_eq!(Card::new(Suit::Spades, Rank::King).score_value(), 10);
    assert_eq!(Card::new(Suit::Spades, Rank::Ace).score_value(), 0);
}

#[test]
fn card_test_deck_creation() {
    let deck = Deck::create_standard_deck(3);
    assert_eq!(deck.len(), 156);
}

#[test]
fn test_deck_deal() {
    let mut deck = Deck::create_standard_deck(1);
    let hand = deck.deal_cards(13);
    assert_eq!(hand.len(), 13);
    assert_eq!(deck.len(), 39);
}

#[test]
fn test_default_config() {
    let config = GameConfig::default();
    assert_eq!(config.num_decks, 3);
    assert_eq!(config.num_players, 3);
    assert!(config.validate().is_ok());
}

#[test]
fn test_deck_new_cell_counts_with_exclusions() {
    let mut deck = Deck::new(2, &[Rank::Five, Rank::Two]);
    assert_eq!(deck.len(), 2 * 4 * 11);
    let cards = deck.deal_cards(2 * 4 * 11);
    for suit in [Suit::Spades, Suit::Hearts, Suit::Clubs, Suit::Diamonds] {
        for value in 3..=15u8 {
            let rank = match value {
                3 => Rank::Three,
                4 => Rank::Four,
                5 => Rank::Five,
                6 => Rank::Six,
                7 => Rank::Seven,
                8 => Rank::Eight,
                9 => Rank::Nine,
                10 => Rank::Ten,
                11 => Rank::Jack,
                12 => Rank::Queen,
                13 => Rank::King,
                14 => Rank::Ace,
                _ => Rank::Two,
            };
            let count = cards
                .iter()
                .filter(|c| c.suit == suit && c.rank == rank)
                .count();
            let expected = if rank == Rank::Five || rank == Rank::Two { 0 } else { 2 };
            assert_eq!(count, expected);
        }
    }
}
