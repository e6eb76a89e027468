//! Unit tests for pattern types, recognition and validation.

use datongzi_rules::{Card, PatternRecognizer, PlayPattern, PlayType, PlayValidator, Rank, Suit};

#[test]
fn test_play_type_ordering() {
    assert!(PlayType::Single < PlayType::Pair);
    assert!(PlayType::Pair < PlayType::Bomb);
    assert!(PlayType::Bomb < PlayType::Tongzi);
    assert!(PlayType::Tongzi < PlayType::Dizha);
}

#[test]
fn test_play_pattern_creation() {
    let pattern = PlayPattern::new(
        PlayType::Single,
        Rank::Ace,
        Some(Suit::Spades),
        vec![],
        1,
        14,
    );

    assert_eq!(pattern.play_type(), PlayType::Single);
    assert_eq!(pattern.primary_rank(), Rank::Ace);
    assert_eq!(pattern.primary_suit(), Some(Suit::Spades));
    assert_eq!(pattern.card_count(), 1);
    assert_eq!(pattern.strength(), 14);
}

#[test]
fn test_single_pattern() {
    let cards = vec![Card::new(Suit::Spades, Rank::Ace)];
    let pattern = PatternRecognizer::analyze_cards(&cards);
    assert!(pattern.is_some());
    let pattern = pattern.unwrap();
    assert_eq!(pattern.play_type, PlayType::Single);
    assert_eq!(pattern.primary_rank, Rank::Ace);
    assert_eq!(pattern.strength, 14);
}

#[test]
fn test_pair_pattern() {
    let cards = vec![
        Card::new(Suit::Spades, Rank::Ace),
        Card::new(Suit::Hearts, Rank::Ace),
    ];
    let pattern = PatternRecognizer::analyze_cards(&cards);
    assert!(pattern.is_some());
    let pattern = pattern.unwrap();
    assert_eq!(pattern.play_type, PlayType::Pair);
    assert_eq!(pattern.primary_rank, Rank::Ace);
}

#[test]
fn test_consecutive_pairs() {
    let cards = vec![
        Card::new(Suit::Spades, Rank::Three),
        Card::new(Suit::Hearts, Rank::Three),
        Card::new(Suit::Spades, Rank::Four),
        Card::new(Suit::Hearts, Rank::Four),
    ];
    let pattern = PatternRecognizer::analyze_cards(&cards);
    assert!(pattern.is_some());
    let pattern = pattern.unwrap();
    assert_eq!(pattern.play_type, PlayType::ConsecutivePairs);
    assert_eq!(pattern.primary_rank, Rank::Four);
}

#[test]
fn test_triple_pattern() {
    let cards = vec![
        Card::new(Suit::Spades, Rank::King),
        Card::new(Suit::Hearts, Rank::King),
        Card::new(Suit::Clubs, Rank::King),
    ];
    let pattern = PatternRecognizer::analyze_cards(&cards);
    assert!(pattern.is_some());
    let pattern = pattern.unwrap();
    assert_eq!(pattern.play_type, PlayType::Triple);
    assert_eq!(pattern.primary_rank, Rank::King);
}

#[test]
fn test_tongzi_pattern() {
    let cards = vec![
        Card::new(Suit::Spades, Rank::King),
        Card::new(Suit::Spades, Rank::King),
        Card::new(Suit::Spades, Rank::King),
    ];
    let pattern = PatternRecognizer::analyze_cards(&cards);
    assert!(pattern.is_some());
    let pattern = pattern.unwrap();
    assert_eq!(pattern.play_type, PlayType::Tongzi);
    assert_eq!(pattern.primary_rank, Rank::King);
    assert_eq!(pattern.primary_suit, Some(Suit::Spades));
}

#[test]
fn test_bomb_pattern() {
    let cards = vec![
        Card::new(Suit::Spades, Rank::Ace),
        Card::new(Suit::Hearts, Rank::Ace),
        Card::new(Suit::Clubs, Rank::Ace),
        Card::new(Suit::Diamonds, Rank::Ace),
    ];
    let pattern = PatternRecognizer::analyze_cards(&cards);
    assert!(pattern.is_some());
    let pattern = pattern.unwrap();
    assert_eq!(pattern.play_type, PlayType::Bomb);
    assert_eq!(pattern.primary_rank, Rank::Ace);
    assert_eq!(pattern.card_count, 4);
}

#[test]
fn test_dizha_pattern() {
    let cards = vec![
        Card::new(Suit::Spades, Rank::Two),
        Card::new(Suit::Spades, Rank::Two),
        Card::new(Suit::Hearts, Rank::Two),
        Card::new(Suit::Hearts, Rank::Two),
        Card::new(Suit::Clubs, Rank::Two),
        Card::new(Suit::Clubs, Rank::Two),
        Card::new(Suit::Diamonds, Rank::Two),
        Card::new(Suit::Diamonds, Rank::Two),
    ];
    let pattern = PatternRecognizer::analyze_cards(&cards);
    assert!(pattern.is_some());
    let pattern = pattern.unwrap();
    assert_eq!(pattern.play_type, PlayType::Dizha);
    assert_eq!(pattern.primary_rank, Rank::Two);
}

#[test]
fn test_airplane_pattern() {
    let cards = vec![
        Card::new(Suit::Spades, Rank::Three),
        Card::new(Suit::Hearts, Rank::Three),
        Card::new(Suit::Clubs, Rank::Three),
        Card::new(Suit::Spades, Rank::Four),
        Card::new(Suit::Hearts, Rank::Four),
        Card::new(Suit::Clubs, Rank::Four),
    ];
    let pattern = PatternRecognizer::analyze_cards(&cards);
    assert!(pattern.is_some());
    let pattern = pattern.unwrap();
    assert_eq!(pattern.play_type, PlayType::Airplane);
    assert_eq!(pattern.primary_rank, Rank::Four);
}

#[test]
fn test_are_consecutive() {
    let ranks = vec![Rank::Three, Rank::Four, Rank::Five];
    assert!(PatternRecognizer::are_consecutive(&ranks));

    let ranks = vec![Rank::Three, Rank::Five];
    assert!(!PatternRecognizer::are_consecutive(&ranks));

    let ranks = vec![Rank::Ace];
    assert!(PatternRecognizer::are_consecutive(&ranks));
}

#[test]
fn test_can_beat_new_round() {
    let cards = vec![Card::new(Suit::Spades, Rank::Ace)];
    assert!(PlayValidator::can_beat_play(&cards, None));

    let cards = vec![
        Card::new(Suit::Spades, Rank::Ace),
        Card::new(Suit::Hearts, Rank::Ace),
    ];
    assert!(PlayValidator::can_beat_play(&cards, None));

    let cards = vec![
        Card::new(Suit::Spades, Rank::Ace),
        Card::new(Suit::Hearts, Rank::King),
    ];
    assert!(!PlayValidator::can_beat_play(&cards, None));
}

#[test]
fn test_bomb_beats_normal() {
    let normal_pattern = PatternRecognizer::analyze_cards(&[
        Card::new(Suit::Spades, Rank::Ace),
        Card::new(Suit::Hearts, Rank::Ace),
    ])
    .unwrap();

    let bomb_cards = vec![
        Card::new(Suit::Spades, Rank::King),
        Card::new(Suit::Hearts, Rank::King),
        Card::new(Suit::Clubs, Rank::King),
        Card::new(Suit::Diamonds, Rank::King),
    ];

    assert!(PlayValidator::can_beat_play(
        &bomb_cards,
        Some(&normal_pattern)
    ));

    let bomb_pattern = PatternRecognizer::analyze_cards(&bomb_cards).unwrap();
    let normal_cards = vec![
        Card::new(Suit::Spades, Rank::Ace),
        Card::new(Suit::Hearts, Rank::Ace),
    ];

    assert!(!PlayValidator::can_beat_play(
        &normal_cards,
        Some(&bomb_pattern)
    ));
}

#[test]
fn recognizer_test_tongzi_beats_bomb() {
    let bomb_pattern = PatternRecognizer::analyze_cards(&[
        Card::new(Suit::Spades, Rank::King),
        Card::new(Suit::Hearts, Rank::King),
        Card::new(Suit::Clubs, Rank::King),
        Card::new(Suit::Diamonds, Rank::King),
    ])
    .unwrap();

    let tongzi_cards = vec![
        Card::new(Suit::Spades, Rank::Three),
        Card::new(Suit::Spades, Rank::Three),
        Card::new(Suit::Spades, Rank::Three),
    ];

    assert!(PlayValidator::can_beat_play(
        &tongzi_cards,
        Some(&bomb_pattern)
    ));

    let tongzi_pattern = PatternRecognizer::analyze_cards(&tongzi_cards).unwrap();
    let bomb_cards = vec![
        Card::new(Suit::Spades, Rank::Ace),
        Card::new(Suit::Hearts, Rank::Ace),
        Card::new(Suit::Clubs, Rank::Ace),
        Card::new(Suit::Diamonds, Rank::Ace),
    ];

    assert!(!PlayValidator::can_beat_play(
        &bomb_cards,
        Some(&tongzi_pattern)
    ));
}

#[test]
fn test_dizha_beats_all() {
    let dizha_cards = vec![
        Card::new(Suit::Spades, Rank::Two),
        Card::new(Suit::Spades, Rank::Two),
        Card::new(Suit::Hearts, Rank::Two),
        Card::new(Suit::Hearts, Rank::Two),
        Card::new(Suit::Clubs, Rank::Two),
        Card::new(Suit::Clubs, Rank::Two),
        Card::new(Suit::Diamonds, Rank::Two),
        Card::new(Suit::Diamonds, Rank::Two),
    ];

    let bomb_pattern = PatternRecognizer::analyze_cards(&[
        Card::new(Suit::Spades, Rank::Ace),
        Card::new(Suit::Hearts, Rank::Ace),
        Card::new(Suit::Clubs, Rank::Ace),
        Card::new(Suit::Diamonds, Rank::Ace),
    ])
    .unwrap();

    assert!(PlayValidator::can_beat_play(
        &dizha_cards,
        Some(&bomb_pattern)
    ));

    let tongzi_pattern = PatternRecognizer::analyze_cards(&[
        Card::new(Suit::Spades, Rank::King),
        Card::new(Suit::Spades, Rank::King),
        Card::new(Suit::Spades, Rank::King),
    ])
    .unwrap();

    assert!(PlayValidator::can_beat_play(
        &dizha_cards,
        Some(&tongzi_pattern)
    ));

    let lower_dizha = PatternRecognizer::analyze_cards(&[
        Card::new(Suit::Spades, Rank::Three),
        Card::new(Suit::Spades, Rank::Three),
        Card::new(Suit::Hearts, Rank::Three),
        Card::new(Suit::Hearts, Rank::Three),
        Card::new(Suit::Clubs, Rank::Three),
        Card::new(Suit::Clubs, Rank::Three),
        Card::new(Suit::Diamonds, Rank::Three),
        Card::new(Suit::Diamonds, Rank::Three),
    ])
    .unwrap();

    assert!(PlayValidator::can_beat_play(
        &dizha_cards,
        Some(&lower_dizha)
    ));

    let dizha_pattern = PatternRecognizer::analyze_cards(&dizha_cards).unwrap();
    let lower_dizha_cards = vec![
        Card::new(Suit::Spades, Rank::Three),
        Card::new(Suit::Spades, Rank::Three),
        Card::new(Suit::Hearts, Rank::Three),
        Card::new(Suit::Hearts, Rank::Three),
        Card::new(Suit::Clubs, Rank::Three),
        Card::new(Suit::Clubs, Rank::Three),
        Card::new(Suit::Diamonds, Rank::Three),
        Card::new(Suit::Diamonds, Rank::Three),
    ];

    assert!(!PlayValidator::can_beat_play(
        &lower_dizha_cards,
        Some(&dizha_pattern)
    ));
}

#[test]
fn test_same_type_comparison() {
    let lower_pair = PatternRecognizer::analyze_cards(&[
        Card::new(Suit::Spades, Rank::Three),
        Card::new(Suit::Hearts, Rank::Three),
    ])
    .unwrap();

    let higher_pair_cards = vec![
        Card::new(Suit::Spades, Rank::King),
        Card::new(Suit::Hearts, Rank::King),
    ];

    assert!(PlayValidator::can_beat_play(
        &higher_pair_cards,
        Some(&lower_pair)
    ));

    let higher_pair = PatternRecognizer::analyze_cards(&higher_pair_cards).unwrap();
    let lower_pair_cards = vec![
        Card::new(Suit::Spades, Rank::Three),
        Card::new(Suit::Hearts, Rank::Three),
    ];

    assert!(!PlayValidator::can_beat_play(
        &lower_pair_cards,
        Some(&higher_pair)
    ));

    let triple_cards = vec![
        Card::new(Suit::Spades, Rank::Ace),
        Card::new(Suit::Hearts, Rank::Ace),
        Card::new(Suit::Clubs, Rank::Ace),
    ];

    assert!(!PlayValidator::can_beat_play(
        &triple_cards,
        Some(&lower_pair)
    ));
}

#[test]
fn test_consecutive_pairs_same_length() {
    let two_pairs = PatternRecognizer::analyze_cards(&[
        Card::new(Suit::Spades, Rank::Three),
        Card::new(Suit::Hearts, Rank::Three),
        Card::new(Suit::Spades, Rank::Four),
        Card::new(Suit::Hearts, Rank::Four),
    ])
    .unwrap();

    let three_pairs_cards = vec![
        Card::new(Suit::Spades, Rank::Five),
        Card::new(Suit::Hearts, Rank::Five),
        Card::new(Suit::Spades, Rank::Six),
        Card::new(Suit::Hearts, Rank::Six),
        Card::new(Suit::Spades, Rank::Seven),
        Card::new(Suit::Hearts, Rank::Seven),
    ];

    assert!(!PlayValidator::can_beat_play(
        &three_pairs_cards,
        Some(&two_pairs)
    ));

    let higher_two_pairs_cards = vec![
        Card::new(Suit::Spades, Rank::Five),
        Card::new(Suit::Hearts, Rank::Five),
        Card::new(Suit::Spades, Rank::Six),
        Card::new(Suit::Hearts, Rank::Six),
    ];

    assert!(PlayValidator::can_beat_play(
        &higher_two_pairs_cards,
        Some(&two_pairs)
    ));
}

#[test]
fn test_bomb_vs_bomb_comparison() {
    let four_bomb_three = PatternRecognizer::analyze_cards(&[
        Card::new(Suit::Spades, Rank::Three),
        Card::new(Suit::Hearts, Rank::Three),
        Card::new(Suit::Clubs, Rank::Three),
        Card::new(Suit::Diamonds, Rank::Three),
    ])
    .unwrap();

    let four_bomb_ace_cards = vec![
        Card::new(Suit::Spades, Rank::Ace),
        Card::new(Suit::Hearts, Rank::Ace),
        Card::new(Suit::Clubs, Rank::Ace),
        Card::new(Suit::Diamonds, Rank::Ace),
    ];

    assert!(PlayValidator::can_beat_play(
        &four_bomb_ace_cards,
        Some(&four_bomb_three)
    ));

    let four_bomb_ace = PatternRecognizer::analyze_cards(&four_bomb_ace_cards).unwrap();
    let four_bomb_three_cards = vec![
        Card::new(Suit::Spades, Rank::Three),
        Card::new(Suit::Hearts, Rank::Three),
        Card::new(Suit::Clubs, Rank::Three),
        Card::new(Suit::Diamonds, Rank::Three),
    ];

    assert!(!PlayValidator::can_beat_play(
        &four_bomb_three_cards,
        Some(&four_bomb_ace)
    ));
}

#[test]
fn test_tongzi_vs_tongzi_comparison() {
    let tongzi_spades_three = PatternRecognizer::analyze_cards(&[
        Card::new(Suit::Spades, Rank::Three),
        Card::new(Suit::Spades, Rank::Three),
        Card::new(Suit::Spades, Rank::Three),
    ])
    .unwrap();

    let tongzi_king_cards = vec![
        Card::new(Suit::Hearts, Rank::King),
        Card::new(Suit::Hearts, Rank::King),
        Card::new(Suit::Hearts, Rank::King),
    ];

    assert!(PlayValidator::can_beat_play(
        &tongzi_king_cards,
        Some(&tongzi_spades_three)
    ));

    let tongzi_spades_king = PatternRecognizer::analyze_cards(&[
        Card::new(Suit::Spades, Rank::King),
        Card::new(Suit::Spades, Rank::King),
        Card::new(Suit::Spades, Rank::King),
    ])
    .unwrap();

    let tongzi_hearts_king_cards = vec![
        Card::new(Suit::Hearts, Rank::King),
        Card::new(Suit::Hearts, Rank::King),
        Card::new(Suit::Hearts, Rank::King),
    ];

    assert!(!PlayValidator::can_beat_play(
        &tongzi_hearts_king_cards,
        Some(&tongzi_spades_king)
    ));
}
