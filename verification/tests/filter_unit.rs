//! Unit tests for identical play filtering.

use datongzi_rules::ai_helpers::identical_play_filter::{
    detect_dizha, detect_tongzi, filter_consecutive_pairs, filter_pairs, filter_singles,
    filter_triples, get_protected_suits, select_safe_suit,
};
use datongzi_rules::{Card, Rank, Suit};

fn make_card(suit: Suit, rank: Rank) -> Card {
    Card { suit, rank }
}

#[test]
fn test_detect_tongzi_basic() {
    let hand = vec![
        make_card(Suit::Spades, Rank::Five),
        make_card(Suit::Spades, Rank::Five),
        make_card(Suit::Spades, Rank::Five),
    ];

    let tongzi = detect_tongzi(&hand);
    assert_eq!(tongzi.len(), 1);
    assert_eq!(tongzi[0], (Suit::Spades, Rank::Five));
}

#[test]
fn test_detect_tongzi_no_match() {
    let hand = vec![
        make_card(Suit::Spades, Rank::Five),
        make_card(Suit::Hearts, Rank::Five),
        make_card(Suit::Diamonds, Rank::Five),
    ];

    let tongzi = detect_tongzi(&hand);
    assert_eq!(tongzi.len(), 0);
}

#[test]
fn test_detect_dizha_basic() {
    let hand = vec![
        make_card(Suit::Spades, Rank::Jack),
        make_card(Suit::Spades, Rank::Jack),
        make_card(Suit::Hearts, Rank::Jack),
        make_card(Suit::Hearts, Rank::Jack),
        make_card(Suit::Clubs, Rank::Jack),
        make_card(Suit::Clubs, Rank::Jack),
        make_card(Suit::Diamonds, Rank::Jack),
        make_card(Suit::Diamonds, Rank::Jack),
    ];

    let dizha = detect_dizha(&hand);
    assert_eq!(dizha.len(), 1);
    assert_eq!(dizha[0], Rank::Jack);
}

#[test]
fn test_get_protected_suits_tongzi() {
    let hand = vec![
        make_card(Suit::Spades, Rank::Five),
        make_card(Suit::Spades, Rank::Five),
        make_card(Suit::Spades, Rank::Five),
    ];

    let protected = get_protected_suits(&hand, Rank::Five);
    assert!(protected.contains(&Suit::Spades));
    assert_eq!(protected.len(), 1);
}

#[test]
fn test_select_safe_suit_prefers_non_protected() {
    let hand = vec![
        make_card(Suit::Spades, Rank::Five),
        make_card(Suit::Spades, Rank::Five),
        make_card(Suit::Spades, Rank::Five),
        make_card(Suit::Hearts, Rank::Five),
    ];

    let suit = select_safe_suit(&hand, Rank::Five);
    assert_eq!(suit, Some(Suit::Hearts));
}

#[test]
fn test_filter_singles_basic() {
    let hand = vec![
        make_card(Suit::Spades, Rank::Five),
        make_card(Suit::Hearts, Rank::Five),
        make_card(Suit::Diamonds, Rank::Five),
    ];

    let singles = filter_singles(&hand);
    assert_eq!(singles.len(), 1);
    assert_eq!(singles[0].len(), 1);
    assert_eq!(singles[0][0].rank, Rank::Five);
}

#[test]
fn test_filter_pairs_basic() {
    let hand = vec![
        make_card(Suit::Spades, Rank::Five),
        make_card(Suit::Hearts, Rank::Five),
        make_card(Suit::Diamonds, Rank::Five),
        make_card(Suit::Clubs, Rank::Five),
    ];

    let pairs = filter_pairs(&hand);
    assert_eq!(pairs.len(), 1);
    assert_eq!(pairs[0].len(), 2);
    assert_eq!(pairs[0][0].rank, Rank::Five);
    assert_eq!(pairs[0][1].rank, Rank::Five);
    assert_ne!(pairs[0][0].suit, pairs[0][1].suit);
}

#[test]
fn test_filter_triples_basic() {
    let hand = vec![
        make_card(Suit::Spades, Rank::Five),
        make_card(Suit::Hearts, Rank::Five),
        make_card(Suit::Diamonds, Rank::Five),
        make_card(Suit::Clubs, Rank::Five),
    ];

    let triples = filter_triples(&hand);
    assert_eq!(triples.len(), 1);
    assert_eq!(triples[0].len(), 3);
    assert_eq!(triples[0][0].rank, Rank::Five);
}

#[test]
fn test_filter_consecutive_pairs_basic() {
    let hand = vec![
        make_card(Suit::Spades, Rank::Five),
        make_card(Suit::Hearts, Rank::Five),
        make_card(Suit::Diamonds, Rank::Five),
        make_card(Suit::Clubs, Rank::Five),
        make_card(Suit::Spades, Rank::Six),
        make_card(Suit::Hearts, Rank::Six),
        make_card(Suit::Diamonds, Rank::Six),
        make_card(Suit::Clubs, Rank::Six),
    ];

    let consecutive_pairs = filter_consecutive_pairs(&hand);
    assert_eq!(consecutive_pairs.len(), 1);
    assert_eq!(consecutive_pairs[0].len(), 4);
    assert_eq!(consecutive_pairs[0][0].rank, Rank::Five);
    assert_eq!(consecutive_pairs[0][2].rank, Rank::Six);
}

#[test]
fn test_filter_consecutive_pairs_emits_every_window() {
    let hand = vec![
        make_card(Suit::Spades, Rank::Five),
        make_card(Suit::Hearts, Rank::Five),
        make_card(Suit::Spades, Rank::Six),
        make_card(Suit::Hearts, Rank::Six),
        make_card(Suit::Spades, Rank::Seven),
        make_card(Suit::Hearts, Rank::Seven),
    ];

    let groups = filter_consecutive_pairs(&hand);
    assert_eq!(groups.len(), 3);
    assert_eq!(groups[0].len(), 4);
    assert_eq!(groups[0][0].rank, Rank::Five);
    assert_eq!(groups[1].len(), 4);
    assert_eq!(groups[1][0].rank, Rank::Six);
    assert_eq!(groups[2].len(), 6);
    assert_eq!(groups[2][0].rank, Rank::Five);
}

#[test]
fn test_detect_dizha_ascending_ranks() {
    let mut hand = Vec::new();
    for rank in [Rank::Nine, Rank::Five] {
        for suit in [Suit::Spades, Suit::Hearts, Suit::Clubs, Suit::Diamonds] {
            hand.push(make_card(suit, rank));
            hand.push(make_card(suit, rank));
        }
    }

    let dizha = detect_dizha(&hand);
    assert_eq!(dizha, vec![Rank::Five, Rank::Nine]);
}

#[test]
fn test_detect_tongzi_suit_then_rank_order() {
    let mut hand = Vec::new();
    for (suit, rank) in [
        (Suit::Hearts, Rank::Nine),
        (Suit::Hearts, Rank::Seven),
        (Suit::Spades, Rank::Six),
    ] {
        for _ in 0..3 {
            hand.push(make_card(suit, rank));
        }
    }

    let tongzi = detect_tongzi(&hand);
    assert_eq!(
        tongzi,
        vec![
            (Suit::Spades, Rank::Six),
            (Suit::Hearts, Rank::Seven),
            (Suit::Hearts, Rank::Nine),
        ]
    );
}
