//! Unit tests for the scoring computation engine.

use datongzi_rules::{
    BonusType, Card, GameConfig, PlayPattern, PlayType, Rank, ScoreComputation, Suit,
};

#[test]
fn test_calculate_round_base_score() {
    let config = GameConfig::default();
    let engine = ScoreComputation::new(config);

    let cards = vec![
        Card::new(Suit::Spades, Rank::Five),
        Card::new(Suit::Hearts, Rank::Ten),
        Card::new(Suit::Clubs, Rank::King),
        Card::new(Suit::Diamonds, Rank::Six),
    ];

    let score = engine.calculate_round_base_score(&cards);
    assert_eq!(score, 25, "Expected 25, got {score}");
}

#[test]
fn test_calculate_round_base_score_no_scoring_cards() {
    let config = GameConfig::default();
    let engine = ScoreComputation::new(config);

    let cards = vec![
        Card::new(Suit::Spades, Rank::Six),
        Card::new(Suit::Hearts, Rank::Seven),
        Card::new(Suit::Clubs, Rank::Eight),
    ];

    let score = engine.calculate_round_base_score(&cards);
    assert_eq!(score, 0, "Expected 0, got {score}");
}

#[test]
fn test_create_round_win_event() {
    let config = GameConfig::default();
    let mut engine = ScoreComputation::new(config);

    let cards = vec![
        Card::new(Suit::Spades, Rank::Five),
        Card::new(Suit::Hearts, Rank::Ten),
    ];

    let event = engine.create_round_win_event("player1".to_string(), &cards, 1);

    assert!(event.is_some());
    let event = event.unwrap();
    assert_eq!(event.player_id, "player1");
    assert_eq!(event.bonus_type, BonusType::RoundWin);
    assert_eq!(event.points, 15);
    assert_eq!(event.round_number, Some(1));
    assert_eq!(event.cards_involved.len(), 2);
}

#[test]
fn test_create_round_win_event_no_points() {
    let config = GameConfig::default();
    let mut engine = ScoreComputation::new(config);

    let cards = vec![Card::new(Suit::Spades, Rank::Six)];

    let event = engine.create_round_win_event("player1".to_string(), &cards, 1);

    assert!(event.is_none());
}

#[test]
fn test_tongzi_bonuses() {
    let config = GameConfig::default();
    let mut engine = ScoreComputation::new(config);

    let pattern = PlayPattern::new(
        PlayType::Tongzi,
        Rank::King,
        Some(Suit::Spades),
        vec![],
        3,
        0,
    );
    let events = engine.create_special_bonus_events("player1".to_string(), &pattern, 1, true);
    assert_eq!(events.len(), 1);
    assert_eq!(events[0].bonus_type, BonusType::KTongzi);
    assert_eq!(events[0].points, 100);

    let pattern = PlayPattern::new(
        PlayType::Tongzi,
        Rank::Ace,
        Some(Suit::Hearts),
        vec![],
        3,
        0,
    );
    let events = engine.create_special_bonus_events("player2".to_string(), &pattern, 2, true);
    assert_eq!(events.len(), 1);
    assert_eq!(events[0].bonus_type, BonusType::ATongzi);
    assert_eq!(events[0].points, 200);

    let pattern = PlayPattern::new(PlayType::Tongzi, Rank::Two, Some(Suit::Clubs), vec![], 3, 0);
    let events = engine.create_special_bonus_events("player3".to_string(), &pattern, 3, true);
    assert_eq!(events.len(), 1);
    assert_eq!(events[0].bonus_type, BonusType::TwoTongzi);
    assert_eq!(events[0].points, 300);
}

#[test]
fn test_dizha_bonus() {
    let config = GameConfig::default();
    let mut engine = ScoreComputation::new(config);

    let pattern = PlayPattern::new(PlayType::Dizha, Rank::Ten, None, vec![], 8, 0);
    let events = engine.create_special_bonus_events("player1".to_string(), &pattern, 1, true);

    assert_eq!(events.len(), 1);
    assert_eq!(events[0].bonus_type, BonusType::Dizha);
    assert_eq!(events[0].points, 400);
}

#[test]
fn test_finish_bonus_events() {
    let config = GameConfig::default();
    let mut engine = ScoreComputation::new(config);

    let player_ids = vec![
        "player1".to_string(),
        "player2".to_string(),
        "player3".to_string(),
    ];

    let events = engine.create_finish_bonus_events(&player_ids);

    assert_eq!(events.len(), 3);

    assert_eq!(events[0].player_id, "player1");
    assert_eq!(events[0].bonus_type, BonusType::FinishFirst);
    assert_eq!(events[0].points, 100);

    assert_eq!(events[1].player_id, "player2");
    assert_eq!(events[1].bonus_type, BonusType::FinishSecond);
    assert_eq!(events[1].points, -40);

    assert_eq!(events[2].player_id, "player3");
    assert_eq!(events[2].bonus_type, BonusType::FinishThird);
    assert_eq!(events[2].points, -60);
}

#[test]
fn test_calculate_total_score() {
    let config = GameConfig::default();
    let mut engine = ScoreComputation::new(config);

    // player1 earns a 15-point round win, a King Tongzi bonus, and first
    // place; player2 earns a 25-point round win.
    let round1 = vec![
        Card::new(Suit::Spades, Rank::Five),
        Card::new(Suit::Hearts, Rank::Ten),
    ];
    engine.create_round_win_event("player1".to_string(), &round1, 1);
    let k_tongzi = PlayPattern::new(
        PlayType::Tongzi,
        Rank::King,
        Some(Suit::Spades),
        vec![],
        3,
        0,
    );
    engine.create_special_bonus_events("player1".to_string(), &k_tongzi, 1, true);
    let round2 = vec![
        Card::new(Suit::Spades, Rank::Five),
        Card::new(Suit::Hearts, Rank::Ten),
        Card::new(Suit::Clubs, Rank::Ten),
    ];
    engine.create_round_win_event("player2".to_string(), &round2, 2);
    engine.create_finish_bonus_events(&vec!["player1".to_string()]);

    let score1 = engine.calculate_total_score_for_player("player1");
    let score2 = engine.calculate_total_score_for_player("player2");

    assert_eq!(score1, 215, "Expected 215, got {score1}");
    assert_eq!(score2, 25, "Expected 25, got {score2}");
}

#[test]
fn test_round_winning_play_only() {
    let config = GameConfig::default();
    let mut engine = ScoreComputation::new(config);

    let pattern = PlayPattern::new(
        PlayType::Tongzi,
        Rank::King,
        Some(Suit::Spades),
        vec![],
        3,
        0,
    );

    let events = engine.create_special_bonus_events("player1".to_string(), &pattern, 1, false);
    assert_eq!(events.len(), 0);

    let events = engine.create_special_bonus_events("player2".to_string(), &pattern, 1, true);
    assert_eq!(events.len(), 1);
    assert_eq!(events[0].points, 100);
}

#[test]
fn test_validate_scores() {
    let config = GameConfig::default();
    let mut engine = ScoreComputation::new(config);

    // player1 earns a 15-point round win, player2 a 25-point round win.
    let round1 = vec![
        Card::new(Suit::Spades, Rank::Five),
        Card::new(Suit::Hearts, Rank::Ten),
    ];
    engine.create_round_win_event("player1".to_string(), &round1, 1);
    let round2 = vec![
        Card::new(Suit::Spades, Rank::Five),
        Card::new(Suit::Hearts, Rank::Ten),
        Card::new(Suit::Clubs, Rank::Ten),
    ];
    engine.create_round_win_event("player2".to_string(), &round2, 2);

    let correct_scores = vec![("player1".to_string(), 15), ("player2".to_string(), 25)];
    assert!(engine.validate_scores(&correct_scores));

    let incorrect_scores = vec![("player1".to_string(), 20), ("player2".to_string(), 25)];
    assert!(!engine.validate_scores(&incorrect_scores));
}

#[test]
fn test_custom_config_bonuses() {
    let config = GameConfig::new(3, 3, 41, 9, vec![200, -50, -150], 150, 250, 350, 500);
    let mut engine = ScoreComputation::new(config);

    let pattern = PlayPattern::new(
        PlayType::Tongzi,
        Rank::King,
        Some(Suit::Spades),
        vec![],
        3,
        0,
    );
    let events = engine.create_special_bonus_events("player1".to_string(), &pattern, 1, true);
    assert_eq!(events.len(), 1);
    assert_eq!(events[0].points, 150);

    let finish_events = engine.create_finish_bonus_events(&vec![
        "p1".to_string(),
        "p2".to_string(),
        "p3".to_string(),
    ]);
    assert_eq!(finish_events[0].points, 200);
    assert_eq!(finish_events[1].points, -50);
    assert_eq!(finish_events[2].points, -150);
}
