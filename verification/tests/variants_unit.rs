//! Unit tests for the configuration factory and variant validator.

use datongzi_rules::{ConfigFactory, GameConfig, VariantValidator};

#[test]
fn test_create_standard_3deck_3player() {
    let config = ConfigFactory::create_standard_3deck_3player();

    assert_eq!(config.num_decks(), 3);
    assert_eq!(config.num_players(), 3);
    assert_eq!(config.cards_per_player(), 41);
    assert_eq!(config.finish_bonus(), &[100, -40, -60]);
}

#[test]
fn test_create_4deck_4player() {
    let config = ConfigFactory::create_4deck_4player();

    assert_eq!(config.num_decks(), 4);
    assert_eq!(config.num_players(), 4);
    assert_eq!(config.cards_per_player(), 42);
    assert_eq!(config.finish_bonus().len(), 4);
}

#[test]
fn test_create_2player() {
    let config = ConfigFactory::create_2player();

    assert_eq!(config.num_decks(), 3);
    assert_eq!(config.num_players(), 2);
    assert_eq!(config.finish_bonus(), &[100, -100]);
}

#[test]
fn test_create_quick_game() {
    let config = ConfigFactory::create_quick_game();

    assert_eq!(config.num_decks(), 2);
    assert_eq!(config.num_players(), 3);
    assert_eq!(config.cards_per_player(), 28);
}

#[test]
fn test_create_high_stakes() {
    let config = ConfigFactory::create_high_stakes();

    assert_eq!(config.k_tongzi_bonus(), 200); // Doubled
    assert_eq!(config.a_tongzi_bonus(), 400); // Doubled
    assert_eq!(config.two_tongzi_bonus(), 600); // Doubled
    assert_eq!(config.dizha_bonus(), 800); // Doubled
    assert_eq!(config.finish_bonus()[0], 200); // Doubled
}

#[test]
fn test_create_beginner_friendly() {
    let config = ConfigFactory::create_beginner_friendly();

    assert_eq!(config.num_decks(), 3);
    assert_eq!(config.num_players(), 3);
}

#[test]
fn test_create_custom() {
    let config = ConfigFactory::create_custom(
        2, 2, 40, // cards_per_player
        4,  // cards_dealt_aside
        150, 300, 450, 600,
    );

    assert_eq!(config.num_decks(), 2);
    assert_eq!(config.num_players(), 2);
    assert_eq!(config.cards_dealt_aside(), 4);
    assert_eq!(config.k_tongzi_bonus(), 150);
}

#[test]
fn test_validate_valid_config() {
    let config = ConfigFactory::create_standard_3deck_3player();
    let (is_valid, warnings) = VariantValidator::validate_config(&config);

    assert!(is_valid);
    assert!(warnings.is_empty());
}

#[test]
fn test_validate_insufficient_cards() {
    // Create config with too few cards
    // 1 deck = 52 cards, 30 aside = 22 available, need 40 (4 players * 10 min)
    let config = ConfigFactory::create_custom(
        1, 4, 5,  // cards_per_player (unrealistic)
        30, // Too many aside
        100, 200, 300, 400,
    );

    let (is_valid, warnings) = VariantValidator::validate_config(&config);

    assert!(!is_valid);
    assert!(!warnings.is_empty());
    assert!(warnings.iter().any(|w| w.contains("Too few cards")));
}

#[test]
fn test_validate_uneven_distribution() {
    // Create config with uneven distribution
    // 2 decks = 104 cards, 2 aside = 102 available, not divisible by 3 (102 % 3 = 0, so use different config)
    // 2 decks = 104 cards, 1 aside = 103 available, not divisible by 3 (103 % 3 = 1)
    let config = ConfigFactory::create_custom(
        2, 3, 34, // cards_per_player (just a number, validation checks distribution)
        1,  // 104 - 1 = 103, not divisible by 3
        100, 200, 300, 400,
    );

    let (is_valid, warnings) = VariantValidator::validate_config(&config);

    assert!(!is_valid);
    assert!(warnings.iter().any(|w| w.contains("Uneven distribution")));
}

#[test]
fn test_validate_bonus_mismatch() {
    // Create config manually with mismatched bonus length
    let config = GameConfig::new(
        3,
        3,
        41,             // cards_per_player
        9,              // cards_dealt_aside
        vec![100, -50], // Only 2 bonuses for 3 players
        100,
        200,
        300,
        400,
    );

    let (is_valid, warnings) = VariantValidator::validate_config(&config);

    assert!(!is_valid);
    assert!(warnings.iter().any(|w| w.contains("Finish bonus length")));
}

#[test]
fn test_validate_bonus_sum_positive() {
    // Create config with positive bonus sum
    let config = GameConfig::new(
        3,
        3,
        41,                // cards_per_player
        9,                 // cards_dealt_aside
        vec![100, 50, 50], // Sum = 200 > 0
        100,
        200,
        300,
        400,
    );

    let (is_valid, warnings) = VariantValidator::validate_config(&config);

    assert!(!is_valid);
    assert!(warnings
        .iter()
        .any(|w| w.contains("should be ≤0 for fairness")));
}

#[test]
fn test_config_excluded_ranks() {
    let config = ConfigFactory::create_custom(
        3, 3, 41, // cards_per_player
        9,  // cards_dealt_aside
        100, 200, 300, 400,
    );

    // Just verify basic properties
    assert_eq!(config.num_decks(), 3);
    assert_eq!(config.num_players(), 3);
}

#[test]
fn test_finish_bonus_sum() {
    let config = ConfigFactory::create_standard_3deck_3player();

    let bonus_sum: i32 = config.finish_bonus().iter().sum();
    // Should be zero or negative for fairness
    assert_eq!(bonus_sum, 0);
}
