//! Core data models: cards, ranks, suits, decks and game configuration.

pub mod card;
pub mod config;
pub mod counting;

pub use card::Card;
pub use card::Deck;
pub use card::Rank;
pub use card::Suit;
pub use config::GameConfig;
