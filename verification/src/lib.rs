//! Rules engine for the Da Tong Zi trick-taking card game.
//!
//! The crate classifies card multisets into play shapes, decides which play
//! beats which under the trump hierarchy, decomposes hands into
//! non-overlapping resources, and selects kicker cards under tactical cost
//! models.

pub mod models;
mod text;
pub mod ai_helpers;
pub mod error;
pub mod patterns;
pub mod scoring;
pub mod variants;

pub use ai_helpers::HandPatternAnalyzer;
pub use ai_helpers::HandPatterns;
pub use ai_helpers::PlayGenerator;
pub use error::DatongziError;
pub use models::card::Card;
pub use models::config::GameConfig;
pub use models::card::Deck;
pub use models::card::Rank;
pub use models::card::Suit;
pub use variants::ConfigFactory;
pub use variants::VariantValidator;
pub use scoring::BonusType;
pub use scoring::GameSummary;
pub use scoring::ScoreComputation;
pub use scoring::ScoringEvent;
pub use patterns::PatternRecognizer;
pub use patterns::PlayPattern;
pub use patterns::PlayType;
pub use patterns::PlayValidator;
