//! Scoring system: a pure calculation engine for points, bonuses and game
//! results.

pub mod computation;

pub use computation::BonusType;
pub use computation::GameSummary;
pub use computation::ScoreComputation;
pub use computation::ScoringEvent;
