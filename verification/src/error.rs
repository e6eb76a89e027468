//! Error types of the rules engine.

use vstd::prelude::*;

verus! {

/// Errors reported by the rules engine.
#[derive(Debug, Clone, PartialEq, Eq)]
pub enum DatongziError {
    /// Invalid pattern.
    PatternError(String),
    /// Invalid play.
    PlayError(String),
    /// Configuration error.
    ConfigError(String),
    /// Too many combinations generated by an unconstrained enumeration.
    TooManyCombinations {
        /// Number of combinations found.
        found: usize,
        /// Maximum allowed combinations.
        max: usize,
    },
    /// Invalid input.
    InvalidInput(String),
}

} // verus!
