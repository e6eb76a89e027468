//! Pattern recognition and play validation.

pub mod laws;
pub mod pattern;
pub mod recognizer;
pub mod shapes;

pub use pattern::PatternModel;
pub use pattern::PlayPattern;
pub use pattern::PlayType;
pub use recognizer::PatternRecognizer;
pub use recognizer::PlayValidator;
