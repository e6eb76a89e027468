//! AI helper utilities: hand decomposition, duplicate-play filtering,
//! kicker selection and play generation.

pub mod extract;
pub mod hand_pattern_analyzer;
pub mod identical_play_filter;
pub mod kicker;
pub mod play_generator;

pub use hand_pattern_analyzer::HandPatternAnalyzer;
pub use hand_pattern_analyzer::HandPatterns;
pub use identical_play_filter::detect_dizha;
pub use identical_play_filter::detect_tongzi;
pub use identical_play_filter::filter_consecutive_pairs;
pub use identical_play_filter::filter_pairs;
pub use identical_play_filter::filter_singles;
pub use identical_play_filter::filter_triples;
pub use identical_play_filter::get_protected_suits;
pub use identical_play_filter::select_safe_suit;
pub use kicker::Block;
pub use kicker::KnapsackResult;
pub use kicker::Tactic;
pub use kicker::select_kickers;
pub use play_generator::PlayGenerator;

