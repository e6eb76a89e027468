//! Play types and recognized play patterns.

use vstd::prelude::*;

use crate::models::card::Rank;
use crate::models::card::Suit;

verus! {

/// The ten recognized play shapes, in coarse strength order.
///
/// The order is advisory: the validator applies explicit special-case rules
/// for Dizha, Tongzi and Bomb before falling back to same-type comparison.
#[derive(Clone, Copy, Debug, PartialEq, Eq, Hash, PartialOrd, Ord, Structural)]
pub enum PlayType {
    /// Single card.
    Single,
    /// Pair of equal-rank cards.
    Pair,
    /// Two or more consecutive pairs.
    ConsecutivePairs,
    /// Three equal-rank cards of mixed suits.
    Triple,
    /// Triple plus a pair of another rank.
    TripleWithTwo,
    /// Two or more consecutive triples.
    Airplane,
    /// Consecutive triples with wing kickers.
    AirplaneWithWings,
    /// Four or more cards of one rank.
    Bomb,
    /// Three cards of one rank and one suit.
    Tongzi,
    /// Eight cards of one rank, two per suit.
    Dizha,
}

/// Mathematical view of a recognized pattern, used in contracts.
pub struct PatternModel {
    /// Shape of the play.
    pub play_type: PlayType,
    /// Rank driving within-type strength.
    pub primary_rank: Rank,
    /// Suit, meaningful for Tongzi and Single.
    pub primary_suit: Option<Suit>,
    /// Participating ranks of chain shapes, ascending.
    pub secondary_ranks: Seq<Rank>,
    /// Number of cards in the play.
    pub card_count: nat,
    /// Packed strength for same-type comparison.
    pub strength: nat,
}

/// A recognized pattern of cards.
#[derive(Clone, Debug, PartialEq, Eq)]
pub struct PlayPattern {
    /// Type of play.
    pub play_type: PlayType,
    /// Main rank of the pattern.
    pub primary_rank: Rank,
    /// Primary suit (meaningful for suit-dependent patterns like Tongzi).
    pub primary_suit: Option<Suit>,
    /// Secondary ranks (for consecutive patterns), ascending.
    pub secondary_ranks: Vec<Rank>,
    /// Total number of cards in this pattern.
    pub card_count: usize,
    /// Precomputed strength for comparison.
    pub strength: u32,
}

impl PlayPattern {
    /// The mathematical view of this pattern.
    pub open spec fn model(self) -> PatternModel {
        PatternModel {
            play_type: self.play_type,
            primary_rank: self.primary_rank,
            primary_suit: self.primary_suit,
            secondary_ranks: self.secondary_ranks@,
            card_count: self.card_count as nat,
            strength: self.strength as nat,
        }
    }

    /// Creates a new pattern from its parts.
    pub fn new(
        play_type: PlayType,
        primary_rank: Rank,
        primary_suit: Option<Suit>,
        secondary_ranks: Vec<Rank>,
        card_count: usize,
        strength: u32,
    ) -> (p: PlayPattern)
        ensures
            p.play_type == play_type,
            p.primary_rank == primary_rank,
            p.primary_suit == primary_suit,
            p.secondary_ranks == secondary_ranks,
            p.card_count == card_count,
            p.strength == strength,
    {
        PlayPattern { play_type, primary_rank, primary_suit, secondary_ranks, card_count, strength }
    }

    /// Returns the play type.
    pub fn play_type(&self) -> (t: PlayType)
        ensures
            t == self.play_type,
    {
        self.play_type
    }

    /// Returns the primary rank.
    pub fn primary_rank(&self) -> (r: Rank)
        ensures
            r == self.primary_rank,
    {
        self.primary_rank
    }

    /// Returns the primary suit if any.
    pub fn primary_suit(&self) -> (s: Option<Suit>)
        ensures
            s == self.primary_suit,
    {
        self.primary_suit
    }

    /// Returns the secondary ranks.
    pub fn secondary_ranks(&self) -> (r: &Vec<Rank>)
        ensures
            r == &self.secondary_ranks,
    {
        &self.secondary_ranks
    }

    /// Returns the total card count.
    pub fn card_count(&self) -> (n: usize)
        ensures
            n == self.card_count,
    {
        self.card_count
    }

    /// Returns the pattern strength.
    pub fn strength(&self) -> (s: u32)
        ensures
            s == self.strength,
    {
        self.strength
    }
}

} // verus!
