//! Game configuration.

use vstd::prelude::*;
use vstd::string::StringExecFns;

use crate::error::DatongziError;
use crate::models::card::Rank;

verus! {

/// Game configuration parameters.
#[derive(Debug, Clone, PartialEq, Eq)]
pub struct GameConfig {
    /// Number of decks.
    pub num_decks: u8,
    /// Number of players.
    pub num_players: u8,
    /// Cards dealt to each player.
    pub cards_per_player: usize,
    /// Cards dealt aside (bottom cards).
    pub cards_dealt_aside: usize,
    /// Ranks removed from the deck.
    pub removed_ranks: Vec<Rank>,
    /// Finish position bonuses.
    pub finish_bonus: Vec<i32>,
    /// King Tongzi bonus points.
    pub k_tongzi_bonus: i32,
    /// Ace Tongzi bonus points.
    pub a_tongzi_bonus: i32,
    /// Two Tongzi bonus points.
    pub two_tongzi_bonus: i32,
    /// Dizha bonus points.
    pub dizha_bonus: i32,
}

impl GameConfig {
    /// A configuration is playable when the player count is two to four,
    /// at least one deck is used, the deal fits in the deck, and the finish
    /// bonuses match the player count.
    pub open spec fn spec_valid(self) -> bool {
        &&& 2 <= self.num_players <= 4
        &&& self.num_decks >= 1
        &&& self.cards_per_player * self.num_players + self.cards_dealt_aside <= self.num_decks
            * 52
        &&& self.finish_bonus@.len() == self.num_players
    }

    /// Creates a new configuration with the standard removed ranks Three
    /// and Four.
    pub fn new(
        num_decks: u8,
        num_players: u8,
        cards_per_player: usize,
        cards_dealt_aside: usize,
        finish_bonus: Vec<i32>,
        k_tongzi_bonus: i32,
        a_tongzi_bonus: i32,
        two_tongzi_bonus: i32,
        dizha_bonus: i32,
    ) -> (c: GameConfig)
        ensures
            c.num_decks == num_decks,
            c.num_players == num_players,
            c.cards_per_player == cards_per_player,
            c.cards_dealt_aside == cards_dealt_aside,
            c.removed_ranks@ == seq![Rank::Three, Rank::Four],
            c.finish_bonus == finish_bonus,
            c.k_tongzi_bonus == k_tongzi_bonus,
            c.a_tongzi_bonus == a_tongzi_bonus,
            c.two_tongzi_bonus == two_tongzi_bonus,
            c.dizha_bonus == dizha_bonus,
    {
        let mut removed: Vec<Rank> = Vec::new();
        removed.push(Rank::Three);
        removed.push(Rank::Four);
        proof {
            assert(removed@ =~= seq![Rank::Three, Rank::Four]);
        }
        GameConfig::new_with_removed_ranks(
            num_decks,
            num_players,
            cards_per_player,
            cards_dealt_aside,
            removed,
            finish_bonus,
            k_tongzi_bonus,
            a_tongzi_bonus,
            two_tongzi_bonus,
            dizha_bonus,
        )
    }

    /// Creates a new configuration with custom removed ranks.
    pub fn new_with_removed_ranks(
        num_decks: u8,
        num_players: u8,
        cards_per_player: usize,
        cards_dealt_aside: usize,
        removed_ranks: Vec<Rank>,
        finish_bonus: Vec<i32>,
        k_tongzi_bonus: i32,
        a_tongzi_bonus: i32,
        two_tongzi_bonus: i32,
        dizha_bonus: i32,
    ) -> (c: GameConfig)
        ensures
            c.num_decks == num_decks,
            c.num_players == num_players,
            c.cards_per_player == cards_per_player,
            c.cards_dealt_aside == cards_dealt_aside,
            c.removed_ranks == removed_ranks,
            c.finish_bonus == finish_bonus,
            c.k_tongzi_bonus == k_tongzi_bonus,
            c.a_tongzi_bonus == a_tongzi_bonus,
            c.two_tongzi_bonus == two_tongzi_bonus,
            c.dizha_bonus == dizha_bonus,
    {
        GameConfig {
            num_decks,
            num_players,
            cards_per_player,
            cards_dealt_aside,
            removed_ranks,
            finish_bonus,
            k_tongzi_bonus,
            a_tongzi_bonus,
            two_tongzi_bonus,
            dizha_bonus,
        }
    }

    /// Returns the number of decks.
    pub fn num_decks(&self) -> (n: u8)
        ensures
            n == self.num_decks,
    {
        self.num_decks
    }

    /// Returns the number of players.
    pub fn num_players(&self) -> (n: u8)
        ensures
            n == self.num_players,
    {
        self.num_players
    }

    /// Returns the number of cards per player.
    pub fn cards_per_player(&self) -> (n: usize)
        ensures
            n == self.cards_per_player,
    {
        self.cards_per_player
    }

    /// Returns the number of cards dealt aside.
    pub fn cards_dealt_aside(&self) -> (n: usize)
        ensures
            n == self.cards_dealt_aside,
    {
        self.cards_dealt_aside
    }

    /// Returns the ranks removed from the deck.
    pub fn removed_ranks(&self) -> (r: &Vec<Rank>)
        ensures
            r == &self.removed_ranks,
    {
        &self.removed_ranks
    }

    /// Returns the finish bonus list.
    pub fn finish_bonus(&self) -> (r: &Vec<i32>)
        ensures
            r == &self.finish_bonus,
    {
        &self.finish_bonus
    }

    /// Returns the King Tongzi bonus.
    pub fn k_tongzi_bonus(&self) -> (n: i32)
        ensures
            n == self.k_tongzi_bonus,
    {
        self.k_tongzi_bonus
    }

    /// Returns the Ace Tongzi bonus.
    pub fn a_tongzi_bonus(&self) -> (n: i32)
        ensures
            n == self.a_tongzi_bonus,
    {
        self.a_tongzi_bonus
    }

    /// Returns the Two Tongzi bonus.
    pub fn two_tongzi_bonus(&self) -> (n: i32)
        ensures
            n == self.two_tongzi_bonus,
    {
        self.two_tongzi_bonus
    }

    /// Returns the Dizha bonus.
    pub fn dizha_bonus(&self) -> (n: i32)
        ensures
            n == self.dizha_bonus,
    {
        self.dizha_bonus
    }

    /// Validates the configuration: `Ok` exactly when it is playable, and
    /// a configuration error naming the first failed check otherwise.
    pub fn validate(&self) -> (r: Result<(), DatongziError>)
        requires
            self.cards_per_player <= usize::MAX / 4,
        ensures
            r is Ok <==> self.spec_valid(),
            r matches Err(e) ==> e is ConfigError,
    {
        if self.num_players < 2 || self.num_players > 4 {
            let mut msg = String::from_str("Invalid number of players: ");
            let n = crate::text::dec_string(self.num_players as u64);
            msg.append(n.as_str());
            msg.append(" (must be 2-4)");
            return Err(DatongziError::ConfigError(msg));
        }
        if self.num_decks == 0 {
            return Err(
                DatongziError::ConfigError(String::from_str("Number of decks must be at least 1")),
            );
        }
        let total_cards: usize = (self.num_decks as usize) * 52;
        proof {
            assert(0 <= self.cards_per_player * (self.num_players as int) <= (usize::MAX / 4) * 4)
                by (nonlinear_arith)
                requires
                    0 <= self.cards_per_player <= usize::MAX / 4,
                    2 <= self.num_players <= 4,
            ;
        }
        let product: usize = self.cards_per_player * (self.num_players as usize);
        let required_cards: usize = product.saturating_add(self.cards_dealt_aside);
        proof {
            assert((required_cards > total_cards) == (self.cards_per_player * self.num_players
                + self.cards_dealt_aside > total_cards));
        }
        if required_cards > total_cards {
            let mut msg = String::from_str("Not enough cards: need ");
            let n = crate::text::dec_string(required_cards as u64);
            msg.append(n.as_str());
            msg.append(", have ");
            let t = crate::text::dec_string(total_cards as u64);
            msg.append(t.as_str());
            return Err(DatongziError::ConfigError(msg));
        }
        if self.finish_bonus.len() != self.num_players as usize {
            let mut msg = String::from_str("finish_bonus length (");
            let n = crate::text::dec_string(self.finish_bonus.len() as u64);
            msg.append(n.as_str());
            msg.append(") must match num_players (");
            let p = crate::text::dec_string(self.num_players as u64);
            msg.append(p.as_str());
            msg.append(")");
            return Err(DatongziError::ConfigError(msg));
        }
        Ok(())
    }
}

impl Default for GameConfig {
    /// The standard three-deck, three-player configuration.
    fn default() -> (c: Self)
        ensures
            c.num_decks == 3,
            c.num_players == 3,
            c.cards_per_player == 41,
            c.cards_dealt_aside == 9,
            c.removed_ranks@ == seq![Rank::Three, Rank::Four],
            c.finish_bonus@ == seq![100i32, -40i32, -60i32],
            c.k_tongzi_bonus == 100,
            c.a_tongzi_bonus == 200,
            c.two_tongzi_bonus == 300,
            c.dizha_bonus == 400,
    {
        let mut finish_bonus: Vec<i32> = Vec::new();
        finish_bonus.push(100);
        finish_bonus.push(-40);
        finish_bonus.push(-60);
        proof {
            assert(finish_bonus@ =~= seq![100i32, -40i32, -60i32]);
        }
        let c = GameConfig::new(3, 3, 41, 9, finish_bonus, 100, 200, 300, 400);
        c
    }
}

} // verus!
