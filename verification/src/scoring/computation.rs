//! Scoring rules and calculations: round base scores, special bonuses for
//! Tongzi and Dizha, finish-position bonuses, and per-player totals.

use vstd::prelude::*;
use vstd::string::StringExecFns;

use crate::models::card::Card;
use crate::models::card::Rank;
use crate::models::config::GameConfig;
use crate::patterns::pattern::PlayPattern;
use crate::patterns::pattern::PlayType;

verus! {

/// Types of bonus scoring in the game.
#[derive(Debug, Clone, Copy, PartialEq, Eq, Hash, Structural)]
pub enum BonusType {
    /// Round win: base score from Fives, Tens and Kings.
    RoundWin,
    /// King Tongzi bonus.
    KTongzi,
    /// Ace Tongzi bonus.
    ATongzi,
    /// Two Tongzi bonus.
    TwoTongzi,
    /// Dizha bonus.
    Dizha,
    /// Finished first.
    FinishFirst,
    /// Finished second.
    FinishSecond,
    /// Finished third.
    FinishThird,
}

/// A single scoring event.
#[derive(Debug, Clone, PartialEq, Eq)]
pub struct ScoringEvent {
    /// Player ID.
    pub player_id: String,
    /// Type of bonus.
    pub bonus_type: BonusType,
    /// Points awarded (can be negative).
    pub points: i32,
    /// Human-readable reason.
    pub reason: String,
    /// Round number, if applicable.
    pub round_number: Option<usize>,
    /// Cards involved in scoring, in display form.
    pub cards_involved: Vec<String>,
}

impl ScoringEvent {
    /// Creates a new scoring event from its parts.
    pub fn new(
        player_id: String,
        bonus_type: BonusType,
        points: i32,
        reason: String,
        round_number: Option<usize>,
        cards_involved: Vec<String>,
    ) -> (e: ScoringEvent)
        ensures
            e.player_id == player_id,
            e.bonus_type == bonus_type,
            e.points == points,
            e.reason == reason,
            e.round_number == round_number,
            e.cards_involved == cards_involved,
    {
        ScoringEvent { player_id, bonus_type, points, reason, round_number, cards_involved }
    }
}

/// Two events agree on player, bonus type, points and round.
pub open spec fn same_event(a: ScoringEvent, b: ScoringEvent) -> bool {
    &&& a.player_id@ == b.player_id@
    &&& a.bonus_type == b.bonus_type
    &&& a.points == b.points
    &&& a.round_number == b.round_number
}

/// Copies an event, keeping its scoring content.
fn clone_event(e: &ScoringEvent) -> (r: ScoringEvent)
    ensures
        same_event(r, *e),
{
    ScoringEvent {
        player_id: e.player_id.clone(),
        bonus_type: e.bonus_type,
        points: e.points,
        reason: e.reason.clone(),
        round_number: e.round_number,
        cards_involved: clone_labels(&e.cards_involved),
    }
}

/// Copies a list of display labels.
fn clone_labels(v: &Vec<String>) -> (r: Vec<String>)
    ensures
        r@.len() == v@.len(),
{
    let n = v.len();
    let mut r: Vec<String> = Vec::new();
    let mut i: usize = 0;
    while i < n
        invariant
            0 <= i <= n,
            n == v@.len(),
            r@.len() == i,
        decreases n - i,
    {
        r.push(v[i].clone());
        i = i + 1;
    }
    r
}

/// Game scoring summary.
#[derive(Debug, Clone, PartialEq, Eq)]
pub struct GameSummary {
    /// Final score per player, in the order the players were given.
    pub final_scores: Vec<(String, i32)>,
    /// A player with the highest final score, if any players were given.
    pub winner_id: Option<String>,
    /// Total number of scoring events.
    pub total_events: usize,
}

/// The total base score of a pile of cards: 5 per Five, 10 per Ten or
/// King.
pub open spec fn sum_scores(s: Seq<Card>) -> int
    decreases s.len(),
{
    if s.len() == 0 {
        0
    } else {
        sum_scores(s.drop_last()) + s.last().spec_score_value()
    }
}

/// How many scoring cards a pile holds.
pub open spec fn count_scoring(s: Seq<Card>) -> int
    decreases s.len(),
{
    if s.len() == 0 {
        0
    } else {
        count_scoring(s.drop_last()) + (if s.last().spec_is_scoring_card() {
            1int
        } else {
            0int
        })
    }
}

/// The total points a player collected over a list of events.
pub open spec fn player_total(events: Seq<ScoringEvent>, id: Seq<char>) -> int
    decreases events.len(),
{
    if events.len() == 0 {
        0
    } else {
        player_total(events.drop_last(), id) + (if events.last().player_id@ == id {
            events.last().points as int
        } else {
            0int
        })
    }
}

/// Every running total of the player stays in the 32-bit range.
pub open spec fn totals_in_range(events: Seq<ScoringEvent>, id: Seq<char>) -> bool {
    forall|k: int|
        0 <= k <= events.len() ==> i32::MIN <= #[trigger] player_total(events.take(k), id)
            <= i32::MAX
}

/// Handles all scoring calculations and bonus awards.
///
/// A pure calculation engine: it records events, but never touches player
/// state.
#[derive(Debug, Clone)]
pub struct ScoreComputation {
    config: GameConfig,
    scoring_events: Vec<ScoringEvent>,
}

impl ScoreComputation {
    /// The configuration the engine was built with.
    pub closed spec fn spec_config(self) -> GameConfig {
        self.config
    }

    /// The events recorded so far.
    pub closed spec fn events(self) -> Seq<ScoringEvent> {
        self.scoring_events@
    }

    /// Creates a new scoring engine with a game configuration.
    pub fn new(config: GameConfig) -> (r: ScoreComputation)
        ensures
            r.spec_config() == config,
            r.events() == Seq::<ScoringEvent>::empty(),
    {
        let r = ScoreComputation { config, scoring_events: Vec::new() };
        proof {
            assert(r.events() =~= Seq::<ScoringEvent>::empty());
        }
        r
    }

    /// Calculates the base score of the cards of a round: points from
    /// Fives, Tens and Kings.
    pub fn calculate_round_base_score(&self, cards: &[Card]) -> (score: i32)
        requires
            cards@.len() <= 100000000,
        ensures
            score == sum_scores(cards@),
    {
        let n = cards.len();
        let mut score: i32 = 0;
        let mut i: usize = 0;
        while i < n
            invariant
                0 <= i <= n,
                n == cards@.len() <= 100000000,
                score == sum_scores(cards@.take(i as int)),
                0 <= score <= 10 * i,
            decreases n - i,
        {
            let c = cards[i];
            proof {
                assert(cards@.take(i + 1).drop_last() =~= cards@.take(i as int));
                assert(cards@.take(i + 1).last() == c);
            }
            if c.is_scoring_card() {
                score = score + c.score_value();
            }
            i = i + 1;
        }
        proof {
            assert(cards@.take(n as int) =~= cards@);
        }
        score
    }

    /// Creates the scoring event for a round winner: the round's base
    /// score, with the scoring cards listed, or nothing when no points
    /// were played. The event is recorded.
    pub fn create_round_win_event(
        &mut self,
        player_id: String,
        round_cards: &[Card],
        round_number: usize,
    ) -> (r: Option<ScoringEvent>)
        requires
            round_cards@.len() <= 100000000,
        ensures
            r is Some <==> sum_scores(round_cards@) > 0,
            r matches Some(e) ==> e.player_id == player_id && e.bonus_type == BonusType::RoundWin
                && e.points == sum_scores(round_cards@) && e.round_number == Some(round_number)
                && e.cards_involved@.len() == count_scoring(round_cards@),
            r matches Some(e) ==> final(self).events().len() == old(self).events().len() + 1
                && same_event(final(self).events().last(), e) && final(self).events().take(
                old(self).events().len() as int,
            ) == old(self).events(),
            r is None ==> final(self).events() == old(self).events(),
            final(self).spec_config() == old(self).spec_config(),
    {
        let base_score = self.calculate_round_base_score(round_cards);
        if base_score > 0 {
            let n = round_cards.len();
            let mut scoring_cards: Vec<String> = Vec::new();
            let mut i: usize = 0;
            while i < n
                invariant
                    0 <= i <= n,
                    n == round_cards@.len(),
                    scoring_cards@.len() == count_scoring(round_cards@.take(i as int)),
                decreases n - i,
            {
                let c = round_cards[i];
                proof {
                    assert(round_cards@.take(i + 1).drop_last() =~= round_cards@.take(i as int));
                    assert(round_cards@.take(i + 1).last() == c);
                }
                if c.is_scoring_card() {
                    scoring_cards.push(c.label());
                }
                i = i + 1;
            }
            proof {
                assert(round_cards@.take(n as int) =~= round_cards@);
            }
            let mut reason = String::from_str("Round ");
            let rn = crate::text::dec_string(round_number as u64);
            reason.append(rn.as_str());
            reason.append(" win with ");
            let bs = crate::text::dec_string(base_score as u64);
            reason.append(bs.as_str());
            reason.append(" scoring cards");
            let event = ScoringEvent::new(
                player_id,
                BonusType::RoundWin,
                base_score,
                reason,
                Some(round_number),
                scoring_cards,
            );
            let copy = clone_event(&event);
            let ghost prev = self.scoring_events@;
            self.scoring_events.push(copy);
            proof {
                assert(self.scoring_events@.take(prev.len() as int) =~= prev);
            }
            return Some(event);
        }
        None
    }

    /// The bonus points and type a winning Tongzi earns: only King, Ace
    /// and Two Tongzi carry bonuses.
    pub open spec fn spec_tongzi_bonus(self, rank: Rank) -> Option<(i32, BonusType)> {
        if rank == Rank::King {
            Some((self.spec_config().k_tongzi_bonus, BonusType::KTongzi))
        } else if rank == Rank::Ace {
            Some((self.spec_config().a_tongzi_bonus, BonusType::ATongzi))
        } else if rank == Rank::Two {
            Some((self.spec_config().two_tongzi_bonus, BonusType::TwoTongzi))
        } else {
            None
        }
    }

    /// Creates the special bonus events for a winning play: a Tongzi of
    /// King, Ace or Two, or a Dizha, earns its configured bonus — and only
    /// on the round-winning play. The events are recorded.
    pub fn create_special_bonus_events(
        &mut self,
        player_id: String,
        winning_pattern: &PlayPattern,
        round_number: usize,
        is_round_winning_play: bool,
    ) -> (r: Vec<ScoringEvent>)
        ensures
            final(self).spec_config() == old(self).spec_config(),
            !is_round_winning_play ==> r@.len() == 0 && final(self).events() == old(self).events(),
            is_round_winning_play && winning_pattern.play_type == PlayType::Tongzi && old(self).spec_tongzi_bonus(winning_pattern.primary_rank) is Some ==> r@.len() == 1
                && r@[0].player_id@ == player_id@ && r@[0].bonus_type == (old(self).spec_tongzi_bonus(winning_pattern.primary_rank)->Some_0).1 && r@[0].points == (old(self).spec_tongzi_bonus(winning_pattern.primary_rank)->Some_0).0 && r@[0].round_number
                == Some(round_number),
            is_round_winning_play && winning_pattern.play_type == PlayType::Tongzi && old(self).spec_tongzi_bonus(winning_pattern.primary_rank) is None ==> r@.len() == 0 && final(self).events() == old(self).events(),
            is_round_winning_play && winning_pattern.play_type == PlayType::Dizha ==> r@.len() == 1
                && r@[0].player_id@ == player_id@ && r@[0].bonus_type == BonusType::Dizha
                && r@[0].points == old(self).spec_config().dizha_bonus && r@[0].round_number
                == Some(round_number),
            is_round_winning_play && winning_pattern.play_type != PlayType::Tongzi
                && winning_pattern.play_type != PlayType::Dizha ==> r@.len() == 0 && final(self).events() == old(self).events(),
            r@.len() == 1 ==> final(self).events().len() == old(self).events().len() + 1
                && same_event(final(self).events().last(), r@[0]) && final(self).events().take(
                old(self).events().len() as int,
            ) == old(self).events(),
    {
        let mut events: Vec<ScoringEvent> = Vec::new();
        if !is_round_winning_play {
            return events;
        }
        if winning_pattern.play_type() == PlayType::Tongzi {
            let rank = winning_pattern.primary_rank();
            let bonus = if rank == Rank::King {
                Some((self.config.k_tongzi_bonus(), BonusType::KTongzi))
            } else if rank == Rank::Ace {
                Some((self.config.a_tongzi_bonus(), BonusType::ATongzi))
            } else if rank == Rank::Two {
                Some((self.config.two_tongzi_bonus(), BonusType::TwoTongzi))
            } else {
                None
            };
            if let Some((bonus_points, bonus_type)) = bonus {
                let mut reason = rank_name(rank);
                reason.append(" Tongzi in round ");
                let rn = crate::text::dec_string(round_number as u64);
                reason.append(rn.as_str());
                let event = ScoringEvent::new(
                    player_id,
                    bonus_type,
                    bonus_points,
                    reason,
                    Some(round_number),
                    Vec::new(),
                );
                let copy = clone_event(&event);
                let ghost prev = self.scoring_events@;
                self.scoring_events.push(copy);
                events.push(event);
                proof {
                    assert(self.scoring_events@.take(prev.len() as int) =~= prev);
                }
            }
        } else if winning_pattern.play_type() == PlayType::Dizha {
            let bonus_points = self.config.dizha_bonus();
            let mut reason = rank_name(winning_pattern.primary_rank());
            reason.append(" Dizha in round ");
            let rn = crate::text::dec_string(round_number as u64);
            reason.append(rn.as_str());
            let event = ScoringEvent::new(
                player_id,
                BonusType::Dizha,
                bonus_points,
                reason,
                Some(round_number),
                Vec::new(),
            );
            let copy = clone_event(&event);
            let ghost prev = self.scoring_events@;
            self.scoring_events.push(copy);
            events.push(event);
            proof {
                assert(self.scoring_events@.take(prev.len() as int) =~= prev);
            }
        }
        events
    }

    /// Creates the finish-position bonus events: one per player in finish
    /// order, as long as bonuses are configured, first place first. The
    /// events are recorded.
    pub fn create_finish_bonus_events(&mut self, player_ids_in_finish_order: &Vec<String>) -> (r:
        Vec<ScoringEvent>)
        ensures
            final(self).spec_config() == old(self).spec_config(),
            r@.len() == (if player_ids_in_finish_order@.len() <= old(self).spec_config().finish_bonus@.len() {
                player_ids_in_finish_order@.len() as int
            } else {
                old(self).spec_config().finish_bonus@.len() as int
            }),
            forall|i: int|
                0 <= i < r@.len() ==> (#[trigger] r@[i]).player_id@
                    == player_ids_in_finish_order@[i]@ && r@[i].points == old(self).spec_config().finish_bonus@[i] && r@[i].round_number is None && r@[i].bonus_type
                    == (if i == 0 {
                    BonusType::FinishFirst
                } else if i == 1 {
                    BonusType::FinishSecond
                } else {
                    BonusType::FinishThird
                }),
            final(self).events().len() == old(self).events().len() + r@.len(),
            final(self).events().take(old(self).events().len() as int) == old(self).events(),
            forall|i: int|
                0 <= i < r@.len() ==> same_event(
                    #[trigger] final(self).events()[old(self).events().len() + i],
                    r@[i],
                ),
    {
        let mut events: Vec<ScoringEvent> = Vec::new();
        let n = player_ids_in_finish_order.len();
        let mut i: usize = 0;
        let ghost orig = self.scoring_events@;
        while i < n
            invariant
                0 <= i <= n,
                n == player_ids_in_finish_order@.len(),
                self.config == old(self).spec_config(),
                events@.len() == (if i <= self.config.finish_bonus@.len() {
                    i as int
                } else {
                    self.config.finish_bonus@.len() as int
                }),
                forall|j: int|
                    0 <= j < events@.len() ==> (#[trigger] events@[j]).player_id@
                        == player_ids_in_finish_order@[j]@ && events@[j].points
                        == self.config.finish_bonus@[j] && events@[j].round_number is None
                        && events@[j].bonus_type == (if j == 0 {
                        BonusType::FinishFirst
                    } else if j == 1 {
                        BonusType::FinishSecond
                    } else {
                        BonusType::FinishThird
                    }),
                self.scoring_events@.len() == orig.len() + events@.len(),
                self.scoring_events@.take(orig.len() as int) == orig,
                forall|j: int|
                    0 <= j < events@.len() ==> same_event(
                        #[trigger] self.scoring_events@[orig.len() + j],
                        events@[j],
                    ),
            decreases n - i,
        {
            if i < self.config.finish_bonus.len() {
                let bonus_points = self.config.finish_bonus[i];
                let bonus_type = if i == 0 {
                    BonusType::FinishFirst
                } else if i == 1 {
                    BonusType::FinishSecond
                } else {
                    BonusType::FinishThird
                };
                let mut reason = String::from_str("Finished in position ");
                let pos = crate::text::dec_string((i + 1) as u64);
                reason.append(pos.as_str());
                let event = ScoringEvent::new(
                    player_ids_in_finish_order[i].clone(),
                    bonus_type,
                    bonus_points,
                    reason,
                    None,
                    Vec::new(),
                );
                proof {
                    assert(event.player_id@ == player_ids_in_finish_order@[i as int]@);
                }
                let copy = clone_event(&event);
                let ghost prev_events = events@;
                let ghost prev_log = self.scoring_events@;
                self.scoring_events.push(copy);
                events.push(event);
                proof {
                    assert(self.scoring_events@.take(orig.len() as int) =~= orig);
                    assert forall|j: int| 0 <= j < events@.len() implies same_event(
                        #[trigger] self.scoring_events@[orig.len() + j],
                        events@[j],
                    ) by {
                        if j < prev_events.len() {
                            assert(events@[j] == prev_events[j]);
                            assert(self.scoring_events@[orig.len() + j] == prev_log[orig.len()
                                + j]);
                        }
                    }
                    assert forall|j: int|
                        0 <= j < events@.len() implies (#[trigger] events@[j]).player_id@
                        == player_ids_in_finish_order@[j]@ && events@[j].points
                        == self.config.finish_bonus@[j] && events@[j].round_number is None
                        && events@[j].bonus_type == (if j == 0 {
                        BonusType::FinishFirst
                    } else if j == 1 {
                        BonusType::FinishSecond
                    } else {
                        BonusType::FinishThird
                    }) by {
                        if j < prev_events.len() {
                            assert(events@[j] == prev_events[j]);
                        }
                    }
                }
            }
            i = i + 1;
        }
        events
    }

    /// Calculates the total score of a player from all recorded events.
    pub fn calculate_total_score_for_player(&self, player_id: &str) -> (total: i32)
        requires
            totals_in_range(self.events(), player_id@),
        ensures
            total == player_total(self.events(), player_id@),
    {
        let n = self.scoring_events.len();
        let mut total: i32 = 0;
        let mut i: usize = 0;
        while i < n
            invariant
                0 <= i <= n,
                n == self.events().len(),
                totals_in_range(self.events(), player_id@),
                total == player_total(self.events().take(i as int), player_id@),
            decreases n - i,
        {
            let e = &self.scoring_events[i];
            proof {
                assert(self.events().take(i + 1).drop_last() =~= self.events().take(i as int));
                assert(self.events().take(i + 1).last() == self.events()[i as int]);
                assert(i32::MIN <= player_total(self.events().take(i + 1), player_id@)
                    <= i32::MAX);
            }
            if str_eq(e.player_id.as_str(), player_id) {
                proof {
                    assert(self.events()[i as int].player_id@ == player_id@);
                }
                total = total + e.points;
            }
            i = i + 1;
        }
        proof {
            assert(self.events().take(n as int) =~= self.events());
        }
        total
    }

    /// Validates that the given scores match the recorded events exactly.
    pub fn validate_scores(&self, player_scores: &Vec<(String, i32)>) -> (ok: bool)
        requires
            forall|i: int|
                0 <= i < player_scores@.len() ==> totals_in_range(
                    self.events(),
                    (#[trigger] player_scores@[i]).0@,
                ),
        ensures
            ok == forall|i: int|
                0 <= i < player_scores@.len() ==> player_total(
                    self.events(),
                    (#[trigger] player_scores@[i]).0@,
                ) == player_scores@[i].1,
    {
        let n = player_scores.len();
        let mut i: usize = 0;
        while i < n
            invariant
                0 <= i <= n,
                n == player_scores@.len(),
                forall|j: int|
                    0 <= j < player_scores@.len() ==> totals_in_range(
                        self.events(),
                        (#[trigger] player_scores@[j]).0@,
                    ),
                forall|j: int|
                    0 <= j < i ==> player_total(self.events(), (#[trigger] player_scores@[j]).0@)
                        == player_scores@[j].1,
            decreases n - i,
        {
            let recorded = player_scores[i].1;
            let calculated = self.calculate_total_score_for_player(player_scores[i].0.as_str());
            if calculated != recorded {
                return false;
            }
            i = i + 1;
        }
        true
    }

    /// Returns all recorded scoring events.
    pub fn scoring_events(&self) -> (r: &Vec<ScoringEvent>)
        ensures
            r@ == self.events(),
    {
        &self.scoring_events
    }

    /// Generates the game summary: each player's total, a player with the
    /// highest total as the winner, and the event count.
    pub fn get_game_summary(&self, player_ids: &Vec<String>) -> (r: GameSummary)
        requires
            forall|i: int|
                0 <= i < player_ids@.len() ==> totals_in_range(
                    self.events(),
                    (#[trigger] player_ids@[i])@,
                ),
        ensures
            r.final_scores@.len() == player_ids@.len(),
            forall|i: int|
                0 <= i < player_ids@.len() ==> (#[trigger] r.final_scores@[i]).0@
                    == player_ids@[i]@ && r.final_scores@[i].1 == player_total(
                    self.events(),
                    player_ids@[i]@,
                ),
            r.winner_id is Some <==> player_ids@.len() > 0,
            r.winner_id matches Some(w) ==> exists|i: int|
                0 <= i < r.final_scores@.len() && (#[trigger] r.final_scores@[i]).0@ == w@ && (
                forall|j: int|
                    0 <= j < r.final_scores@.len() ==> (#[trigger] r.final_scores@[j]).1
                        <= r.final_scores@[i].1),
            r.total_events == self.events().len(),
    {
        let n = player_ids.len();
        let mut final_scores: Vec<(String, i32)> = Vec::new();
        let mut i: usize = 0;
        while i < n
            invariant
                0 <= i <= n,
                n == player_ids@.len(),
                final_scores@.len() == i,
                forall|j: int|
                    0 <= j < player_ids@.len() ==> totals_in_range(
                        self.events(),
                        (#[trigger] player_ids@[j])@,
                    ),
                forall|j: int|
                    0 <= j < i ==> (#[trigger] final_scores@[j]).0@ == player_ids@[j]@
                        && final_scores@[j].1 == player_total(self.events(), player_ids@[j]@),
            decreases n - i,
        {
            let pid = player_ids[i].clone();
            proof {
                assert(pid@ == player_ids@[i as int]@);
            }
            let score = self.calculate_total_score_for_player(pid.as_str());
            final_scores.push((pid, score));
            i = i + 1;
        }
        let mut winner_id: Option<String> = None;
        if final_scores.len() > 0 {
            let mut best: usize = 0;
            let mut j: usize = 1;
            let m = final_scores.len();
            while j < m
                invariant
                    0 <= best < j <= m,
                    m == final_scores@.len(),
                    forall|x: int|
                        0 <= x < j ==> (#[trigger] final_scores@[x]).1
                            <= final_scores@[best as int].1,
                decreases m - j,
            {
                if final_scores[j].1 > final_scores[best].1 {
                    best = j;
                }
                j = j + 1;
            }
            winner_id = Some(final_scores[best].0.clone());
        }
        let r = GameSummary { final_scores, winner_id, total_events: self.scoring_events.len() };
        r
    }
}

/// String-slice equality by content.
fn str_eq(a: &str, b: &str) -> (r: bool)
    ensures
        r == (a@ == b@),
{
    let sa = String::from_str(a);
    let sb = String::from_str(b);
    sa == sb
}

/// The display name of a rank, as a fresh string.
fn rank_name(rank: Rank) -> String {
    let name: &'static str = match rank {
        Rank::Three => "Three",
        Rank::Four => "Four",
        Rank::Five => "Five",
        Rank::Six => "Six",
        Rank::Seven => "Seven",
        Rank::Eight => "Eight",
        Rank::Nine => "Nine",
        Rank::Ten => "Ten",
        Rank::Jack => "Jack",
        Rank::Queen => "Queen",
        Rank::King => "King",
        Rank::Ace => "Ace",
        Rank::Two => "Two",
    };
    String::from_str(name)
}

} // verus!
