//! Configuration factory for game rule variants, and a validator for
//! playability.

use vstd::prelude::*;
use vstd::string::StringExecFns;

use crate::models::config::GameConfig;

verus! {

/// Factory for creating game configurations with different rule variants.
pub struct ConfigFactory;

impl ConfigFactory {
    /// The standard three-deck, three-player game: 41 cards each, 9 aside,
    /// finish bonuses 100/-40/-60, standard special bonuses.
    pub fn create_standard_3deck_3player() -> (c: GameConfig)
        ensures
            c.num_decks == 3,
            c.num_players == 3,
            c.cards_per_player == 41,
            c.cards_dealt_aside == 9,
            c.finish_bonus@ == seq![100i32, -40i32, -60i32],
            c.k_tongzi_bonus == 100,
            c.a_tongzi_bonus == 200,
            c.two_tongzi_bonus == 300,
            c.dizha_bonus == 400,
    {
        let mut finish_bonus: Vec<i32> = Vec::new();
        finish_bonus.push(100);
        finish_bonus.push(-40);
        finish_bonus.push(-60);
        proof {
            assert(finish_bonus@ =~= seq![100i32, -40i32, -60i32]);
        }
        GameConfig::new(3, 3, 41, 9, finish_bonus, 100, 200, 300, 400)
    }

    /// The four-deck, four-player game: 42 cards each, 8 aside, adjusted
    /// finish bonuses.
    pub fn create_4deck_4player() -> (c: GameConfig)
        ensures
            c.num_decks == 4,
            c.num_players == 4,
            c.cards_per_player == 42,
            c.cards_dealt_aside == 8,
            c.finish_bonus@ == seq![100i32, -20i32, -40i32, -80i32],
            c.k_tongzi_bonus == 100,
            c.a_tongzi_bonus == 200,
            c.two_tongzi_bonus == 300,
            c.dizha_bonus == 400,
    {
        let mut finish_bonus: Vec<i32> = Vec::new();
        finish_bonus.push(100);
        finish_bonus.push(-20);
        finish_bonus.push(-40);
        finish_bonus.push(-80);
        proof {
            assert(finish_bonus@ =~= seq![100i32, -20i32, -40i32, -80i32]);
        }
        GameConfig::new(4, 4, 42, 8, finish_bonus, 100, 200, 300, 400)
    }

    /// The head-to-head game: three decks, two players, 60 cards each.
    pub fn create_2player() -> (c: GameConfig)
        ensures
            c.num_decks == 3,
            c.num_players == 2,
            c.cards_per_player == 60,
            c.cards_dealt_aside == 12,
            c.finish_bonus@ == seq![100i32, -100i32],
            c.k_tongzi_bonus == 100,
            c.a_tongzi_bonus == 200,
            c.two_tongzi_bonus == 300,
            c.dizha_bonus == 400,
    {
        let mut finish_bonus: Vec<i32> = Vec::new();
        finish_bonus.push(100);
        finish_bonus.push(-100);
        proof {
            assert(finish_bonus@ =~= seq![100i32, -100i32]);
        }
        GameConfig::new(3, 2, 60, 12, finish_bonus, 100, 200, 300, 400)
    }

    /// The quick game: two decks, three players, 28 cards each.
    pub fn create_quick_game() -> (c: GameConfig)
        ensures
            c.num_decks == 2,
            c.num_players == 3,
            c.cards_per_player == 28,
            c.cards_dealt_aside == 4,
            c.finish_bonus@ == seq![100i32, -40i32, -60i32],
            c.k_tongzi_bonus == 100,
            c.a_tongzi_bonus == 200,
            c.two_tongzi_bonus == 300,
            c.dizha_bonus == 400,
    {
        let mut finish_bonus: Vec<i32> = Vec::new();
        finish_bonus.push(100);
        finish_bonus.push(-40);
        finish_bonus.push(-60);
        proof {
            assert(finish_bonus@ =~= seq![100i32, -40i32, -60i32]);
        }
        GameConfig::new(2, 3, 28, 4, finish_bonus, 100, 200, 300, 400)
    }

    /// The high-stakes game: the standard setup with doubled bonuses.
    pub fn create_high_stakes() -> (c: GameConfig)
        ensures
            c.num_decks == 3,
            c.num_players == 3,
            c.cards_per_player == 41,
            c.cards_dealt_aside == 9,
            c.finish_bonus@ == seq![200i32, -80i32, -120i32],
            c.k_tongzi_bonus == 200,
            c.a_tongzi_bonus == 400,
            c.two_tongzi_bonus == 600,
            c.dizha_bonus == 800,
    {
        let mut finish_bonus: Vec<i32> = Vec::new();
        finish_bonus.push(200);
        finish_bonus.push(-80);
        finish_bonus.push(-120);
        proof {
            assert(finish_bonus@ =~= seq![200i32, -80i32, -120i32]);
        }
        GameConfig::new(3, 3, 41, 9, finish_bonus, 200, 400, 600, 800)
    }

    /// The beginner-friendly game: the standard setup.
    pub fn create_beginner_friendly() -> (c: GameConfig)
        ensures
            c.num_decks == 3,
            c.num_players == 3,
            c.cards_per_player == 41,
            c.cards_dealt_aside == 9,
            c.finish_bonus@ == seq![100i32, -40i32, -60i32],
            c.k_tongzi_bonus == 100,
            c.a_tongzi_bonus == 200,
            c.two_tongzi_bonus == 300,
            c.dizha_bonus == 400,
    {
        let mut finish_bonus: Vec<i32> = Vec::new();
        finish_bonus.push(100);
        finish_bonus.push(-40);
        finish_bonus.push(-60);
        proof {
            assert(finish_bonus@ =~= seq![100i32, -40i32, -60i32]);
        }
        GameConfig::new(3, 3, 41, 9, finish_bonus, 100, 200, 300, 400)
    }

    /// Creates a custom configuration; the finish bonuses are derived from
    /// the player count, first place earning 100 and the rest sharing -100.
    pub fn create_custom(
        num_decks: u8,
        num_players: u8,
        cards_per_player: usize,
        cards_dealt_aside: usize,
        k_tongzi_bonus: i32,
        a_tongzi_bonus: i32,
        two_tongzi_bonus: i32,
        dizha_bonus: i32,
    ) -> (c: GameConfig)
        ensures
            c.num_decks == num_decks,
            c.num_players == num_players,
            c.cards_per_player == cards_per_player,
            c.cards_dealt_aside == cards_dealt_aside,
            c.k_tongzi_bonus == k_tongzi_bonus,
            c.a_tongzi_bonus == a_tongzi_bonus,
            c.two_tongzi_bonus == two_tongzi_bonus,
            c.dizha_bonus == dizha_bonus,
            num_players == 0 ==> c.finish_bonus@.len() == 0,
            num_players >= 1 ==> c.finish_bonus@.len() == num_players && c.finish_bonus@[0] == 100,
            num_players == 2 ==> c.finish_bonus@ == seq![100i32, -100i32],
            num_players == 3 ==> c.finish_bonus@ == seq![100i32, -50i32, -50i32],
            num_players == 4 ==> c.finish_bonus@ == seq![100i32, -34i32, -33i32, -33i32],
            num_players >= 2 ==> (forall|j: int|
                2 <= j < c.finish_bonus@.len() ==> #[trigger] c.finish_bonus@[j] == -((100int / (num_players - 1)) as i32)),
            num_players >= 2 ==> c.finish_bonus@[1] == -((100int / (num_players - 1)) as i32) - ((100int % (
            num_players - 1)) as i32),
            num_players >= 2 ==> sum_bonuses(c.finish_bonus@) == 0,
    {
        let finish_bonus = Self::calculate_default_finish_bonus(num_players);
        GameConfig::new(
            num_decks,
            num_players,
            cards_per_player,
            cards_dealt_aside,
            finish_bonus,
            k_tongzi_bonus,
            a_tongzi_bonus,
            two_tongzi_bonus,
            dizha_bonus,
        )
    }

    /// The default finish bonuses for a player count: first place gets
    /// +100, the remaining players share -100 as evenly as possible, with
    /// the remainder charged to second place.
    #[verifier::rlimit(40)]
    fn calculate_default_finish_bonus(num_players: u8) -> (r: Vec<i32>)
        ensures
            num_players == 0 ==> r@.len() == 0,
            num_players >= 1 ==> r@.len() == num_players && r@[0] == 100,
            num_players == 2 ==> r@ == seq![100i32, -100i32],
            num_players == 3 ==> r@ == seq![100i32, -50i32, -50i32],
            num_players == 4 ==> r@ == seq![100i32, -34i32, -33i32, -33i32],
            num_players >= 2 ==> (forall|j: int|
                2 <= j < r@.len() ==> #[trigger] r@[j] == -((100int / (num_players - 1)) as i32)),
            num_players >= 2 ==> r@[1] == -((100int / (num_players - 1)) as i32) - ((100int % (
            num_players - 1)) as i32),
            num_players >= 2 ==> sum_bonuses(r@) == 0,
    {
        let mut bonuses: Vec<i32> = Vec::new();
        if num_players == 0 {
            return bonuses;
        }
        bonuses.push(100);
        proof {
            assert(bonuses@.drop_last() =~= Seq::<i32>::empty());
            assert(sum_bonuses(Seq::<i32>::empty()) == 0);
            assert(sum_bonuses(bonuses@) == sum_bonuses(bonuses@.drop_last())
                + bonuses@.last());
            assert(sum_bonuses(bonuses@) == 100);
        }
        if num_players > 1 {
            let others: u32 = (num_players - 1) as u32;
            proof {
                assert(0 <= 100int / (others as int) <= 100 && 0 <= 100int % (others as int)
                    <= 100) by (nonlinear_arith)
                    requires
                        1 <= others <= 254,
                ;
            }
            let per_mag: u32 = 100 / others;
            let rem_mag: u32 = 100 % others;
            let per: i32 = -(per_mag as i32);
            let rem: i32 = -(rem_mag as i32);
            let mut i: u8 = 0;
            while i < num_players - 1
                invariant
                    0 <= i <= num_players - 1,
                    num_players >= 2,
                    per == -((100int / (num_players - 1)) as i32),
                    rem == -((100int % (num_players - 1)) as i32),
                    -100 <= per <= 0,
                    -100 <= rem <= 0,
                    bonuses@.len() == 1 + i,
                    bonuses@[0] == 100,
                    forall|j: int|
                        1 <= j < bonuses@.len() ==> #[trigger] bonuses@[j] == (if j == 1 {
                            per + rem
                        } else {
                            per as int
                        }),
                    sum_bonuses(bonuses@) == 100 + (if i >= 1 {
                        (per as int + rem as int) + (i - 1) * (per as int)
                    } else {
                        0int
                    }),
                decreases num_players - 1 - i,
            {
                let bonus: i32 = if i == 0 {
                    per + rem
                } else {
                    per
                };
                let ghost prev = bonuses@;
                bonuses.push(bonus);
                proof {
                    assert(bonuses@.drop_last() =~= prev);
                    assert(sum_bonuses(bonuses@) == sum_bonuses(prev) + bonus);
                    if i >= 1 {
                        assert((i as int) * (per as int) == (i as int - 1) * (per as int)
                            + per as int) by (nonlinear_arith);
                    }
                    assert forall|j: int|
                        1 <= j < bonuses@.len() implies #[trigger] bonuses@[j] == (if j == 1 {
                        per + rem
                    } else {
                        per as int
                    }) by {
                        if j < prev.len() {
                            assert(bonuses@[j] == prev[j]);
                        }
                    }
                }
                i = i + 1;
            }
            proof {
                let n = num_players as int;
                assert(sum_bonuses(bonuses@) == 100 + (per as int + rem as int) + (n - 2) * (
                per as int));
                assert((n - 1) * (100int / (n - 1)) + 100int % (n - 1) == 100) by (nonlinear_arith)
                    requires
                        2 <= n <= 255,
                ;
                assert(per as int == -(100int / (n - 1)));
                assert(rem as int == -(100int % (n - 1)));
                assert((n - 2) * (per as int) == (n - 1) * (per as int) - per as int)
                    by (nonlinear_arith);
                assert((n - 1) * (per as int) == -((n - 1) * (100int / (n - 1))))
                    by (nonlinear_arith)
                    requires
                        per as int == -(100int / (n - 1)),
                ;
                assert((n - 1) * (per as int) == -100 + 100int % (n - 1));
                assert(sum_bonuses(bonuses@) == 100 + (per as int + rem as int) + (n - 2) * (
                per as int));
                assert(sum_bonuses(bonuses@) == 0);
                if num_players == 2 {
                    assert(100int / 1 == 100 && 100int % 1 == 0);
                    assert(per == -100 && rem == 0);
                    assert(bonuses@ =~= seq![100i32, -100i32]);
                }
                if num_players == 3 {
                    assert(100int / 2 == 50 && 100int % 2 == 0);
                    assert(per == -50 && rem == 0);
                    assert(bonuses@ =~= seq![100i32, -50i32, -50i32]);
                }
                if num_players == 4 {
                    assert(100int / 3 == 33 && 100int % 3 == 1);
                    assert(per == -33 && rem == -1);
                    assert(bonuses@ =~= seq![100i32, -34i32, -33i32, -33i32]);
                }
            }
        }
        bonuses
    }
}

/// The sum of a list of bonus values.
pub open spec fn sum_bonuses(s: Seq<i32>) -> int
    decreases s.len(),
{
    if s.len() == 0 {
        0
    } else {
        sum_bonuses(s.drop_last()) + s.last()
    }
}

/// Validates game configuration variants for playability.
pub struct VariantValidator;

impl VariantValidator {
    /// Whether each playability check passes: enough cards for ten per
    /// player, an even distribution, matching finish bonuses, and a
    /// zero-or-negative bonus sum.
    pub open spec fn checks(c: GameConfig) -> (bool, bool, bool, bool) {
        let avail = c.num_decks * 52 - c.cards_dealt_aside;
        (
            avail >= c.num_players * 10,
            avail % (c.num_players as int) == 0,
            c.finish_bonus@.len() == c.num_players,
            sum_bonuses(c.finish_bonus@) <= 0,
        )
    }

    /// Validates that a configuration is playable: returns whether all
    /// checks pass, and one warning per failed check.
    pub fn validate_config(config: &GameConfig) -> (r: (bool, Vec<String>))
        requires
            config.cards_dealt_aside <= config.num_decks * 52,
            config.num_players >= 1,
            config.finish_bonus@.len() <= 100000,
        ensures
            r.0 == (Self::checks(*config).0 && Self::checks(*config).1 && Self::checks(*config).2
                && Self::checks(*config).3),
            r.1@.len() == (if Self::checks(*config).0 {
                0int
            } else {
                1int
            }) + (if Self::checks(*config).1 {
                0int
            } else {
                1int
            }) + (if Self::checks(*config).2 {
                0int
            } else {
                1int
            }) + (if Self::checks(*config).3 {
                0int
            } else {
                1int
            }),
    {
        let mut warnings: Vec<String> = Vec::new();
        let total_cards: usize = (config.num_decks() as usize) * 52;
        let total_available: usize = total_cards - config.cards_dealt_aside();
        let required: usize = (config.num_players() as usize) * 10;
        if total_available < required {
            let mut msg = String::from_str("Too few cards: ");
            let a = crate::text::dec_string(total_available as u64);
            msg.append(a.as_str());
            msg.append(" available, need at least ");
            let b = crate::text::dec_string(required as u64);
            msg.append(b.as_str());
            msg.append(" for ");
            let p = crate::text::dec_string(config.num_players() as u64);
            msg.append(p.as_str());
            msg.append(" players");
            warnings.push(msg);
        }
        if total_available % (config.num_players() as usize) != 0 {
            let mut msg = String::from_str("Uneven distribution: ");
            let a = crate::text::dec_string(total_available as u64);
            msg.append(a.as_str());
            msg.append(" cards cannot be evenly divided among ");
            let p = crate::text::dec_string(config.num_players() as u64);
            msg.append(p.as_str());
            msg.append(" players");
            warnings.push(msg);
        }
        if config.finish_bonus.len() != config.num_players() as usize {
            let mut msg = String::from_str("Finish bonus length (");
            let a = crate::text::dec_string(config.finish_bonus.len() as u64);
            msg.append(a.as_str());
            msg.append(") does not match player count (");
            let p = crate::text::dec_string(config.num_players() as u64);
            msg.append(p.as_str());
            msg.append(")");
            warnings.push(msg);
        }
        let nb = config.finish_bonus.len();
        let mut bonus_sum: i64 = 0;
        let mut i: usize = 0;
        while i < nb
            invariant
                0 <= i <= nb,
                nb == config.finish_bonus@.len() <= 100000,
                bonus_sum == sum_bonuses(config.finish_bonus@.take(i as int)),
                -100000 * 2147483648 <= bonus_sum <= 100000 * 2147483647,
            decreases nb - i,
        {
            proof {
                assert(config.finish_bonus@.take(i + 1).drop_last() =~= config.finish_bonus@.take(
                    i as int,
                ));
                assert(config.finish_bonus@.take(i + 1).last() == config.finish_bonus@[i as int]);
                assert(-(i + 1) * 2147483648 >= -100000 * 2147483648 && (i + 1) * 2147483647
                    <= 100000 * 2147483647) by (nonlinear_arith)
                    requires
                        0 <= i < 100000,
                ;
                assert(-(i as int) * 2147483648 <= sum_bonuses(
                    config.finish_bonus@.take(i as int),
                ) <= (i as int) * 2147483647) by {
                    lemma_sum_bounds(config.finish_bonus@.take(i as int));
                    assert(config.finish_bonus@.take(i as int).len() == i);
                }
            }
            bonus_sum = bonus_sum + (config.finish_bonus[i] as i64);
            i = i + 1;
        }
        proof {
            assert(config.finish_bonus@.take(nb as int) =~= config.finish_bonus@);
        }
        if bonus_sum > 0 {
            let mut msg = String::from_str("Finish bonuses sum to ");
            let a = crate::text::dec_string(bonus_sum as u64);
            msg.append(a.as_str());
            msg.append(" (should be \u{2264}0 for fairness)");
            warnings.push(msg);
        }
        let is_valid = warnings.len() == 0;
        (is_valid, warnings)
    }
}

/// The sum of bonuses is bounded by the count times the extremes.
proof fn lemma_sum_bounds(s: Seq<i32>)
    ensures
        -(s.len() as int) * 2147483648 <= sum_bonuses(s) <= (s.len() as int) * 2147483647,
    decreases s.len(),
{
    if s.len() > 0 {
        lemma_sum_bounds(s.drop_last());
        assert((s.len() as int) * 2147483647 == (s.len() - 1) * 2147483647 + 2147483647)
            by (nonlinear_arith);
        assert(-(s.len() as int) * 2147483648 == -((s.len() - 1) as int) * 2147483648
            - 2147483648) by (nonlinear_arith);
    }
}

} // verus!
