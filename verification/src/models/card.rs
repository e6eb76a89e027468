//! Card, rank, suit and deck types.

use rand::seq::SliceRandom;
use rand::thread_rng;
use vstd::prelude::*;
use vstd::string::StringExecFns;

verus! {

/// Card suit, ordered Diamonds < Clubs < Hearts < Spades.
#[derive(Clone, Copy, Debug, PartialEq, Eq, Hash, PartialOrd, Ord, Structural)]
pub enum Suit {
    /// Diamonds, the lowest suit.
    Diamonds,
    /// Clubs.
    Clubs,
    /// Hearts.
    Hearts,
    /// Spades, the highest suit.
    Spades,
}

impl Suit {
    /// Numeric value of the suit, 1 (Diamonds) through 4 (Spades).
    pub open spec fn spec_value(self) -> u8 {
        match self {
            Suit::Diamonds => 1,
            Suit::Clubs => 2,
            Suit::Hearts => 3,
            Suit::Spades => 4,
        }
    }

    /// Returns the numeric value of the suit (1-4).
    #[verifier::when_used_as_spec(spec_value)]
    pub fn value(self) -> (v: u8)
        ensures
            v == self.spec_value(),
    {
        match self {
            Suit::Diamonds => 1,
            Suit::Clubs => 2,
            Suit::Hearts => 3,
            Suit::Spades => 4,
        }
    }
}

/// Card rank, ordered Three < Four < ... < King < Ace < Two.
#[derive(Clone, Copy, Debug, PartialEq, Eq, Hash, PartialOrd, Ord, Structural)]
pub enum Rank {
    /// Three, the lowest rank.
    Three,
    /// Four.
    Four,
    /// Five (scoring card worth 5 points).
    Five,
    /// Six.
    Six,
    /// Seven.
    Seven,
    /// Eight.
    Eight,
    /// Nine.
    Nine,
    /// Ten (scoring card worth 10 points).
    Ten,
    /// Jack.
    Jack,
    /// Queen.
    Queen,
    /// King (scoring card worth 10 points).
    King,
    /// Ace.
    Ace,
    /// Two, the single highest rank.
    Two,
}

impl Rank {
    /// Numeric value of the rank, 3 (Three) through 15 (Two).
    pub open spec fn spec_value(self) -> u8 {
        match self {
            Rank::Three => 3,
            Rank::Four => 4,
            Rank::Five => 5,
            Rank::Six => 6,
            Rank::Seven => 7,
            Rank::Eight => 8,
            Rank::Nine => 9,
            Rank::Ten => 10,
            Rank::Jack => 11,
            Rank::Queen => 12,
            Rank::King => 13,
            Rank::Ace => 14,
            Rank::Two => 15,
        }
    }

    /// Returns the numeric value of the rank (3-15).
    #[verifier::when_used_as_spec(spec_value)]
    pub fn value(self) -> (v: u8)
        ensures
            v == self.spec_value(),
    {
        match self {
            Rank::Three => 3,
            Rank::Four => 4,
            Rank::Five => 5,
            Rank::Six => 6,
            Rank::Seven => 7,
            Rank::Eight => 8,
            Rank::Nine => 9,
            Rank::Ten => 10,
            Rank::Jack => 11,
            Rank::Queen => 12,
            Rank::King => 13,
            Rank::Ace => 14,
            Rank::Two => 15,
        }
    }
}

/// The rank whose numeric value is `v`, for `3 <= v <= 15`.
pub open spec fn rank_of_value(v: int) -> Rank {
    if v == 3 {
        Rank::Three
    } else if v == 4 {
        Rank::Four
    } else if v == 5 {
        Rank::Five
    } else if v == 6 {
        Rank::Six
    } else if v == 7 {
        Rank::Seven
    } else if v == 8 {
        Rank::Eight
    } else if v == 9 {
        Rank::Nine
    } else if v == 10 {
        Rank::Ten
    } else if v == 11 {
        Rank::Jack
    } else if v == 12 {
        Rank::Queen
    } else if v == 13 {
        Rank::King
    } else if v == 14 {
        Rank::Ace
    } else {
        Rank::Two
    }
}

/// `rank_of_value` inverts `spec_value` on the valid range.
pub broadcast proof fn lemma_rank_value_roundtrip(r: Rank)
    ensures
        3 <= #[trigger] r.spec_value() <= 15,
        rank_of_value(r.spec_value() as int) == r,
{
}

/// Returns the rank with numeric value `v`.
pub fn rank_from_value(v: u8) -> (r: Rank)
    requires
        3 <= v <= 15,
    ensures
        r == rank_of_value(v as int),
        r.spec_value() == v,
{
    if v == 3 {
        Rank::Three
    } else if v == 4 {
        Rank::Four
    } else if v == 5 {
        Rank::Five
    } else if v == 6 {
        Rank::Six
    } else if v == 7 {
        Rank::Seven
    } else if v == 8 {
        Rank::Eight
    } else if v == 9 {
        Rank::Nine
    } else if v == 10 {
        Rank::Ten
    } else if v == 11 {
        Rank::Jack
    } else if v == 12 {
        Rank::Queen
    } else if v == 13 {
        Rank::King
    } else if v == 14 {
        Rank::Ace
    } else {
        Rank::Two
    }
}

/// A playing card: a (rank, suit) pair.
///
/// The `rank` field comes first so that the derived ordering compares by
/// rank before suit, as the game requires.
#[derive(Clone, Copy, Debug, PartialEq, Eq, Hash, PartialOrd, Ord, Structural)]
pub struct Card {
    /// Card rank.
    pub rank: Rank,
    /// Card suit.
    pub suit: Suit,
}

impl Card {
    /// Creates a new card.
    pub fn new(suit: Suit, rank: Rank) -> (c: Card)
        ensures
            c.suit == suit,
            c.rank == rank,
    {
        Card { rank, suit }
    }

    /// Returns the suit of this card.
    pub fn suit(&self) -> (s: Suit)
        ensures
            s == self.suit,
    {
        self.suit
    }

    /// Returns the rank of this card.
    pub fn rank(&self) -> (r: Rank)
        ensures
            r == self.rank,
    {
        self.rank
    }

    /// A card scores points exactly when its rank is Five, Ten or King.
    pub open spec fn spec_is_scoring_card(self) -> bool {
        self.rank == Rank::Five || self.rank == Rank::Ten || self.rank == Rank::King
    }

    /// The point value of this card: 5 for a Five, 10 for a Ten or King,
    /// 0 otherwise.
    pub open spec fn spec_score_value(self) -> i32 {
        match self.rank {
            Rank::Five => 5,
            Rank::Ten => 10,
            Rank::King => 10,
            _ => 0,
        }
    }

    /// Returns true if this is a scoring card (5, 10, or K).
    pub fn is_scoring_card(&self) -> (b: bool)
        ensures
            b == self.spec_is_scoring_card(),
    {
        match self.rank {
            Rank::Five => true,
            Rank::Ten => true,
            Rank::King => true,
            _ => false,
        }
    }

    /// Returns the score value of this card (5, 10, or 0).
    pub fn score_value(&self) -> (v: i32)
        ensures
            v == self.spec_score_value(),
    {
        match self.rank {
            Rank::Five => 5,
            Rank::Ten => 10,
            Rank::King => 10,
            _ => 0,
        }
    }

    /// The display label of this card: rank then suit symbol.
    pub fn label(&self) -> (s: String)
        ensures
            s@ == spec_rank_label(self.rank) + spec_suit_label(self.suit),
    {
        let rank_part: &'static str = match self.rank {
            Rank::Three => "3",
            Rank::Four => "4",
            Rank::Five => "5",
            Rank::Six => "6",
            Rank::Seven => "7",
            Rank::Eight => "8",
            Rank::Nine => "9",
            Rank::Ten => "10",
            Rank::Jack => "J",
            Rank::Queen => "Q",
            Rank::King => "K",
            Rank::Ace => "A",
            Rank::Two => "2",
        };
        let suit_part: &'static str = match self.suit {
            Suit::Diamonds => "\u{2666}",
            Suit::Clubs => "\u{2663}",
            Suit::Hearts => "\u{2665}",
            Suit::Spades => "\u{2660}",
        };
        let mut s = String::from_str(rank_part);
        s.append(suit_part);
        s
    }
}

/// The display text of a rank: its face value.
pub open spec fn spec_rank_label(r: Rank) -> Seq<char> {
    match r {
        Rank::Three => "3"@,
        Rank::Four => "4"@,
        Rank::Five => "5"@,
        Rank::Six => "6"@,
        Rank::Seven => "7"@,
        Rank::Eight => "8"@,
        Rank::Nine => "9"@,
        Rank::Ten => "10"@,
        Rank::Jack => "J"@,
        Rank::Queen => "Q"@,
        Rank::King => "K"@,
        Rank::Ace => "A"@,
        Rank::Two => "2"@,
    }
}

/// The display symbol of a suit.
pub open spec fn spec_suit_label(s: Suit) -> Seq<char> {
    match s {
        Suit::Diamonds => "\u{2666}"@,
        Suit::Clubs => "\u{2663}"@,
        Suit::Hearts => "\u{2665}"@,
        Suit::Spades => "\u{2660}"@,
    }
}

/// Returns true when the slice holds the given rank.
fn rank_in(list: &[Rank], r: Rank) -> (b: bool)
    ensures
        b == list@.contains(r),
{
    let mut i: usize = 0;
    while i < list.len()
        invariant
            0 <= i <= list@.len(),
            forall|j: int| 0 <= j < i ==> list@[j] != r,
        decreases list@.len() - i,
    {
        if list[i] == r {
            return true;
        }
        i = i + 1;
    }
    false
}

/// How many of the thirteen ranks are absent from the exclusion list.
pub open spec fn kept_rank_count(excluded: Seq<Rank>) -> int {
    (if excluded.contains(Rank::Three) {
        0int
    } else {
        1int
    }) + (if excluded.contains(Rank::Four) {
        0int
    } else {
        1int
    }) + (if excluded.contains(Rank::Five) {
        0int
    } else {
        1int
    }) + (if excluded.contains(Rank::Six) {
        0int
    } else {
        1int
    }) + (if excluded.contains(Rank::Seven) {
        0int
    } else {
        1int
    }) + (if excluded.contains(Rank::Eight) {
        0int
    } else {
        1int
    }) + (if excluded.contains(Rank::Nine) {
        0int
    } else {
        1int
    }) + (if excluded.contains(Rank::Ten) {
        0int
    } else {
        1int
    }) + (if excluded.contains(Rank::Jack) {
        0int
    } else {
        1int
    }) + (if excluded.contains(Rank::Queen) {
        0int
    } else {
        1int
    }) + (if excluded.contains(Rank::King) {
        0int
    } else {
        1int
    }) + (if excluded.contains(Rank::Ace) {
        0int
    } else {
        1int
    }) + (if excluded.contains(Rank::Two) {
        0int
    } else {
        1int
    })
}

/// How many rank values below `v` are absent from the exclusion list.
spec fn kept_count_upto(excluded: Seq<Rank>, v: int) -> int
    decreases v,
{
    if v <= 3 {
        0
    } else {
        kept_count_upto(excluded, v - 1) + (if excluded.contains(rank_of_value(v - 1)) {
            0int
        } else {
            1int
        })
    }
}

/// The first `k` entries of the list hold the rank.
spec fn rank_in_prefix(kept: Seq<Rank>, k: int, rk: Rank) -> bool {
    exists|j: int| 0 <= j < k && kept[j] == rk
}

/// A deck of cards.
#[derive(Debug, Clone)]
pub struct Deck {
    cards: Vec<Card>,
}

impl Deck {
    /// The cards currently in the deck, bottom first.
    pub closed spec fn view(&self) -> Seq<Card> {
        self.cards@
    }

    /// Creates a new deck with the specified number of 52-card decks,
    /// leaving out every card whose rank is in `excluded_ranks`.
    #[verifier::rlimit(100)]
    pub fn new(num_decks: u8, excluded_ranks: &[Rank]) -> (deck: Deck)
        ensures
            deck@.len() == num_decks * 4 * kept_rank_count(excluded_ranks@),
            forall|i: int|
                0 <= i < deck@.len() ==> !excluded_ranks@.contains(#[trigger] deck@[i].rank),
            forall|su: Suit, rk: Rank|
                #[trigger] crate::models::counting::suit_rank_count(deck@, su, rk) == (
                if excluded_ranks@.contains(rk) {
                    0int
                } else {
                    num_decks as int
                }),
    {
        let mut kept: Vec<Rank> = Vec::new();
        let mut v: u8 = 3;
        while v <= 15
            invariant
                3 <= v <= 16,
                forall|j: int| 0 <= j < kept@.len() ==> 3 <= (#[trigger] kept@[j]).spec_value() < v,
                forall|a: int, b: int|
                    0 <= a < b < kept@.len() ==> kept@[a].spec_value() < kept@[b].spec_value(),
                forall|j: int|
                    0 <= j < kept@.len() ==> !excluded_ranks@.contains(#[trigger] kept@[j]),
                forall|rk: Rank|
                    rk.spec_value() < v && !excluded_ranks@.contains(rk)
                        ==> #[trigger] kept@.contains(rk),
                kept@.len() == kept_count_upto(excluded_ranks@, v as int),
            decreases 16 - v,
        {
            let rank = rank_from_value(v);
            proof {
                lemma_rank_value_roundtrip(rank);
            }
            if !rank_in(excluded_ranks, rank) {
                let ghost prevk = kept@;
                kept.push(rank);
                proof {
                    assert(kept@[kept@.len() - 1] == rank);
                    assert forall|rk: Rank|
                        rk.spec_value() < v + 1 && !excluded_ranks@.contains(
                            rk,
                        ) implies #[trigger] kept@.contains(rk) by {
                        if rk.spec_value() < v {
                            assert(prevk.contains(rk));
                            let j = choose|j: int| 0 <= j < prevk.len() && prevk[j] == rk;
                            assert(kept@[j] == rk);
                        } else {
                            lemma_rank_value_roundtrip(rk);
                            assert(rk == rank);
                        }
                    }
                    assert forall|j: int|
                        0 <= j < kept@.len() implies 3 <= (#[trigger] kept@[j]).spec_value() < v
                        + 1 && !excluded_ranks@.contains(kept@[j]) by {
                        if j < prevk.len() {
                            assert(kept@[j] == prevk[j]);
                        }
                    }
                    assert forall|a: int, b: int|
                        0 <= a < b < kept@.len() implies kept@[a].spec_value()
                        < kept@[b].spec_value() by {
                        assert(kept@[a] == prevk[a]);
                        if b < prevk.len() {
                            assert(kept@[b] == prevk[b]);
                        }
                    }
                }
            } else {
                proof {
                    assert forall|rk: Rank|
                        rk.spec_value() < v + 1 && !excluded_ranks@.contains(
                            rk,
                        ) implies #[trigger] kept@.contains(rk) by {
                        if rk.spec_value() == v as int {
                            lemma_rank_value_roundtrip(rk);
                            assert(rk == rank);
                            assert(false);
                        }
                    }
                }
            }
            v = v + 1;
        }
        proof {
            let ex = excluded_ranks@;
            assert(kept@.len() == kept_count_upto(ex, 16));
            assert(kept_count_upto(ex, 3) == 0);
            assert(kept_count_upto(ex, 4) == kept_count_upto(ex, 3) + (if ex.contains(
                rank_of_value(3),
            ) {
                0int
            } else {
                1int
            }));
            assert(kept_count_upto(ex, 5) == kept_count_upto(ex, 4) + (if ex.contains(
                rank_of_value(4),
            ) {
                0int
            } else {
                1int
            }));
            assert(kept_count_upto(ex, 6) == kept_count_upto(ex, 5) + (if ex.contains(
                rank_of_value(5),
            ) {
                0int
            } else {
                1int
            }));
            assert(kept_count_upto(ex, 7) == kept_count_upto(ex, 6) + (if ex.contains(
                rank_of_value(6),
            ) {
                0int
            } else {
                1int
            }));
            assert(kept_count_upto(ex, 8) == kept_count_upto(ex, 7) + (if ex.contains(
                rank_of_value(7),
            ) {
                0int
            } else {
                1int
            }));
            assert(kept_count_upto(ex, 9) == kept_count_upto(ex, 8) + (if ex.contains(
                rank_of_value(8),
            ) {
                0int
            } else {
                1int
            }));
            assert(kept_count_upto(ex, 10) == kept_count_upto(ex, 9) + (if ex.contains(
                rank_of_value(9),
            ) {
                0int
            } else {
                1int
            }));
            assert(kept_count_upto(ex, 11) == kept_count_upto(ex, 10) + (if ex.contains(
                rank_of_value(10),
            ) {
                0int
            } else {
                1int
            }));
            assert(kept_count_upto(ex, 12) == kept_count_upto(ex, 11) + (if ex.contains(
                rank_of_value(11),
            ) {
                0int
            } else {
                1int
            }));
            assert(kept_count_upto(ex, 13) == kept_count_upto(ex, 12) + (if ex.contains(
                rank_of_value(12),
            ) {
                0int
            } else {
                1int
            }));
            assert(kept_count_upto(ex, 14) == kept_count_upto(ex, 13) + (if ex.contains(
                rank_of_value(13),
            ) {
                0int
            } else {
                1int
            }));
            assert(kept_count_upto(ex, 15) == kept_count_upto(ex, 14) + (if ex.contains(
                rank_of_value(14),
            ) {
                0int
            } else {
                1int
            }));
            assert(kept_count_upto(ex, 16) == kept_count_upto(ex, 15) + (if ex.contains(
                rank_of_value(15),
            ) {
                0int
            } else {
                1int
            }));
            assert(kept_count_upto(ex, 16) == kept_rank_count(ex));
            assert forall|rk: Rank| #[trigger] kept@.contains(rk) implies !ex.contains(rk) by {
                let j = choose|j: int| 0 <= j < kept@.len() && kept@[j] == rk;
            }
            assert forall|rk: Rank| !ex.contains(rk) implies kept@.contains(rk) by {
                lemma_rank_value_roundtrip(rk);
            }
        }

        let suits: [Suit; 4] = [Suit::Diamonds, Suit::Clubs, Suit::Hearts, Suit::Spades];
        let mut cards: Vec<Card> = Vec::new();
        proof {
            broadcast use vstd::seq_lib::group_to_multiset_ensures;

            assert(cards@.to_multiset() =~= vstd::multiset::Multiset::<Card>::empty());
            assert forall|su: Suit, rk: Rank|
                #[trigger] crate::models::counting::suit_rank_count(cards@, su, rk) == 0 by {
                assert(cards@.to_multiset().len() == 0);
            }
        }
        let mut d: usize = 0;
        while d < num_decks as usize
            invariant
                0 <= d <= num_decks,
                kept@.len() == kept_rank_count(excluded_ranks@),
                forall|a: int, b: int|
                    0 <= a < b < kept@.len() ==> kept@[a].spec_value() < kept@[b].spec_value(),
                forall|rk: Rank| #[trigger] kept@.contains(rk) <==> !excluded_ranks@.contains(rk),
                suits@ == seq![Suit::Diamonds, Suit::Clubs, Suit::Hearts, Suit::Spades],
                cards@.len() == (d * 4) * kept@.len(),
                forall|i: int|
                    0 <= i < cards@.len() ==> !excluded_ranks@.contains(#[trigger] cards@[i].rank),
                forall|su: Suit, rk: Rank|
                    #[trigger] crate::models::counting::suit_rank_count(cards@, su, rk) == (
                    if kept@.contains(rk) {
                        d as int
                    } else {
                        0int
                    }),
            decreases num_decks - d,
        {
            let mut s: usize = 0;
            while s < 4
                invariant
                    0 <= s <= 4,
                    0 <= d < num_decks,
                    kept@.len() == kept_rank_count(excluded_ranks@),
                    forall|a: int, b: int|
                        0 <= a < b < kept@.len() ==> kept@[a].spec_value() < kept@[b].spec_value(),
                    forall|rk: Rank|
                        #[trigger] kept@.contains(rk) <==> !excluded_ranks@.contains(rk),
                    suits@ == seq![Suit::Diamonds, Suit::Clubs, Suit::Hearts, Suit::Spades],
                    cards@.len() == (d * 4 + s) * kept@.len(),
                    forall|i: int|
                        0 <= i < cards@.len() ==> !excluded_ranks@.contains(
                            #[trigger] cards@[i].rank,
                        ),
                    forall|su: Suit, rk: Rank|
                        #[trigger] crate::models::counting::suit_rank_count(cards@, su, rk) == (
                        if kept@.contains(rk) {
                            d as int
                        } else {
                            0int
                        }) + (if su.spec_value() <= s && kept@.contains(rk) {
                            1int
                        } else {
                            0int
                        }),
                decreases 4 - s,
            {
                let mut k: usize = 0;
                while k < kept.len()
                    invariant
                        0 <= k <= kept@.len(),
                        0 <= s < 4,
                        0 <= d < num_decks,
                        kept@.len() == kept_rank_count(excluded_ranks@),
                        forall|a: int, b: int|
                            0 <= a < b < kept@.len() ==> kept@[a].spec_value()
                                < kept@[b].spec_value(),
                        forall|rk: Rank|
                            #[trigger] kept@.contains(rk) <==> !excluded_ranks@.contains(rk),
                        suits@ == seq![Suit::Diamonds, Suit::Clubs, Suit::Hearts, Suit::Spades],
                        cards@.len() == (d * 4 + s) * kept@.len() + k,
                        forall|i: int|
                            0 <= i < cards@.len() ==> !excluded_ranks@.contains(
                                #[trigger] cards@[i].rank,
                            ),
                        forall|su: Suit, rk: Rank|
                            #[trigger] crate::models::counting::suit_rank_count(cards@, su, rk)
                                == (if kept@.contains(rk) {
                                d as int
                            } else {
                                0int
                            }) + (if su.spec_value() <= s && kept@.contains(rk) {
                                1int
                            } else {
                                0int
                            }) + (if su == suits@[s as int] && rank_in_prefix(
                                kept@,
                                k as int,
                                rk,
                            ) {
                                1int
                            } else {
                                0int
                            }),
                    decreases kept@.len() - k,
                {
                    let ghost prevc = cards@;
                    let c = Card { rank: kept[k], suit: suits[s] };
                    cards.push(c);
                    proof {
                        broadcast use vstd::seq_lib::group_to_multiset_ensures;

                        assert(cards@ == prevc.push(c));
                        assert(cards@.to_multiset() == prevc.to_multiset().insert(c));
                        crate::models::counting::lemma_counts_insert(prevc, cards@, c);
                        assert(kept@.contains(kept@[k as int]));
                        assert forall|su: Suit, rk: Rank|
                            #[trigger] crate::models::counting::suit_rank_count(cards@, su, rk)
                                == (if kept@.contains(rk) {
                                d as int
                            } else {
                                0int
                            }) + (if su.spec_value() <= s && kept@.contains(rk) {
                                1int
                            } else {
                                0int
                            }) + (if su == suits@[s as int] && rank_in_prefix(
                                kept@,
                                k as int + 1,
                                rk,
                            ) {
                                1int
                            } else {
                                0int
                            }) by {
                            if su == c.suit && rk == c.rank {
                                assert(!rank_in_prefix(kept@, k as int, rk)) by {
                                    if rank_in_prefix(kept@, k as int, rk) {
                                        let j = choose|j: int|
                                            0 <= j < k && kept@[j] == rk;
                                        assert(kept@[j].spec_value()
                                            < kept@[k as int].spec_value());
                                    }
                                }
                                assert(rank_in_prefix(kept@, k as int + 1, rk)) by {
                                    let j: int = k as int;
                                    assert(0 <= j && j < j + 1 && kept@[j] == rk);
                                }
                            } else {
                                if su == suits@[s as int] {
                                    assert(rk != c.rank);
                                    assert(rank_in_prefix(kept@, k as int + 1, rk)
                                        == rank_in_prefix(kept@, k as int, rk)) by {
                                        if rank_in_prefix(kept@, k as int + 1, rk) {
                                            let j = choose|j: int|
                                                0 <= j < k + 1 && kept@[j] == rk;
                                            assert(j != k as int);
                                            assert(0 <= j < k && kept@[j] == rk);
                                        }
                                        if rank_in_prefix(kept@, k as int, rk) {
                                            let j = choose|j: int|
                                                0 <= j < k && kept@[j] == rk;
                                            assert(0 <= j < k + 1 && kept@[j] == rk);
                                        }
                                    }
                                }
                            }
                        }
                    }
                    k = k + 1;
                }
                proof {
                    assert((d * 4 + s) * kept@.len() + kept@.len() == (d * 4 + (s + 1))
                        * kept@.len()) by (nonlinear_arith);
                    assert forall|su: Suit, rk: Rank|
                        #[trigger] crate::models::counting::suit_rank_count(cards@, su, rk) == (
                        if kept@.contains(rk) {
                            d as int
                        } else {
                            0int
                        }) + (if su.spec_value() <= s + 1 && kept@.contains(rk) {
                            1int
                        } else {
                            0int
                        }) by {
                        assert(rank_in_prefix(kept@, kept@.len() as int, rk) == kept@.contains(
                            rk,
                        ));
                        assert(suits@[s as int].spec_value() == s + 1);
                        if su.spec_value() == s + 1 {
                            assert(su == suits@[s as int]) by {
                                if su == Suit::Diamonds {
                                } else if su == Suit::Clubs {
                                } else if su == Suit::Hearts {
                                } else {
                                }
                            }
                        }
                    }
                }
                s = s + 1;
            }
            proof {
                assert((d * 4 + 4) * kept@.len() == (d + 1) * 4 * kept@.len()) by (nonlinear_arith);
                assert forall|su: Suit, rk: Rank|
                    #[trigger] crate::models::counting::suit_rank_count(cards@, su, rk) == (
                    if kept@.contains(rk) {
                        d + 1
                    } else {
                        0int
                    }) by {
                    assert(su.spec_value() <= 4) by {
                        if su == Suit::Diamonds {
                        } else if su == Suit::Clubs {
                        } else if su == Suit::Hearts {
                        } else {
                        }
                    }
                }
            }
            d = d + 1;
        }
        Deck { cards }
    }

    /// Creates a standard deck with the specified number of decks.
    pub fn create_standard_deck(num_decks: u8) -> (deck: Deck)
        ensures
            deck@.len() == num_decks * 52,
    {
        let empty: [Rank; 0] = [];
        let deck = Deck::new(num_decks, &empty);
        assert(kept_rank_count(empty@) == 13);
        assert(num_decks * 4 * 13 == num_decks * 52) by (nonlinear_arith);
        deck
    }

    /// Shuffles the deck in place.
    ///
    /// Relies on rand's `SliceRandom::shuffle`, which permutes the slice in
    /// place, and `thread_rng` for the randomness; only the permutation
    /// property is assumed, nothing about the resulting order.
    #[verifier::external_body]
    pub fn shuffle(&mut self)
        ensures
            final(self)@.to_multiset() == old(self)@.to_multiset(),
            final(self)@.len() == old(self)@.len(),
    {
        let mut rng = thread_rng();
        self.cards.shuffle(&mut rng);
    }

    /// Deals the given number of cards from the top (end) of the deck.
    pub fn deal_cards(&mut self, count: usize) -> (hand: Vec<Card>)
        requires
            count <= old(self)@.len(),
        ensures
            hand@ == old(self)@.skip(old(self)@.len() - count as int),
            final(self)@ == old(self)@.take(old(self)@.len() - count as int),
            hand@.len() == count,
    {
        let at = self.cards.len() - count;
        self.cards.split_off(at)
    }

    /// Deals the given number of cards (alias for `deal_cards`).
    pub fn deal(&mut self, count: usize) -> (hand: Vec<Card>)
        requires
            count <= old(self)@.len(),
        ensures
            hand@ == old(self)@.skip(old(self)@.len() - count as int),
            final(self)@ == old(self)@.take(old(self)@.len() - count as int),
            hand@.len() == count,
    {
        self.deal_cards(count)
    }

    /// Returns the number of cards remaining in the deck.
    pub fn len(&self) -> (n: usize)
        ensures
            n == self@.len(),
    {
        self.cards.len()
    }

    /// Returns the number of cards remaining (alias for `len`).
    pub fn remaining(&self) -> (n: usize)
        ensures
            n == self@.len(),
    {
        self.cards.len()
    }

    /// Returns true if the deck is empty.
    pub fn is_empty(&self) -> (b: bool)
        ensures
            b == (self@.len() == 0),
    {
        self.cards.is_empty()
    }
}

} // verus!
