//! Shape predicates and the classification function, stated over the
//! multiset counts of a hand.
//!
//! Every predicate here is a function of the hand's multiset (plus, for the
//! uniform shapes, the shared rank or card of all its members), so
//! classification is insensitive to the order of the cards.

use vstd::prelude::*;

use crate::models::card::Card;
use crate::models::card::Rank;
use crate::models::card::Suit;
use crate::models::card::rank_of_value;
use crate::models::counting::rank_count_v;
use crate::models::counting::suit_rank_count;
use crate::patterns::pattern::PatternModel;
use crate::patterns::pattern::PlayType;

verus! {

/// Every card has the same rank as the first.
pub open spec fn all_same_rank(s: Seq<Card>) -> bool {
    forall|i: int| 0 <= i < s.len() ==> #[trigger] s[i].rank == s[0].rank
}

/// Every card equals the first (same suit and rank).
pub open spec fn all_same_card(s: Seq<Card>) -> bool {
    forall|i: int| 0 <= i < s.len() ==> #[trigger] s[i] == s[0]
}

/// A single card.
pub open spec fn is_single(s: Seq<Card>) -> bool {
    s.len() == 1
}

/// Two cards of one rank.
pub open spec fn is_pair(s: Seq<Card>) -> bool {
    s.len() == 2 && all_same_rank(s)
}

/// Three cards of one rank.
pub open spec fn is_triple(s: Seq<Card>) -> bool {
    s.len() == 3 && all_same_rank(s)
}

/// Three identical cards: one rank and one suit.
pub open spec fn is_tongzi(s: Seq<Card>) -> bool {
    s.len() == 3 && all_same_card(s)
}

/// Four or more cards of one rank.
pub open spec fn is_bomb(s: Seq<Card>) -> bool {
    s.len() >= 4 && all_same_rank(s)
}

/// Eight cards of one rank, exactly two in each of the four suits.
pub open spec fn is_dizha(s: Seq<Card>) -> bool {
    &&& s.len() == 8
    &&& all_same_rank(s)
    &&& suit_rank_count(s, Suit::Diamonds, s[0].rank) == 2
    &&& suit_rank_count(s, Suit::Clubs, s[0].rank) == 2
    &&& suit_rank_count(s, Suit::Hearts, s[0].rank) == 2
    &&& suit_rank_count(s, Suit::Spades, s[0].rank) == 2
}

/// The smallest rank value `>= v` that is present in the hand, or 16 if
/// none is.
pub open spec fn min_present_from(s: Seq<Card>, v: int) -> int
    decreases 16 - v,
{
    if v >= 16 {
        16
    } else if rank_count_v(s, v) > 0 {
        v
    } else {
        min_present_from(s, v + 1)
    }
}

/// The lowest rank value present in the hand (16 if the hand is empty).
pub open spec fn low_rank_v(s: Seq<Card>) -> int {
    min_present_from(s, 3)
}

/// The ranks of the hand are exactly the `k` consecutive values starting at
/// `lo`, each held exactly `m` times, and the run stays below rank Two
/// (no wrap past Ace).
pub open spec fn exact_run(s: Seq<Card>, lo: int, k: int, m: nat) -> bool {
    &&& 3 <= lo
    &&& lo + k - 1 <= 14
    &&& forall|v: int| lo <= v < lo + k ==> #[trigger] rank_count_v(s, v) == m
    &&& forall|v: int| 3 <= v <= 15 && !(lo <= v < lo + k) ==> #[trigger] rank_count_v(s, v) == 0
}

/// Two or more consecutive pairs.
pub open spec fn is_consecutive_pairs(s: Seq<Card>) -> bool {
    &&& s.len() >= 4
    &&& s.len() % 2 == 0
    &&& exact_run(s, low_rank_v(s), s.len() as int / 2, 2)
}

/// Two or more consecutive triples.
pub open spec fn is_airplane(s: Seq<Card>) -> bool {
    &&& s.len() >= 6
    &&& s.len() % 3 == 0
    &&& exact_run(s, low_rank_v(s), s.len() as int / 3, 3)
}

/// A run of `len` consecutive ranks starting at `lo`, each with at least
/// three cards, whose leftover wing cards number between `len` and
/// `2 * len` inclusive. The run stays below rank Two.
pub open spec fn wing_run(s: Seq<Card>, lo: int, len: int) -> bool {
    &&& len >= 2
    &&& 3 <= lo
    &&& lo + len - 1 <= 14
    &&& forall|v: int| lo <= v < lo + len ==> #[trigger] rank_count_v(s, v) >= 3
    &&& s.len() >= 4 * len
    &&& s.len() <= 5 * len
}

/// The smallest start `>= from` of a qualifying run of length `len`, or -1.
pub open spec fn find_wing_lo(s: Seq<Card>, len: int, from: int) -> int
    decreases 15 - from,
{
    if from > 14 {
        -1
    } else if wing_run(s, from, len) {
        from
    } else {
        find_wing_lo(s, len, from + 1)
    }
}

/// The largest run length `<= len` that admits a qualifying run, or 0.
///
/// Mirrors the longest-run-first search of the recognizer: longer airplanes
/// are preferred, and among equal lengths the lowest start.
pub open spec fn best_wing_len(s: Seq<Card>, len: int) -> int
    decreases len,
{
    if len < 2 {
        0
    } else if find_wing_lo(s, len, 3) >= 0 {
        len
    } else {
        best_wing_len(s, len - 1)
    }
}

/// The chosen airplane length for an airplane-with-wings hand (0 if none).
pub open spec fn aww_len(s: Seq<Card>) -> int {
    best_wing_len(s, 12)
}

/// The chosen airplane start for an airplane-with-wings hand.
pub open spec fn aww_lo(s: Seq<Card>) -> int {
    find_wing_lo(s, aww_len(s), 3)
}

/// The hand admits an airplane-with-wings reading.
pub open spec fn is_airplane_with_wings(s: Seq<Card>) -> bool {
    aww_len(s) >= 2
}

/// The smallest rank value whose count equals `c`, or -1.
pub open spec fn find_count_v(s: Seq<Card>, c: nat, v: int) -> int
    decreases 16 - v,
{
    if v > 15 {
        -1
    } else if rank_count_v(s, v) == c {
        v
    } else {
        find_count_v(s, c, v + 1)
    }
}

/// Five cards: three of one rank and two of another.
pub open spec fn is_triple_with_two(s: Seq<Card>) -> bool {
    &&& s.len() == 5
    &&& find_count_v(s, 3, 3) >= 0
    &&& find_count_v(s, 2, 3) >= 0
    &&& forall|v: int|
        3 <= v <= 15 && v != find_count_v(s, 3, 3) && v != find_count_v(s, 2, 3)
            ==> #[trigger] rank_count_v(s, v) == 0
}

/// Ascending ranks `lo`, `lo + 1`, ..., `lo + k - 1`.
pub open spec fn run_ranks(lo: int, k: int) -> Seq<Rank> {
    Seq::new(k as nat, |i: int| rank_of_value(lo + i))
}

/// The model of a classified single.
pub open spec fn single_model(s: Seq<Card>) -> PatternModel {
    PatternModel {
        play_type: PlayType::Single,
        primary_rank: s[0].rank,
        primary_suit: Some(s[0].suit),
        secondary_ranks: Seq::empty(),
        card_count: 1,
        strength: s[0].rank.spec_value() as nat,
    }
}

/// The model of a classified pair.
pub open spec fn pair_model(s: Seq<Card>) -> PatternModel {
    PatternModel {
        play_type: PlayType::Pair,
        primary_rank: s[0].rank,
        primary_suit: None,
        secondary_ranks: Seq::empty(),
        card_count: 2,
        strength: s[0].rank.spec_value() as nat,
    }
}

/// The model of a classified triple.
pub open spec fn triple_model(s: Seq<Card>) -> PatternModel {
    PatternModel {
        play_type: PlayType::Triple,
        primary_rank: s[0].rank,
        primary_suit: None,
        secondary_ranks: Seq::empty(),
        card_count: 3,
        strength: s[0].rank.spec_value() as nat,
    }
}

/// The model of a classified triple-with-two; its strength is that of the
/// triple's rank.
pub open spec fn triple_with_two_model(s: Seq<Card>) -> PatternModel {
    PatternModel {
        play_type: PlayType::TripleWithTwo,
        primary_rank: rank_of_value(find_count_v(s, 3, 3)),
        primary_suit: None,
        secondary_ranks: Seq::empty(),
        card_count: 5,
        strength: rank_of_value(find_count_v(s, 3, 3)).spec_value() as nat,
    }
}

/// The model of a classified run of pairs: the highest rank leads, and the
/// strength packs (highest rank, run length).
pub open spec fn consecutive_pairs_model(s: Seq<Card>) -> PatternModel {
    let k = s.len() as int / 2;
    let lo = low_rank_v(s);
    let hi = lo + k - 1;
    PatternModel {
        play_type: PlayType::ConsecutivePairs,
        primary_rank: rank_of_value(hi),
        primary_suit: None,
        secondary_ranks: run_ranks(lo, k),
        card_count: s.len(),
        strength: (rank_of_value(hi).spec_value() * 1000 + k) as nat,
    }
}

/// The model of a classified airplane.
pub open spec fn airplane_model(s: Seq<Card>) -> PatternModel {
    let k = s.len() as int / 3;
    let lo = low_rank_v(s);
    let hi = lo + k - 1;
    PatternModel {
        play_type: PlayType::Airplane,
        primary_rank: rank_of_value(hi),
        primary_suit: None,
        secondary_ranks: run_ranks(lo, k),
        card_count: s.len(),
        strength: (rank_of_value(hi).spec_value() * 1000 + k) as nat,
    }
}

/// The model of a classified airplane with wings.
pub open spec fn airplane_with_wings_model(s: Seq<Card>) -> PatternModel {
    let len = aww_len(s);
    let lo = aww_lo(s);
    let hi = lo + len - 1;
    PatternModel {
        play_type: PlayType::AirplaneWithWings,
        primary_rank: rank_of_value(hi),
        primary_suit: None,
        secondary_ranks: run_ranks(lo, len),
        card_count: s.len(),
        strength: (rank_of_value(hi).spec_value() * 1000 + len) as nat,
    }
}

/// The model of a classified bomb: rank dominates, then size.
pub open spec fn bomb_model(s: Seq<Card>) -> PatternModel {
    PatternModel {
        play_type: PlayType::Bomb,
        primary_rank: s[0].rank,
        primary_suit: None,
        secondary_ranks: Seq::empty(),
        card_count: s.len(),
        strength: (s[0].rank.spec_value() * 1000 + s.len()) as nat,
    }
}

/// The model of a classified tongzi: rank then suit.
pub open spec fn tongzi_model(s: Seq<Card>) -> PatternModel {
    PatternModel {
        play_type: PlayType::Tongzi,
        primary_rank: s[0].rank,
        primary_suit: Some(s[0].suit),
        secondary_ranks: Seq::empty(),
        card_count: 3,
        strength: (s[0].rank.spec_value() * 10000 + s[0].suit.spec_value() * 1000) as nat,
    }
}

/// The model of a classified dizha.
pub open spec fn dizha_model(s: Seq<Card>) -> PatternModel {
    PatternModel {
        play_type: PlayType::Dizha,
        primary_rank: s[0].rank,
        primary_suit: None,
        secondary_ranks: Seq::empty(),
        card_count: 8,
        strength: (s[0].rank.spec_value() * 100000) as nat,
    }
}

/// Classification of a hand: the shape checks are probed in strict priority
/// order and the first match decides.
pub open spec fn classify_model(s: Seq<Card>) -> Option<PatternModel> {
    if s.len() == 0 {
        None
    } else if is_dizha(s) {
        Some(dizha_model(s))
    } else if is_tongzi(s) {
        Some(tongzi_model(s))
    } else if is_bomb(s) {
        Some(bomb_model(s))
    } else if is_airplane(s) {
        Some(airplane_model(s))
    } else if is_airplane_with_wings(s) {
        Some(airplane_with_wings_model(s))
    } else if is_triple_with_two(s) {
        Some(triple_with_two_model(s))
    } else if is_triple(s) {
        Some(triple_model(s))
    } else if is_consecutive_pairs(s) {
        Some(consecutive_pairs_model(s))
    } else if is_pair(s) {
        Some(pair_model(s))
    } else if is_single(s) {
        Some(single_model(s))
    } else {
        None
    }
}

/// A hand is classifiable when one of the ten shapes matches.
pub open spec fn classifiable(s: Seq<Card>) -> bool {
    classify_model(s) is Some
}

/// A found wing-run start really does start a qualifying run.
pub proof fn lemma_find_wing_lo_props(s: Seq<Card>, len: int, from: int)
    requires
        3 <= from,
    ensures
        find_wing_lo(s, len, from) >= 0 ==> wing_run(s, find_wing_lo(s, len, from), len) && from
            <= find_wing_lo(s, len, from) <= 14,
    decreases
            (if from > 15 {
                0int
            } else {
                16 - from
            }),
{
    if from <= 14 && !wing_run(s, from, len) {
        lemma_find_wing_lo_props(s, len, from + 1);
    }
}

/// A positive chosen airplane length always comes with a qualifying start.
pub proof fn lemma_best_wing_len(s: Seq<Card>, l: int)
    ensures
        best_wing_len(s, l) >= 2 ==> find_wing_lo(s, best_wing_len(s, l), 3) >= 0,
        best_wing_len(s, l) == 0 || 2 <= best_wing_len(s, l) <= l,
    decreases
            (if l < 2 {
                0int
            } else {
                l
            }),
{
    if l >= 2 && find_wing_lo(s, l, 3) < 0 {
        lemma_best_wing_len(s, l - 1);
    }
}

/// No run qualifies for wings from a given start onward when no run
/// qualifies at all.
proof fn lemma_wing_lo_none(s: Seq<Card>, len: int, from: int)
    requires
        3 <= from,
        forall|lo: int| !#[trigger] wing_run(s, lo, len),
    ensures
        find_wing_lo(s, len, from) == -1,
    decreases
            (if from > 15 {
                0int
            } else {
                16 - from
            }),
{
    if from <= 14 {
        assert(!wing_run(s, from, len));
        lemma_wing_lo_none(s, len, from + 1);
    }
}

/// The model every two-card pair of a rank classifies to.
pub open spec fn pair_rank_model(rk: Rank) -> PatternModel {
    PatternModel {
        play_type: PlayType::Pair,
        primary_rank: rk,
        primary_suit: None,
        secondary_ranks: Seq::empty(),
        card_count: 2,
        strength: rk.spec_value() as nat,
    }
}

/// Two cards of one rank always classify as a pair of that rank.
pub proof fn lemma_classify_pair(s: Seq<Card>)
    requires
        is_pair(s),
    ensures
        classify_model(s) == Some(pair_rank_model(s[0].rank)),
{
    lemma_small_no_wings(s);
    assert(!is_airplane_with_wings(s));
    assert(classify_model(s) == Some(pair_model(s)));
    assert(pair_model(s) == pair_rank_model(s[0].rank));
}

/// The model every dizha of a rank classifies to.
pub open spec fn dizha_rank_model(rk: Rank) -> PatternModel {
    PatternModel {
        play_type: PlayType::Dizha,
        primary_rank: rk,
        primary_suit: None,
        secondary_ranks: Seq::empty(),
        card_count: 8,
        strength: (rk.spec_value() * 100000) as nat,
    }
}

/// Eight cards of one rank, two per suit, always classify as a dizha of
/// that rank.
pub proof fn lemma_classify_dizha(s: Seq<Card>)
    requires
        is_dizha(s),
    ensures
        classify_model(s) == Some(dizha_rank_model(s[0].rank)),
{
    assert(classify_model(s) == Some(dizha_model(s)));
}

/// The model every tongzi of a cell classifies to.
pub open spec fn tongzi_cell_model(rk: Rank, su: Suit) -> PatternModel {
    PatternModel {
        play_type: PlayType::Tongzi,
        primary_rank: rk,
        primary_suit: Some(su),
        secondary_ranks: Seq::empty(),
        card_count: 3,
        strength: (rk.spec_value() * 10000 + su.spec_value() * 1000) as nat,
    }
}

/// Three identical cards always classify as a tongzi of their cell.
pub proof fn lemma_classify_tongzi(s: Seq<Card>)
    requires
        is_tongzi(s),
    ensures
        classify_model(s) == Some(tongzi_cell_model(s[0].rank, s[0].suit)),
{
    assert(!is_dizha(s));
    assert(classify_model(s) == Some(tongzi_model(s)));
}

/// The model every bomb of a rank and size classifies to.
pub open spec fn bomb_rank_model(rk: Rank, n: nat) -> PatternModel {
    PatternModel {
        play_type: PlayType::Bomb,
        primary_rank: rk,
        primary_suit: None,
        secondary_ranks: Seq::empty(),
        card_count: n,
        strength: (rk.spec_value() * 1000 + n) as nat,
    }
}

/// In a one-rank hand at most one rank value has a positive count.
proof fn lemma_same_rank_counts(s: Seq<Card>, u: int)
    requires
        all_same_rank(s),
        s.len() > 0,
        rank_count_v(s, u) > 0,
    ensures
        3 <= u <= 15 && rank_of_value(u) == s[0].rank,
{
    if 3 <= u <= 15 {
        crate::ai_helpers::extract::lemma_rank_count_pos(s, rank_of_value(u));
        let i = choose|i: int| 0 <= i < s.len() && s[i].rank == rank_of_value(u);
        assert(s[i].rank == s[0].rank);
    }
}

/// Four or more cards of one rank that do not form a dizha always classify
/// as a bomb of that rank and size.
pub proof fn lemma_classify_bomb(s: Seq<Card>)
    requires
        is_bomb(s),
        !is_dizha(s),
    ensures
        classify_model(s) == Some(bomb_rank_model(s[0].rank, s.len())),
{
    assert(!is_tongzi(s));
    assert(!is_airplane(s)) by {
        if is_airplane(s) {
            let lo = low_rank_v(s);
            let k = s.len() as int / 3;
            assert(k >= 2);
            assert(rank_count_v(s, lo) == 3);
            assert(rank_count_v(s, lo + 1) == 3);
            lemma_same_rank_counts(s, lo);
            lemma_same_rank_counts(s, lo + 1);
            assert(rank_of_value(lo) == rank_of_value(lo + 1));
            assert(rank_of_value(lo).spec_value() == lo) by {
                crate::models::card::lemma_rank_value_roundtrip(rank_of_value(lo));
                assert(rank_count_v(s, lo) > 0);
            }
            assert(rank_of_value(lo + 1).spec_value() == lo + 1) by {
                crate::models::card::lemma_rank_value_roundtrip(rank_of_value(lo + 1));
            }
            assert(false);
        }
    }
    assert(!is_airplane_with_wings(s)) by {
        assert forall|lo: int, len: int| !#[trigger] wing_run(s, lo, len) by {
            if wing_run(s, lo, len) {
                assert(rank_count_v(s, lo) >= 3);
                assert(rank_count_v(s, lo + 1) >= 3);
                lemma_same_rank_counts(s, lo);
                lemma_same_rank_counts(s, lo + 1);
                crate::models::card::lemma_rank_value_roundtrip(rank_of_value(lo));
                crate::models::card::lemma_rank_value_roundtrip(rank_of_value(lo + 1));
                assert(false);
            }
        }
        assert forall|l: int| 2 <= l <= 12 implies #[trigger] find_wing_lo(s, l, 3) == -1 by {
            assert(forall|lo: int| !#[trigger] wing_run(s, lo, l));
            lemma_wing_lo_none(s, l, 3);
        }
        lemma_best_none(s, 12);
    }
    assert(classify_model(s) == Some(bomb_model(s)));
    assert(bomb_model(s) == bomb_rank_model(s[0].rank, s.len()));
}

/// A hand of fewer than eight cards admits no airplane-with-wings reading.
pub proof fn lemma_small_no_wings(s: Seq<Card>)
    requires
        s.len() < 8,
    ensures
        aww_len(s) == 0,
{
    assert forall|lo: int, len: int| !#[trigger] wing_run(s, lo, len) by {}
    assert forall|l: int| 2 <= l <= 12 implies #[trigger] find_wing_lo(s, l, 3) == -1 by {
        assert(forall|lo: int| !#[trigger] wing_run(s, lo, l));
        lemma_wing_lo_none(s, l, 3);
    }
    lemma_best_none(s, 12);
}

/// With every search length exhausted, the chosen length is zero.
proof fn lemma_best_none(s: Seq<Card>, l: int)
    requires
        forall|l2: int| 2 <= l2 <= 12 ==> #[trigger] find_wing_lo(s, l2, 3) == -1,
        l <= 12,
    ensures
        best_wing_len(s, l) == 0,
    decreases
            (if l < 2 {
                0int
            } else {
                l
            }),
{
    if l >= 2 {
        assert(find_wing_lo(s, l, 3) == -1);
        lemma_best_none(s, l - 1);
    }
}

/// Each shape is classifiable: the priority cascade returns some pattern
/// for every hand matching one of the ten shapes.
pub proof fn lemma_shape_classifiable(s: Seq<Card>)
    ensures
        is_single(s) ==> classifiable(s),
        is_pair(s) ==> classifiable(s),
        is_triple(s) ==> classifiable(s),
        is_tongzi(s) ==> classifiable(s),
        is_bomb(s) ==> classifiable(s),
        is_dizha(s) ==> classifiable(s),
        is_triple_with_two(s) ==> classifiable(s),
        is_consecutive_pairs(s) ==> classifiable(s),
        is_airplane(s) ==> classifiable(s),
        is_airplane_with_wings(s) ==> classifiable(s),
{
    if is_airplane_with_wings(s) {
        lemma_best_wing_len(s, 12);
        lemma_find_wing_lo_props(s, aww_len(s), 3);
        assert(wing_run(s, aww_lo(s), aww_len(s)));
        assert(s.len() >= 8);
    }
}

/// What `min_present_from` finds: the first present value at or after `v`.
pub proof fn lemma_min_present_from(s: Seq<Card>, v: int)
    requires
        3 <= v <= 16,
    ensures
        v <= min_present_from(s, v) <= 16,
        min_present_from(s, v) <= 15 ==> rank_count_v(s, min_present_from(s, v)) > 0,
        forall|u: int| v <= u < min_present_from(s, v) ==> #[trigger] rank_count_v(s, u) == 0,
        forall|u: int|
            v <= u <= 15 && #[trigger] rank_count_v(s, u) > 0 ==> min_present_from(s, v) <= u,
    decreases 16 - v,
{
    if v < 16 && rank_count_v(s, v) == 0 {
        lemma_min_present_from(s, v + 1);
    }
}

} // verus!
