//! Laws of classification and comparison: order-insensitivity of
//! classification, asymmetry of the beats relation, the trump hierarchy,
//! and the exclusion of rank Two from runs.

use vstd::prelude::*;

use crate::models::card::Card;
use crate::models::card::Rank;
use crate::models::counting::lemma_counts_multiset;
use crate::models::counting::rank_count_v;
use crate::patterns::pattern::PatternModel;
use crate::patterns::pattern::PlayType;
use crate::patterns::recognizer::beats;
use crate::patterns::shapes::all_same_card;
use crate::patterns::shapes::all_same_rank;
use crate::patterns::shapes::aww_len;
use crate::patterns::shapes::best_wing_len;
use crate::patterns::shapes::classify_model;
use crate::patterns::shapes::exact_run;
use crate::patterns::shapes::find_count_v;
use crate::patterns::shapes::find_wing_lo;
use crate::patterns::shapes::min_present_from;
use crate::patterns::shapes::run_ranks;
use crate::patterns::shapes::wing_run;

verus! {

/// The beats relation is asymmetric: two patterns never beat each other
/// both ways, and a pattern never beats an identical instance of itself.
pub proof fn lemma_beats_asymmetric(a: PatternModel, b: PatternModel)
    ensures
        !(beats(a, b) && beats(b, a)),
        !beats(a, a),
{
}

/// Dizha beats every other shape; only a higher-rank Dizha beats a Dizha.
pub proof fn lemma_dizha_dominates(a: PatternModel, b: PatternModel)
    ensures
        a.play_type == PlayType::Dizha && b.play_type != PlayType::Dizha ==> beats(a, b),
        b.play_type == PlayType::Dizha ==> (beats(a, b) <==> a.play_type == PlayType::Dizha
            && a.primary_rank.spec_value() > b.primary_rank.spec_value()),
{
}

/// A Tongzi beats every Bomb, regardless of the bomb's size or rank, and
/// beats another Tongzi exactly when its (rank, suit) pair is higher.
pub proof fn lemma_tongzi_over_bombs(a: PatternModel, b: PatternModel)
    ensures
        a.play_type == PlayType::Tongzi && b.play_type == PlayType::Bomb ==> beats(a, b),
        a.play_type == PlayType::Tongzi && b.play_type == PlayType::Tongzi ==> (beats(a, b)
            <==> (a.primary_rank.spec_value() > b.primary_rank.spec_value() || (
        a.primary_rank.spec_value() == b.primary_rank.spec_value() && a.primary_suit is Some
            && b.primary_suit is Some && (a.primary_suit->Some_0).spec_value() > (
        b.primary_suit->Some_0).spec_value()))),
        a.play_type == PlayType::Bomb && b.play_type == PlayType::Tongzi ==> !beats(a, b),
{
}

/// Bomb against bomb compares rank before size: a higher rank wins outright,
/// and only at equal rank does a strictly larger bomb win.
pub proof fn lemma_bomb_rank_before_size(a: PatternModel, b: PatternModel)
    ensures
        a.play_type == PlayType::Bomb && b.play_type == PlayType::Bomb ==> (beats(a, b)
            <==> (a.primary_rank.spec_value() > b.primary_rank.spec_value() || (
        a.primary_rank.spec_value() == b.primary_rank.spec_value() && a.card_count
            > b.card_count))),
{
}

/// Rank Two never appears in the run of a classified ConsecutivePairs,
/// Airplane or AirplaneWithWings: runs must not wrap past Ace.
pub proof fn lemma_no_two_in_runs(s: Seq<Card>)
    ensures
        classify_model(s) is Some && ((classify_model(s)->Some_0).play_type
            == PlayType::ConsecutivePairs || (classify_model(s)->Some_0).play_type
            == PlayType::Airplane || (classify_model(s)->Some_0).play_type
            == PlayType::AirplaneWithWings) ==> !(classify_model(
            s,
        )->Some_0).secondary_ranks.contains(Rank::Two),
{
    if classify_model(s) is Some {
        let p = classify_model(s)->Some_0;
        if p.play_type == PlayType::ConsecutivePairs || p.play_type == PlayType::Airplane
            || p.play_type == PlayType::AirplaneWithWings {
            if p.secondary_ranks.contains(Rank::Two) {
                let i = choose|i: int|
                    0 <= i < p.secondary_ranks.len() && p.secondary_ranks[i] == Rank::Two;
                if p.play_type == PlayType::ConsecutivePairs {
                    let lo = crate::patterns::shapes::low_rank_v(s);
                    let k = s.len() as int / 2;
                    assert(exact_run(s, lo, k, 2));
                    assert(p.secondary_ranks == run_ranks(lo, k));
                    assert(crate::models::card::rank_of_value(lo + i) == Rank::Two);
                    assert(3 <= lo + i <= 14);
                    assert(false);
                } else if p.play_type == PlayType::Airplane {
                    let lo = crate::patterns::shapes::low_rank_v(s);
                    let k = s.len() as int / 3;
                    assert(exact_run(s, lo, k, 3));
                    assert(p.secondary_ranks == run_ranks(lo, k));
                    assert(crate::models::card::rank_of_value(lo + i) == Rank::Two);
                    assert(3 <= lo + i <= 14);
                    assert(false);
                } else {
                    let len = aww_len(s);
                    let lo = crate::patterns::shapes::aww_lo(s);
                    crate::patterns::shapes::lemma_best_wing_len(s, 12);
                    crate::patterns::shapes::lemma_find_wing_lo_props(s, len, 3);
                    assert(wing_run(s, lo, len));
                    assert(p.secondary_ranks == run_ranks(lo, len));
                    assert(crate::models::card::rank_of_value(lo + i) == Rank::Two);
                    assert(3 <= lo + i <= 14);
                    assert(false);
                }
            }
        }
    }
}

/// The first present value is determined by the rank counts alone.
proof fn lemma_min_present_eq(s: Seq<Card>, t: Seq<Card>, v: int)
    requires
        forall|u: int| #[trigger] rank_count_v(s, u) == rank_count_v(t, u),
        3 <= v <= 16,
    ensures
        min_present_from(s, v) == min_present_from(t, v),
    decreases 16 - v,
{
    if v < 16 && rank_count_v(s, v) == 0 {
        lemma_min_present_eq(s, t, v + 1);
    }
}

/// The first value with a given count is determined by the counts alone.
proof fn lemma_find_count_eq(s: Seq<Card>, t: Seq<Card>, c: nat, v: int)
    requires
        forall|u: int| #[trigger] rank_count_v(s, u) == rank_count_v(t, u),
    ensures
        find_count_v(s, c, v) == find_count_v(t, c, v),
    decreases 16 - v,
{
    if v <= 15 && rank_count_v(s, v) != c {
        lemma_find_count_eq(s, t, c, v + 1);
    }
}

/// Wing runs are determined by the counts and the hand size alone.
proof fn lemma_wing_run_eq(s: Seq<Card>, t: Seq<Card>, lo: int, len: int)
    requires
        forall|u: int| #[trigger] rank_count_v(s, u) == rank_count_v(t, u),
        s.len() == t.len(),
    ensures
        wing_run(s, lo, len) == wing_run(t, lo, len),
{
    if wing_run(s, lo, len) {
        assert forall|v: int| lo <= v < lo + len implies #[trigger] rank_count_v(t, v) >= 3 by {
            assert(rank_count_v(s, v) >= 3);
        }
    }
    if wing_run(t, lo, len) {
        assert forall|v: int| lo <= v < lo + len implies #[trigger] rank_count_v(s, v) >= 3 by {
            assert(rank_count_v(t, v) >= 3);
        }
    }
}

/// The wing-run search is determined by the counts and the hand size alone.
proof fn lemma_find_wing_lo_eq(s: Seq<Card>, t: Seq<Card>, len: int, from: int)
    requires
        forall|u: int| #[trigger] rank_count_v(s, u) == rank_count_v(t, u),
        s.len() == t.len(),
        3 <= from,
    ensures
        find_wing_lo(s, len, from) == find_wing_lo(t, len, from),
    decreases
            (if from > 15 {
                0int
            } else {
                16 - from
            }),
{
    lemma_wing_run_eq(s, t, from, len);
    if from <= 14 && !wing_run(s, from, len) {
        lemma_find_wing_lo_eq(s, t, len, from + 1);
    }
}

/// The chosen airplane length is determined by the counts and size alone.
proof fn lemma_best_wing_len_eq(s: Seq<Card>, t: Seq<Card>, l: int)
    requires
        forall|u: int| #[trigger] rank_count_v(s, u) == rank_count_v(t, u),
        s.len() == t.len(),
    ensures
        best_wing_len(s, l) == best_wing_len(t, l),
    decreases
            (if l < 2 {
                0int
            } else {
                l
            }),
{
    if l >= 2 {
        lemma_find_wing_lo_eq(s, t, l, 3);
        if find_wing_lo(s, l, 3) < 0 {
            lemma_best_wing_len_eq(s, t, l - 1);
        }
    }
}

/// Exact runs are determined by the counts alone.
proof fn lemma_exact_run_eq(s: Seq<Card>, t: Seq<Card>, lo: int, k: int, m: nat)
    requires
        forall|u: int| #[trigger] rank_count_v(s, u) == rank_count_v(t, u),
    ensures
        exact_run(s, lo, k, m) == exact_run(t, lo, k, m),
{
    if exact_run(s, lo, k, m) {
        assert forall|v: int| lo <= v < lo + k implies #[trigger] rank_count_v(t, v) == m by {
            assert(rank_count_v(s, v) == m);
        }
        assert forall|v: int| 3 <= v <= 15 && !(lo <= v < lo + k) implies #[trigger] rank_count_v(
            t,
            v,
        ) == 0 by {
            assert(rank_count_v(s, v) == 0);
        }
    }
    if exact_run(t, lo, k, m) {
        assert forall|v: int| lo <= v < lo + k implies #[trigger] rank_count_v(s, v) == m by {
            assert(rank_count_v(t, v) == m);
        }
        assert forall|v: int| 3 <= v <= 15 && !(lo <= v < lo + k) implies #[trigger] rank_count_v(
            s,
            v,
        ) == 0 by {
            assert(rank_count_v(t, v) == 0);
        }
    }
}

/// A uniform rank carries over to any reordering, with the same lead rank.
proof fn lemma_same_rank_transfer(s: Seq<Card>, t: Seq<Card>)
    requires
        s.to_multiset() == t.to_multiset(),
        s.len() > 0,
        t.len() > 0,
        all_same_rank(s),
    ensures
        all_same_rank(t),
        t[0].rank == s[0].rank,
{
    broadcast use vstd::seq_lib::group_to_multiset_ensures;

    assert forall|i: int| 0 <= i < t.len() implies #[trigger] t[i].rank == s[0].rank by {
        assert(t.contains(t[i]));
        assert(t.to_multiset().count(t[i]) > 0);
        assert(s.contains(t[i]));
        let j = choose|j: int| 0 <= j < s.len() && s[j] == t[i];
        assert(s[j].rank == s[0].rank);
    }
    assert(t[0].rank == s[0].rank);
}

/// A uniform card carries over to any reordering.
proof fn lemma_same_card_transfer(s: Seq<Card>, t: Seq<Card>)
    requires
        s.to_multiset() == t.to_multiset(),
        s.len() > 0,
        t.len() > 0,
        all_same_card(s),
    ensures
        all_same_card(t),
        t[0] == s[0],
{
    broadcast use vstd::seq_lib::group_to_multiset_ensures;

    assert forall|i: int| 0 <= i < t.len() implies #[trigger] t[i] == s[0] by {
        assert(t.contains(t[i]));
        assert(t.to_multiset().count(t[i]) > 0);
        assert(s.contains(t[i]));
        let j = choose|j: int| 0 <= j < s.len() && s[j] == t[i];
    }
}

/// Classification is order-insensitive: two hands with the same multiset of
/// cards classify to the same pattern — the same play type, ranks, suit,
/// run, card count and strength.
pub proof fn lemma_classify_order_insensitive(s: Seq<Card>, t: Seq<Card>)
    requires
        s.to_multiset() == t.to_multiset(),
    ensures
        classify_model(s) == classify_model(t),
{
    broadcast use vstd::seq_lib::group_to_multiset_ensures;

    assert(s.len() == s.to_multiset().len());
    assert(t.len() == t.to_multiset().len());
    lemma_counts_multiset(s, t);
    if s.len() == 0 {
        return ;
    }
    lemma_min_present_eq(s, t, 3);
    lemma_find_count_eq(s, t, 3, 3);
    lemma_find_count_eq(s, t, 2, 3);
    lemma_best_wing_len_eq(s, t, 12);
    lemma_find_wing_lo_eq(s, t, aww_len(s), 3);
    lemma_exact_run_eq(s, t, min_present_from(s, 3), s.len() as int / 2, 2);
    lemma_exact_run_eq(s, t, min_present_from(s, 3), s.len() as int / 3, 3);
    assert forall|v: int| 3 <= v <= 15 && v != find_count_v(s, 3, 3) && v != find_count_v(s, 2, 3)
        && rank_count_v(s, v) == 0 implies #[trigger] rank_count_v(t, v) == 0 by {}
    assert(crate::patterns::shapes::is_triple_with_two(s)
        == crate::patterns::shapes::is_triple_with_two(t)) by {
        if crate::patterns::shapes::is_triple_with_two(s) {
            assert forall|v: int|
                3 <= v <= 15 && v != find_count_v(t, 3, 3) && v != find_count_v(t, 2, 3) implies #[trigger] rank_count_v(
                t,
                v,
            ) == 0 by {
                assert(rank_count_v(s, v) == 0);
            }
        }
        if crate::patterns::shapes::is_triple_with_two(t) {
            assert forall|v: int|
                3 <= v <= 15 && v != find_count_v(s, 3, 3) && v != find_count_v(s, 2, 3) implies #[trigger] rank_count_v(
                s,
                v,
            ) == 0 by {
                assert(rank_count_v(t, v) == 0);
            }
        }
    }
    if all_same_rank(s) {
        lemma_same_rank_transfer(s, t);
    }
    if all_same_rank(t) {
        lemma_same_rank_transfer(t, s);
    }
    if all_same_card(s) {
        lemma_same_card_transfer(s, t);
    }
    if all_same_card(t) {
        lemma_same_card_transfer(t, s);
    }
    if s.len() == 1 {
        assert(s.contains(s[0]));
        assert(t.contains(s[0]));
        assert(t[0] == s[0]);
    }
}

} // verus!
