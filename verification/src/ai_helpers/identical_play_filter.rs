//! Identical play filtering: collapse same-rank, different-suit duplicate
//! candidates to one representative, while protecting detected Tongzi and
//! Dizha structures.
//!
//! Detection only considers ranks Five and above; a suit is protected for a
//! rank when taking a card of that suit could break a same-suit triple or a
//! Dizha.

use vstd::prelude::*;

use crate::models::card::Card;
use crate::models::card::Rank;
use crate::models::card::Suit;
use crate::models::card::rank_from_value;
use crate::models::card::rank_of_value;
use crate::models::counting::rank_count;
use crate::models::counting::rank_count_v;
use crate::models::counting::suit_rank_count;
use crate::patterns::shapes::is_consecutive_pairs;
use crate::patterns::shapes::is_pair;
use crate::patterns::shapes::is_triple;

verus! {

broadcast use {
    vstd::seq_lib::group_to_multiset_ensures,
    vstd::multiset::group_multiset_axioms,
    vstd::multiset::group_multiset_properties,
};

/// Ranks eligible for tongzi/dizha detection: Five and above.
pub open spec fn detectable(r: Rank) -> bool {
    r.spec_value() >= 5
}

/// A (suit, rank) cell holds a tongzi: three or more identical cards.
pub open spec fn tongzi_at(hand: Seq<Card>, suit: Suit, rank: Rank) -> bool {
    detectable(rank) && suit_rank_count(hand, suit, rank) >= 3
}

/// A rank holds a dizha: at least two cards in every suit.
pub open spec fn dizha_at(hand: Seq<Card>, rank: Rank) -> bool {
    &&& detectable(rank)
    &&& suit_rank_count(hand, Suit::Spades, rank) >= 2
    &&& suit_rank_count(hand, Suit::Hearts, rank) >= 2
    &&& suit_rank_count(hand, Suit::Clubs, rank) >= 2
    &&& suit_rank_count(hand, Suit::Diamonds, rank) >= 2
}

/// A suit is protected for a rank when it carries a tongzi of that rank or
/// the rank carries a dizha.
pub open spec fn protected_suit(hand: Seq<Card>, rank: Rank, suit: Suit) -> bool {
    tongzi_at(hand, suit, rank) || dizha_at(hand, rank)
}

/// Counts cards of a (suit, rank) cell in a slice.
fn cell_count(hand: &[Card], suit: Suit, rank: Rank) -> (n: usize)
    ensures
        n == suit_rank_count(hand@, suit, rank),
{
    let n0 = hand.len();
    let mut n: usize = 0;
    let mut i: usize = 0;
    proof {
        assert(hand@.take(0) =~= Seq::<Card>::empty());
        assert(hand@.take(0).to_multiset() =~= vstd::multiset::Multiset::<Card>::empty());
        assert(hand@.take(0).to_multiset().len() == 0);
    }
    while i < n0
        invariant
            0 <= i <= n0,
            n0 == hand@.len(),
            n == suit_rank_count(hand@.take(i as int), suit, rank),
            n <= i,
        decreases n0 - i,
    {
        let ghost prefix = hand@.take(i as int);
        let c = hand[i];
        proof {
            crate::models::counting::lemma_take_one_more(hand@, i as int);
            crate::models::counting::lemma_counts_insert(prefix, hand@.take(i + 1), c);
        }
        if c.suit == suit && c.rank == rank {
            n = n + 1;
        }
        i = i + 1;
    }
    proof {
        assert(hand@.take(n0 as int) =~= hand@);
    }
    n
}

/// Detects all Tongzi structures: (suit, rank) cells with three or more
/// identical cards, suits from Spades down, ranks from Five up.
pub fn detect_tongzi(hand: &[Card]) -> (r: Vec<(Suit, Rank)>)
    ensures
        forall|su: Suit, rk: Rank| r@.contains((su, rk)) <==> tongzi_at(hand@, su, rk),
        forall|i: int, j: int| 0 <= i < j < r@.len() ==> r@[i] != r@[j],
        forall|i: int, j: int|
            0 <= i < j < r@.len() ==> (#[trigger] r@[i]).0.spec_value()
                > (#[trigger] r@[j]).0.spec_value() || (r@[i].0 == r@[j].0
                && r@[i].1.spec_value() < r@[j].1.spec_value()),
{
    let suits: [Suit; 4] = [Suit::Spades, Suit::Hearts, Suit::Clubs, Suit::Diamonds];
    let mut out: Vec<(Suit, Rank)> = Vec::new();
    let mut si: usize = 0;
    while si < 4
        invariant
            0 <= si <= 4,
            suits@.len() == 4,
            suits@ == seq![Suit::Spades, Suit::Hearts, Suit::Clubs, Suit::Diamonds],
            forall|su: Suit, rk: Rank| #[trigger]
                out@.contains((su, rk)) ==> tongzi_at(hand@, su, rk),
            forall|x: int, rk: Rank|
                0 <= x < si && #[trigger] tongzi_at(hand@, suits@[x], rk) ==> out@.contains(
                    (suits@[x], rk),
                ),
            forall|i: int, j: int| 0 <= i < j < out@.len() ==> out@[i] != out@[j],
            forall|i: int|
                0 <= i < out@.len() ==> exists|x: int|
                    0 <= x < si && (#[trigger] out@[i]).0 == suits@[x],
            forall|i: int| 0 <= i < out@.len() ==> (#[trigger] out@[i]).0.spec_value() >= 5 - si,
            forall|i: int, j: int|
                0 <= i < j < out@.len() ==> (#[trigger] out@[i]).0.spec_value()
                    > (#[trigger] out@[j]).0.spec_value() || (out@[i].0 == out@[j].0
                    && out@[i].1.spec_value() < out@[j].1.spec_value()),
        decreases 4 - si,
    {
        let suit = suits[si];
        let mut v: u8 = 5;
        while v <= 15
            invariant
                5 <= v <= 16,
                0 <= si < 4,
                suits@.len() == 4,
                suits@ == seq![Suit::Spades, Suit::Hearts, Suit::Clubs, Suit::Diamonds],
                suit == suits@[si as int],
                forall|su: Suit, rk: Rank| #[trigger]
                    out@.contains((su, rk)) ==> tongzi_at(hand@, su, rk),
                forall|x: int, rk: Rank|
                    0 <= x < si && #[trigger] tongzi_at(hand@, suits@[x], rk) ==> out@.contains(
                        (suits@[x], rk),
                    ),
                forall|rk: Rank|
                    tongzi_at(hand@, suit, rk) && 5 <= rk.spec_value() < v ==> out@.contains(
                        (suit, rk),
                    ),
                forall|i: int, j: int| 0 <= i < j < out@.len() ==> out@[i] != out@[j],
                forall|i: int|
                    0 <= i < out@.len() ==> (exists|x: int|
                        0 <= x < si && (#[trigger] out@[i]).0 == suits@[x]) || (out@[i].0 == suit
                        && out@[i].1.spec_value() < v),
                suit.spec_value() == 4 - si,
                forall|i: int|
                    0 <= i < out@.len() ==> (#[trigger] out@[i]).0.spec_value() > 4 - si || (
                    out@[i].0 == suit && out@[i].1.spec_value() < v),
                forall|i: int, j: int|
                    0 <= i < j < out@.len() ==> (#[trigger] out@[i]).0.spec_value()
                        > (#[trigger] out@[j]).0.spec_value() || (out@[i].0 == out@[j].0
                        && out@[i].1.spec_value() < out@[j].1.spec_value()),
            decreases 16 - v,
        {
            let rank = rank_from_value(v);
            proof {
                crate::models::card::lemma_rank_value_roundtrip(rank);
            }
            if cell_count(hand, suit, rank) >= 3 {
                let ghost prev = out@;
                out.push((suit, rank));
                proof {
                    assert(out@[out@.len() - 1] == (suit, rank));
                    assert forall|su: Suit, rk: Rank| #[trigger]
                        out@.contains((su, rk)) implies tongzi_at(hand@, su, rk) by {
                        let i = choose|i: int| 0 <= i < out@.len() && out@[i] == (su, rk);
                        if i < prev.len() {
                            assert(prev[i] == (su, rk));
                            assert(prev.contains((su, rk)));
                        }
                    }
                    assert forall|x: int, rk: Rank|
                        0 <= x < si && #[trigger] tongzi_at(hand@, suits@[x], rk) implies out@.contains(
                        (suits@[x], rk),
                    ) by {
                        assert(prev.contains((suits@[x], rk)));
                        let i = choose|i: int| 0 <= i < prev.len() && prev[i] == (suits@[x], rk);
                        assert(out@[i] == (suits@[x], rk));
                    }
                    assert forall|rk: Rank|
                        tongzi_at(hand@, suit, rk) && 5 <= rk.spec_value() < v + 1 implies out@.contains(
                        (suit, rk),
                    ) by {
                        if rk.spec_value() < v {
                            assert(prev.contains((suit, rk)));
                            let i = choose|i: int| 0 <= i < prev.len() && prev[i] == (suit, rk);
                            assert(out@[i] == (suit, rk));
                        } else {
                            crate::models::card::lemma_rank_value_roundtrip(rk);
                            assert(rk == rank);
                            assert(out@[out@.len() - 1] == (suit, rk));
                        }
                    }
                }
            } else {
                proof {
                    assert forall|rk: Rank|
                        tongzi_at(hand@, suit, rk) && 5 <= rk.spec_value() < v + 1 implies out@.contains(
                        (suit, rk),
                    ) by {
                        if rk.spec_value() == v as int {
                            crate::models::card::lemma_rank_value_roundtrip(rk);
                            assert(rk == rank);
                            assert(!tongzi_at(hand@, suit, rk));
                        }
                    }
                }
            }
            v = v + 1;
        }
        proof {
            assert forall|rk: Rank|
                tongzi_at(hand@, suit, rk) implies out@.contains((suit, rk)) by {
                crate::models::card::lemma_rank_value_roundtrip(rk);
            }
        }
        si = si + 1;
    }
    proof {
        assert forall|su: Suit, rk: Rank| tongzi_at(hand@, su, rk) implies out@.contains(
            (su, rk),
        ) by {
            if su == Suit::Spades {
                assert(suits@[0] == su);
            } else if su == Suit::Hearts {
                assert(suits@[1] == su);
            } else if su == Suit::Clubs {
                assert(suits@[2] == su);
            } else {
                assert(suits@[3] == su);
            }
        }
    }
    out
}

/// Detects all Dizha ranks: every suit holds at least two cards of the
/// rank, ranks from Five up.
pub fn detect_dizha(hand: &[Card]) -> (r: Vec<Rank>)
    ensures
        forall|rk: Rank| r@.contains(rk) <==> dizha_at(hand@, rk),
        forall|i: int, j: int| 0 <= i < j < r@.len() ==> r@[i] != r@[j],
        forall|i: int, j: int|
            0 <= i < j < r@.len() ==> (#[trigger] r@[i]).spec_value()
                < (#[trigger] r@[j]).spec_value(),
{
    let mut out: Vec<Rank> = Vec::new();
    let mut v: u8 = 5;
    while v <= 15
        invariant
            5 <= v <= 16,
            forall|rk: Rank| #[trigger] out@.contains(rk) ==> dizha_at(hand@, rk),
            forall|rk: Rank|
                dizha_at(hand@, rk) && rk.spec_value() < v ==> out@.contains(rk),
            forall|i: int, j: int| 0 <= i < j < out@.len() ==> out@[i] != out@[j],
            forall|i: int| 0 <= i < out@.len() ==> (#[trigger] out@[i]).spec_value() < v,
            forall|i: int, j: int|
                0 <= i < j < out@.len() ==> (#[trigger] out@[i]).spec_value()
                    < (#[trigger] out@[j]).spec_value(),
        decreases 16 - v,
    {
        let rank = rank_from_value(v);
        proof {
            crate::models::card::lemma_rank_value_roundtrip(rank);
        }
        let ok = cell_count(hand, Suit::Spades, rank) >= 2 && cell_count(hand, Suit::Hearts, rank)
            >= 2 && cell_count(hand, Suit::Clubs, rank) >= 2 && cell_count(
            hand,
            Suit::Diamonds,
            rank,
        ) >= 2;
        if ok {
            let ghost prev = out@;
            out.push(rank);
            proof {
                assert(out@[out@.len() - 1] == rank);
                assert forall|rk: Rank| #[trigger] out@.contains(rk) implies dizha_at(hand@, rk) by {
                    let i = choose|i: int| 0 <= i < out@.len() && out@[i] == rk;
                    if i < prev.len() {
                        assert(prev[i] == rk);
                        assert(prev.contains(rk));
                    }
                }
                assert forall|rk: Rank|
                    dizha_at(hand@, rk) && rk.spec_value() < v + 1 implies out@.contains(rk) by {
                    if rk.spec_value() < v {
                        assert(prev.contains(rk));
                        let i = choose|i: int| 0 <= i < prev.len() && prev[i] == rk;
                        assert(out@[i] == rk);
                    } else {
                        crate::models::card::lemma_rank_value_roundtrip(rk);
                        assert(rk == rank);
                    }
                }
            }
        } else {
            proof {
                assert forall|rk: Rank|
                    dizha_at(hand@, rk) && rk.spec_value() < v + 1 implies out@.contains(rk) by {
                    if rk.spec_value() == v as int {
                        crate::models::card::lemma_rank_value_roundtrip(rk);
                        assert(rk == rank);
                        assert(!dizha_at(hand@, rk));
                    }
                }
            }
        }
        v = v + 1;
    }
    proof {
        assert forall|rk: Rank| dizha_at(hand@, rk) implies out@.contains(rk) by {
            crate::models::card::lemma_rank_value_roundtrip(rk);
        }
    }
    out
}

/// Returns the suits protected for a rank: suits carrying a tongzi of the
/// rank, and all four suits when the rank carries a dizha.
pub fn get_protected_suits(hand: &[Card], rank: Rank) -> (r: Vec<Suit>)
    ensures
        forall|su: Suit| r@.contains(su) <==> protected_suit(hand@, rank, su),
{
    let mut out: Vec<Suit> = Vec::new();
    let suits: [Suit; 4] = [Suit::Spades, Suit::Hearts, Suit::Clubs, Suit::Diamonds];
    let vr = rank.value();
    let detect = vr >= 5;
    let dz = detect && cell_count(hand, Suit::Spades, rank) >= 2 && cell_count(
        hand,
        Suit::Hearts,
        rank,
    ) >= 2 && cell_count(hand, Suit::Clubs, rank) >= 2 && cell_count(hand, Suit::Diamonds, rank)
        >= 2;
    let mut si: usize = 0;
    while si < 4
        invariant
            0 <= si <= 4,
            suits@ == seq![Suit::Spades, Suit::Hearts, Suit::Clubs, Suit::Diamonds],
            detect == detectable(rank),
            dz == dizha_at(hand@, rank),
            forall|su: Suit| #[trigger] out@.contains(su) ==> protected_suit(hand@, rank, su),
            forall|x: int|
                0 <= x < si && protected_suit(hand@, rank, #[trigger] suits@[x]) ==> out@.contains(
                    suits@[x],
                ),
        decreases 4 - si,
    {
        let suit = suits[si];
        let prot = dz || (detect && cell_count(hand, suit, rank) >= 3);
        if prot {
            let ghost prev = out@;
            out.push(suit);
            proof {
                assert(out@[out@.len() - 1] == suit);
                assert forall|su: Suit| #[trigger] out@.contains(su) implies protected_suit(
                    hand@,
                    rank,
                    su,
                ) by {
                    let i = choose|i: int| 0 <= i < out@.len() && out@[i] == su;
                    if i < prev.len() {
                        assert(prev[i] == su);
                        assert(prev.contains(su));
                    }
                }
                assert forall|x: int|
                    0 <= x < si + 1 && protected_suit(
                        hand@,
                        rank,
                        #[trigger] suits@[x],
                    ) implies out@.contains(suits@[x]) by {
                    if x < si {
                        assert(prev.contains(suits@[x]));
                        let i = choose|i: int| 0 <= i < prev.len() && prev[i] == suits@[x];
                        assert(out@[i] == suits@[x]);
                    }
                }
            }
        }
        si = si + 1;
    }
    proof {
        assert forall|su: Suit| protected_suit(hand@, rank, su) implies out@.contains(su) by {
            if su == Suit::Spades {
                assert(suits@[0] == su);
            } else if su == Suit::Hearts {
                assert(suits@[1] == su);
            } else if su == Suit::Clubs {
                assert(suits@[2] == su);
            } else {
                assert(suits@[3] == su);
            }
        }
    }
    out
}

/// Selects a safe suit for a rank: the suit of the first card of the rank
/// whose suit is unprotected, falling back to the first card's suit when
/// every held suit is protected. `None` when the hand has no card of the
/// rank.
pub fn select_safe_suit(hand: &[Card], rank: Rank) -> (r: Option<Suit>)
    ensures
        r is Some <==> exists|i: int| 0 <= i < hand@.len() && (#[trigger] hand@[i]).rank == rank,
        r matches Some(su) ==> (exists|i: int|
            0 <= i < hand@.len() && (#[trigger] hand@[i]).rank == rank && hand@[i].suit == su)
            && (!protected_suit(hand@, rank, su) || forall|j: int|
            0 <= j < hand@.len() && (#[trigger] hand@[j]).rank == rank ==> protected_suit(
                hand@,
                rank,
                hand@[j].suit,
            )),
{
    let protected = get_protected_suits(hand, rank);
    let n = hand.len();
    let mut first: Option<Suit> = None;
    let mut i: usize = 0;
    while i < n
        invariant
            0 <= i <= n,
            n == hand@.len(),
            forall|su: Suit| protected@.contains(su) <==> protected_suit(hand@, rank, su),
            first is None ==> forall|j: int|
                0 <= j < i ==> (#[trigger] hand@[j]).rank != rank,
            first matches Some(su) ==> exists|j: int|
                0 <= j < i && (#[trigger] hand@[j]).rank == rank && hand@[j].suit == su,
            forall|j: int|
                0 <= j < i && (#[trigger] hand@[j]).rank == rank ==> protected_suit(
                    hand@,
                    rank,
                    hand@[j].suit,
                ),
        decreases n - i,
    {
        let c = hand[i];
        if c.rank == rank {
            let mut prot = false;
            let np = protected.len();
            let mut pi: usize = 0;
            while pi < np
                invariant
                    0 <= pi <= np,
                    np == protected@.len(),
                    prot == exists|x: int| 0 <= x < pi && protected@[x] == c.suit,
                decreases np - pi,
            {
                if protected[pi] == c.suit {
                    prot = true;
                }
                pi = pi + 1;
            }
            proof {
                assert(prot == protected@.contains(c.suit));
            }
            if !prot {
                return Some(c.suit);
            }
            if first.is_none() {
                first = Some(c.suit);
            }
        }
        i = i + 1;
    }
    first
}

/// Some card of the hand holds the rank.
pub open spec fn has_rank(s: Seq<Card>, rk: Rank) -> bool {
    exists|i: int| 0 <= i < s.len() && s[i].rank == rk
}

/// Some group's lead card holds the rank.
pub open spec fn groups_have_rank(gs: Seq<Vec<Card>>, rk: Rank) -> bool {
    exists|i: int| 0 <= i < gs.len() && gs[i]@[0].rank == rk
}

/// Keeps one representative single card per rank held, ascending by rank,
/// choosing a safe suit for each.
pub fn filter_singles(hand: &[Card]) -> (r: Vec<Vec<Card>>)
    ensures
        forall|i: int|
            0 <= i < r@.len() ==> (#[trigger] r@[i])@.len() == 1 && hand@.contains(r@[i]@[0]),
        forall|rk: Rank| has_rank(hand@, rk) <==> #[trigger] groups_have_rank(r@, rk),
        r@.len() <= 13,
        forall|i: int, j: int|
            0 <= i < j < r@.len() ==> (#[trigger] r@[i])@[0].rank.spec_value()
                < (#[trigger] r@[j])@[0].rank.spec_value(),
        forall|i: int|
            0 <= i < r@.len() ==> !protected_suit(
                hand@,
                (#[trigger] r@[i])@[0].rank,
                r@[i]@[0].suit,
            ) || forall|j: int|
                0 <= j < hand@.len() && (#[trigger] hand@[j]).rank == r@[i]@[0].rank
                    ==> protected_suit(hand@, r@[i]@[0].rank, hand@[j].suit),
{
    let mut out: Vec<Vec<Card>> = Vec::new();
    let mut v: u8 = 3;
    while v <= 15
        invariant
            3 <= v <= 16,
            out@.len() <= v - 3,
            forall|i: int|
                0 <= i < out@.len() ==> (#[trigger] out@[i])@.len() == 1 && hand@.contains(
                    out@[i]@[0],
                ),
            forall|i: int| 0 <= i < out@.len() ==> 3 <= (#[trigger] out@[i])@[0].rank.spec_value()
                < v,
            forall|rk: Rank|
                rk.spec_value() < v && #[trigger] has_rank(hand@, rk) ==> groups_have_rank(
                    out@,
                    rk,
                ),
            forall|i: int, j: int|
                0 <= i < j < out@.len() ==> (#[trigger] out@[i])@[0].rank.spec_value()
                    < (#[trigger] out@[j])@[0].rank.spec_value(),
            forall|i: int|
                0 <= i < out@.len() ==> !protected_suit(
                    hand@,
                    (#[trigger] out@[i])@[0].rank,
                    out@[i]@[0].suit,
                ) || forall|j: int|
                    0 <= j < hand@.len() && (#[trigger] hand@[j]).rank == out@[i]@[0].rank
                        ==> protected_suit(hand@, out@[i]@[0].rank, hand@[j].suit),
        decreases 16 - v,
    {
        let rank = rank_from_value(v);
        proof {
            crate::models::card::lemma_rank_value_roundtrip(rank);
        }
        match select_safe_suit(hand, rank) {
            Some(suit) => {
                let mut g: Vec<Card> = Vec::new();
                g.push(Card { rank, suit });
                let ghost prev = out@;
                out.push(g);
                proof {
                    assert(out@[out@.len() - 1]@[0] == (Card { rank, suit }));
                    let w = choose|i: int|
                        0 <= i < hand@.len() && (#[trigger] hand@[i]).rank == rank && hand@[i].suit
                            == suit;
                    assert(hand@.contains(hand@[w]));
                    assert(hand@[w] == (Card { rank, suit }));
                    assert forall|i: int| 0 <= i < out@.len() implies (#[trigger] out@[i])@.len()
                        == 1 && hand@.contains(out@[i]@[0]) by {
                        if i < prev.len() {
                            assert(out@[i] == prev[i]);
                        }
                    }
                    assert forall|rk: Rank|
                        rk.spec_value() < v + 1 && #[trigger] has_rank(
                            hand@,
                            rk,
                        ) implies groups_have_rank(out@, rk) by {
                        if rk.spec_value() < v {
                            assert(groups_have_rank(prev, rk));
                            let i = choose|i: int|
                                0 <= i < prev.len() && prev[i]@[0].rank == rk;
                            assert(out@[i]@[0].rank == rk);
                        } else {
                            crate::models::card::lemma_rank_value_roundtrip(rk);
                            assert(out@[out@.len() - 1]@[0].rank == rk);
                        }
                    }
                }
            },
            None => {
                proof {
                    assert forall|rk: Rank|
                        rk.spec_value() < v + 1 && #[trigger] has_rank(
                            hand@,
                            rk,
                        ) implies groups_have_rank(out@, rk) by {
                        if rk.spec_value() == v as int {
                            crate::models::card::lemma_rank_value_roundtrip(rk);
                            assert(rk == rank);
                            let i = choose|i: int| 0 <= i < hand@.len() && hand@[i].rank == rk;
                            assert(false);
                        }
                    }
                }
            },
        }
        v = v + 1;
    }
    proof {
        assert forall|rk: Rank| #[trigger] groups_have_rank(out@, rk) implies has_rank(
            hand@,
            rk,
        ) by {
            let i = choose|i: int| 0 <= i < out@.len() && out@[i]@[0].rank == rk;
            let c = out@[i]@[0];
            assert(hand@.contains(c));
            let j = choose|j: int| 0 <= j < hand@.len() && hand@[j] == c;
        }
        assert forall|rk: Rank| has_rank(hand@, rk) implies #[trigger] groups_have_rank(
            out@,
            rk,
        ) by {
            crate::models::card::lemma_rank_value_roundtrip(rk);
        }
    }
    out
}

/// A strictly increasing list of values at least 3 grows by at least one
/// per position.
proof fn lemma_strict_lower(valid: Seq<u8>, x: int)
    requires
        forall|a: int, b: int| 0 <= a < b < valid.len() ==> valid[a] < valid[b],
        forall|a: int| 0 <= a < valid.len() ==> #[trigger] valid[a] >= 3,
        0 <= x < valid.len(),
    ensures
        valid[x] >= 3 + x,
    decreases x,
{
    if x > 0 {
        lemma_strict_lower(valid, x - 1);
        assert(valid[x - 1] < valid[x]);
    }
}

/// Cards of the rank whose suit is unprotected, counted with multiplicity
/// over a prefix of the hand; the protection judgement is always taken
/// against the full hand.
pub open spec fn unprotected_count_in(hand: Seq<Card>, part: Seq<Card>, rk: Rank) -> int {
    (if !protected_suit(hand, rk, Suit::Diamonds) {
        suit_rank_count(part, Suit::Diamonds, rk) as int
    } else {
        0int
    }) + (if !protected_suit(hand, rk, Suit::Clubs) {
        suit_rank_count(part, Suit::Clubs, rk) as int
    } else {
        0int
    }) + (if !protected_suit(hand, rk, Suit::Hearts) {
        suit_rank_count(part, Suit::Hearts, rk) as int
    } else {
        0int
    }) + (if !protected_suit(hand, rk, Suit::Spades) {
        suit_rank_count(part, Suit::Spades, rk) as int
    } else {
        0int
    })
}

/// How many distinct protected suits hold at least one card of the rank in
/// a prefix of the hand.
pub open spec fn protected_suit_kinds_in(hand: Seq<Card>, part: Seq<Card>, rk: Rank) -> int {
    (if protected_suit(hand, rk, Suit::Diamonds) && suit_rank_count(part, Suit::Diamonds, rk) >= 1 {
        1int
    } else {
        0int
    }) + (if protected_suit(hand, rk, Suit::Clubs) && suit_rank_count(part, Suit::Clubs, rk)
        >= 1 {
        1int
    } else {
        0int
    }) + (if protected_suit(hand, rk, Suit::Hearts) && suit_rank_count(part, Suit::Hearts, rk)
        >= 1 {
        1int
    } else {
        0int
    }) + (if protected_suit(hand, rk, Suit::Spades) && suit_rank_count(part, Suit::Spades, rk)
        >= 1 {
        1int
    } else {
        0int
    })
}

/// `k` representative cards of the rank can be gathered: unprotected cards
/// plus one card per distinct held protected suit reach `k`.
pub open spec fn pickable(hand: Seq<Card>, rk: Rank, k: int) -> bool {
    unprotected_count_in(hand, hand, rk) + protected_suit_kinds_in(hand, hand, rk) >= k
}

/// A rank held fewer than two times picks no group of two or more: its
/// unprotected supply is under two and no suit is protected.
pub proof fn lemma_thin_unpickable(hand: Seq<Card>, rk: Rank, k: int)
    requires
        rank_count(hand, rk) < 2,
        k >= 2,
    ensures
        !pickable(hand, rk, k),
{
    assert forall|su: Suit| !protected_suit(hand, rk, su) by {
        if su == Suit::Spades {
        } else if su == Suit::Hearts {
        } else if su == Suit::Clubs {
        } else {
        }
    }
    assert(unprotected_count_in(hand, hand, rk) <= rank_count(hand, rk));
    assert(protected_suit_kinds_in(hand, hand, rk) == 0);
}

/// Along a chained window, each entry sits at a fixed offset from the
/// start.
/// Every rank value in the window `lo..lo + len` of length at least two is
/// held at least twice, and the window stays below rank Two.
pub open spec fn pair_window(s: Seq<Card>, lo: int, len: int) -> bool {
    &&& len >= 2
    &&& 3 <= lo
    &&& lo + len - 1 <= 14
    &&& forall|w: int| lo <= w < lo + len ==> #[trigger] rank_count_v(s, w) >= 2
}

/// The list holds the value `w` at some index.
pub open spec fn value_present(valid: Seq<u8>, w: int) -> bool {
    exists|y: int| 0 <= y < valid.len() && valid[y] as int == w
}

/// In a strictly ascending value list that holds every value of the window
/// `lo..lo + len`, the window occupies consecutive indices starting at the
/// index of `lo`.
proof fn lemma_window_indices(valid: Seq<u8>, x: int, lo: int, len: int, j: int)
    requires
        forall|a: int, b: int| 0 <= a < b < valid.len() ==> valid[a] < valid[b],
        0 <= x < valid.len(),
        valid[x] as int == lo,
        forall|w: int| lo <= w < lo + len ==> #[trigger] value_present(valid, w),
        0 <= j < len,
    ensures
        x + j < valid.len(),
        valid[x + j] as int == lo + j,
    decreases j,
{
    if j > 0 {
        lemma_window_indices(valid, x, lo, len, j - 1);
        let w = lo + j;
        assert(lo <= w < lo + len);
        assert(value_present(valid, w));
        let y = choose|y: int| 0 <= y < valid.len() && valid[y] as int == w;
        if y < x + j - 1 {
            assert(valid[y] < valid[x + j - 1]);
            assert(false);
        } else if y == x + j - 1 {
            assert(false);
        } else if y > x + j {
            assert(valid[x + j - 1] < valid[x + j]);
            assert(valid[x + j] < valid[y]);
            assert(false);
        }
        assert(y == x + j);
    }
}

proof fn lemma_chain_offset(valid: Seq<u8>, start: int, length: int, x: int)
    requires
        0 <= start,
        start + length <= valid.len(),
        0 <= x < length,
        forall|y: int| 1 <= y < length ==> #[trigger] valid[start + y] == valid[start + y - 1] + 1,
    ensures
        valid[start + x] == valid[start] + x,
    decreases x,
{
    if x > 0 {
        lemma_chain_offset(valid, start, length, x - 1);
        assert(valid[start + x] == valid[start + x - 1] + 1);
    }
}

/// A uniform-rank selection holds a suit exactly when its (suit, rank)
/// cell is occupied.
proof fn lemma_sel_suit(sel: Seq<Card>, rank: Rank, su: Suit)
    requires
        forall|x: int| 0 <= x < sel.len() ==> (#[trigger] sel[x]).rank == rank,
    ensures
        (exists|x: int| 0 <= x < sel.len() && (#[trigger] sel[x]).suit == su) <==> suit_rank_count(
            sel,
            su,
            rank,
        ) >= 1,
{
    crate::models::counting::lemma_contains_count(sel, Card { rank, suit: su });
    if exists|x: int| 0 <= x < sel.len() && (#[trigger] sel[x]).suit == su {
        let x = choose|x: int| 0 <= x < sel.len() && (#[trigger] sel[x]).suit == su;
        assert(sel[x] == (Card { rank, suit: su }));
        assert(sel.contains(Card { rank, suit: su }));
    }
    if suit_rank_count(sel, su, rank) >= 1 {
        assert(sel.contains(Card { rank, suit: su }));
        let x = choose|x: int| 0 <= x < sel.len() && sel[x] == (Card { rank, suit: su });
        assert(sel[x].suit == su);
    }
}

/// Selects `k` representative cards of one rank: unprotected suits first,
/// then cards of suits not yet used, then (when `fill` is set) any cards of
/// the rank. Without the fill phase, the selection succeeds exactly when
/// the rank is pickable.
#[verifier::rlimit(60)]
fn select_k_for_rank(hand: &[Card], rank: Rank, k: usize, fill: bool) -> (r: Option<Vec<Card>>)
    requires
        1 <= k <= 3,
    ensures
        r matches Some(g) ==> g@.len() == k && (forall|i: int|
            0 <= i < k ==> (#[trigger] g@[i]).rank == rank && hand@.contains(g@[i]))
            && rank_count(g@, rank) == k && (forall|rr: Rank|
            rr != rank ==> #[trigger] rank_count(g@, rr) == 0),
        !fill ==> (r is Some <==> pickable(hand@, rank, k as int)),
        fill && rank_count(hand@, rank) >= k ==> r is Some,
        r is Some && pickable(hand@, rank, k as int) ==> unprotected_count_in(
            hand@,
            (r->Some_0)@,
            rank,
        ) == (if unprotected_count_in(hand@, hand@, rank) <= k {
            unprotected_count_in(hand@, hand@, rank)
        } else {
            k as int
        }) && (forall|su: Suit|
            protected_suit(hand@, rank, su) ==> #[trigger] suit_rank_count(
                (r->Some_0)@,
                su,
                rank,
            ) <= 1),
{
    let protected = get_protected_suits(hand, rank);
    let n = hand.len();
    let mut sel: Vec<Card> = Vec::new();
    let ghost hs = hand@;
    proof {
        assert(sel@.to_multiset() =~= vstd::multiset::Multiset::<Card>::empty());
        assert(sel@.to_multiset().len() == 0);
        assert(hs.take(0) =~= Seq::<Card>::empty());
        assert(hs.take(0).to_multiset() =~= vstd::multiset::Multiset::<Card>::empty());
        assert(hs.take(0).to_multiset().len() == 0);
    }
    let mut i: usize = 0;
    while i < n
        invariant
            0 <= i <= n,
            n == hs.len(),
            hs == hand@,
            forall|su: Suit| protected@.contains(su) <==> protected_suit(hs, rank, su),
            sel@.len() <= k,
            forall|x: int|
                0 <= x < sel@.len() ==> (#[trigger] sel@[x]).rank == rank && hs.contains(sel@[x]),
            rank_count(sel@, rank) == sel@.len(),
            forall|rr: Rank| rr != rank ==> #[trigger] rank_count(sel@, rr) == 0,
            sel@.len() == (if unprotected_count_in(hs, hs.take(i as int), rank) <= k {
                unprotected_count_in(hs, hs.take(i as int), rank)
            } else {
                k as int
            }),
            forall|x: int| 0 <= x < sel@.len() ==> !protected_suit(hs, rank, (#[trigger] sel@[x]).suit),
            forall|su: Suit|
                protected_suit(hs, rank, su) ==> #[trigger] suit_rank_count(sel@, su, rank) == 0,
            unprotected_count_in(hs, sel@, rank) == sel@.len(),
            sel@.len() == k || forall|su: Suit|
                #[trigger] suit_rank_count(sel@, su, rank) == (if !protected_suit(hs, rank, su) {
                    suit_rank_count(hs.take(i as int), su, rank) as int
                } else {
                    0int
                }),
        decreases n - i,
    {
        let ghost prefix = hs.take(i as int);
        let c = hand[i];
        proof {
            crate::models::counting::lemma_take_one_more(hs, i as int);
            crate::models::counting::lemma_counts_insert(prefix, hs.take(i + 1), c);
        }
        if c.rank == rank && sel.len() < k {
            let mut prot = false;
            let np = protected.len();
            let mut pi: usize = 0;
            while pi < np
                invariant
                    0 <= pi <= np,
                    np == protected@.len(),
                    prot == exists|x: int| 0 <= x < pi && protected@[x] == c.suit,
                decreases np - pi,
            {
                if protected[pi] == c.suit {
                    prot = true;
                }
                pi = pi + 1;
            }
            proof {
                assert(prot == protected@.contains(c.suit));
            }
            if !prot {
                let ghost prev = sel@;
                sel.push(c);
                proof {
                    assert(hs.contains(hs[i as int]));
                    crate::models::counting::lemma_counts_insert(prev, sel@, c);
                }
            }
        }
        i = i + 1;
    }
    proof {
        assert(hs.take(n as int) =~= hs);
    }
    let ghost u_total = unprotected_count_in(hs, hs, rank);
    if sel.len() < k {
        let mut i: usize = 0;
        proof {
            assert(sel@.len() == u_total);
        }
        while i < n
            invariant
                0 <= i <= n,
                n == hs.len(),
                hs == hand@,
                forall|su: Suit| protected@.contains(su) <==> protected_suit(hs, rank, su),
                sel@.len() <= k,
                forall|x: int|
                    0 <= x < sel@.len() ==> (#[trigger] sel@[x]).rank == rank && hs.contains(
                        sel@[x],
                    ),
                rank_count(sel@, rank) == sel@.len(),
                forall|rr: Rank| rr != rank ==> #[trigger] rank_count(sel@, rr) == 0,
                u_total == unprotected_count_in(hs, hs, rank),
                u_total < k,
                sel@.len() == (if u_total + protected_suit_kinds_in(hs, hs.take(i as int), rank)
                    <= k {
                    u_total + protected_suit_kinds_in(hs, hs.take(i as int), rank)
                } else {
                    k as int
                }),
                sel@.len() < k ==> forall|su: Suit|
                    (#[trigger] suit_rank_count(sel@, su, rank) >= 1) <==> ((!protected_suit(
                        hs,
                        rank,
                        su,
                    ) && suit_rank_count(hs, su, rank) >= 1) || (protected_suit(hs, rank, su)
                        && suit_rank_count(hs.take(i as int), su, rank) >= 1)),
                unprotected_count_in(hs, sel@, rank) == u_total,
                forall|su: Suit|
                    protected_suit(hs, rank, su) ==> #[trigger] suit_rank_count(sel@, su, rank)
                        <= 1,
            decreases n - i,
        {
            let ghost prefix = hs.take(i as int);
            let ghost prev_sel = sel@;
            let c = hand[i];
            proof {
                crate::models::counting::lemma_take_one_more(hs, i as int);
                crate::models::counting::lemma_counts_insert(prefix, hs.take(i + 1), c);
            }
            if c.rank == rank && sel.len() < k {
                let mut suit_used = false;
                let ns = sel.len();
                let mut siq: usize = 0;
                while siq < ns
                    invariant
                        0 <= siq <= ns,
                        ns == sel@.len(),
                        suit_used == exists|x: int|
                            0 <= x < siq && (#[trigger] sel@[x]).suit == c.suit,
                    decreases ns - siq,
                {
                    if sel[siq].suit == c.suit {
                        suit_used = true;
                    }
                    siq = siq + 1;
                }
                proof {
                    assert(suit_used == exists|x: int|
                        0 <= x < sel@.len() && (#[trigger] sel@[x]).suit == c.suit);
                    lemma_sel_suit(sel@, rank, c.suit);
                    assert(suit_used == (suit_rank_count(sel@, c.suit, rank) >= 1));
                    assert(hs.contains(hs[i as int]));
                    assert(suit_rank_count(hs.take(i + 1), c.suit, rank) >= 1);
                    assert(suit_rank_count(hs, c.suit, rank) >= suit_rank_count(
                        hs.take(i + 1),
                        c.suit,
                        rank,
                    )) by {
                        assert(hs =~= hs.take(i + 1) + hs.skip(i + 1));
                        crate::ai_helpers::extract::lemma_counts_concat(
                            hs,
                            hs.take(i + 1),
                            hs.skip(i + 1),
                        );
                    }
                }
                if !suit_used {
                    let ghost prev = sel@;
                    sel.push(c);
                    proof {
                        crate::models::counting::lemma_counts_insert(prev, sel@, c);
                        assert(!protected_suit(hs, rank, c.suit) ==> false) by {
                            if !protected_suit(hs, rank, c.suit) {
                                assert(suit_rank_count(hs, c.suit, rank) >= 1);
                            }
                        }
                        assert(protected_suit(hs, rank, c.suit));
                        assert(suit_rank_count(prefix, c.suit, rank) == 0);
                        assert forall|x: int| 0 <= x < sel@.len() implies (#[trigger] sel@[x]).rank
                            == rank && hs.contains(sel@[x]) by {
                            if x < prev.len() {
                                assert(sel@[x] == prev[x]);
                            }
                        }
                    }
                }
            }
            i = i + 1;
        }
        proof {
            assert(hs.take(n as int) =~= hs);
        }
    }
    proof {
        assert(sel@.len() == (if u_total + protected_suit_kinds_in(hs, hs, rank) <= k {
            u_total + protected_suit_kinds_in(hs, hs, rank)
        } else {
            k as int
        }));
    }
    if fill {
        if sel.len() < k {
            let ghost base = sel@.len() as int;
            let mut i: usize = 0;
            while i < n
                invariant
                    0 <= i <= n,
                    n == hs.len(),
                    hs == hand@,
                    sel@.len() <= k,
                    forall|x: int|
                        0 <= x < sel@.len() ==> (#[trigger] sel@[x]).rank == rank && hs.contains(
                            sel@[x],
                        ),
                    rank_count(sel@, rank) == sel@.len(),
                    forall|rr: Rank| rr != rank ==> #[trigger] rank_count(sel@, rr) == 0,
                    sel@.len() == (if base + rank_count(hs.take(i as int), rank) <= k {
                        base + rank_count(hs.take(i as int), rank)
                    } else {
                        k as int
                    }),
                decreases n - i,
            {
                let ghost prefix = hs.take(i as int);
                let c = hand[i];
                proof {
                    crate::models::counting::lemma_take_one_more(hs, i as int);
                    crate::models::counting::lemma_counts_insert(prefix, hs.take(i + 1), c);
                }
                if c.rank == rank && sel.len() < k {
                    let ghost prev = sel@;
                    sel.push(c);
                    proof {
                        assert(hs.contains(hs[i as int]));
                        crate::models::counting::lemma_counts_insert(prev, sel@, c);
                    }
                }
                i = i + 1;
            }
            proof {
                assert(hs.take(n as int) =~= hs);
            }
        }
    }
    proof {
        if u_total + protected_suit_kinds_in(hs, hs, rank) >= k {
            assert(unprotected_count_in(hs, sel@, rank) == (if u_total <= k {
                u_total
            } else {
                k as int
            }));
            assert(forall|su: Suit|
                protected_suit(hs, rank, su) ==> #[trigger] suit_rank_count(sel@, su, rank) <= 1);
        }
    }
    if sel.len() == k {
        Some(sel)
    } else {
        None
    }
}

/// Keeps one representative pair per rank (Five and above) holding at
/// least two cards, in ascending rank order, preferring unprotected suits.
pub fn filter_pairs(hand: &[Card]) -> (r: Vec<Vec<Card>>)
    ensures
        forall|i: int|
            0 <= i < r@.len() ==> is_pair((#[trigger] r@[i])@) && (forall|x: int|
                0 <= x < r@[i]@.len() ==> hand@.contains(#[trigger] r@[i]@[x])),
        forall|i: int|
            0 <= i < r@.len() ==> unprotected_count_in(
                hand@,
                (#[trigger] r@[i])@,
                r@[i]@[0].rank,
            ) == (if unprotected_count_in(hand@, hand@, r@[i]@[0].rank) <= 2 {
                unprotected_count_in(hand@, hand@, r@[i]@[0].rank)
            } else {
                2int
            }) && (forall|su: Suit|
                protected_suit(hand@, r@[i]@[0].rank, su) ==> #[trigger] suit_rank_count(
                    r@[i]@,
                    su,
                    r@[i]@[0].rank,
                ) <= 1),
        forall|rk: Rank|
            #[trigger] groups_have_rank(r@, rk) <==> (rk.spec_value() >= 5 && pickable(
                hand@,
                rk,
                2,
            )),
        forall|i: int, j: int|
            0 <= i < j < r@.len() ==> (#[trigger] r@[i])@[0].rank.spec_value()
                < (#[trigger] r@[j])@[0].rank.spec_value(),
{
    let mut out: Vec<Vec<Card>> = Vec::new();
    let mut v: u8 = 5;
    while v <= 15
        invariant
            5 <= v <= 16,
            forall|i: int|
                0 <= i < out@.len() ==> is_pair((#[trigger] out@[i])@) && (forall|x: int|
                    0 <= x < out@[i]@.len() ==> hand@.contains(#[trigger] out@[i]@[x])),
            forall|i: int|
                0 <= i < out@.len() ==> unprotected_count_in(
                    hand@,
                    (#[trigger] out@[i])@,
                    out@[i]@[0].rank,
                ) == (if unprotected_count_in(hand@, hand@, out@[i]@[0].rank) <= 2 {
                    unprotected_count_in(hand@, hand@, out@[i]@[0].rank)
                } else {
                    2int
                }) && (forall|su: Suit|
                    protected_suit(hand@, out@[i]@[0].rank, su) ==> #[trigger] suit_rank_count(
                        out@[i]@,
                        su,
                        out@[i]@[0].rank,
                    ) <= 1),
            forall|rk: Rank|
                #[trigger] groups_have_rank(out@, rk) <==> (5 <= rk.spec_value() < v && pickable(
                    hand@,
                    rk,
                    2,
                )),
            forall|i: int| 0 <= i < out@.len() ==> (#[trigger] out@[i])@[0].rank.spec_value() < v,
            forall|i: int, j: int|
                0 <= i < j < out@.len() ==> (#[trigger] out@[i])@[0].rank.spec_value()
                    < (#[trigger] out@[j])@[0].rank.spec_value(),
        decreases 16 - v,
    {
        let rank = rank_from_value(v);
        proof {
            crate::models::card::lemma_rank_value_roundtrip(rank);
        }
        let b = crate::ai_helpers::kicker::Block::from_cards(hand, rank);
        let picked = if b.count >= 2 {
            select_k_for_rank(hand, rank, 2, false)
        } else {
            proof {
                assert(!pickable(hand@, rank, 2)) by {
                    if pickable(hand@, rank, 2) {
                        assert(unprotected_count_in(hand@, hand@, rank)
                            + protected_suit_kinds_in(hand@, hand@, rank) <= rank_count(
                            hand@,
                            rank,
                        ));
                    }
                }
            }
            None
        };
        match picked {
            Some(g) => {
                let ghost prev = out@;
                out.push(g);
                proof {
                    assert(out@[out@.len() - 1] == g);
                    assert(is_pair(g@));
                    assert(out@[out@.len() - 1]@[0].rank == rank);
                    assert forall|rk: Rank|
                        #[trigger] groups_have_rank(out@, rk) <==> (5 <= rk.spec_value() < v + 1
                        && pickable(hand@, rk, 2)) by {
                        crate::models::card::lemma_rank_value_roundtrip(rk);
                        if groups_have_rank(out@, rk) {
                            let i = choose|i: int| 0 <= i < out@.len() && out@[i]@[0].rank == rk;
                            if i < prev.len() {
                                assert(prev[i] == out@[i]);
                                assert(groups_have_rank(prev, rk));
                            } else {
                                assert(rk == rank);
                            }
                        }
                        if 5 <= rk.spec_value() < v + 1 && pickable(hand@, rk, 2) {
                            if rk.spec_value() < v as int {
                                assert(groups_have_rank(prev, rk));
                                let i = choose|i: int|
                                    0 <= i < prev.len() && prev[i]@[0].rank == rk;
                                assert(out@[i]@[0].rank == rk);
                            } else {
                                assert(rk == rank);
                                assert(out@[out@.len() - 1]@[0].rank == rk);
                            }
                        }
                    }
                    assert forall|i: int| 0 <= i < out@.len() implies is_pair((#[trigger] out@[i])@)
                        && (forall|x: int|
                        0 <= x < out@[i]@.len() ==> hand@.contains(#[trigger] out@[i]@[x])) by {
                        if i < prev.len() {
                            assert(out@[i] == prev[i]);
                        }
                    }
                    assert(pickable(hand@, rank, 2));
                    assert forall|i: int|
                        0 <= i < out@.len() implies unprotected_count_in(
                        hand@,
                        (#[trigger] out@[i])@,
                        out@[i]@[0].rank,
                    ) == (if unprotected_count_in(hand@, hand@, out@[i]@[0].rank) <= 2 {
                        unprotected_count_in(hand@, hand@, out@[i]@[0].rank)
                    } else {
                        2int
                    }) && (forall|su: Suit|
                        protected_suit(hand@, out@[i]@[0].rank, su) ==> #[trigger] suit_rank_count(
                            out@[i]@,
                            su,
                            out@[i]@[0].rank,
                        ) <= 1) by {
                        if i < prev.len() {
                            assert(out@[i] == prev[i]);
                        } else {
                            assert(out@[i] == g);
                            assert(out@[i]@[0].rank == rank);
                        }
                    }
                }
            },
            None => {
                proof {
                    assert(!pickable(hand@, rank, 2));
                    assert forall|rk: Rank|
                        #[trigger] groups_have_rank(out@, rk) <==> (5 <= rk.spec_value() < v + 1
                        && pickable(hand@, rk, 2)) by {
                        crate::models::card::lemma_rank_value_roundtrip(rk);
                        if rk.spec_value() == v as int {
                            assert(rk == rank);
                            if groups_have_rank(out@, rk) {
                                let i = choose|i: int|
                                    0 <= i < out@.len() && out@[i]@[0].rank == rk;
                                assert(out@[i]@[0].rank.spec_value() < v);
                                assert(false);
                            }
                        }
                    }
                }
            },
        }
        v = v + 1;
    }
    out
}

/// Keeps one representative triple per rank (Five and above) holding at
/// least three cards, in ascending rank order, preferring unprotected
/// suits.
pub fn filter_triples(hand: &[Card]) -> (r: Vec<Vec<Card>>)
    ensures
        forall|i: int|
            0 <= i < r@.len() ==> is_triple((#[trigger] r@[i])@) && (forall|x: int|
                0 <= x < r@[i]@.len() ==> hand@.contains(#[trigger] r@[i]@[x])),
        forall|i: int|
            0 <= i < r@.len() ==> unprotected_count_in(
                hand@,
                (#[trigger] r@[i])@,
                r@[i]@[0].rank,
            ) == (if unprotected_count_in(hand@, hand@, r@[i]@[0].rank) <= 3 {
                unprotected_count_in(hand@, hand@, r@[i]@[0].rank)
            } else {
                3int
            }) && (forall|su: Suit|
                protected_suit(hand@, r@[i]@[0].rank, su) ==> #[trigger] suit_rank_count(
                    r@[i]@,
                    su,
                    r@[i]@[0].rank,
                ) <= 1),
        forall|rk: Rank|
            #[trigger] groups_have_rank(r@, rk) <==> (rk.spec_value() >= 5 && pickable(
                hand@,
                rk,
                3,
            )),
        forall|i: int, j: int|
            0 <= i < j < r@.len() ==> (#[trigger] r@[i])@[0].rank.spec_value()
                < (#[trigger] r@[j])@[0].rank.spec_value(),
{
    let mut out: Vec<Vec<Card>> = Vec::new();
    let mut v: u8 = 5;
    while v <= 15
        invariant
            5 <= v <= 16,
            forall|i: int|
                0 <= i < out@.len() ==> is_triple((#[trigger] out@[i])@) && (forall|x: int|
                    0 <= x < out@[i]@.len() ==> hand@.contains(#[trigger] out@[i]@[x])),
            forall|i: int|
                0 <= i < out@.len() ==> unprotected_count_in(
                    hand@,
                    (#[trigger] out@[i])@,
                    out@[i]@[0].rank,
                ) == (if unprotected_count_in(hand@, hand@, out@[i]@[0].rank) <= 3 {
                    unprotected_count_in(hand@, hand@, out@[i]@[0].rank)
                } else {
                    3int
                }) && (forall|su: Suit|
                    protected_suit(hand@, out@[i]@[0].rank, su) ==> #[trigger] suit_rank_count(
                        out@[i]@,
                        su,
                        out@[i]@[0].rank,
                    ) <= 1),
            forall|rk: Rank|
                #[trigger] groups_have_rank(out@, rk) <==> (5 <= rk.spec_value() < v && pickable(
                    hand@,
                    rk,
                    3,
                )),
            forall|i: int| 0 <= i < out@.len() ==> (#[trigger] out@[i])@[0].rank.spec_value() < v,
            forall|i: int, j: int|
                0 <= i < j < out@.len() ==> (#[trigger] out@[i])@[0].rank.spec_value()
                    < (#[trigger] out@[j])@[0].rank.spec_value(),
        decreases 16 - v,
    {
        let rank = rank_from_value(v);
        proof {
            crate::models::card::lemma_rank_value_roundtrip(rank);
        }
        let b = crate::ai_helpers::kicker::Block::from_cards(hand, rank);
        let picked = if b.count >= 3 {
            select_k_for_rank(hand, rank, 3, false)
        } else {
            proof {
                assert(!pickable(hand@, rank, 3)) by {
                    if pickable(hand@, rank, 3) {
                        assert(unprotected_count_in(hand@, hand@, rank)
                            + protected_suit_kinds_in(hand@, hand@, rank) <= rank_count(
                            hand@,
                            rank,
                        ));
                    }
                }
            }
            None
        };
        match picked {
            Some(g) => {
                let ghost prev = out@;
                out.push(g);
                proof {
                    assert(out@[out@.len() - 1] == g);
                    assert(is_triple(g@));
                    assert(out@[out@.len() - 1]@[0].rank == rank);
                    assert forall|rk: Rank|
                        #[trigger] groups_have_rank(out@, rk) <==> (5 <= rk.spec_value() < v + 1
                        && pickable(hand@, rk, 3)) by {
                        crate::models::card::lemma_rank_value_roundtrip(rk);
                        if groups_have_rank(out@, rk) {
                            let i = choose|i: int| 0 <= i < out@.len() && out@[i]@[0].rank == rk;
                            if i < prev.len() {
                                assert(prev[i] == out@[i]);
                                assert(groups_have_rank(prev, rk));
                            } else {
                                assert(rk == rank);
                            }
                        }
                        if 5 <= rk.spec_value() < v + 1 && pickable(hand@, rk, 3) {
                            if rk.spec_value() < v as int {
                                assert(groups_have_rank(prev, rk));
                                let i = choose|i: int|
                                    0 <= i < prev.len() && prev[i]@[0].rank == rk;
                                assert(out@[i]@[0].rank == rk);
                            } else {
                                assert(rk == rank);
                                assert(out@[out@.len() - 1]@[0].rank == rk);
                            }
                        }
                    }
                    assert forall|i: int|
                        0 <= i < out@.len() implies is_triple((#[trigger] out@[i])@) && (
                    forall|x: int|
                        0 <= x < out@[i]@.len() ==> hand@.contains(#[trigger] out@[i]@[x])) by {
                        if i < prev.len() {
                            assert(out@[i] == prev[i]);
                        }
                    }
                    assert(pickable(hand@, rank, 3));
                    assert forall|i: int|
                        0 <= i < out@.len() implies unprotected_count_in(
                        hand@,
                        (#[trigger] out@[i])@,
                        out@[i]@[0].rank,
                    ) == (if unprotected_count_in(hand@, hand@, out@[i]@[0].rank) <= 3 {
                        unprotected_count_in(hand@, hand@, out@[i]@[0].rank)
                    } else {
                        3int
                    }) && (forall|su: Suit|
                        protected_suit(hand@, out@[i]@[0].rank, su) ==> #[trigger] suit_rank_count(
                            out@[i]@,
                            su,
                            out@[i]@[0].rank,
                        ) <= 1) by {
                        if i < prev.len() {
                            assert(out@[i] == prev[i]);
                        } else {
                            assert(out@[i] == g);
                            assert(out@[i]@[0].rank == rank);
                        }
                    }
                }
            },
            None => {
                proof {
                    assert(!pickable(hand@, rank, 3));
                    assert forall|rk: Rank|
                        #[trigger] groups_have_rank(out@, rk) <==> (5 <= rk.spec_value() < v + 1
                        && pickable(hand@, rk, 3)) by {
                        crate::models::card::lemma_rank_value_roundtrip(rk);
                        if rk.spec_value() == v as int {
                            assert(rk == rank);
                            if groups_have_rank(out@, rk) {
                                let i = choose|i: int|
                                    0 <= i < out@.len() && out@[i]@[0].rank == rk;
                                assert(out@[i]@[0].rank.spec_value() < v);
                                assert(false);
                            }
                        }
                    }
                }
            },
        }
        v = v + 1;
    }
    out
}

/// Keeps one representative combination per consecutive-pair window (by
/// start and length, ascending length then start): two cards of each rank
/// in the window, preferring unprotected suits. Rank Two never joins a
/// window.
pub fn filter_consecutive_pairs(hand: &[Card]) -> (r: Vec<Vec<Card>>)
    ensures
        forall|i: int|
            0 <= i < r@.len() ==> is_consecutive_pairs((#[trigger] r@[i])@) && (forall|x: int|
                0 <= x < r@[i]@.len() ==> hand@.contains(#[trigger] r@[i]@[x])),
        forall|lo: int, len: int|
            #[trigger] pair_window(hand@, lo, len) ==> exists|i: int|
                0 <= i < r@.len() && (#[trigger] r@[i])@.len() == 2 * len
                    && crate::patterns::shapes::low_rank_v(r@[i]@) == lo,
        forall|i: int|
            0 <= i < r@.len() ==> pair_window(
                hand@,
                crate::patterns::shapes::low_rank_v((#[trigger] r@[i])@),
                r@[i]@.len() as int / 2,
            ),
        forall|i: int, j: int|
            0 <= i < j < r@.len() ==> (#[trigger] r@[i])@.len() < (#[trigger] r@[j])@.len()
                || (r@[i]@.len() == r@[j]@.len() && crate::patterns::shapes::low_rank_v(
                r@[i]@,
            ) < crate::patterns::shapes::low_rank_v(r@[j]@)),
        forall|i: int, rk: Rank|
            0 <= i < r@.len() && #[trigger] rank_count(r@[i]@, rk) > 0 && pickable(
                hand@,
                rk,
                2,
            ) ==> unprotected_count_in(hand@, r@[i]@, rk) == (if unprotected_count_in(
                hand@,
                hand@,
                rk,
            ) <= 2 {
                unprotected_count_in(hand@, hand@, rk)
            } else {
                2int
            }) && (forall|su: Suit|
                protected_suit(hand@, rk, su) ==> #[trigger] suit_rank_count(r@[i]@, su, rk)
                    <= 1),
{
    let mut out: Vec<Vec<Card>> = Vec::new();
    let mut valid: Vec<u8> = Vec::new();
    let mut v: u8 = 3;
    while v <= 14
        invariant
            3 <= v <= 15,
            forall|x: int|
                0 <= x < valid@.len() ==> 3 <= #[trigger] valid@[x] < v && rank_count_v(
                    hand@,
                    valid@[x] as int,
                ) >= 2,
            forall|x: int, y: int| 0 <= x < y < valid@.len() ==> valid@[x] < valid@[y],
            forall|u: int|
                3 <= u < v && #[trigger] rank_count_v(hand@, u) >= 2 ==> exists|x: int|
                    0 <= x < valid@.len() && valid@[x] as int == u,
        decreases 15 - v,
    {
        let rank = rank_from_value(v);
        proof {
            crate::models::card::lemma_rank_value_roundtrip(rank);
        }
        let b = crate::ai_helpers::kicker::Block::from_cards(hand, rank);
        if b.count >= 2 {
            let ghost prevv = valid@;
            valid.push(v);
            proof {
                assert(valid@[valid@.len() - 1] == v);
                assert forall|x: int| 0 <= x < valid@.len() implies 3 <= #[trigger] valid@[x] < v
                    + 1 && rank_count_v(hand@, valid@[x] as int) >= 2 by {
                    if x < prevv.len() {
                        assert(valid@[x] == prevv[x]);
                    }
                }
                assert forall|u: int|
                    3 <= u < v + 1 && #[trigger] rank_count_v(hand@, u) >= 2 implies exists|x: int|
                    0 <= x < valid@.len() && valid@[x] as int == u by {
                    if u < v {
                        let x = choose|x: int|
                            0 <= x < prevv.len() && #[trigger] prevv[x] as int == u;
                        assert(valid@[x] as int == u);
                    } else {
                        assert(valid@[valid@.len() - 1] as int == u);
                    }
                }
            }
        } else {
            proof {
                assert forall|u: int|
                    3 <= u < v + 1 && #[trigger] rank_count_v(hand@, u) >= 2 implies exists|x: int|
                    0 <= x < valid@.len() && valid@[x] as int == u by {
                    if u == v as int {
                        assert(b.count == rank_count(hand@, rank));
                        assert(rank_count_v(hand@, u) == rank_count(hand@, rank));
                        assert(false);
                    }
                }
            }
        }
        v = v + 1;
    }
    proof {
        if valid@.len() >= 13 {
            lemma_strict_lower(valid@, 12);
            assert(false);
        }
    }
    let nv = valid.len();
    let mut length: usize = 2;
    while length <= nv
        invariant
            2 <= length <= 13,
            nv <= 12,
            nv == valid@.len(),
            forall|x: int|
                0 <= x < valid@.len() ==> 3 <= #[trigger] valid@[x] <= 14 && rank_count_v(
                    hand@,
                    valid@[x] as int,
                ) >= 2,
            forall|x: int, y: int| 0 <= x < y < valid@.len() ==> valid@[x] < valid@[y],
            forall|u: int|
                3 <= u <= 14 && #[trigger] rank_count_v(hand@, u) >= 2 ==> exists|x: int|
                    0 <= x < valid@.len() && valid@[x] as int == u,
            forall|i: int|
                0 <= i < out@.len() ==> is_consecutive_pairs((#[trigger] out@[i])@) && (
            forall|x: int| 0 <= x < out@[i]@.len() ==> hand@.contains(#[trigger] out@[i]@[x])),
            forall|lo0: int, len0: int|
                2 <= len0 < length && #[trigger] pair_window(hand@, lo0, len0) ==> exists|i: int|
                    0 <= i < out@.len() && (#[trigger] out@[i])@.len() == 2 * len0
                        && crate::patterns::shapes::low_rank_v(out@[i]@) == lo0,
            forall|i: int| 0 <= i < out@.len() ==> (#[trigger] out@[i])@.len() < 2 * length,
            forall|i: int|
                0 <= i < out@.len() ==> pair_window(
                    hand@,
                    crate::patterns::shapes::low_rank_v((#[trigger] out@[i])@),
                    out@[i]@.len() as int / 2,
                ),
            forall|i: int, j: int|
                0 <= i < j < out@.len() ==> (#[trigger] out@[i])@.len() < (#[trigger] out@[j])@.len()
                    || (out@[i]@.len() == out@[j]@.len() && crate::patterns::shapes::low_rank_v(
                    out@[i]@,
                ) < crate::patterns::shapes::low_rank_v(out@[j]@)),
            forall|i: int, rk: Rank|
                0 <= i < out@.len() && #[trigger] rank_count(out@[i]@, rk) > 0 && pickable(
                    hand@,
                    rk,
                    2,
                ) ==> unprotected_count_in(hand@, out@[i]@, rk) == (if unprotected_count_in(
                    hand@,
                    hand@,
                    rk,
                ) <= 2 {
                    unprotected_count_in(hand@, hand@, rk)
                } else {
                    2int
                }) && (forall|su: Suit|
                    protected_suit(hand@, rk, su) ==> #[trigger] suit_rank_count(out@[i]@, su, rk)
                        <= 1),
        decreases nv + 1 - length,
    {
        let mut start: usize = 0;
        while start <= nv - length
            invariant
                0 <= start,
                2 <= length <= nv,
                nv == valid@.len(),
                forall|x: int|
                    0 <= x < valid@.len() ==> 3 <= #[trigger] valid@[x] <= 14 && rank_count_v(
                        hand@,
                        valid@[x] as int,
                    ) >= 2,
                forall|x: int, y: int| 0 <= x < y < valid@.len() ==> valid@[x] < valid@[y],
                forall|u: int|
                    3 <= u <= 14 && #[trigger] rank_count_v(hand@, u) >= 2 ==> exists|x: int|
                        0 <= x < valid@.len() && valid@[x] as int == u,
                forall|i: int|
                    0 <= i < out@.len() ==> is_consecutive_pairs((#[trigger] out@[i])@) && (
                forall|x: int| 0 <= x < out@[i]@.len() ==> hand@.contains(#[trigger] out@[i]@[x])),
                forall|lo0: int, len0: int|
                    2 <= len0 < length && #[trigger] pair_window(hand@, lo0, len0) ==> exists|
                        i: int,
                    |
                        0 <= i < out@.len() && (#[trigger] out@[i])@.len() == 2 * len0
                            && crate::patterns::shapes::low_rank_v(out@[i]@) == lo0,
                forall|lo0: int|
                    #[trigger] pair_window(hand@, lo0, length as int) && (exists|x: int|
                        0 <= x < start && valid@[x] as int == lo0) ==> exists|i: int|
                        0 <= i < out@.len() && (#[trigger] out@[i])@.len() == 2 * length
                            && crate::patterns::shapes::low_rank_v(out@[i]@) == lo0,
                forall|i: int| 0 <= i < out@.len() ==> (#[trigger] out@[i])@.len() <= 2 * length,
                forall|i: int|
                    0 <= i < out@.len() ==> pair_window(
                        hand@,
                        crate::patterns::shapes::low_rank_v((#[trigger] out@[i])@),
                        out@[i]@.len() as int / 2,
                    ),
                forall|i: int|
                    0 <= i < out@.len() && (#[trigger] out@[i])@.len() == 2 * length ==> exists|
                        x: int,
                    |
                        0 <= x < start && crate::patterns::shapes::low_rank_v(out@[i]@)
                            == valid@[x] as int,
                forall|i: int, j: int|
                    0 <= i < j < out@.len() ==> (#[trigger] out@[i])@.len() < (#[trigger] out@[j])@.len()
                        || (out@[i]@.len() == out@[j]@.len() && crate::patterns::shapes::low_rank_v(
                        out@[i]@,
                    ) < crate::patterns::shapes::low_rank_v(out@[j]@)),
                forall|i: int, rk: Rank|
                    0 <= i < out@.len() && #[trigger] rank_count(out@[i]@, rk) > 0 && pickable(
                        hand@,
                        rk,
                        2,
                    ) ==> unprotected_count_in(hand@, out@[i]@, rk) == (if unprotected_count_in(
                        hand@,
                        hand@,
                        rk,
                    ) <= 2 {
                        unprotected_count_in(hand@, hand@, rk)
                    } else {
                        2int
                    }) && (forall|su: Suit|
                        protected_suit(hand@, rk, su) ==> #[trigger] suit_rank_count(out@[i]@, su, rk)
                            <= 1),
            decreases nv + 1 - start,
        {
            let mut consecutive = true;
            let mut t: usize = 1;
            while t < length
                invariant
                    1 <= t <= length,
                    0 <= start,
                    start + length <= nv,
                    nv == valid@.len(),
                    forall|x: int| 0 <= x < valid@.len() ==> 3 <= #[trigger] valid@[x] <= 14,
                    consecutive ==> forall|x: int|
                        1 <= x < t ==> #[trigger] valid@[start + x] == valid@[start + x - 1] + 1,
                    !consecutive ==> exists|x: int|
                        1 <= x < t && #[trigger] valid@[start + x] != valid@[start + x - 1] + 1,
                decreases length - t,
            {
                let ghost prev_c = consecutive;
                if valid[start + t] != valid[start + t - 1] + 1 {
                    consecutive = false;
                    proof {
                        assert(valid@[start + t as int] != valid@[start + t as int - 1] + 1);
                    }
                } else {
                    proof {
                        if prev_c {
                            assert forall|x: int|
                                1 <= x < t + 1 implies #[trigger] valid@[start + x] == valid@[start
                                + x - 1] + 1 by {}
                        }
                    }
                }
                t = t + 1;
            }
            if consecutive {
                let lo = valid[start];
                proof {
                    assert forall|x: int| 0 <= x < length implies #[trigger] valid@[start + x]
                        == lo + x by {
                        lemma_chain_offset(valid@, start as int, length as int, x);
                    }
                }
                let mut group: Vec<Card> = Vec::new();
                let mut ok = true;
                proof {
                    assert(group@.to_multiset() =~= vstd::multiset::Multiset::<Card>::empty());
                    assert(group@.to_multiset().len() == 0);
                }
                let mut t: usize = 0;
                while t < length
                    invariant
                        0 <= t <= length,
                        start + length <= nv,
                        nv == valid@.len(),
                        3 <= lo <= 14,
                        lo == valid@[start as int],
                        forall|x: int|
                            0 <= x < valid@.len() ==> 3 <= #[trigger] valid@[x] <= 14
                                && rank_count_v(hand@, valid@[x] as int) >= 2,
                        forall|x: int|
                            0 <= x < length ==> #[trigger] valid@[start + x] == lo + x,
                        ok,
                        ok ==> group@.len() == 2 * t,
                        ok ==> forall|x: int|
                            0 <= x < group@.len() ==> hand@.contains(#[trigger] group@[x]),
                        ok ==> forall|w: int|
                            lo as int <= w < lo as int + t as int ==> #[trigger] rank_count_v(
                                group@,
                                w,
                            ) == 2,
                        ok ==> forall|w: int|
                            !(lo as int <= w < lo as int + t as int) ==> #[trigger] rank_count_v(
                                group@,
                                w,
                            ) == 0,
                        ok ==> forall|rk: Rank|
                            #[trigger] rank_count(group@, rk) > 0 && pickable(hand@, rk, 2)
                                ==> unprotected_count_in(hand@, group@, rk) == (
                            if unprotected_count_in(hand@, hand@, rk) <= 2 {
                                unprotected_count_in(hand@, hand@, rk)
                            } else {
                                2int
                            }) && (forall|su: Suit|
                                protected_suit(hand@, rk, su) ==> #[trigger] suit_rank_count(
                                    group@,
                                    su,
                                    rk,
                                ) <= 1),
                    decreases length - t,
                {
                    proof {
                        assert(valid@[start + t as int] == lo + t);
                    }
                    let wv = valid[start + t];
                    let rank = rank_from_value(wv);
                    proof {
                        crate::models::card::lemma_rank_value_roundtrip(rank);
                    }
                    match select_k_for_rank(hand, rank, 2, true) {
                        Some(mut g2) => {
                            let ghost prev_g = group@;
                            let ghost tk = g2@;
                            group.append(&mut g2);
                            proof {
                                if ok {
                                    assert(group@ == prev_g + tk);
                                    crate::ai_helpers::extract::lemma_counts_concat(
                                        group@,
                                        prev_g,
                                        tk,
                                    );
                                    assert forall|w: int|
                                        lo as int <= w < lo as int + (t + 1) implies #[trigger] rank_count_v(
                                        group@,
                                        w,
                                    ) == 2 by {
                                        crate::models::card::lemma_rank_value_roundtrip(
                                            rank_of_value(w),
                                        );
                                        crate::models::card::lemma_rank_value_roundtrip(rank);
                                        if w == wv as int {
                                            assert(rank_of_value(w) == rank);
                                            assert(rank_count_v(prev_g, w) == 0);
                                            assert(rank_count(prev_g, rank_of_value(w)) == 0);
                                        } else {
                                            assert(rank_of_value(w) != rank);
                                            assert(rank_count(tk, rank_of_value(w)) == 0);
                                            assert(rank_count_v(prev_g, w) == 2);
                                        }
                                        assert(rank_count(group@, rank_of_value(w)) == rank_count(
                                            prev_g,
                                            rank_of_value(w),
                                        ) + rank_count(tk, rank_of_value(w)));
                                    }
                                    assert forall|w: int|
                                        !(lo as int <= w < lo as int + (t
                                            + 1)) implies #[trigger] rank_count_v(group@, w)
                                        == 0 by {
                                        if 3 <= w <= 15 {
                                            crate::models::card::lemma_rank_value_roundtrip(
                                                rank_of_value(w),
                                            );
                                            crate::models::card::lemma_rank_value_roundtrip(rank);
                                            assert(rank_of_value(w) != rank);
                                            assert(rank_count(tk, rank_of_value(w)) == 0);
                                            assert(rank_count_v(prev_g, w) == 0);
                                        }
                                    }
                                    assert forall|x: int|
                                        0 <= x < group@.len() implies hand@.contains(
                                        #[trigger] group@[x],
                                    ) by {
                                        if x < prev_g.len() {
                                            assert(group@[x] == prev_g[x]);
                                        } else {
                                            assert(group@[x] == tk[x - prev_g.len()]);
                                        }
                                    }
                                    assert forall|rk: Rank|
                                        #[trigger] rank_count(group@, rk) > 0 && pickable(
                                            hand@,
                                            rk,
                                            2,
                                        ) implies unprotected_count_in(hand@, group@, rk) == (
                                    if unprotected_count_in(hand@, hand@, rk) <= 2 {
                                        unprotected_count_in(hand@, hand@, rk)
                                    } else {
                                        2int
                                    }) && (forall|su: Suit|
                                        protected_suit(hand@, rk, su)
                                            ==> #[trigger] suit_rank_count(group@, su, rk)
                                            <= 1) by {
                                        crate::models::card::lemma_rank_value_roundtrip(rk);
                                        if rk == rank {
                                            assert(rank_count_v(prev_g, wv as int) == 0);
                                            assert(rank_count(prev_g, rk) == 0);
                                            assert forall|su: Suit|
                                                #[trigger] suit_rank_count(group@, su, rk)
                                                    == suit_rank_count(tk, su, rk) by {
                                                assert(suit_rank_count(prev_g, su, rk) == 0);
                                            }
                                            assert(unprotected_count_in(hand@, group@, rk)
                                                == unprotected_count_in(hand@, tk, rk));
                                        } else {
                                            assert(rank_count(tk, rk) == 0);
                                            assert forall|su: Suit|
                                                #[trigger] suit_rank_count(group@, su, rk)
                                                    == suit_rank_count(prev_g, su, rk) by {
                                                assert(suit_rank_count(tk, su, rk) == 0);
                                            }
                                            assert(unprotected_count_in(hand@, group@, rk)
                                                == unprotected_count_in(hand@, prev_g, rk));
                                            assert(rank_count(prev_g, rk) > 0);
                                        }
                                    }
                                }
                            }
                        },
                        None => {
                            proof {
                                assert(wv == valid@[start + t as int]);
                                assert(3 <= wv <= 14);
                                assert(rank_count_v(hand@, wv as int) >= 2);
                                assert(rank_count(hand@, rank) >= 2);
                                assert(false);
                            }
                            ok = false;
                        },
                    }
                    t = t + 1;
                }
                if ok && group.len() == 2 * length {
                    proof {
                        crate::patterns::shapes::lemma_min_present_from(group@, 3);
                        assert(rank_count_v(group@, lo as int) == 2);
                        if crate::patterns::shapes::low_rank_v(group@) < lo as int {
                            assert(rank_count_v(
                                group@,
                                crate::patterns::shapes::low_rank_v(group@),
                            ) > 0);
                            assert(false);
                        }
                        assert(crate::patterns::shapes::low_rank_v(group@) == lo as int);
                        assert(valid@[start + (length - 1)] == lo + (length - 1));
                        assert(lo as int + length as int - 1 <= 14);
                        assert(group@.len() == 2 * length);
                        assert(group@.len() % 2 == 0) by (nonlinear_arith)
                            requires
                                group@.len() == 2 * (length as int),
                        ;
                        assert(group@.len() as int / 2 == length);
                        assert(crate::patterns::shapes::exact_run(
                            group@,
                            lo as int,
                            length as int,
                            2,
                        ));
                        assert(is_consecutive_pairs(group@));
                    }
                    let ghost prev_out = out@;
                    let ghost gseq = group@;
                    out.push(group);
                    proof {
                        assert forall|i: int|
                            0 <= i < out@.len() implies is_consecutive_pairs(
                            (#[trigger] out@[i])@,
                        ) && (forall|x: int|
                            0 <= x < out@[i]@.len() ==> hand@.contains(
                                #[trigger] out@[i]@[x],
                            )) by {
                            if i < prev_out.len() {
                                assert(out@[i] == prev_out[i]);
                            }
                        }
                        assert(out@[out@.len() - 1]@ == gseq);
                        assert forall|lo0: int, len0: int|
                            2 <= len0 < length && #[trigger] pair_window(
                            hand@,
                            lo0,
                            len0,
                        ) implies exists|i: int|
                            0 <= i < out@.len() && (#[trigger] out@[i])@.len() == 2 * len0
                                && crate::patterns::shapes::low_rank_v(out@[i]@) == lo0 by {
                            let i = choose|i: int|
                                0 <= i < prev_out.len() && prev_out[i]@.len() == 2 * len0
                                    && crate::patterns::shapes::low_rank_v(prev_out[i]@) == lo0;
                            assert(out@[i] == prev_out[i]);
                        }
                        assert forall|lo0: int|
                            #[trigger] pair_window(hand@, lo0, length as int) && (exists|x: int|
                                0 <= x < start + 1 && valid@[x] as int == lo0) implies exists|
                            i: int,
                        |
                            0 <= i < out@.len() && (#[trigger] out@[i])@.len() == 2 * length
                                && crate::patterns::shapes::low_rank_v(out@[i]@) == lo0 by {
                            let x = choose|x: int|
                                0 <= x < start + 1 && valid@[x] as int == lo0;
                            if x == start {
                                assert(lo0 == lo as int);
                                assert(out@[out@.len() - 1]@.len() == 2 * length);
                                assert(crate::patterns::shapes::low_rank_v(
                                    out@[out@.len() - 1]@,
                                ) == lo0);
                            } else {
                                assert(exists|x2: int|
                                    0 <= x2 < start && valid@[x2] as int == lo0);
                                let i = choose|i: int|
                                    0 <= i < prev_out.len() && prev_out[i]@.len() == 2 * length
                                        && crate::patterns::shapes::low_rank_v(prev_out[i]@)
                                        == lo0;
                                assert(out@[i] == prev_out[i]);
                            }
                        }
                        assert(gseq.len() == 2 * length);
                        assert(crate::patterns::shapes::low_rank_v(gseq) == lo as int);
                        assert(pair_window(hand@, lo as int, length as int)) by {
                            assert(valid@[start + (length - 1)] == lo + (length - 1));
                            assert forall|w: int|
                                lo as int <= w < lo as int + length implies #[trigger] rank_count_v(
                                hand@,
                                w,
                            ) >= 2 by {
                                let x = w - lo as int;
                                assert(valid@[start + x] == lo + x);
                            }
                        }
                        assert(gseq.len() as int / 2 == length as int);
                        assert forall|i: int|
                            0 <= i < out@.len() implies pair_window(
                            hand@,
                            crate::patterns::shapes::low_rank_v((#[trigger] out@[i])@),
                            out@[i]@.len() as int / 2,
                        ) by {
                            if i < prev_out.len() {
                                assert(out@[i] == prev_out[i]);
                            } else {
                                assert(out@[i]@ == gseq);
                            }
                        }
                        assert forall|i: int, j: int|
                            0 <= i < j < out@.len() implies (#[trigger] out@[i])@.len() < (
                        #[trigger] out@[j])@.len() || (out@[i]@.len() == out@[j]@.len()
                            && crate::patterns::shapes::low_rank_v(out@[i]@)
                            < crate::patterns::shapes::low_rank_v(out@[j]@)) by {
                            assert(out@[i] == prev_out[i]);
                            if j < prev_out.len() {
                                assert(out@[j] == prev_out[j]);
                            } else {
                                assert(out@[j]@ == gseq);
                                if prev_out[i]@.len() == 2 * length {
                                    let x = choose|x: int|
                                        0 <= x < start && crate::patterns::shapes::low_rank_v(
                                            prev_out[i]@,
                                        ) == valid@[x] as int;
                                    assert(valid@[x] < valid@[start as int]);
                                }
                            }
                        }
                        assert forall|i: int|
                            0 <= i < out@.len() && (#[trigger] out@[i])@.len() == 2
                            * length implies exists|x: int|
                            0 <= x < start + 1 && crate::patterns::shapes::low_rank_v(out@[i]@)
                                == valid@[x] as int by {
                            if i < prev_out.len() {
                                assert(out@[i] == prev_out[i]);
                                let x = choose|x: int|
                                    0 <= x < start && crate::patterns::shapes::low_rank_v(
                                        prev_out[i]@,
                                    ) == valid@[x] as int;
                                assert(0 <= x < start + 1 && crate::patterns::shapes::low_rank_v(
                                    out@[i]@,
                                ) == valid@[x] as int);
                            } else {
                                assert(out@[i]@ == gseq);
                                assert(crate::patterns::shapes::low_rank_v(out@[i]@)
                                    == valid@[start as int] as int);
                            }
                        }
                        assert forall|i: int, rk: Rank|
                            0 <= i < out@.len() && #[trigger] rank_count(out@[i]@, rk) > 0
                                && pickable(hand@, rk, 2) implies unprotected_count_in(
                            hand@,
                            out@[i]@,
                            rk,
                        ) == (if unprotected_count_in(hand@, hand@, rk) <= 2 {
                            unprotected_count_in(hand@, hand@, rk)
                        } else {
                            2int
                        }) && (forall|su: Suit|
                            protected_suit(hand@, rk, su) ==> #[trigger] suit_rank_count(
                                out@[i]@,
                                su,
                                rk,
                            ) <= 1) by {
                            if i < prev_out.len() {
                                assert(out@[i] == prev_out[i]);
                            } else {
                                assert(out@[i]@ == gseq);
                            }
                        }
                    }
                } else {
                    proof {
                        assert(false);
                    }
                }
            } else {
                proof {
                    assert forall|lo0: int|
                        #[trigger] pair_window(hand@, lo0, length as int) && (exists|x: int|
                            0 <= x < start + 1 && valid@[x] as int == lo0) implies exists|i: int|
                        0 <= i < out@.len() && (#[trigger] out@[i])@.len() == 2 * length
                            && crate::patterns::shapes::low_rank_v(out@[i]@) == lo0 by {
                        let x = choose|x: int| 0 <= x < start + 1 && valid@[x] as int == lo0;
                        if x == start {
                            assert forall|w: int|
                                lo0 <= w < lo0 + length implies #[trigger] value_present(
                                valid@,
                                w,
                            ) by {
                                assert(3 <= w <= 14);
                                assert(rank_count_v(hand@, w) >= 2);
                                assert(exists|x2: int|
                                    0 <= x2 < valid@.len() && valid@[x2] as int == w);
                                let y0 = choose|x2: int|
                                    0 <= x2 < valid@.len() && valid@[x2] as int == w;
                                assert(0 <= y0 < valid@.len() && valid@[y0] as int == w);
                            }
                            let xx = choose|xx: int|
                                1 <= xx < length && #[trigger] valid@[start + xx] != valid@[start
                                + xx - 1] + 1;
                            lemma_window_indices(valid@, x, lo0, length as int, xx);
                            lemma_window_indices(valid@, x, lo0, length as int, xx - 1);
                            assert(valid@[x + xx] as int == lo0 + xx);
                            assert(valid@[x + xx - 1] as int == lo0 + xx - 1);
                            assert(false);
                        } else {
                            assert(exists|x2: int| 0 <= x2 < start && valid@[x2] as int == lo0);
                        }
                    }
                }
            }
            start = start + 1;
        }
        proof {
            assert forall|lo0: int, len0: int|
                2 <= len0 < length + 1 && #[trigger] pair_window(hand@, lo0, len0) implies exists|
                i: int,
            |
                0 <= i < out@.len() && (#[trigger] out@[i])@.len() == 2 * len0
                    && crate::patterns::shapes::low_rank_v(out@[i]@) == lo0 by {
                if len0 == length as int {
                    assert(rank_count_v(hand@, lo0) >= 2);
                    assert(3 <= lo0 <= 14);
                    assert(exists|x2: int| 0 <= x2 < valid@.len() && valid@[x2] as int == lo0);
                    let x = choose|x: int| 0 <= x < valid@.len() && valid@[x] as int == lo0;
                    assert forall|w: int|
                        lo0 <= w < lo0 + len0 implies #[trigger] value_present(valid@, w) by {
                        assert(3 <= w <= 14);
                        assert(rank_count_v(hand@, w) >= 2);
                        assert(exists|x2: int| 0 <= x2 < valid@.len() && valid@[x2] as int == w);
                        let y0 = choose|x2: int|
                            0 <= x2 < valid@.len() && valid@[x2] as int == w;
                        assert(0 <= y0 < valid@.len() && valid@[y0] as int == w);
                    }
                    lemma_window_indices(valid@, x, lo0, len0, len0 - 1);
                    assert(x + len0 - 1 < nv);
                    assert(exists|x2: int| 0 <= x2 < start && valid@[x2] as int == lo0);
                }
            }
        }
        length = length + 1;
    }
    proof {
        assert forall|lo: int, len: int| #[trigger] pair_window(hand@, lo, len) implies exists|
            i: int,
        |
            0 <= i < out@.len() && (#[trigger] out@[i])@.len() == 2 * len
                && crate::patterns::shapes::low_rank_v(out@[i]@) == lo by {
            assert(rank_count_v(hand@, lo) >= 2);
            assert(3 <= lo <= 14);
            assert(exists|x2: int| 0 <= x2 < valid@.len() && valid@[x2] as int == lo);
            let x = choose|x: int| 0 <= x < valid@.len() && valid@[x] as int == lo;
            assert forall|w: int|
                lo <= w < lo + len implies #[trigger] value_present(valid@, w) by {
                assert(3 <= w <= 14);
                assert(rank_count_v(hand@, w) >= 2);
                assert(exists|x2: int| 0 <= x2 < valid@.len() && valid@[x2] as int == w);
                let y0 = choose|x2: int| 0 <= x2 < valid@.len() && valid@[x2] as int == w;
                assert(0 <= y0 < valid@.len() && valid@[y0] as int == w);
            }
            lemma_window_indices(valid@, x, lo, len, len - 1);
            assert(x + len - 1 < nv);
            assert(2 <= len < length);
        }
    }
    out
}

} // verus!
