//! Multiset-based card counting: the mathematical model that the pattern
//! specifications are stated over, and verified helpers that compute the
//! counts.

use vstd::multiset::Multiset;
use vstd::prelude::*;

use crate::models::card::Card;
use crate::models::card::Rank;
use crate::models::card::Suit;
use crate::models::card::rank_of_value;

verus! {

broadcast use {
    vstd::seq_lib::group_seq_properties,
    vstd::multiset::group_multiset_axioms,
    vstd::multiset::group_multiset_properties,
};

/// Number of cards of the given suit and rank in the hand.
///
/// Defined over the hand's multiset, so it is insensitive to order.
pub open spec fn suit_rank_count(s: Seq<Card>, suit: Suit, rank: Rank) -> nat {
    s.to_multiset().count(Card { rank, suit })
}

/// Number of cards of the given rank in the hand.
pub open spec fn rank_count(s: Seq<Card>, rank: Rank) -> nat {
    suit_rank_count(s, Suit::Diamonds, rank) + suit_rank_count(s, Suit::Clubs, rank)
        + suit_rank_count(s, Suit::Hearts, rank) + suit_rank_count(s, Suit::Spades, rank)
}

/// Rank count addressed by numeric value; zero outside the valid range 3..=15.
pub open spec fn rank_count_v(s: Seq<Card>, v: int) -> nat {
    if 3 <= v <= 15 {
        rank_count(s, rank_of_value(v))
    } else {
        0
    }
}

/// Taking one more element appends exactly that element, both as a sequence
/// and as a multiset.
pub proof fn lemma_take_one_more(s: Seq<Card>, i: int)
    requires
        0 <= i < s.len(),
    ensures
        s.take(i + 1) =~= s.take(i).push(s[i]),
        s.take(i + 1).to_multiset() == s.take(i).to_multiset().insert(s[i]),
{
    broadcast use vstd::seq_lib::group_to_multiset_ensures;

    assert(s.take(i + 1) =~= s.take(i).push(s[i]));
}

/// Inserting a card raises the counts of exactly its own rank (by one) and
/// its own (suit, rank) cell (by one).
pub proof fn lemma_counts_insert(s: Seq<Card>, t: Seq<Card>, c: Card)
    requires
        t.to_multiset() == s.to_multiset().insert(c),
    ensures
        forall|r: Rank, su: Suit|
            #[trigger] suit_rank_count(t, su, r) == suit_rank_count(s, su, r) + (
            if c.rank == r && c.suit == su {
                1int
            } else {
                0int
            }),
        forall|r: Rank|
            #[trigger] rank_count(t, r) == rank_count(s, r) + (if c.rank == r {
                1int
            } else {
                0int
            }),
{
    assert forall|r: Rank, su: Suit|
        #[trigger] suit_rank_count(t, su, r) == suit_rank_count(s, su, r) + (
        if c.rank == r && c.suit == su {
            1int
        } else {
            0int
        }) by {
        let probe = Card { rank: r, suit: su };
        if probe == c {
            assert(s.to_multiset().insert(c).count(probe) == s.to_multiset().count(probe) + 1);
        } else {
            assert(s.to_multiset().insert(c).count(probe) == s.to_multiset().count(probe));
        }
    }
}

/// A rank's count never exceeds the hand size.
pub proof fn lemma_rank_count_le_len(s: Seq<Card>, r: Rank)
    ensures
        rank_count(s, r) <= s.len(),
    decreases s.len(),
{
    broadcast use vstd::seq_lib::group_to_multiset_ensures;

    if s.len() > 0 {
        lemma_rank_count_le_len(s.drop_last(), r);
        assert(s =~= s.drop_last().push(s.last()));
        assert(s.to_multiset() =~= s.drop_last().to_multiset().insert(s.last()));
        lemma_counts_insert(s.drop_last(), s, s.last());
    }
}

/// Counts depend only on the hand's multiset.
pub proof fn lemma_counts_multiset(s: Seq<Card>, t: Seq<Card>)
    requires
        s.to_multiset() == t.to_multiset(),
    ensures
        forall|r: Rank, su: Suit|
            #[trigger] suit_rank_count(s, su, r) == suit_rank_count(t, su, r),
        forall|r: Rank| #[trigger] rank_count(s, r) == rank_count(t, r),
        forall|v: int| #[trigger] rank_count_v(s, v) == rank_count_v(t, v),
{
}

/// A hand contains a card exactly when that card's (suit, rank) count is
/// positive.
pub proof fn lemma_contains_count(s: Seq<Card>, c: Card)
    ensures
        s.contains(c) <==> suit_rank_count(s, c.suit, c.rank) > 0,
{
    broadcast use vstd::seq_lib::group_to_multiset_ensures;

    assert(Card { rank: c.rank, suit: c.suit } == c);
}

/// The per-value rank count table of a hand: entry `v` holds
/// `rank_count_v` for that value, for `v` in 0..16.
pub open spec fn is_rank_table(s: Seq<Card>, t: Seq<usize>) -> bool {
    t.len() == 16 && forall|v: int| 0 <= v < 16 ==> #[trigger] t[v] == rank_count_v(s, v)
}

/// Builds the by-rank count table of the hand.
pub fn rank_table(cards: &Vec<Card>) -> (t: Vec<usize>)
    ensures
        is_rank_table(cards@, t@),
{
    let mut t: Vec<usize> = Vec::new();
    let mut z: usize = 0;
    while z < 16
        invariant
            0 <= z <= 16,
            t@.len() == z,
            forall|v: int| 0 <= v < z ==> #[trigger] t@[v] == 0,
        decreases 16 - z,
    {
        t.push(0);
        z = z + 1;
    }
    proof {
        assert(cards@.take(0) =~= Seq::<Card>::empty());
        assert(cards@.take(0).to_multiset() =~= Multiset::<Card>::empty());
        assert forall|v: int| 0 <= v < 16 implies #[trigger] t@[v] == rank_count_v(
            cards@.take(0),
            v,
        ) by {
            assert(cards@.take(0).to_multiset().len() == 0);
        }
    }
    let n = cards.len();
    let mut i: usize = 0;
    while i < n
        invariant
            0 <= i <= n,
            n == cards@.len(),
            t@.len() == 16,
            forall|v: int| 0 <= v < 16 ==> #[trigger] t@[v] == rank_count_v(cards@.take(i as int), v),
            forall|v: int| 0 <= v < 16 ==> #[trigger] t@[v] <= i,
        decreases n - i,
    {
        let ghost prefix = cards@.take(i as int);
        let c = cards[i];
        let v = c.rank.value() as usize;
        proof {
            lemma_take_one_more(cards@, i as int);
            lemma_counts_insert(prefix, cards@.take(i + 1), c);
            crate::models::card::lemma_rank_value_roundtrip(c.rank);
        }
        let entry = t[v];
        t.set(v, entry + 1);
        proof {
            assert forall|w: int| 0 <= w < 16 implies #[trigger] t@[w] == rank_count_v(
                cards@.take(i + 1),
                w,
            ) by {
                if 3 <= w <= 15 {
                    crate::models::card::lemma_rank_value_roundtrip(rank_of_value(w));
                }
            }
        }
        i = i + 1;
    }
    proof {
        assert(cards@.take(n as int) =~= cards@);
    }
    t
}

/// Counts the cards of one (suit, rank) pair.
pub fn count_suit_rank(cards: &Vec<Card>, suit: Suit, rank: Rank) -> (n: usize)
    ensures
        n == suit_rank_count(cards@, suit, rank),
{
    let mut n: usize = 0;
    let len = cards.len();
    let mut i: usize = 0;
    while i < len
        invariant
            0 <= i <= len,
            len == cards@.len(),
            n == suit_rank_count(cards@.take(i as int), suit, rank),
            n <= i,
        decreases len - i,
    {
        let ghost prefix = cards@.take(i as int);
        let c = cards[i];
        proof {
            lemma_take_one_more(cards@, i as int);
            lemma_counts_insert(prefix, cards@.take(i + 1), c);
        }
        if c.suit == suit && c.rank == rank {
            n = n + 1;
        }
        i = i + 1;
    }
    proof {
        assert(cards@.take(len as int) =~= cards@);
    }
    n
}

/// Counts the cards of one rank.
pub fn count_rank(cards: &Vec<Card>, rank: Rank) -> (n: usize)
    ensures
        n == rank_count(cards@, rank),
{
    let mut n: usize = 0;
    let len = cards.len();
    let mut i: usize = 0;
    while i < len
        invariant
            0 <= i <= len,
            len == cards@.len(),
            n == rank_count(cards@.take(i as int), rank),
            n <= i,
        decreases len - i,
    {
        let ghost prefix = cards@.take(i as int);
        let c = cards[i];
        proof {
            lemma_take_one_more(cards@, i as int);
            lemma_counts_insert(prefix, cards@.take(i + 1), c);
        }
        if c.rank == rank {
            n = n + 1;
        }
        i = i + 1;
    }
    proof {
        assert(cards@.take(len as int) =~= cards@);
    }
    n
}

} // verus!
