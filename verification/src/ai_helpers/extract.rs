//! Verified extraction helpers: taking cards of a rank (or of a suit and
//! rank) out of a working hand while accounting for every card.

use vstd::multiset::Multiset;
use vstd::prelude::*;

use crate::models::card::Card;
use crate::models::card::Rank;
use crate::models::card::Suit;
use crate::models::counting::lemma_counts_insert;
use crate::models::counting::rank_count;
use crate::models::counting::suit_rank_count;

verus! {

broadcast use {
    vstd::seq_lib::group_to_multiset_ensures,
    vstd::multiset::group_multiset_axioms,
    vstd::multiset::group_multiset_properties,
};

/// The multiset of all cards held by a list of card groups.
pub open spec fn groups_ms(gs: Seq<Vec<Card>>) -> Multiset<Card>
    decreases gs.len(),
{
    if gs.len() == 0 {
        Multiset::empty()
    } else {
        gs[0]@.to_multiset().add(groups_ms(gs.drop_first()))
    }
}

/// How often a rank occurs in a card multiset, over its four suits.
pub open spec fn ms_rank_count(m: Multiset<Card>, rk: Rank) -> int {
    m.count(Card { rank: rk, suit: Suit::Diamonds }) as int + m.count(
        Card { rank: rk, suit: Suit::Clubs },
    ) as int + m.count(Card { rank: rk, suit: Suit::Hearts }) as int + m.count(
        Card { rank: rk, suit: Suit::Spades },
    ) as int
}

/// The cards of a rank held by a list of card groups, all groups together.
pub open spec fn groups_rank_count(gs: Seq<Vec<Card>>, rk: Rank) -> int
    decreases gs.len(),
{
    if gs.len() == 0 {
        0
    } else {
        rank_count(gs[0]@, rk) + groups_rank_count(gs.drop_first(), rk)
    }
}

/// The multiset union of a group list holds a rank exactly as often as the
/// groups do together.
pub proof fn lemma_groups_ms_rank_count(gs: Seq<Vec<Card>>, rk: Rank)
    ensures
        ms_rank_count(groups_ms(gs), rk) == groups_rank_count(gs, rk),
    decreases gs.len(),
{
    if gs.len() > 0 {
        lemma_groups_ms_rank_count(gs.drop_first(), rk);
    }
}

/// Splitting a hand into a leftover and a group list splits each rank's
/// count.
pub proof fn lemma_partition_rank_count(a: Seq<Card>, b: Seq<Card>, gs: Seq<Vec<Card>>, rk: Rank)
    requires
        b.to_multiset().add(groups_ms(gs)) == a.to_multiset(),
    ensures
        rank_count(b, rk) + groups_rank_count(gs, rk) == rank_count(a, rk),
{
    lemma_groups_ms_rank_count(gs, rk);
}

/// Appending a group adds exactly its cards.
pub proof fn lemma_groups_ms_push(gs: Seq<Vec<Card>>, g: Vec<Card>)
    ensures
        groups_ms(gs.push(g)) == groups_ms(gs).add(g@.to_multiset()),
    decreases gs.len(),
{
    if gs.len() == 0 {
        assert(gs.push(g).drop_first() =~= Seq::<Vec<Card>>::empty());
        assert(gs.push(g)[0] == g);
        assert(groups_ms(gs.push(g)) == g@.to_multiset().add(groups_ms(
            Seq::<Vec<Card>>::empty(),
        )));
        assert(groups_ms(Seq::<Vec<Card>>::empty()) == Multiset::<Card>::empty());
        assert(groups_ms(gs) == Multiset::<Card>::empty());
        assert(g@.to_multiset().add(Multiset::<Card>::empty()) =~= Multiset::<
            Card,
        >::empty().add(g@.to_multiset()));
    } else {
        assert(gs.push(g).drop_first() =~= gs.drop_first().push(g));
        lemma_groups_ms_push(gs.drop_first(), g);
        assert(groups_ms(gs.push(g)) =~= groups_ms(gs).add(g@.to_multiset()));
    }
}

/// A rank with a positive count appears at some position.
pub proof fn lemma_rank_count_pos(s: Seq<Card>, rank: Rank)
    requires
        rank_count(s, rank) > 0,
    ensures
        exists|i: int| 0 <= i < s.len() && s[i].rank == rank,
{
    if suit_rank_count(s, Suit::Diamonds, rank) > 0 {
        assert(s.contains(Card { rank, suit: Suit::Diamonds }));
    } else if suit_rank_count(s, Suit::Clubs, rank) > 0 {
        assert(s.contains(Card { rank, suit: Suit::Clubs }));
    } else if suit_rank_count(s, Suit::Hearts, rank) > 0 {
        assert(s.contains(Card { rank, suit: Suit::Hearts }));
    } else {
        assert(s.contains(Card { rank, suit: Suit::Spades }));
    }
}

/// Finds the first card of the given rank.
fn find_first_rank(remaining: &Vec<Card>, rank: Rank) -> (r: Option<usize>)
    ensures
        r matches Some(i) ==> i < remaining@.len() && remaining@[i as int].rank == rank,
        r is None ==> forall|j: int| 0 <= j < remaining@.len() ==> remaining@[j].rank != rank,
{
    let n = remaining.len();
    let mut i: usize = 0;
    while i < n
        invariant
            0 <= i <= n,
            n == remaining@.len(),
            forall|j: int| 0 <= j < i ==> remaining@[j].rank != rank,
        decreases n - i,
    {
        if remaining[i].rank == rank {
            return Some(i);
        }
        i = i + 1;
    }
    None
}

/// Finds the first card of the given suit and rank.
fn find_first_suit_rank(remaining: &Vec<Card>, suit: Suit, rank: Rank) -> (r: Option<usize>)
    ensures
        r matches Some(i) ==> i < remaining@.len() && remaining@[i as int] == (Card { rank, suit }),
        r is None ==> forall|j: int| 0 <= j < remaining@.len() ==> remaining@[j] != (Card {
            rank,
            suit,
        }),
{
    let n = remaining.len();
    let mut i: usize = 0;
    while i < n
        invariant
            0 <= i <= n,
            n == remaining@.len(),
            forall|j: int| 0 <= j < i ==> remaining@[j] != (Card { rank, suit }),
        decreases n - i,
    {
        if remaining[i].suit == suit && remaining[i].rank == rank {
            return Some(i);
        }
        i = i + 1;
    }
    None
}

/// Removes the first `k` cards of the given rank from the hand, in hand
/// order, and returns them. Every card is accounted for, and the counts of
/// all other ranks are untouched.
pub fn take_rank(remaining: &mut Vec<Card>, rank: Rank, k: usize) -> (taken: Vec<Card>)
    requires
        k <= rank_count(old(remaining)@, rank),
    ensures
        taken@.len() == k,
        forall|i: int| 0 <= i < k ==> #[trigger] taken@[i].rank == rank,
        final(remaining)@.to_multiset().add(taken@.to_multiset()) == old(remaining)@.to_multiset(),
        final(remaining)@.len() + k == old(remaining)@.len(),
        rank_count(final(remaining)@, rank) + k == rank_count(old(remaining)@, rank),
        forall|r: Rank|
            r != rank ==> #[trigger] rank_count(final(remaining)@, r) == rank_count(
                old(remaining)@,
                r,
            ),
        forall|su: Suit, r: Rank|
            r != rank ==> #[trigger] suit_rank_count(final(remaining)@, su, r) == suit_rank_count(
                old(remaining)@,
                su,
                r,
            ),
        rank_count(taken@, rank) == k,
        forall|r: Rank| r != rank ==> #[trigger] rank_count(taken@, r) == 0,
{
    let ghost orig = remaining@;
    let mut taken: Vec<Card> = Vec::new();
    proof {
        assert(taken@.to_multiset() =~= Multiset::<Card>::empty());
        assert(remaining@.to_multiset().add(taken@.to_multiset()) =~= orig.to_multiset());
        assert(taken@.to_multiset().len() == 0);
        assert(forall|r: Rank| #[trigger] rank_count(taken@, r) == 0);
    }
    let mut j: usize = 0;
    while j < k
        invariant
            0 <= j <= k,
            taken@.len() == j,
            forall|x: int| 0 <= x < j ==> #[trigger] taken@[x].rank == rank,
            remaining@.to_multiset().add(taken@.to_multiset()) == orig.to_multiset(),
            remaining@.len() + j == orig.len(),
            rank_count(remaining@, rank) + j == rank_count(orig, rank),
            k <= rank_count(orig, rank),
            forall|r: Rank|
                r != rank ==> #[trigger] rank_count(remaining@, r) == rank_count(orig, r),
            forall|su: Suit, r: Rank|
                r != rank ==> #[trigger] suit_rank_count(remaining@, su, r) == suit_rank_count(
                    orig,
                    su,
                    r,
                ),
            rank_count(taken@, rank) == j,
            forall|r: Rank| r != rank ==> #[trigger] rank_count(taken@, r) == 0,
        decreases k - j,
    {
        proof {
            lemma_rank_count_pos(remaining@, rank);
        }
        let idx = match find_first_rank(remaining, rank) {
            Some(i) => i,
            None => {
                proof {
                    assert(false);
                }
                0
            },
        };
        let ghost prev = remaining@;
        let c = remaining[idx];
        let _removed = remaining.remove(idx);
        let ghost prev_taken = taken@;
        taken.push(c);
        proof {
            assert(remaining@.to_multiset() == prev.to_multiset().remove(c));
            assert(taken@.to_multiset() =~= prev_taken.to_multiset().insert(c));
            assert(prev.to_multiset().count(c) > 0) by {
                assert(prev.contains(c));
            }
            assert(prev.to_multiset() =~= remaining@.to_multiset().insert(c));
            lemma_counts_insert(remaining@, prev, c);
            lemma_counts_insert(prev_taken, taken@, c);
            assert forall|r: Rank| r != rank implies #[trigger] rank_count(remaining@, r)
                == rank_count(orig, r) by {
                assert(rank_count(prev, r) == rank_count(remaining@, r));
            }
            assert forall|su: Suit, r: Rank|
                r != rank implies #[trigger] suit_rank_count(remaining@, su, r) == suit_rank_count(
                orig,
                su,
                r,
            ) by {
                assert(suit_rank_count(prev, su, r) == suit_rank_count(remaining@, su, r));
            }
            assert(remaining@.to_multiset().add(taken@.to_multiset()) =~= orig.to_multiset());
        }
        j = j + 1;
    }
    taken
}

/// Removes the first `k` cards of the given suit and rank from the hand and
/// returns them. Every card is accounted for, and every other (suit, rank)
/// cell keeps its count.
pub fn take_suit_rank(remaining: &mut Vec<Card>, suit: Suit, rank: Rank, k: usize) -> (taken: Vec<
    Card,
>)
    requires
        k <= suit_rank_count(old(remaining)@, suit, rank),
    ensures
        taken@.len() == k,
        forall|i: int| 0 <= i < k ==> #[trigger] taken@[i] == (Card { rank, suit }),
        final(remaining)@.to_multiset().add(taken@.to_multiset()) == old(remaining)@.to_multiset(),
        final(remaining)@.len() + k == old(remaining)@.len(),
        suit_rank_count(final(remaining)@, suit, rank) + k == suit_rank_count(
            old(remaining)@,
            suit,
            rank,
        ),
        forall|su: Suit, r: Rank|
            !(su == suit && r == rank) ==> #[trigger] suit_rank_count(final(remaining)@, su, r)
                == suit_rank_count(old(remaining)@, su, r),
        rank_count(final(remaining)@, rank) + k == rank_count(old(remaining)@, rank),
        forall|r: Rank|
            r != rank ==> #[trigger] rank_count(final(remaining)@, r) == rank_count(
                old(remaining)@,
                r,
            ),
        suit_rank_count(taken@, suit, rank) == k,
        forall|su: Suit, r: Rank|
            !(su == suit && r == rank) ==> #[trigger] suit_rank_count(taken@, su, r) == 0,
        rank_count(taken@, rank) == k,
        forall|r: Rank| r != rank ==> #[trigger] rank_count(taken@, r) == 0,
{
    let ghost orig = remaining@;
    let mut taken: Vec<Card> = Vec::new();
    proof {
        assert(taken@.to_multiset() =~= Multiset::<Card>::empty());
        assert(remaining@.to_multiset().add(taken@.to_multiset()) =~= orig.to_multiset());
        assert(taken@.to_multiset().len() == 0);
    }
    let mut j: usize = 0;
    while j < k
        invariant
            0 <= j <= k,
            taken@.len() == j,
            forall|x: int| 0 <= x < j ==> #[trigger] taken@[x] == (Card { rank, suit }),
            remaining@.to_multiset().add(taken@.to_multiset()) == orig.to_multiset(),
            remaining@.len() + j == orig.len(),
            suit_rank_count(remaining@, suit, rank) + j == suit_rank_count(orig, suit, rank),
            k <= suit_rank_count(orig, suit, rank),
            forall|su: Suit, r: Rank|
                !(su == suit && r == rank) ==> #[trigger] suit_rank_count(remaining@, su, r)
                    == suit_rank_count(orig, su, r),
            rank_count(remaining@, rank) + j == rank_count(orig, rank),
            forall|r: Rank|
                r != rank ==> #[trigger] rank_count(remaining@, r) == rank_count(orig, r),
            suit_rank_count(taken@, suit, rank) == j,
            forall|su: Suit, r: Rank|
                !(su == suit && r == rank) ==> #[trigger] suit_rank_count(taken@, su, r) == 0,
            rank_count(taken@, rank) == j,
            forall|r: Rank| r != rank ==> #[trigger] rank_count(taken@, r) == 0,
        decreases k - j,
    {
        proof {
            assert(remaining@.to_multiset().count(Card { rank, suit }) > 0);
            assert(remaining@.contains(Card { rank, suit }));
        }
        let idx = match find_first_suit_rank(remaining, suit, rank) {
            Some(i) => i,
            None => {
                proof {
                    assert(false);
                }
                0
            },
        };
        let ghost prev = remaining@;
        let c = remaining[idx];
        let _removed = remaining.remove(idx);
        let ghost prev_taken = taken@;
        taken.push(c);
        proof {
            assert(remaining@.to_multiset() == prev.to_multiset().remove(c));
            assert(taken@.to_multiset() =~= prev_taken.to_multiset().insert(c));
            assert(prev.to_multiset().count(c) > 0) by {
                assert(prev.contains(c));
            }
            assert(prev.to_multiset() =~= remaining@.to_multiset().insert(c));
            lemma_counts_insert(remaining@, prev, c);
            lemma_counts_insert(prev_taken, taken@, c);
            assert forall|su: Suit, r: Rank|
                !(su == suit && r == rank) implies #[trigger] suit_rank_count(taken@, su, r)
                == 0 by {
                assert(suit_rank_count(taken@, su, r) == suit_rank_count(prev_taken, su, r));
            }
            assert forall|r: Rank| r != rank implies #[trigger] rank_count(taken@, r) == 0 by {
                assert(rank_count(taken@, r) == rank_count(prev_taken, r));
            }
            assert forall|su: Suit, r: Rank|
                !(su == suit && r == rank) implies #[trigger] suit_rank_count(remaining@, su, r)
                == suit_rank_count(orig, su, r) by {
                assert(suit_rank_count(prev, su, r) == suit_rank_count(remaining@, su, r));
            }
            assert forall|r: Rank| r != rank implies #[trigger] rank_count(remaining@, r)
                == rank_count(orig, r) by {
                assert(rank_count(prev, r) == rank_count(remaining@, r));
            }
            assert(remaining@.to_multiset().add(taken@.to_multiset()) =~= orig.to_multiset());
        }
        j = j + 1;
    }
    taken
}

/// Counts of a concatenation add up.
pub proof fn lemma_counts_concat(c: Seq<Card>, a: Seq<Card>, b: Seq<Card>)
    requires
        c == a + b,
    ensures
        forall|r: Rank| #[trigger] rank_count(c, r) == rank_count(a, r) + rank_count(b, r),
        forall|su: Suit, r: Rank|
            #[trigger] suit_rank_count(c, su, r) == suit_rank_count(a, su, r) + suit_rank_count(
                b,
                su,
                r,
            ),
        c.to_multiset() == a.to_multiset().add(b.to_multiset()),
{
    vstd::seq_lib::lemma_multiset_commutative(a, b);
}

} // verus!
