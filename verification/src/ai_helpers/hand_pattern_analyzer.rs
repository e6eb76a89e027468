//! Hand decomposition into a non-overlapping inventory of pattern
//! resources.
//!
//! The decomposition extracts, in fixed priority order, Dizha, Tongzi,
//! Bombs, Airplane chains, Triples, ConsecutivePair chains, Pairs and
//! Singles; every card of the hand lands in exactly one bucket.

use vstd::multiset::Multiset;
use vstd::prelude::*;
use vstd::slice::slice_to_vec;
use vstd::string::StringExecFns;

use crate::ai_helpers::extract::groups_ms;
use crate::ai_helpers::identical_play_filter::groups_have_rank;
use crate::ai_helpers::extract::lemma_counts_concat;
use crate::ai_helpers::extract::lemma_groups_ms_push;
use crate::ai_helpers::extract::take_rank;
use crate::ai_helpers::extract::take_suit_rank;
use crate::models::card::Card;
use crate::models::card::Rank;
use crate::models::card::Suit;
use crate::models::card::lemma_rank_value_roundtrip;
use crate::models::card::rank_from_value;
use crate::models::card::rank_of_value;
use crate::models::counting::count_rank;
use crate::models::counting::count_suit_rank;
use crate::models::counting::lemma_contains_count;
use crate::models::counting::rank_count;
use crate::models::counting::rank_count_v;
use crate::models::counting::suit_rank_count;
use crate::ai_helpers::extract::groups_rank_count;
use crate::ai_helpers::extract::lemma_partition_rank_count;
use crate::patterns::shapes::exact_run;
use crate::patterns::shapes::is_airplane;
use crate::patterns::shapes::is_bomb;
use crate::patterns::shapes::is_consecutive_pairs;
use crate::patterns::shapes::is_dizha;
use crate::patterns::shapes::is_pair;
use crate::patterns::shapes::is_tongzi;
use crate::patterns::shapes::is_triple;
use crate::patterns::shapes::lemma_min_present_from;
use crate::patterns::shapes::low_rank_v;

verus! {

broadcast use {
    vstd::seq_lib::group_to_multiset_ensures,
    vstd::multiset::group_multiset_axioms,
    vstd::multiset::group_multiset_properties,
};

/// Structured, non-overlapping decomposition of a hand.
#[derive(Debug, Clone, Default)]
pub struct HandPatterns {
    /// Dizha groups: eight cards of one rank, two per suit.
    pub dizha: Vec<Vec<Card>>,
    /// Tongzi groups: three identical cards.
    pub tongzi: Vec<Vec<Card>>,
    /// Bombs: four or more cards of one rank.
    pub bombs: Vec<Vec<Card>>,
    /// Airplane chains: consecutive triples.
    pub airplane_chains: Vec<Vec<Card>>,
    /// Standalone triples.
    pub triples: Vec<Vec<Card>>,
    /// Consecutive pair chains.
    pub consecutive_pair_chains: Vec<Vec<Card>>,
    /// Pairs.
    pub pairs: Vec<Vec<Card>>,
    /// Leftover single cards, sorted by rank descending.
    pub singles: Vec<Card>,
    /// Total number of cards in the analyzed hand.
    pub total_cards: usize,
    /// Number of trump groups: dizha + tongzi + bombs.
    pub trump_count: usize,
    /// Whether the hand holds a Two, an Ace or a King.
    pub has_control_cards: bool,
}

impl HandPatterns {
    /// A one-line description of the decomposition: total cards and the
    /// size of each bucket.
    pub fn summary(&self) -> (s: String)
        ensures
            s@.len() > 0,
    {
        let mut s = String::from_str("HandPatterns(");
        proof {
            reveal_strlit("HandPatterns(");
        }
        let t = crate::text::dec_string(self.total_cards as u64);
        s.append(t.as_str());
        s.append(" cards): Trump: ");
        let tc = crate::text::dec_string(self.trump_count as u64);
        s.append(tc.as_str());
        s.append(" (Dizha:");
        let d = crate::text::dec_string(self.dizha.len() as u64);
        s.append(d.as_str());
        s.append(", Tongzi:");
        let tz = crate::text::dec_string(self.tongzi.len() as u64);
        s.append(tz.as_str());
        s.append(", Bombs:");
        let b = crate::text::dec_string(self.bombs.len() as u64);
        s.append(b.as_str());
        s.append(") Chains: Airplanes:");
        let a = crate::text::dec_string(self.airplane_chains.len() as u64);
        s.append(a.as_str());
        s.append(", ConsecPairs:");
        let cp = crate::text::dec_string(self.consecutive_pair_chains.len() as u64);
        s.append(cp.as_str());
        s.append(" Basic: Triples:");
        let tr = crate::text::dec_string(self.triples.len() as u64);
        s.append(tr.as_str());
        s.append(", Pairs:");
        let pr = crate::text::dec_string(self.pairs.len() as u64);
        s.append(pr.as_str());
        s.append(", Singles:");
        let sg = crate::text::dec_string(self.singles.len() as u64);
        s.append(sg.as_str());
        s
    }

    /// The multiset of all cards across all buckets.
    pub open spec fn cards_ms(self) -> Multiset<Card> {
        groups_ms(self.dizha@).add(groups_ms(self.tongzi@)).add(groups_ms(self.bombs@)).add(
            groups_ms(self.airplane_chains@),
        ).add(groups_ms(self.triples@)).add(groups_ms(self.consecutive_pair_chains@)).add(
            groups_ms(self.pairs@),
        ).add(self.singles@.to_multiset())
    }
}

/// Every suit holds at least two cards of the rank: the hand is ready to
/// give up a Dizha of that rank.
pub open spec fn dizha_ready(s: Seq<Card>, r: Rank) -> bool {
    &&& suit_rank_count(s, Suit::Diamonds, r) >= 2
    &&& suit_rank_count(s, Suit::Clubs, r) >= 2
    &&& suit_rank_count(s, Suit::Hearts, r) >= 2
    &&& suit_rank_count(s, Suit::Spades, r) >= 2
}

/// Some group's lead card is exactly this suit and rank.
pub open spec fn groups_have_cell(gs: Seq<Vec<Card>>, su: Suit, rk: Rank) -> bool {
    exists|i: int| 0 <= i < gs.len() && gs[i]@[0] == (Card { rank: rk, suit: su })
}

/// The (suit, rank) cell count left after the Dizha pass: a qualifying
/// rank gives up two cards of every suit.
pub open spec fn cell_after_dizha(hand: Seq<Card>, su: Suit, rk: Rank) -> int {
    suit_rank_count(hand, su, rk) - (if dizha_ready(hand, rk) {
        2int
    } else {
        0int
    })
}

/// The (suit, rank) cell count left after the Tongzi pass: a cell holding
/// three or more identical cards gives up three.
pub open spec fn cell_after_tongzi(hand: Seq<Card>, su: Suit, rk: Rank) -> int {
    cell_after_dizha(hand, su, rk) - (if cell_after_dizha(hand, su, rk) >= 3 {
        3int
    } else {
        0int
    })
}

/// The per-rank count entering the Bomb pass.
pub open spec fn rank_before_bombs(hand: Seq<Card>, rk: Rank) -> int {
    cell_after_tongzi(hand, Suit::Diamonds, rk) + cell_after_tongzi(hand, Suit::Clubs, rk)
        + cell_after_tongzi(hand, Suit::Hearts, rk) + cell_after_tongzi(hand, Suit::Spades, rk)
}

/// Counts the cards of the rank with numeric value `v`.
fn count_rank_value(remaining: &Vec<Card>, v: u8) -> (n: usize)
    requires
        3 <= v <= 15,
    ensures
        n == rank_count_v(remaining@, v as int),
{
    let rank = rank_from_value(v);
    count_rank(remaining, rank)
}

/// A run descriptor over the current hand: `len >= 2` consecutive rank
/// values from `lo`, all below Two, each counted at least `m` times.
pub open spec fn run_ok_at(s: Seq<Card>, lo: int, len: int, m: nat) -> bool {
    &&& 3 <= lo
    &&& len >= 2
    &&& lo + len - 1 <= 14
    &&& forall|v: int| lo <= v < lo + len ==> #[trigger] rank_count_v(s, v) >= m
}

/// Scans the hand for maximal runs of ranks counted at least `m` times,
/// ascending; rank Two never joins a run. Found runs are disjoint, in
/// ascending order with a gap between them.
fn scan_runs(remaining: &Vec<Card>, m: usize) -> (runs: Vec<(u8, u8)>)
    requires
        m >= 1,
    ensures
        forall|i: int|
            0 <= i < runs@.len() ==> run_ok_at(
                remaining@,
                #[trigger] runs@[i].0 as int,
                runs@[i].1 as int,
                m as nat,
            ),
        forall|i: int, j: int|
            0 <= i < j < runs@.len() ==> #[trigger] runs@[i].0 + runs@[i].1 < #[trigger] runs@[j].0,
        forall|u: int|
            3 <= u && u + 1 <= 14 && #[trigger] rank_count_v(remaining@, u) >= m && rank_count_v(
                remaining@,
                u + 1,
            ) >= m ==> exists|i: int|
                0 <= i < runs@.len() && #[trigger] runs@[i].0 <= u && u + 1 <= runs@[i].0
                    + runs@[i].1 - 1,
{
    let mut runs: Vec<(u8, u8)> = Vec::new();
    let mut v: u8 = 3;
    while v <= 14
        invariant
            3 <= v <= 16,
            forall|i: int|
                0 <= i < runs@.len() ==> run_ok_at(
                    remaining@,
                    #[trigger] runs@[i].0 as int,
                    runs@[i].1 as int,
                    m as nat,
                ),
            forall|i: int| 0 <= i < runs@.len() ==> #[trigger] runs@[i].0 + runs@[i].1 < v,
            forall|i: int, j: int|
                0 <= i < j < runs@.len() ==> #[trigger] runs@[i].0 + runs@[i].1
                    < #[trigger] runs@[j].0,
            v == 3 || v >= 16 || rank_count_v(remaining@, v - 1) < m,
            forall|u: int|
                3 <= u && u + 1 < v && u + 1 <= 14 && #[trigger] rank_count_v(remaining@, u) >= m
                    && rank_count_v(remaining@, u + 1) >= m ==> exists|i: int|
                    0 <= i < runs@.len() && #[trigger] runs@[i].0 <= u && u + 1 <= runs@[i].0
                        + runs@[i].1 - 1,
        decreases 16 - v,
    {
        if count_rank_value(remaining, v) >= m {
            let lo = v;
            let mut end = v;
            while end < 14 && count_rank_value(remaining, end + 1) >= m
                invariant
                    lo <= end <= 14,
                    3 <= lo <= 14,
                    forall|u: int|
                        lo <= u <= end ==> #[trigger] rank_count_v(remaining@, u) >= m,
                decreases 14 - end,
            {
                end = end + 1;
            }
            let ghost old_runs = runs@;
            if end > lo {
                let len = end - lo + 1;
                runs.push((lo, len));
                proof {
                    assert(runs@[runs@.len() - 1] == (lo, len));
                    assert(run_ok_at(remaining@, lo as int, len as int, m as nat));
                }
            }
            proof {
                assert(end == 14 || rank_count_v(remaining@, end + 1) < m);
                assert(lo == 3 || rank_count_v(remaining@, lo - 1) < m);
                assert forall|u: int|
                    3 <= u && u + 1 < end + 2 && u + 1 <= 14 && #[trigger] rank_count_v(
                    remaining@,
                    u,
                ) >= m && rank_count_v(remaining@, u + 1) >= m implies exists|i: int|
                    0 <= i < runs@.len() && #[trigger] runs@[i].0 <= u && u + 1 <= runs@[i].0
                        + runs@[i].1 - 1 by {
                    if u + 1 < lo {
                        let i = choose|i: int|
                            0 <= i < old_runs.len() && old_runs[i].0 <= u && u + 1 <= old_runs[i].0
                                + old_runs[i].1 - 1;
                        assert(runs@[i] == old_runs[i]);
                        assert(runs@[i].0 <= u && u + 1 <= runs@[i].0 + runs@[i].1 - 1);
                    } else if u + 1 == lo {
                        assert(rank_count_v(remaining@, lo - 1) < m);
                        assert(false);
                    } else if u == end {
                        assert(rank_count_v(remaining@, end + 1) < m);
                        assert(false);
                    } else {
                        assert(lo <= u && u + 1 <= end);
                        assert(end > lo);
                        assert(runs@[runs@.len() - 1].0 <= u && u + 1 <= runs@[runs@.len() - 1].0
                            + runs@[runs@.len() - 1].1 - 1);
                    }
                }
            }
            v = end + 2;
        } else {
            v = v + 1;
        }
    }
    runs
}

/// Picks the run to extract next: the longest, and among equal lengths the
/// one with the highest start.
fn best_run_index(runs: &Vec<(u8, u8)>) -> (idx: usize)
    requires
        runs@.len() > 0,
    ensures
        idx < runs@.len(),
        forall|j: int|
            0 <= j < runs@.len() ==> (#[trigger] runs@[j].1 < runs@[idx as int].1 || (runs@[j].1
                == runs@[idx as int].1 && runs@[j].0 <= runs@[idx as int].0)),
{
    let mut best: usize = 0;
    let n = runs.len();
    let mut j: usize = 1;
    while j < n
        invariant
            0 <= best < j <= n,
            n == runs@.len(),
            forall|x: int|
                0 <= x < j ==> (#[trigger] runs@[x].1 < runs@[best as int].1 || (runs@[x].1
                    == runs@[best as int].1 && runs@[x].0 <= runs@[best as int].0)),
        decreases n - j,
    {
        let r = runs[j];
        let b = runs[best];
        if r.1 > b.1 || (r.1 == b.1 && r.0 > b.0) {
            best = j;
        }
        j = j + 1;
    }
    best
}

/// Extracts the cards of one run: `m` cards of each rank value in
/// `lo..lo + len`.
fn extract_one_run(remaining: &mut Vec<Card>, lo: u8, len: u8, m: usize) -> (chain: Vec<Card>)
    requires
        run_ok_at(old(remaining)@, lo as int, len as int, m as nat),
        1 <= m <= 3,
    ensures
        final(remaining)@.to_multiset().add(chain@.to_multiset()) == old(remaining)@.to_multiset(),
        chain@.len() == m * len,
        forall|v: int|
            lo as int <= v < lo as int + len as int ==> #[trigger] rank_count_v(chain@, v)
                == m as nat,
        forall|v: int|
            3 <= v <= 15 && !(lo as int <= v < lo as int + len as int)
                ==> #[trigger] rank_count_v(chain@, v) == 0,
        forall|v: int|
            !(lo as int <= v < lo as int + len as int) ==> #[trigger] rank_count_v(
                final(remaining)@,
                v,
            ) == rank_count_v(old(remaining)@, v),
        forall|v: int|
            lo as int <= v < lo as int + len as int ==> #[trigger] rank_count_v(
                final(remaining)@,
                v,
            ) + m == rank_count_v(old(remaining)@, v),
{
    let ghost orig = remaining@;
    let mut chain: Vec<Card> = Vec::new();
    proof {
        assert(chain@.to_multiset() =~= Multiset::<Card>::empty());
        assert(remaining@.to_multiset().add(chain@.to_multiset()) =~= orig.to_multiset());
        assert(chain@.to_multiset().len() == 0);
    }
    let mut t: u8 = 0;
    while t < len
        invariant
            0 <= t <= len,
            run_ok_at(orig, lo as int, len as int, m as nat),
            1 <= m <= 3,
            chain@.len() == m * t,
            remaining@.to_multiset().add(chain@.to_multiset()) == orig.to_multiset(),
            forall|v: int|
                lo as int <= v < lo as int + t as int ==> #[trigger] rank_count_v(chain@, v)
                    == m as nat,
            forall|v: int|
                !(lo as int <= v < lo as int + t as int) ==> #[trigger] rank_count_v(chain@, v)
                    == 0,
            forall|v: int|
                !(lo as int <= v < lo as int + t as int) ==> #[trigger] rank_count_v(remaining@, v)
                    == rank_count_v(orig, v),
            forall|v: int|
                lo as int <= v < lo as int + t as int ==> #[trigger] rank_count_v(remaining@, v)
                    + m == rank_count_v(orig, v),
        decreases len - t,
    {
        let v = lo + t;
        let rank = rank_from_value(v);
        proof {
            lemma_rank_value_roundtrip(rank);
            assert(rank_count_v(remaining@, v as int) == rank_count_v(orig, v as int));
            assert(rank_count_v(orig, v as int) >= m);
            assert(rank_count(remaining@, rank) >= m);
        }
        let ghost prev_rem = remaining@;
        let ghost prev_chain = chain@;
        let mut taken = take_rank(remaining, rank, m);
        let ghost tk = taken@;
        chain.append(&mut taken);
        proof {
            assert(chain@ == prev_chain + tk);
            lemma_counts_concat(chain@, prev_chain, tk);
            assert(rank_count(tk, rank) == m);
            assert((m * t) + m == m * (t + 1)) by (nonlinear_arith);
            assert forall|w: int|
                lo as int <= w < lo as int + (t + 1) implies #[trigger] rank_count_v(chain@, w)
                == m as nat by {
                lemma_rank_value_roundtrip(rank_of_value(w));
                lemma_rank_value_roundtrip(rank);
                if w == v as int {
                    assert(rank_of_value(w) == rank);
                    assert(rank_count(tk, rank_of_value(w)) == m);
                    assert(rank_count(prev_chain, rank_of_value(w)) == 0);
                } else {
                    assert(rank_of_value(w) != rank);
                    assert(rank_count(tk, rank_of_value(w)) == 0);
                    assert(rank_count_v(prev_chain, w) == m as nat);
                }
                assert(rank_count(chain@, rank_of_value(w)) == rank_count(
                    prev_chain,
                    rank_of_value(w),
                ) + rank_count(tk, rank_of_value(w)));
            }
            assert forall|w: int|
                !(lo as int <= w < lo as int + (t + 1)) implies #[trigger] rank_count_v(chain@, w)
                == 0 by {
                if 3 <= w <= 15 {
                    lemma_rank_value_roundtrip(rank_of_value(w));
                    lemma_rank_value_roundtrip(rank);
                    assert(rank_of_value(w) != rank);
                    assert(rank_count(tk, rank_of_value(w)) == 0);
                    assert(rank_count_v(prev_chain, w) == 0);
                    assert(rank_count(chain@, rank_of_value(w)) == rank_count(
                        prev_chain,
                        rank_of_value(w),
                    ) + rank_count(tk, rank_of_value(w)));
                }
            }
            assert forall|w: int|
                !(lo as int <= w < lo as int + (t + 1)) implies #[trigger] rank_count_v(
                remaining@,
                w,
            ) == rank_count_v(orig, w) by {
                if 3 <= w <= 15 {
                    lemma_rank_value_roundtrip(rank_of_value(w));
                    lemma_rank_value_roundtrip(rank);
                    assert(rank_of_value(w) != rank);
                    assert(rank_count(remaining@, rank_of_value(w)) == rank_count(
                        prev_rem,
                        rank_of_value(w),
                    ));
                    assert(rank_count_v(prev_rem, w) == rank_count_v(orig, w));
                }
            }
            assert forall|w: int|
                lo as int <= w < lo as int + (t + 1) implies #[trigger] rank_count_v(remaining@, w)
                + m == rank_count_v(orig, w) by {
                lemma_rank_value_roundtrip(rank_of_value(w));
                lemma_rank_value_roundtrip(rank);
                if w == v as int {
                    assert(rank_of_value(w) == rank);
                    assert(rank_count(remaining@, rank) + m == rank_count(prev_rem, rank));
                    assert(rank_count_v(prev_rem, w) == rank_count_v(orig, w));
                } else {
                    assert(rank_of_value(w) != rank);
                    assert(rank_count(remaining@, rank_of_value(w)) == rank_count(
                        prev_rem,
                        rank_of_value(w),
                    ));
                    assert(rank_count_v(prev_rem, w) + m == rank_count_v(orig, w));
                }
            }
            assert(remaining@.to_multiset().add(chain@.to_multiset()) =~= orig.to_multiset());
        }
        t = t + 1;
    }
    chain
}

/// A chain with exact per-rank counts in its window classifies as the
/// corresponding run shape.
proof fn lemma_chain_shape(chain: Seq<Card>, lo: int, len: int, m: nat)
    requires
        3 <= lo,
        len >= 2,
        lo + len - 1 <= 14,
        2 <= m <= 3,
        chain.len() == m * len,
        forall|v: int| lo <= v < lo + len ==> #[trigger] rank_count_v(chain, v) == m,
        forall|v: int| 3 <= v <= 15 && !(lo <= v < lo + len) ==> #[trigger] rank_count_v(chain, v)
            == 0,
    ensures
        m == 3 ==> is_airplane(chain),
        m == 2 ==> is_consecutive_pairs(chain),
        low_rank_v(chain) == lo,
{
    lemma_min_present_from(chain, 3);
    assert(rank_count_v(chain, lo) == m);
    assert(low_rank_v(chain) <= lo);
    assert forall|u: int| 3 <= u < lo implies #[trigger] rank_count_v(chain, u) == 0 by {}
    if low_rank_v(chain) < lo {
        assert(rank_count_v(chain, low_rank_v(chain)) > 0);
        assert(false);
    }
    assert(low_rank_v(chain) == lo);
    if m == 3 {
        assert(chain.len() == 3 * len);
        assert(chain.len() as int / 3 == len);
        assert(chain.len() % 3 == 0) by (nonlinear_arith)
            requires
                chain.len() == 3 * len,
                len >= 2,
        ;
        assert(chain.len() >= 6);
        assert(exact_run(chain, lo, len, 3));
    } else {
        assert(chain.len() == 2 * len);
        assert(chain.len() as int / 2 == len);
        assert(chain.len() % 2 == 0) by (nonlinear_arith)
            requires
                chain.len() == 2 * len,
                len >= 2,
        ;
        assert(chain.len() >= 4);
        assert(exact_run(chain, lo, len, 2));
    }
}

/// Extracts all chain runs of multiplicity `m` (3 for airplanes, 2 for
/// consecutive pairs), longest first, then highest start first.
#[verifier::rlimit(100)]
fn extract_chains(remaining: &mut Vec<Card>, m: usize) -> (out: Vec<Vec<Card>>)
    requires
        m == 2 || m == 3,
        forall|u: int| #[trigger] rank_count_v(old(remaining)@, u) <= 2 * m - 1,
    ensures
        final(remaining)@.to_multiset().add(groups_ms(out@)) == old(remaining)@.to_multiset(),
        m == 3 ==> forall|i: int| 0 <= i < out@.len() ==> is_airplane(#[trigger] out@[i]@),
        m == 2 ==> forall|i: int|
            0 <= i < out@.len() ==> is_consecutive_pairs(#[trigger] out@[i]@),
        forall|u: int|
            #[trigger] rank_count_v(final(remaining)@, u) <= rank_count_v(old(remaining)@, u),
        forall|u: int|
            3 <= u && u + 1 <= 14 ==> !(#[trigger] rank_count_v(final(remaining)@, u) >= m
                && rank_count_v(final(remaining)@, u + 1) >= m),
        forall|i: int, j: int|
            0 <= i < j < out@.len() ==> (#[trigger] out@[i])@.len() > (#[trigger] out@[j])@.len()
                || (out@[i]@.len() == out@[j]@.len() && low_rank_v(out@[i]@) > low_rank_v(
                out@[j]@,
            )),
{
    let ghost orig = remaining@;
    let mut out: Vec<Vec<Card>> = Vec::new();
    let mut runs = scan_runs(remaining, m);
    proof {
        assert(groups_ms(out@) == Multiset::<Card>::empty());
        assert(remaining@.to_multiset().add(groups_ms(out@)) =~= orig.to_multiset());
    }
    while runs.len() > 0
        invariant
            m == 2 || m == 3,
            remaining@.to_multiset().add(groups_ms(out@)) == orig.to_multiset(),
            forall|i: int|
                0 <= i < runs@.len() ==> run_ok_at(
                    remaining@,
                    #[trigger] runs@[i].0 as int,
                    runs@[i].1 as int,
                    m as nat,
                ),
            forall|i: int, j: int|
                0 <= i < j < runs@.len() ==> #[trigger] runs@[i].0 + runs@[i].1
                    < #[trigger] runs@[j].0,
            m == 3 ==> forall|i: int| 0 <= i < out@.len() ==> is_airplane(#[trigger] out@[i]@),
            m == 2 ==> forall|i: int|
                0 <= i < out@.len() ==> is_consecutive_pairs(#[trigger] out@[i]@),
            forall|u: int| #[trigger] rank_count_v(remaining@, u) <= rank_count_v(orig, u),
            forall|u: int| #[trigger] rank_count_v(orig, u) <= 2 * m - 1,
            forall|u: int|
                3 <= u && u + 1 <= 14 && #[trigger] rank_count_v(remaining@, u) >= m
                    && rank_count_v(remaining@, u + 1) >= m ==> exists|i: int|
                    0 <= i < runs@.len() && #[trigger] runs@[i].0 <= u && u + 1 <= runs@[i].0
                        + runs@[i].1 - 1,
            forall|i: int, j: int|
                0 <= i < j < out@.len() ==> (#[trigger] out@[i])@.len()
                    > (#[trigger] out@[j])@.len() || (out@[i]@.len() == out@[j]@.len()
                    && low_rank_v(out@[i]@) > low_rank_v(out@[j]@)),
            forall|i: int, k: int|
                0 <= i < out@.len() && 0 <= k < runs@.len() ==> (#[trigger] out@[i])@.len() > m * (
                #[trigger] runs@[k]).1 || (out@[i]@.len() == m * runs@[k].1 && low_rank_v(
                    out@[i]@,
                ) > runs@[k].0),
        decreases runs@.len(),
    {
        let idx = best_run_index(&runs);
        let ghost old_runs = runs@;
        let run = runs.remove(idx);
        let lo = run.0;
        let len = run.1;
        proof {
            assert(old_runs[idx as int] == run);
            assert(run_ok_at(remaining@, lo as int, len as int, m as nat));
            assert forall|i: int, j: int| 0 <= i < j < runs@.len() implies #[trigger] runs@[i].0
                + runs@[i].1 < #[trigger] runs@[j].0 by {
                let i0 = if i < idx {
                    i
                } else {
                    i + 1
                };
                let j0 = if j < idx {
                    j
                } else {
                    j + 1
                };
                assert(runs@[i] == old_runs[i0]);
                assert(runs@[j] == old_runs[j0]);
            }
        }
        let ghost prev_rem = remaining@;
        let chain = extract_one_run(remaining, lo, len, m);
        let ghost prev_out = out@;
        out.push(chain);
        proof {
            lemma_groups_ms_push(prev_out, chain);
            assert(remaining@.to_multiset().add(groups_ms(out@)) =~= orig.to_multiset());
            lemma_chain_shape(chain@, lo as int, len as int, m as nat);
            // runs that are left keep their counts: their windows are
            // disjoint from the extracted window
            assert forall|i: int|
                0 <= i < runs@.len() implies run_ok_at(
                remaining@,
                #[trigger] runs@[i].0 as int,
                runs@[i].1 as int,
                m as nat,
            ) by {
                let i0 = if i < idx {
                    i
                } else {
                    i + 1
                };
                assert(runs@[i] == old_runs[i0]);
                let rl = runs@[i].0 as int;
                let rn = runs@[i].1 as int;
                assert(run_ok_at(prev_rem, rl, rn, m as nat));
                if i0 < idx {
                    assert(old_runs[i0].0 + old_runs[i0].1 < old_runs[idx as int].0);
                } else {
                    assert(old_runs[idx as int].0 + old_runs[idx as int].1 < old_runs[i0].0);
                }
                assert forall|v: int| rl <= v < rl + rn implies #[trigger] rank_count_v(
                    remaining@,
                    v,
                ) >= m by {
                    assert(!(lo as int <= v < lo as int + len as int));
                    assert(rank_count_v(remaining@, v) == rank_count_v(prev_rem, v));
                }
            }
            assert forall|u: int| #[trigger] rank_count_v(remaining@, u) <= rank_count_v(
                orig,
                u,
            ) by {
                if lo as int <= u < lo as int + len as int {
                    assert(rank_count_v(remaining@, u) + m == rank_count_v(prev_rem, u));
                } else {
                    assert(rank_count_v(remaining@, u) == rank_count_v(prev_rem, u));
                }
            }
            assert forall|u: int|
                3 <= u && u + 1 <= 14 && #[trigger] rank_count_v(remaining@, u) >= m
                    && rank_count_v(remaining@, u + 1) >= m implies exists|i: int|
                0 <= i < runs@.len() && #[trigger] runs@[i].0 <= u && u + 1 <= runs@[i].0
                    + runs@[i].1 - 1 by {
                if lo as int <= u < lo as int + len as int {
                    assert(rank_count_v(remaining@, u) + m == rank_count_v(prev_rem, u));
                    assert(rank_count_v(prev_rem, u) <= 2 * m - 1);
                    assert(false);
                } else if lo as int <= u + 1 < lo as int + len as int {
                    assert(rank_count_v(remaining@, u + 1) + m == rank_count_v(prev_rem, u + 1));
                    assert(rank_count_v(prev_rem, u + 1) <= 2 * m - 1);
                    assert(false);
                } else {
                    assert(rank_count_v(remaining@, u) == rank_count_v(prev_rem, u));
                    assert(rank_count_v(remaining@, u + 1) == rank_count_v(prev_rem, u + 1));
                    let i0 = choose|i0: int|
                        0 <= i0 < old_runs.len() && #[trigger] old_runs[i0].0 <= u && u + 1
                            <= old_runs[i0].0 + old_runs[i0].1 - 1;
                    assert(i0 != idx);
                    let i = if i0 < idx {
                        i0
                    } else {
                        i0 - 1
                    };
                    assert(runs@[i] == old_runs[i0]);
                    assert(runs@[i].0 <= u && u + 1 <= runs@[i].0 + runs@[i].1 - 1);
                }
            }
            // the extracted chain dominates every run that is left, in the
            // (length, low rank) lexicographic order
            assert(chain@.len() == m * len);
            assert(low_rank_v(chain@) == lo as int);
            assert forall|k: int| 0 <= k < runs@.len() implies chain@.len() > m * (
            #[trigger] runs@[k]).1 || (chain@.len() == m * runs@[k].1 && low_rank_v(chain@)
                > runs@[k].0) by {
                let k0 = if k < idx {
                    k
                } else {
                    k + 1
                };
                assert(runs@[k] == old_runs[k0]);
                assert(old_runs[k0].1 < run.1 || (old_runs[k0].1 == run.1 && old_runs[k0].0
                    <= run.0));
                if old_runs[k0].1 < run.1 {
                    if m == 2 {
                        assert(2 * old_runs[k0].1 < 2 * run.1);
                    } else {
                        assert(3 * old_runs[k0].1 < 3 * run.1);
                    }
                } else {
                    if k0 < idx {
                        assert(old_runs[k0].0 + old_runs[k0].1 < old_runs[idx as int].0);
                    } else {
                        assert(old_runs[idx as int].0 + old_runs[idx as int].1 < old_runs[k0].0);
                    }
                }
            }
            assert forall|i: int, k: int|
                0 <= i < out@.len() && 0 <= k < runs@.len() implies (#[trigger] out@[i])@.len() > m
                * (#[trigger] runs@[k]).1 || (out@[i]@.len() == m * runs@[k].1 && low_rank_v(
                out@[i]@,
            ) > runs@[k].0) by {
                if i < prev_out.len() {
                    let k0 = if k < idx {
                        k
                    } else {
                        k + 1
                    };
                    assert(runs@[k] == old_runs[k0]);
                    assert(out@[i] == prev_out[i]);
                }
            }
            assert forall|i: int, j: int| 0 <= i < j < out@.len() implies (
            #[trigger] out@[i])@.len() > (#[trigger] out@[j])@.len() || (out@[i]@.len()
                == out@[j]@.len() && low_rank_v(out@[i]@) > low_rank_v(out@[j]@)) by {
                if j < prev_out.len() {
                    assert(out@[i] == prev_out[i]);
                    assert(out@[j] == prev_out[j]);
                } else {
                    assert(out@[i] == prev_out[i]);
                    assert(out@[j] == chain);
                    assert(prev_out[i]@.len() > m * old_runs[idx as int].1 || (prev_out[i]@.len()
                        == m * old_runs[idx as int].1 && low_rank_v(prev_out[i]@)
                        > old_runs[idx as int].0));
                }
            }
        }
    }
    out
}

/// Extracts one Dizha per qualifying rank, highest rank first: two cards of
/// each suit whenever every suit holds at least two cards of the rank.
fn extract_dizha(remaining: &mut Vec<Card>) -> (out: Vec<Vec<Card>>)
    ensures
        final(remaining)@.to_multiset().add(groups_ms(out@)) == old(remaining)@.to_multiset(),
        forall|i: int| 0 <= i < out@.len() ==> is_dizha(#[trigger] out@[i]@),
        out@.len() + final(remaining)@.len() <= old(remaining)@.len(),
        forall|i: int, j: int|
            0 <= i < j < out@.len() ==> (#[trigger] out@[i])@[0].rank.spec_value()
                > (#[trigger] out@[j])@[0].rank.spec_value(),
        forall|su: Suit, rk: Rank|
            #[trigger] suit_rank_count(final(remaining)@, su, rk) == suit_rank_count(
                old(remaining)@,
                su,
                rk,
            ) - (if dizha_ready(old(remaining)@, rk) {
                2int
            } else {
                0int
            }),
        forall|rk: Rank| #[trigger] groups_have_rank(out@, rk) <==> dizha_ready(
            old(remaining)@,
            rk,
        ),
{
    let ghost orig = remaining@;
    let mut out: Vec<Vec<Card>> = Vec::new();
    proof {
        assert(groups_ms(out@) == Multiset::<Card>::empty());
        assert(remaining@.to_multiset().add(groups_ms(out@)) =~= orig.to_multiset());
    }
    let mut v: u8 = 15;
    while v >= 3
        invariant
            2 <= v <= 15,
            remaining@.to_multiset().add(groups_ms(out@)) == orig.to_multiset(),
            forall|i: int| 0 <= i < out@.len() ==> is_dizha(#[trigger] out@[i]@),
            out@.len() + remaining@.len() <= orig.len(),
            forall|i: int| 0 <= i < out@.len() ==> (#[trigger] out@[i])@[0].rank.spec_value() > v,
            forall|i: int, j: int|
                0 <= i < j < out@.len() ==> (#[trigger] out@[i])@[0].rank.spec_value()
                    > (#[trigger] out@[j])@[0].rank.spec_value(),
            forall|su: Suit, rk: Rank|
                #[trigger] suit_rank_count(remaining@, su, rk) == suit_rank_count(orig, su, rk) - (
                if rk.spec_value() > v && dizha_ready(orig, rk) {
                    2int
                } else {
                    0int
                }),
            forall|rk: Rank|
                #[trigger] groups_have_rank(out@, rk) <==> (rk.spec_value() > v && dizha_ready(
                    orig,
                    rk,
                )),
        decreases v,
    {
        let rank = rank_from_value(v);
        proof {
            lemma_rank_value_roundtrip(rank);
            assert(suit_rank_count(remaining@, Suit::Diamonds, rank) == suit_rank_count(
                orig,
                Suit::Diamonds,
                rank,
            ));
            assert(suit_rank_count(remaining@, Suit::Clubs, rank) == suit_rank_count(
                orig,
                Suit::Clubs,
                rank,
            ));
            assert(suit_rank_count(remaining@, Suit::Hearts, rank) == suit_rank_count(
                orig,
                Suit::Hearts,
                rank,
            ));
            assert(suit_rank_count(remaining@, Suit::Spades, rank) == suit_rank_count(
                orig,
                Suit::Spades,
                rank,
            ));
        }
        let cd = count_suit_rank(remaining, Suit::Diamonds, rank);
        let cc = count_suit_rank(remaining, Suit::Clubs, rank);
        let ch = count_suit_rank(remaining, Suit::Hearts, rank);
        let cs = count_suit_rank(remaining, Suit::Spades, rank);
        if cd >= 2 && cc >= 2 && ch >= 2 && cs >= 2 {
            let ghost before = remaining@;
            let mut g = take_suit_rank(remaining, Suit::Spades, rank, 2);
            let ghost t1 = g@;
            let ghost rem1 = remaining@;
            let mut h = take_suit_rank(remaining, Suit::Hearts, rank, 2);
            let ghost t2 = h@;
            let ghost rem2 = remaining@;
            g.append(&mut h);
            let ghost g12 = g@;
            let mut c = take_suit_rank(remaining, Suit::Clubs, rank, 2);
            let ghost t3 = c@;
            let ghost rem3 = remaining@;
            g.append(&mut c);
            let ghost g123 = g@;
            let mut d = take_suit_rank(remaining, Suit::Diamonds, rank, 2);
            let ghost t4 = d@;
            g.append(&mut d);
            proof {
                lemma_counts_concat(g12, t1, t2);
                lemma_counts_concat(g123, g12, t3);
                lemma_counts_concat(g@, g123, t4);
                assert(g@.len() == 8);
                assert forall|i: int| 0 <= i < g@.len() implies #[trigger] g@[i].rank == g@[0].rank
                    by {
                    assert(g@[0] == t1[0]);
                    if i < 2 {
                        assert(g@[i] == t1[i]);
                    } else if i < 4 {
                        assert(g@[i] == t2[i - 2]);
                    } else if i < 6 {
                        assert(g@[i] == t3[i - 4]);
                    } else {
                        assert(g@[i] == t4[i - 6]);
                    }
                }
                assert(g@[0] == t1[0]);
                assert(g@[0].rank == rank);
                assert(suit_rank_count(g@, Suit::Spades, rank) == 2);
                assert(suit_rank_count(g@, Suit::Hearts, rank) == 2);
                assert(suit_rank_count(g@, Suit::Clubs, rank) == 2);
                assert(suit_rank_count(g@, Suit::Diamonds, rank) == 2);
                assert(is_dizha(g@));
                assert(g@.to_multiset() == t1.to_multiset().add(t2.to_multiset()).add(
                    t3.to_multiset(),
                ).add(t4.to_multiset()));
                assert(remaining@.to_multiset().add(g@.to_multiset()) =~= before.to_multiset());
            }
            proof {
                assert(dizha_ready(orig, rank));
                assert forall|su: Suit, rk: Rank|
                    #[trigger] suit_rank_count(remaining@, su, rk) == suit_rank_count(
                    orig,
                    su,
                    rk,
                ) - (if rk.spec_value() > v - 1 && dizha_ready(orig, rk) {
                    2int
                } else {
                    0int
                }) by {
                    lemma_rank_value_roundtrip(rk);
                    if rk == rank {
                        if su == Suit::Spades {
                            assert(suit_rank_count(rem1, su, rk) + 2 == suit_rank_count(
                                before,
                                su,
                                rk,
                            ));
                            assert(suit_rank_count(rem2, su, rk) == suit_rank_count(rem1, su, rk));
                            assert(suit_rank_count(rem3, su, rk) == suit_rank_count(rem2, su, rk));
                            assert(suit_rank_count(remaining@, su, rk) == suit_rank_count(
                                rem3,
                                su,
                                rk,
                            ));
                        } else if su == Suit::Hearts {
                            assert(suit_rank_count(rem1, su, rk) == suit_rank_count(
                                before,
                                su,
                                rk,
                            ));
                            assert(suit_rank_count(rem2, su, rk) + 2 == suit_rank_count(
                                rem1,
                                su,
                                rk,
                            ));
                            assert(suit_rank_count(rem3, su, rk) == suit_rank_count(rem2, su, rk));
                            assert(suit_rank_count(remaining@, su, rk) == suit_rank_count(
                                rem3,
                                su,
                                rk,
                            ));
                        } else if su == Suit::Clubs {
                            assert(suit_rank_count(rem1, su, rk) == suit_rank_count(
                                before,
                                su,
                                rk,
                            ));
                            assert(suit_rank_count(rem2, su, rk) == suit_rank_count(rem1, su, rk));
                            assert(suit_rank_count(rem3, su, rk) + 2 == suit_rank_count(
                                rem2,
                                su,
                                rk,
                            ));
                            assert(suit_rank_count(remaining@, su, rk) == suit_rank_count(
                                rem3,
                                su,
                                rk,
                            ));
                        } else {
                            assert(suit_rank_count(rem1, su, rk) == suit_rank_count(
                                before,
                                su,
                                rk,
                            ));
                            assert(suit_rank_count(rem2, su, rk) == suit_rank_count(rem1, su, rk));
                            assert(suit_rank_count(rem3, su, rk) == suit_rank_count(rem2, su, rk));
                            assert(suit_rank_count(remaining@, su, rk) + 2 == suit_rank_count(
                                rem3,
                                su,
                                rk,
                            ));
                        }
                    } else {
                        assert(suit_rank_count(rem1, su, rk) == suit_rank_count(before, su, rk));
                        assert(suit_rank_count(rem2, su, rk) == suit_rank_count(rem1, su, rk));
                        assert(suit_rank_count(rem3, su, rk) == suit_rank_count(rem2, su, rk));
                        assert(suit_rank_count(remaining@, su, rk) == suit_rank_count(
                            rem3,
                            su,
                            rk,
                        ));
                    }
                }
            }
            let ghost prev_out = out@;
            out.push(g);
            proof {
                lemma_groups_ms_push(prev_out, g);
                assert(remaining@.to_multiset().add(groups_ms(out@)) =~= orig.to_multiset());
                assert(out@[out@.len() - 1]@[0].rank == rank);
                assert forall|rk: Rank|
                    #[trigger] groups_have_rank(out@, rk) <==> (rk.spec_value() > v - 1
                        && dizha_ready(orig, rk)) by {
                    lemma_rank_value_roundtrip(rk);
                    if groups_have_rank(out@, rk) {
                        let i = choose|i: int| 0 <= i < out@.len() && out@[i]@[0].rank == rk;
                        if i < prev_out.len() {
                            assert(prev_out[i] == out@[i]);
                            assert(groups_have_rank(prev_out, rk));
                        } else {
                            assert(rk == rank);
                        }
                    }
                    if rk.spec_value() > v - 1 && dizha_ready(orig, rk) {
                        if rk.spec_value() > v as int {
                            assert(groups_have_rank(prev_out, rk));
                            let i = choose|i: int|
                                0 <= i < prev_out.len() && prev_out[i]@[0].rank == rk;
                            assert(out@[i]@[0].rank == rk);
                        } else {
                            assert(rk == rank);
                            assert(out@[out@.len() - 1]@[0].rank == rk);
                        }
                    }
                }
            }
        } else {
            proof {
                assert(!dizha_ready(orig, rank));
                assert forall|rk: Rank|
                    #[trigger] groups_have_rank(out@, rk) <==> (rk.spec_value() > v - 1
                        && dizha_ready(orig, rk)) by {
                    lemma_rank_value_roundtrip(rk);
                    if rk.spec_value() == v as int {
                        assert(rk == rank);
                        if groups_have_rank(out@, rk) {
                            let i = choose|i: int| 0 <= i < out@.len() && out@[i]@[0].rank == rk;
                            assert(out@[i]@[0].rank.spec_value() > v);
                            assert(false);
                        }
                    }
                }
            }
        }
        v = v - 1;
    }
    out
}

/// Extracts one Tongzi per qualifying (suit, rank) cell: three identical
/// cards, highest suit first, then highest rank.
#[verifier::rlimit(60)]
fn extract_tongzi(remaining: &mut Vec<Card>) -> (out: Vec<Vec<Card>>)
    ensures
        final(remaining)@.to_multiset().add(groups_ms(out@)) == old(remaining)@.to_multiset(),
        forall|i: int| 0 <= i < out@.len() ==> is_tongzi(#[trigger] out@[i]@),
        out@.len() + final(remaining)@.len() <= old(remaining)@.len(),
        forall|i: int, j: int|
            0 <= i < j < out@.len() ==> (#[trigger] out@[i])@[0].suit.spec_value()
                > (#[trigger] out@[j])@[0].suit.spec_value() || (out@[i]@[0].suit
                == out@[j]@[0].suit && out@[i]@[0].rank.spec_value()
                > out@[j]@[0].rank.spec_value()),
        forall|su: Suit, rk: Rank|
            #[trigger] suit_rank_count(final(remaining)@, su, rk) == suit_rank_count(
                old(remaining)@,
                su,
                rk,
            ) - (if suit_rank_count(old(remaining)@, su, rk) >= 3 {
                3int
            } else {
                0int
            }),
        forall|su: Suit, rk: Rank|
            #[trigger] groups_have_cell(out@, su, rk) <==> suit_rank_count(old(remaining)@, su, rk)
                >= 3,
{
    let ghost orig = remaining@;
    let mut out: Vec<Vec<Card>> = Vec::new();
    proof {
        assert(groups_ms(out@) == Multiset::<Card>::empty());
        assert(remaining@.to_multiset().add(groups_ms(out@)) =~= orig.to_multiset());
    }
    let suits: [Suit; 4] = [Suit::Spades, Suit::Hearts, Suit::Clubs, Suit::Diamonds];
    let mut si: usize = 0;
    while si < 4
        invariant
            0 <= si <= 4,
            suits@.len() == 4,
            suits@ == seq![Suit::Spades, Suit::Hearts, Suit::Clubs, Suit::Diamonds],
            remaining@.to_multiset().add(groups_ms(out@)) == orig.to_multiset(),
            forall|i: int| 0 <= i < out@.len() ==> is_tongzi(#[trigger] out@[i]@),
            out@.len() + remaining@.len() <= orig.len(),
            forall|i: int|
                0 <= i < out@.len() ==> (#[trigger] out@[i])@[0].suit.spec_value() >= 5 - si,
            forall|i: int, j: int|
                0 <= i < j < out@.len() ==> (#[trigger] out@[i])@[0].suit.spec_value()
                    > (#[trigger] out@[j])@[0].suit.spec_value() || (out@[i]@[0].suit
                    == out@[j]@[0].suit && out@[i]@[0].rank.spec_value()
                    > out@[j]@[0].rank.spec_value()),
            forall|su: Suit, rk: Rank|
                #[trigger] suit_rank_count(remaining@, su, rk) == suit_rank_count(orig, su, rk) - (
                if su.spec_value() > 4 - si && suit_rank_count(orig, su, rk) >= 3 {
                    3int
                } else {
                    0int
                }),
            forall|su: Suit, rk: Rank|
                #[trigger] groups_have_cell(out@, su, rk) <==> (su.spec_value() > 4 - si
                    && suit_rank_count(orig, su, rk) >= 3),
        decreases 4 - si,
    {
        let suit = suits[si];
        let mut v: u8 = 15;
        while v >= 3
            invariant
                2 <= v <= 15,
                0 <= si < 4,
                suit == suits@[si as int],
                suits@ == seq![Suit::Spades, Suit::Hearts, Suit::Clubs, Suit::Diamonds],
                suit.spec_value() == 4 - si,
                remaining@.to_multiset().add(groups_ms(out@)) == orig.to_multiset(),
                forall|i: int| 0 <= i < out@.len() ==> is_tongzi(#[trigger] out@[i]@),
                out@.len() + remaining@.len() <= orig.len(),
                forall|i: int|
                    0 <= i < out@.len() ==> (#[trigger] out@[i])@[0].suit.spec_value() > 4 - si
                        || (out@[i]@[0].suit == suit && out@[i]@[0].rank.spec_value() > v),
                forall|i: int, j: int|
                    0 <= i < j < out@.len() ==> (#[trigger] out@[i])@[0].suit.spec_value()
                        > (#[trigger] out@[j])@[0].suit.spec_value() || (out@[i]@[0].suit
                        == out@[j]@[0].suit && out@[i]@[0].rank.spec_value()
                        > out@[j]@[0].rank.spec_value()),
                forall|su: Suit, rk: Rank|
                    #[trigger] suit_rank_count(remaining@, su, rk) == suit_rank_count(
                        orig,
                        su,
                        rk,
                    ) - (if (su.spec_value() > 4 - si || (su == suit && rk.spec_value() > v))
                        && suit_rank_count(orig, su, rk) >= 3 {
                        3int
                    } else {
                        0int
                    }),
                forall|su: Suit, rk: Rank|
                    #[trigger] groups_have_cell(out@, su, rk) <==> ((su.spec_value() > 4 - si || (
                    su == suit && rk.spec_value() > v)) && suit_rank_count(orig, su, rk) >= 3),
            decreases v,
        {
            let rank = rank_from_value(v);
            let ghost prev_rem = remaining@;
            proof {
                lemma_rank_value_roundtrip(rank);
                assert(suit_rank_count(remaining@, suit, rank) == suit_rank_count(
                    orig,
                    suit,
                    rank,
                ));
            }
            if count_suit_rank(remaining, suit, rank) >= 3 {
                let g = take_suit_rank(remaining, suit, rank, 3);
                proof {
                    assert(is_tongzi(g@));
                    assert forall|su: Suit, rk: Rank|
                        #[trigger] suit_rank_count(remaining@, su, rk) == suit_rank_count(
                        orig,
                        su,
                        rk,
                    ) - (if (su.spec_value() > 4 - si || (su == suit && rk.spec_value() > v - 1))
                        && suit_rank_count(orig, su, rk) >= 3 {
                        3int
                    } else {
                        0int
                    }) by {
                        lemma_rank_value_roundtrip(rk);
                        if su == suit && rk == rank {
                            assert(suit_rank_count(remaining@, su, rk) + 3 == suit_rank_count(
                                prev_rem,
                                su,
                                rk,
                            ));
                        } else {
                            assert(suit_rank_count(remaining@, su, rk) == suit_rank_count(
                                prev_rem,
                                su,
                                rk,
                            ));
                        }
                    }
                }
                let ghost prev_out = out@;
                out.push(g);
                proof {
                    lemma_groups_ms_push(prev_out, g);
                    assert(remaining@.to_multiset().add(groups_ms(out@)) =~= orig.to_multiset());
                    assert(out@[out@.len() - 1]@[0] == (Card { rank, suit }));
                    assert forall|su: Suit, rk: Rank|
                        #[trigger] groups_have_cell(out@, su, rk) <==> ((su.spec_value() > 4 - si
                        || (su == suit && rk.spec_value() > v - 1)) && suit_rank_count(
                        orig,
                        su,
                        rk,
                    ) >= 3) by {
                        lemma_rank_value_roundtrip(rk);
                        if groups_have_cell(out@, su, rk) {
                            let i = choose|i: int|
                                0 <= i < out@.len() && out@[i]@[0] == (Card { rank: rk, suit: su });
                            if i < prev_out.len() {
                                assert(prev_out[i] == out@[i]);
                                assert(groups_have_cell(prev_out, su, rk));
                            }
                        }
                        if (su.spec_value() > 4 - si || (su == suit && rk.spec_value() > v - 1))
                            && suit_rank_count(orig, su, rk) >= 3 {
                            if su.spec_value() > 4 - si || (su == suit && rk.spec_value()
                                > v as int) {
                                assert(groups_have_cell(prev_out, su, rk));
                                let i = choose|i: int|
                                    0 <= i < prev_out.len() && prev_out[i]@[0] == (Card {
                                        rank: rk,
                                        suit: su,
                                    });
                                assert(out@[i]@[0] == (Card { rank: rk, suit: su }));
                            } else {
                                assert(su == suit && rk == rank);
                                assert(out@[out@.len() - 1]@[0] == (Card { rank: rk, suit: su }));
                            }
                        }
                    }
                }
            } else {
                proof {
                    assert(suit_rank_count(orig, suit, rank) < 3);
                    assert forall|su: Suit, rk: Rank|
                        #[trigger] groups_have_cell(out@, su, rk) <==> ((su.spec_value() > 4 - si
                        || (su == suit && rk.spec_value() > v - 1)) && suit_rank_count(
                        orig,
                        su,
                        rk,
                    ) >= 3) by {
                        lemma_rank_value_roundtrip(rk);
                    }
                }
            }
            v = v - 1;
        }
        si = si + 1;
    }
    out
}

/// Extracts whole-rank bombs, largest first, then highest rank first.
///
/// A rank that still holds four or more cards after the Dizha and Tongzi
/// passes leaves as one whole group, whatever its suit makeup; the counts
/// equation below pins that choice exactly.
#[verifier::rlimit(80)]
fn extract_bombs(remaining: &mut Vec<Card>) -> (out: Vec<Vec<Card>>)
    ensures
        final(remaining)@.to_multiset().add(groups_ms(out@)) == old(remaining)@.to_multiset(),
        forall|i: int| 0 <= i < out@.len() ==> is_bomb(#[trigger] out@[i]@),
        out@.len() + final(remaining)@.len() <= old(remaining)@.len(),
        forall|i: int, j: int|
            0 <= i < j < out@.len() ==> (#[trigger] out@[i])@.len() > (#[trigger] out@[j])@.len()
                || (out@[i]@.len() == out@[j]@.len() && out@[i]@[0].rank.spec_value()
                > out@[j]@[0].rank.spec_value()),
        forall|rk: Rank|
            #[trigger] rank_count(final(remaining)@, rk) == (if rank_count(old(remaining)@, rk)
                >= 4 {
                0int
            } else {
                rank_count(old(remaining)@, rk) as int
            }),
        forall|rk: Rank| #[trigger] groups_have_rank(out@, rk) <==> rank_count(
            old(remaining)@,
            rk,
        ) >= 4,
        forall|i: int|
            0 <= i < out@.len() ==> (#[trigger] out@[i])@.len() == rank_count(
                old(remaining)@,
                out@[i]@[0].rank,
            ),
{
    let ghost orig = remaining@;
    let mut out: Vec<Vec<Card>> = Vec::new();
    proof {
        assert(groups_ms(out@) == Multiset::<Card>::empty());
        assert(remaining@.to_multiset().add(groups_ms(out@)) =~= orig.to_multiset());
    }
    let n0 = remaining.len();
    let mut cnt = n0;
    proof {
        assert forall|rk: Rank| !(#[trigger] rank_count(orig, rk) > cnt) by {
            crate::models::counting::lemma_rank_count_le_len(orig, rk);
        }
    }
    while cnt >= 4
        invariant
            remaining@.to_multiset().add(groups_ms(out@)) == orig.to_multiset(),
            forall|i: int| 0 <= i < out@.len() ==> is_bomb(#[trigger] out@[i]@),
            out@.len() + remaining@.len() <= orig.len(),
            forall|i: int| 0 <= i < out@.len() ==> (#[trigger] out@[i])@.len() >= cnt + 1,
            forall|i: int, j: int|
                0 <= i < j < out@.len() ==> (#[trigger] out@[i])@.len()
                    > (#[trigger] out@[j])@.len() || (out@[i]@.len() == out@[j]@.len()
                    && out@[i]@[0].rank.spec_value() > out@[j]@[0].rank.spec_value()),
            forall|rk: Rank|
                #[trigger] rank_count(remaining@, rk) == (if rank_count(orig, rk) >= 4
                    && rank_count(orig, rk) > cnt {
                    0int
                } else {
                    rank_count(orig, rk) as int
                }),
            forall|rk: Rank|
                #[trigger] groups_have_rank(out@, rk) <==> (rank_count(orig, rk) >= 4
                    && rank_count(orig, rk) > cnt),
            forall|i: int|
                0 <= i < out@.len() ==> (#[trigger] out@[i])@.len() == rank_count(
                    orig,
                    out@[i]@[0].rank,
                ),
        decreases cnt,
    {
        let mut v: u8 = 15;
        while v >= 3
            invariant
                2 <= v <= 15,
                cnt >= 4,
                remaining@.to_multiset().add(groups_ms(out@)) == orig.to_multiset(),
                forall|i: int| 0 <= i < out@.len() ==> is_bomb(#[trigger] out@[i]@),
                out@.len() + remaining@.len() <= orig.len(),
                forall|i: int|
                    0 <= i < out@.len() ==> (#[trigger] out@[i])@.len() > cnt || (out@[i]@.len()
                        == cnt && out@[i]@[0].rank.spec_value() > v),
                forall|i: int, j: int|
                    0 <= i < j < out@.len() ==> (#[trigger] out@[i])@.len()
                        > (#[trigger] out@[j])@.len() || (out@[i]@.len() == out@[j]@.len()
                        && out@[i]@[0].rank.spec_value() > out@[j]@[0].rank.spec_value()),
                forall|rk: Rank|
                    #[trigger] rank_count(remaining@, rk) == (if rank_count(orig, rk) >= 4 && (
                    rank_count(orig, rk) > cnt || (rank_count(orig, rk) == cnt && rk.spec_value()
                        > v)) {
                        0int
                    } else {
                        rank_count(orig, rk) as int
                    }),
                forall|rk: Rank|
                    #[trigger] groups_have_rank(out@, rk) <==> (rank_count(orig, rk) >= 4 && (
                    rank_count(orig, rk) > cnt || (rank_count(orig, rk) == cnt && rk.spec_value()
                        > v))),
                forall|i: int|
                    0 <= i < out@.len() ==> (#[trigger] out@[i])@.len() == rank_count(
                        orig,
                        out@[i]@[0].rank,
                    ),
            decreases v,
        {
            let rank = rank_from_value(v);
            proof {
                lemma_rank_value_roundtrip(rank);
            }
            let ghost prev_rem = remaining@;
            if count_rank(remaining, rank) == cnt {
                proof {
                    assert(rank_count(orig, rank) == cnt);
                }
                let g = take_rank(remaining, rank, cnt);
                proof {
                    assert(g@[0].rank == rank);
                    assert(is_bomb(g@));
                    assert forall|rk: Rank|
                        #[trigger] rank_count(remaining@, rk) == (if rank_count(orig, rk) >= 4 && (
                    rank_count(orig, rk) > cnt || (rank_count(orig, rk) == cnt && rk.spec_value()
                        > v - 1)) {
                        0int
                    } else {
                        rank_count(orig, rk) as int
                    }) by {
                        lemma_rank_value_roundtrip(rk);
                        if rk == rank {
                            assert(rank_count(remaining@, rk) + cnt == rank_count(prev_rem, rk));
                        } else {
                            assert(rank_count(remaining@, rk) == rank_count(prev_rem, rk));
                        }
                    }
                }
                let ghost prev_out = out@;
                out.push(g);
                proof {
                    lemma_groups_ms_push(prev_out, g);
                    assert(remaining@.to_multiset().add(groups_ms(out@)) =~= orig.to_multiset());
                    assert(out@[out@.len() - 1]@[0].rank == rank);
                    assert forall|rk: Rank|
                        #[trigger] groups_have_rank(out@, rk) <==> (rank_count(orig, rk) >= 4 && (
                    rank_count(orig, rk) > cnt || (rank_count(orig, rk) == cnt && rk.spec_value()
                        > v - 1))) by {
                        lemma_rank_value_roundtrip(rk);
                        if groups_have_rank(out@, rk) {
                            let i = choose|i: int| 0 <= i < out@.len() && out@[i]@[0].rank == rk;
                            if i < prev_out.len() {
                                assert(prev_out[i] == out@[i]);
                                assert(groups_have_rank(prev_out, rk));
                            } else {
                                assert(rk == rank);
                            }
                        }
                        if rank_count(orig, rk) >= 4 && (rank_count(orig, rk) > cnt || (
                        rank_count(orig, rk) == cnt && rk.spec_value() > v - 1)) {
                            if rank_count(orig, rk) > cnt || (rank_count(orig, rk) == cnt
                                && rk.spec_value() > v as int) {
                                assert(groups_have_rank(prev_out, rk));
                                let i = choose|i: int|
                                    0 <= i < prev_out.len() && prev_out[i]@[0].rank == rk;
                                assert(out@[i]@[0].rank == rk);
                            } else {
                                assert(rk == rank);
                                assert(out@[out@.len() - 1]@[0].rank == rk);
                            }
                        }
                    }
                    assert forall|i: int|
                        0 <= i < out@.len() implies (#[trigger] out@[i])@.len() == rank_count(
                        orig,
                        out@[i]@[0].rank,
                    ) by {
                        if i < prev_out.len() {
                            assert(out@[i] == prev_out[i]);
                        }
                    }
                }
            } else {
                proof {
                    assert(rank_count(orig, rank) != cnt || groups_have_rank(out@, rank));
                    assert forall|rk: Rank|
                        #[trigger] groups_have_rank(out@, rk) <==> (rank_count(orig, rk) >= 4 && (
                    rank_count(orig, rk) > cnt || (rank_count(orig, rk) == cnt && rk.spec_value()
                        > v - 1))) by {
                        lemma_rank_value_roundtrip(rk);
                    }
                }
            }
            v = v - 1;
        }
        cnt = cnt - 1;
    }
    out
}

/// Do the first three cards of this rank share one suit? Such a skipped
/// group stays in the hand for the later passes; a mixed group becomes a
/// standalone triple.
fn first_three_same_suit(remaining: &Vec<Card>, rank: Rank) -> (b: bool)
    ensures
        b ==> exists|su: Suit| suit_rank_count(remaining@, su, rank) >= 3,
{
    let n = remaining.len();
    let mut seen: usize = 0;
    let mut same = true;
    let mut first_suit = Suit::Diamonds;
    let mut i: usize = 0;
    proof {
        assert(remaining@.take(0) =~= Seq::<Card>::empty());
        assert(remaining@.take(0).to_multiset() =~= Multiset::<Card>::empty());
        assert(remaining@.take(0).to_multiset().len() == 0);
    }
    while i < n
        invariant
            0 <= i <= n,
            n == remaining@.len(),
            seen <= 3,
            same && seen >= 1 ==> suit_rank_count(remaining@.take(i as int), first_suit, rank)
                >= seen,
        decreases n - i,
    {
        let ghost prefix = remaining@.take(i as int);
        let c = remaining[i];
        proof {
            crate::models::counting::lemma_take_one_more(remaining@, i as int);
            crate::models::counting::lemma_counts_insert(prefix, remaining@.take(i + 1), c);
        }
        if c.rank == rank {
            if seen == 0 {
                first_suit = c.suit;
            } else if c.suit != first_suit {
                same = false;
            }
            if seen < 3 {
                seen = seen + 1;
            }
            if seen == 3 {
                if same {
                    proof {
                        assert(remaining@.take(i + 1) =~= remaining@.take(i as int).push(c));
                        assert(suit_rank_count(remaining@.take(i + 1), first_suit, rank) >= 3);
                        assert(remaining@ =~= remaining@.take(i + 1) + remaining@.skip(i + 1));
                        crate::ai_helpers::extract::lemma_counts_concat(
                            remaining@,
                            remaining@.take(i + 1),
                            remaining@.skip(i + 1),
                        );
                        assert(suit_rank_count(remaining@, first_suit, rank) >= 3);
                    }
                }
                return same;
            }
        }
        i = i + 1;
    }
    false
}

/// Extracts standalone triples from ranks still holding three cards of
/// mixed suits, highest rank first.
fn extract_triples(remaining: &mut Vec<Card>) -> (out: Vec<Vec<Card>>)
    ensures
        final(remaining)@.to_multiset().add(groups_ms(out@)) == old(remaining)@.to_multiset(),
        forall|i: int| 0 <= i < out@.len() ==> is_triple(#[trigger] out@[i]@),
        out@.len() + final(remaining)@.len() <= old(remaining)@.len(),
        forall|i: int, j: int|
            0 <= i < j < out@.len() ==> (#[trigger] out@[i])@[0].rank.spec_value()
                > (#[trigger] out@[j])@[0].rank.spec_value(),
        forall|rk: Rank|
            #[trigger] rank_count(final(remaining)@, rk) == rank_count(old(remaining)@, rk) - (
            if groups_have_rank(out@, rk) {
                3int
            } else {
                0int
            }),
        forall|rk: Rank| #[trigger] groups_have_rank(out@, rk) ==> rank_count(old(remaining)@, rk)
            >= 3,
        forall|rk: Rank|
            rank_count(old(remaining)@, rk) >= 3 && (forall|su: Suit|
                #[trigger] suit_rank_count(old(remaining)@, su, rk) <= 2) ==> groups_have_rank(
                out@,
                rk,
            ),
{
    let ghost orig = remaining@;
    let mut out: Vec<Vec<Card>> = Vec::new();
    proof {
        assert(groups_ms(out@) == Multiset::<Card>::empty());
        assert(remaining@.to_multiset().add(groups_ms(out@)) =~= orig.to_multiset());
    }
    let mut v: u8 = 15;
    while v >= 3
        invariant
            2 <= v <= 15,
            remaining@.to_multiset().add(groups_ms(out@)) == orig.to_multiset(),
            forall|i: int| 0 <= i < out@.len() ==> is_triple(#[trigger] out@[i]@),
            out@.len() + remaining@.len() <= orig.len(),
            forall|i: int| 0 <= i < out@.len() ==> (#[trigger] out@[i])@[0].rank.spec_value() > v,
            forall|i: int, j: int|
                0 <= i < j < out@.len() ==> (#[trigger] out@[i])@[0].rank.spec_value()
                    > (#[trigger] out@[j])@[0].rank.spec_value(),
            forall|rk: Rank|
                #[trigger] rank_count(remaining@, rk) == rank_count(orig, rk) - (
                if groups_have_rank(out@, rk) {
                    3int
                } else {
                    0int
                }),
            forall|su: Suit, rk: Rank|
                rk.spec_value() <= v ==> #[trigger] suit_rank_count(remaining@, su, rk)
                    == suit_rank_count(orig, su, rk),
            forall|rk: Rank|
                #[trigger] groups_have_rank(out@, rk) ==> rank_count(orig, rk) >= 3
                    && rk.spec_value() > v,
            forall|rk: Rank|
                rk.spec_value() > v && rank_count(orig, rk) >= 3 && (forall|su: Suit|
                    #[trigger] suit_rank_count(orig, su, rk) <= 2) ==> groups_have_rank(out@, rk),
        decreases v,
    {
        let rank = rank_from_value(v);
        let ghost prev_rem = remaining@;
        let ghost prev_out0 = out@;
        proof {
            lemma_rank_value_roundtrip(rank);
            if groups_have_rank(out@, rank) {
                let i = choose|i: int| 0 <= i < out@.len() && out@[i]@[0].rank == rank;
                assert(out@[i]@[0].rank.spec_value() > v);
                assert(false);
            }
            assert(rank_count(remaining@, rank) == rank_count(orig, rank));
        }
        if count_rank(remaining, rank) >= 3 {
            if !first_three_same_suit(remaining, rank) {
                let g = take_rank(remaining, rank, 3);
                proof {
                    assert(g@[0].rank == rank);
                    assert(is_triple(g@));
                }
                let ghost prev_out = out@;
                out.push(g);
                proof {
                    lemma_groups_ms_push(prev_out, g);
                    assert(remaining@.to_multiset().add(groups_ms(out@)) =~= orig.to_multiset());
                    assert(out@[out@.len() - 1]@[0].rank == rank);
                    assert forall|rk: Rank|
                        #[trigger] groups_have_rank(out@, rk) <==> (groups_have_rank(prev_out, rk)
                        || rk == rank) by {
                        if groups_have_rank(out@, rk) {
                            let i = choose|i: int| 0 <= i < out@.len() && out@[i]@[0].rank == rk;
                            if i < prev_out.len() {
                                assert(prev_out[i] == out@[i]);
                                assert(groups_have_rank(prev_out, rk));
                            }
                        }
                        if groups_have_rank(prev_out, rk) {
                            let i = choose|i: int|
                                0 <= i < prev_out.len() && prev_out[i]@[0].rank == rk;
                            assert(out@[i]@[0].rank == rk);
                        }
                        if rk == rank {
                            assert(out@[out@.len() - 1]@[0].rank == rk);
                        }
                    }
                    assert forall|rk: Rank|
                        #[trigger] rank_count(remaining@, rk) == rank_count(orig, rk) - (
                    if groups_have_rank(out@, rk) {
                        3int
                    } else {
                        0int
                    }) by {
                        if rk == rank {
                            assert(rank_count(remaining@, rk) + 3 == rank_count(prev_rem, rk));
                        } else {
                            assert(rank_count(remaining@, rk) == rank_count(prev_rem, rk));
                        }
                    }
                    assert forall|su: Suit, rk: Rank|
                        rk.spec_value() <= v - 1 implies #[trigger] suit_rank_count(
                        remaining@,
                        su,
                        rk,
                    ) == suit_rank_count(orig, su, rk) by {
                        lemma_rank_value_roundtrip(rk);
                        assert(rk != rank);
                        assert(suit_rank_count(remaining@, su, rk) == suit_rank_count(
                            prev_rem,
                            su,
                            rk,
                        ));
                    }
                }
            } else {
                proof {
                    let su0 = choose|su: Suit| suit_rank_count(remaining@, su, rank) >= 3;
                    assert(suit_rank_count(orig, su0, rank) >= 3);
                }
            }
        }
        proof {
            assert forall|rk: Rank|
                rk.spec_value() > v - 1 && rank_count(orig, rk) >= 3 && (forall|su: Suit|
                    #[trigger] suit_rank_count(orig, su, rk) <= 2) implies groups_have_rank(
                out@,
                rk,
            ) by {
                lemma_rank_value_roundtrip(rk);
                if rk.spec_value() == v as int {
                    assert(rk == rank);
                    if !groups_have_rank(out@, rk) {
                        assert(out@ == prev_out0);
                        assert(suit_rank_count(orig, Suit::Diamonds, rank) <= 2);
                        assert(suit_rank_count(orig, Suit::Clubs, rank) <= 2);
                        assert(suit_rank_count(orig, Suit::Hearts, rank) <= 2);
                        assert(suit_rank_count(orig, Suit::Spades, rank) <= 2);
                        assert(false);
                    }
                } else {
                    assert(groups_have_rank(prev_out0, rk) ==> groups_have_rank(out@, rk)) by {
                        if groups_have_rank(prev_out0, rk) && out@ != prev_out0 {
                            let i = choose|i: int|
                                0 <= i < prev_out0.len() && prev_out0[i]@[0].rank == rk;
                            assert(out@[i]@[0].rank == rk);
                        }
                    }
                }
            }
        }
        v = v - 1;
    }
    out
}

/// Peels pairs from the leftover ranks, highest rank first, two at a time.
fn extract_pairs(remaining: &mut Vec<Card>) -> (out: Vec<Vec<Card>>)
    ensures
        final(remaining)@.to_multiset().add(groups_ms(out@)) == old(remaining)@.to_multiset(),
        forall|i: int| 0 <= i < out@.len() ==> is_pair(#[trigger] out@[i]@),
        out@.len() + final(remaining)@.len() <= old(remaining)@.len(),
        forall|i: int, j: int|
            0 <= i < j < out@.len() ==> (#[trigger] out@[i])@[0].rank.spec_value()
                >= (#[trigger] out@[j])@[0].rank.spec_value(),
        forall|rk: Rank|
            #[trigger] rank_count(final(remaining)@, rk) == rank_count(old(remaining)@, rk) % 2,
{
    let ghost orig = remaining@;
    let mut out: Vec<Vec<Card>> = Vec::new();
    proof {
        assert(groups_ms(out@) == Multiset::<Card>::empty());
        assert(remaining@.to_multiset().add(groups_ms(out@)) =~= orig.to_multiset());
    }
    let mut v: u8 = 15;
    while v >= 3
        invariant
            2 <= v <= 15,
            remaining@.to_multiset().add(groups_ms(out@)) == orig.to_multiset(),
            forall|i: int| 0 <= i < out@.len() ==> is_pair(#[trigger] out@[i]@),
            out@.len() + remaining@.len() <= orig.len(),
            forall|i: int| 0 <= i < out@.len() ==> (#[trigger] out@[i])@[0].rank.spec_value() >= v,
            forall|i: int, j: int|
                0 <= i < j < out@.len() ==> (#[trigger] out@[i])@[0].rank.spec_value()
                    >= (#[trigger] out@[j])@[0].rank.spec_value(),
            forall|rk: Rank|
                #[trigger] rank_count(remaining@, rk) == (if rk.spec_value() > v {
                    (rank_count(orig, rk) % 2) as int
                } else {
                    rank_count(orig, rk) as int
                }),
        decreases v,
    {
        let rank = rank_from_value(v);
        proof {
            lemma_rank_value_roundtrip(rank);
        }
        let mut c = count_rank(remaining, rank);
        while c >= 2
            invariant
                2 <= v <= 15,
                rank == rank_of_value(v as int),
                rank.spec_value() == v,
                c == rank_count(remaining@, rank),
                c % 2 == rank_count(orig, rank) % 2,
                remaining@.to_multiset().add(groups_ms(out@)) == orig.to_multiset(),
                forall|i: int| 0 <= i < out@.len() ==> is_pair(#[trigger] out@[i]@),
                out@.len() + remaining@.len() <= orig.len(),
                forall|i: int|
                    0 <= i < out@.len() ==> (#[trigger] out@[i])@[0].rank.spec_value() >= v,
                forall|i: int, j: int|
                    0 <= i < j < out@.len() ==> (#[trigger] out@[i])@[0].rank.spec_value()
                        >= (#[trigger] out@[j])@[0].rank.spec_value(),
                forall|rk: Rank|
                    rk != rank ==> #[trigger] rank_count(remaining@, rk) == (if rk.spec_value()
                        > v {
                        (rank_count(orig, rk) % 2) as int
                    } else {
                        rank_count(orig, rk) as int
                    }),
            decreases c,
        {
            let ghost prev_rem = remaining@;
            let g = take_rank(remaining, rank, 2);
            proof {
                assert(g@[0].rank == rank);
                assert(is_pair(g@));
                assert forall|rk: Rank|
                    rk != rank implies #[trigger] rank_count(remaining@, rk) == (
                if rk.spec_value() > v {
                    (rank_count(orig, rk) % 2) as int
                } else {
                    rank_count(orig, rk) as int
                }) by {
                    assert(rank_count(remaining@, rk) == rank_count(prev_rem, rk));
                }
            }
            let ghost prev_out = out@;
            out.push(g);
            proof {
                lemma_groups_ms_push(prev_out, g);
                assert(remaining@.to_multiset().add(groups_ms(out@)) =~= orig.to_multiset());
            }
            c = c - 2;
        }
        proof {
            assert(c < 2 && c % 2 == rank_count(orig, rank) % 2);
            assert(c == rank_count(orig, rank) % 2);
            assert forall|rk: Rank|
                #[trigger] rank_count(remaining@, rk) == (if rk.spec_value() > v - 1 {
                (rank_count(orig, rk) % 2) as int
            } else {
                rank_count(orig, rk) as int
            }) by {
                lemma_rank_value_roundtrip(rk);
                if rk == rank {
                    assert(rank_count(remaining@, rk) == c);
                }
            }
        }
        v = v - 1;
    }
    out
}

/// Collects everything left as singles, highest rank first; the hand is
/// emptied.
fn extract_singles(remaining: &mut Vec<Card>) -> (singles: Vec<Card>)
    ensures
        singles@.to_multiset() == old(remaining)@.to_multiset(),
        final(remaining)@.len() == 0,
        singles@.len() == old(remaining)@.len(),
        forall|i: int, j: int|
            0 <= i < j < singles@.len() ==> (#[trigger] singles@[i]).rank.spec_value()
                >= (#[trigger] singles@[j]).rank.spec_value(),
{
    let ghost orig = remaining@;
    let mut singles: Vec<Card> = Vec::new();
    proof {
        assert(singles@.to_multiset() =~= Multiset::<Card>::empty());
        assert(remaining@.to_multiset().add(singles@.to_multiset()) =~= orig.to_multiset());
    }
    let mut v: u8 = 15;
    while v >= 3
        invariant
            2 <= v <= 15,
            remaining@.to_multiset().add(singles@.to_multiset()) == orig.to_multiset(),
            remaining@.len() + singles@.len() == orig.len(),
            forall|u: int| v < u <= 15 ==> #[trigger] rank_count_v(remaining@, u) == 0,
            forall|i: int| 0 <= i < singles@.len() ==> (#[trigger] singles@[i]).rank.spec_value()
                >= v,
            forall|i: int, j: int|
                0 <= i < j < singles@.len() ==> (#[trigger] singles@[i]).rank.spec_value()
                    >= (#[trigger] singles@[j]).rank.spec_value(),
        decreases v,
    {
        let rank = rank_from_value(v);
        let c = count_rank(remaining, rank);
        let ghost prev_rem = remaining@;
        let ghost prev_singles = singles@;
        let mut g = take_rank(remaining, rank, c);
        let ghost tk = g@;
        singles.append(&mut g);
        proof {
            assert(singles@ == prev_singles + tk);
            lemma_counts_concat(singles@, prev_singles, tk);
            assert(singles@.to_multiset() == prev_singles.to_multiset().add(tk.to_multiset()));
            assert(remaining@.to_multiset().add(singles@.to_multiset()) =~= orig.to_multiset());
            lemma_rank_value_roundtrip(rank);
            assert forall|u: int| v - 1 < u <= 15 implies #[trigger] rank_count_v(remaining@, u)
                == 0 by {
                if 3 <= u <= 15 {
                    lemma_rank_value_roundtrip(rank_of_value(u));
                    if u == v as int {
                        assert(rank_count(remaining@, rank) == 0);
                    } else {
                        assert(rank_of_value(u) != rank);
                        assert(rank_count(remaining@, rank_of_value(u)) == rank_count(
                            prev_rem,
                            rank_of_value(u),
                        ));
                        assert(rank_count_v(prev_rem, u) == 0);
                    }
                }
            }
        }
        v = v - 1;
    }
    proof {
        if remaining@.len() > 0 {
            let c0 = remaining@[0];
            assert(remaining@.contains(c0));
            lemma_contains_count(remaining@, c0);
            lemma_rank_value_roundtrip(c0.rank);
            let w = c0.rank.spec_value() as int;
            assert(rank_of_value(w) == c0.rank);
            assert(rank_count(remaining@, c0.rank) >= suit_rank_count(
                remaining@,
                c0.suit,
                c0.rank,
            )) by {
                if c0.suit == Suit::Diamonds {
                } else if c0.suit == Suit::Clubs {
                } else if c0.suit == Suit::Hearts {
                } else {
                }
            }
            assert(rank_count_v(remaining@, w) > 0);
            assert(false);
        }
    }
    singles
}

/// Does the hand hold a control card: a Two, an Ace or a King?
fn scan_control_cards(hand: &[Card]) -> (b: bool)
    ensures
        b == exists|i: int|
            0 <= i < hand@.len() && ((#[trigger] hand@[i].rank) == Rank::Two || hand@[i].rank
                == Rank::Ace || hand@[i].rank == Rank::King),
{
    let n = hand.len();
    let mut i: usize = 0;
    while i < n
        invariant
            0 <= i <= n,
            n == hand@.len(),
            forall|j: int|
                0 <= j < i ==> !((#[trigger] hand@[j].rank) == Rank::Two || hand@[j].rank
                    == Rank::Ace || hand@[j].rank == Rank::King),
        decreases n - i,
    {
        let r = hand[i].rank;
        if r == Rank::Two || r == Rank::Ace || r == Rank::King {
            return true;
        }
        i = i + 1;
    }
    false
}

/// Cards of the rank left once the Dizha, Tongzi and Bomb passes are done.
pub open spec fn count_after_bombs(hand: Seq<Card>, rk: Rank) -> int {
    if rank_before_bombs(hand, rk) >= 4 {
        0int
    } else {
        rank_before_bombs(hand, rk)
    }
}

/// Cards of the rank left once the airplane pass has also run.
pub open spec fn count_after_airplanes(hand: Seq<Card>, chains: Seq<Vec<Card>>, rk: Rank) -> int {
    count_after_bombs(hand, rk) - groups_rank_count(chains, rk)
}

/// Cards of the rank left once the triple pass has also run.
pub open spec fn count_after_triples(
    hand: Seq<Card>,
    chains: Seq<Vec<Card>>,
    triples: Seq<Vec<Card>>,
    rk: Rank,
) -> int {
    count_after_airplanes(hand, chains, rk) - (if groups_have_rank(triples, rk) {
        3int
    } else {
        0int
    })
}

/// Cards of the rank left once the consecutive-pair pass has also run.
pub open spec fn count_after_pair_chains(
    hand: Seq<Card>,
    chains: Seq<Vec<Card>>,
    triples: Seq<Vec<Card>>,
    cp: Seq<Vec<Card>>,
    rk: Rank,
) -> int {
    count_after_triples(hand, chains, triples, rk) - groups_rank_count(cp, rk)
}

/// Analyzes hand patterns: the non-overlapping greedy decomposition.
pub struct HandPatternAnalyzer;

impl HandPatternAnalyzer {
    /// Decomposes the hand into non-overlapping resources, extracted in the
    /// fixed priority order Dizha, Tongzi, Bomb, Airplane, Triple,
    /// ConsecutivePairs, Pair, Single.
    ///
    /// The buckets partition the hand exactly: the multiset union of all
    /// buckets equals the input hand, with no card duplicated or dropped.
    pub fn analyze_patterns(hand: &[Card]) -> (r: HandPatterns)
        ensures
            r.cards_ms() == hand@.to_multiset(),
            r.total_cards == hand@.len(),
            r.trump_count == r.dizha@.len() + r.tongzi@.len() + r.bombs@.len(),
            r.has_control_cards == exists|i: int|
                0 <= i < hand@.len() && ((#[trigger] hand@[i].rank) == Rank::Two || hand@[i].rank
                    == Rank::Ace || hand@[i].rank == Rank::King),
            forall|i: int| 0 <= i < r.dizha@.len() ==> is_dizha(#[trigger] r.dizha@[i]@),
            forall|i: int| 0 <= i < r.tongzi@.len() ==> is_tongzi(#[trigger] r.tongzi@[i]@),
            forall|i: int| 0 <= i < r.bombs@.len() ==> is_bomb(#[trigger] r.bombs@[i]@),
            forall|i: int|
                0 <= i < r.airplane_chains@.len() ==> is_airplane(
                    #[trigger] r.airplane_chains@[i]@,
                ),
            forall|i: int| 0 <= i < r.triples@.len() ==> is_triple(#[trigger] r.triples@[i]@),
            forall|i: int|
                0 <= i < r.consecutive_pair_chains@.len() ==> is_consecutive_pairs(
                    #[trigger] r.consecutive_pair_chains@[i]@,
                ),
            forall|i: int| 0 <= i < r.pairs@.len() ==> is_pair(#[trigger] r.pairs@[i]@),
            forall|i: int, j: int|
                0 <= i < j < r.dizha@.len() ==> (#[trigger] r.dizha@[i])@[0].rank.spec_value()
                    > (#[trigger] r.dizha@[j])@[0].rank.spec_value(),
            forall|i: int, j: int|
                0 <= i < j < r.triples@.len() ==> (#[trigger] r.triples@[i])@[0].rank.spec_value()
                    > (#[trigger] r.triples@[j])@[0].rank.spec_value(),
            forall|i: int, j: int|
                0 <= i < j < r.pairs@.len() ==> (#[trigger] r.pairs@[i])@[0].rank.spec_value()
                    >= (#[trigger] r.pairs@[j])@[0].rank.spec_value(),
            forall|i: int, j: int|
                0 <= i < j < r.singles@.len() ==> (#[trigger] r.singles@[i]).rank.spec_value()
                    >= (#[trigger] r.singles@[j]).rank.spec_value(),
            forall|i: int, j: int|
                0 <= i < j < r.tongzi@.len() ==> (#[trigger] r.tongzi@[i])@[0].suit.spec_value()
                    > (#[trigger] r.tongzi@[j])@[0].suit.spec_value() || (r.tongzi@[i]@[0].suit
                    == r.tongzi@[j]@[0].suit && r.tongzi@[i]@[0].rank.spec_value()
                    > r.tongzi@[j]@[0].rank.spec_value()),
            forall|i: int, j: int|
                0 <= i < j < r.bombs@.len() ==> (#[trigger] r.bombs@[i])@.len()
                    > (#[trigger] r.bombs@[j])@.len() || (r.bombs@[i]@.len() == r.bombs@[j]@.len()
                    && r.bombs@[i]@[0].rank.spec_value() > r.bombs@[j]@[0].rank.spec_value()),
            forall|i: int, j: int|
                0 <= i < j < r.airplane_chains@.len() ==> (#[trigger] r.airplane_chains@[i])@.len()
                    > (#[trigger] r.airplane_chains@[j])@.len() || (r.airplane_chains@[i]@.len()
                    == r.airplane_chains@[j]@.len() && low_rank_v(r.airplane_chains@[i]@)
                    > low_rank_v(r.airplane_chains@[j]@)),
            forall|i: int, j: int|
                0 <= i < j < r.consecutive_pair_chains@.len() ==> (
                #[trigger] r.consecutive_pair_chains@[i])@.len()
                    > (#[trigger] r.consecutive_pair_chains@[j])@.len() || (
                r.consecutive_pair_chains@[i]@.len() == r.consecutive_pair_chains@[j]@.len()
                    && low_rank_v(r.consecutive_pair_chains@[i]@) > low_rank_v(
                    r.consecutive_pair_chains@[j]@,
                )),
            forall|rk: Rank| #[trigger] groups_have_rank(r.dizha@, rk) <==> dizha_ready(hand@, rk),
            forall|su: Suit, rk: Rank|
                #[trigger] groups_have_cell(r.tongzi@, su, rk) <==> cell_after_dizha(hand@, su, rk)
                    >= 3,
            forall|rk: Rank| #[trigger] groups_have_rank(r.bombs@, rk) <==> rank_before_bombs(
                hand@,
                rk,
            ) >= 4,
            forall|i: int|
                0 <= i < r.bombs@.len() ==> (#[trigger] r.bombs@[i])@.len() == rank_before_bombs(
                    hand@,
                    r.bombs@[i]@[0].rank,
                ),
            forall|u: int|
                3 <= u && u + 1 <= 14 ==> !(#[trigger] count_after_airplanes(
                    hand@,
                    r.airplane_chains@,
                    rank_of_value(u),
                ) >= 3 && count_after_airplanes(hand@, r.airplane_chains@, rank_of_value(u + 1))
                    >= 3),
            forall|u: int|
                3 <= u && u + 1 <= 14 ==> !(#[trigger] count_after_pair_chains(
                    hand@,
                    r.airplane_chains@,
                    r.triples@,
                    r.consecutive_pair_chains@,
                    rank_of_value(u),
                ) >= 2 && count_after_pair_chains(
                    hand@,
                    r.airplane_chains@,
                    r.triples@,
                    r.consecutive_pair_chains@,
                    rank_of_value(u + 1),
                ) >= 2),
            forall|rk: Rank|
                #[trigger] groups_rank_count(r.pairs@, rk) == count_after_pair_chains(
                    hand@,
                    r.airplane_chains@,
                    r.triples@,
                    r.consecutive_pair_chains@,
                    rk,
                ) - count_after_pair_chains(
                    hand@,
                    r.airplane_chains@,
                    r.triples@,
                    r.consecutive_pair_chains@,
                    rk,
                ) % 2,
            forall|rk: Rank|
                #[trigger] rank_count(r.singles@, rk) == count_after_pair_chains(
                    hand@,
                    r.airplane_chains@,
                    r.triples@,
                    r.consecutive_pair_chains@,
                    rk,
                ) % 2,
    {
        let mut remaining: Vec<Card> = slice_to_vec(hand);
        let ghost orig = remaining@;
        proof {
            assert(orig =~= hand@);
        }
        let total_cards = remaining.len();
        let has_control_cards = scan_control_cards(hand);
        let dizha = extract_dizha(&mut remaining);
        let ghost rem1 = remaining@;
        proof {
            assert forall|su: Suit, rk: Rank|
                #[trigger] suit_rank_count(rem1, su, rk) == cell_after_dizha(hand@, su, rk) by {}
        }
        let tongzi = extract_tongzi(&mut remaining);
        let ghost rem2 = remaining@;
        proof {
            assert forall|su: Suit, rk: Rank|
                #[trigger] suit_rank_count(rem2, su, rk) == cell_after_tongzi(hand@, su, rk) by {
                assert(suit_rank_count(rem1, su, rk) == cell_after_dizha(hand@, su, rk));
            }
            assert forall|rk: Rank|
                #[trigger] rank_count(rem2, rk) == rank_before_bombs(hand@, rk) by {
                assert(suit_rank_count(rem2, Suit::Diamonds, rk) == cell_after_tongzi(
                    hand@,
                    Suit::Diamonds,
                    rk,
                ));
                assert(suit_rank_count(rem2, Suit::Clubs, rk) == cell_after_tongzi(
                    hand@,
                    Suit::Clubs,
                    rk,
                ));
                assert(suit_rank_count(rem2, Suit::Hearts, rk) == cell_after_tongzi(
                    hand@,
                    Suit::Hearts,
                    rk,
                ));
                assert(suit_rank_count(rem2, Suit::Spades, rk) == cell_after_tongzi(
                    hand@,
                    Suit::Spades,
                    rk,
                ));
            }
        }
        let bombs = extract_bombs(&mut remaining);
        let ghost rem3 = remaining@;
        proof {
            assert forall|u: int| #[trigger] rank_count_v(rem3, u) <= 5 by {
                if 3 <= u <= 15 {
                    lemma_rank_value_roundtrip(rank_of_value(u));
                    assert(rank_count(rem3, rank_of_value(u)) == (if rank_count(
                        rem2,
                        rank_of_value(u),
                    ) >= 4 {
                        0int
                    } else {
                        rank_count(rem2, rank_of_value(u)) as int
                    }));
                }
            }
        }
        proof {
            assert forall|rk: Rank| #[trigger] rank_count(rem3, rk) == count_after_bombs(
                hand@,
                rk,
            ) by {
                assert(rank_count(rem2, rk) == rank_before_bombs(hand@, rk));
            }
        }
        let airplane_chains = extract_chains(&mut remaining, 3);
        let ghost rem4 = remaining@;
        proof {
            assert forall|rk: Rank| #[trigger] rank_count(rem4, rk) == count_after_airplanes(
                hand@,
                airplane_chains@,
                rk,
            ) by {
                lemma_partition_rank_count(rem3, rem4, airplane_chains@, rk);
            }
            assert forall|u: int|
                3 <= u && u + 1 <= 14 implies !(#[trigger] count_after_airplanes(
                hand@,
                airplane_chains@,
                rank_of_value(u),
            ) >= 3 && count_after_airplanes(hand@, airplane_chains@, rank_of_value(u + 1))
                >= 3) by {
                assert(rank_count_v(rem4, u) == rank_count(rem4, rank_of_value(u)));
                assert(rank_count_v(rem4, u + 1) == rank_count(rem4, rank_of_value(u + 1)));
                assert(!(rank_count_v(rem4, u) >= 3 && rank_count_v(rem4, u + 1) >= 3));
            }
        }
        let triples = extract_triples(&mut remaining);
        let ghost rem5 = remaining@;
        proof {
            assert forall|u: int| #[trigger] rank_count_v(rem5, u) <= 3 by {
                if 3 <= u <= 15 {
                    lemma_rank_value_roundtrip(rank_of_value(u));
                    assert(rank_count_v(rem4, u) <= rank_count_v(rem3, u));
                    assert(rank_count(rem5, rank_of_value(u)) == rank_count(
                        rem4,
                        rank_of_value(u),
                    ) - (if groups_have_rank(triples@, rank_of_value(u)) {
                        3int
                    } else {
                        0int
                    }));
                }
            }
        }
        proof {
            assert forall|rk: Rank| #[trigger] rank_count(rem5, rk) == count_after_triples(
                hand@,
                airplane_chains@,
                triples@,
                rk,
            ) by {}
        }
        let consecutive_pair_chains = extract_chains(&mut remaining, 2);
        let ghost rem6 = remaining@;
        proof {
            assert forall|rk: Rank| #[trigger] rank_count(rem6, rk) == count_after_pair_chains(
                hand@,
                airplane_chains@,
                triples@,
                consecutive_pair_chains@,
                rk,
            ) by {
                lemma_partition_rank_count(rem5, rem6, consecutive_pair_chains@, rk);
            }
            assert forall|u: int|
                3 <= u && u + 1 <= 14 implies !(#[trigger] count_after_pair_chains(
                hand@,
                airplane_chains@,
                triples@,
                consecutive_pair_chains@,
                rank_of_value(u),
            ) >= 2 && count_after_pair_chains(
                hand@,
                airplane_chains@,
                triples@,
                consecutive_pair_chains@,
                rank_of_value(u + 1),
            ) >= 2) by {
                assert(rank_count_v(rem6, u) == rank_count(rem6, rank_of_value(u)));
                assert(rank_count_v(rem6, u + 1) == rank_count(rem6, rank_of_value(u + 1)));
                assert(!(rank_count_v(rem6, u) >= 2 && rank_count_v(rem6, u + 1) >= 2));
            }
        }
        let pairs = extract_pairs(&mut remaining);
        let ghost rem7 = remaining@;
        proof {
            assert forall|rk: Rank| #[trigger] groups_rank_count(pairs@, rk)
                == count_after_pair_chains(
                hand@,
                airplane_chains@,
                triples@,
                consecutive_pair_chains@,
                rk,
            ) - count_after_pair_chains(
                hand@,
                airplane_chains@,
                triples@,
                consecutive_pair_chains@,
                rk,
            ) % 2 by {
                lemma_partition_rank_count(rem6, rem7, pairs@, rk);
            }
        }
        let singles = extract_singles(&mut remaining);
        proof {
            assert forall|rk: Rank| #[trigger] rank_count(singles@, rk) == rank_count(
                rem7,
                rk,
            ) by {
                assert(suit_rank_count(singles@, Suit::Diamonds, rk) == suit_rank_count(
                    rem7,
                    Suit::Diamonds,
                    rk,
                ));
                assert(suit_rank_count(singles@, Suit::Clubs, rk) == suit_rank_count(
                    rem7,
                    Suit::Clubs,
                    rk,
                ));
                assert(suit_rank_count(singles@, Suit::Hearts, rk) == suit_rank_count(
                    rem7,
                    Suit::Hearts,
                    rk,
                ));
                assert(suit_rank_count(singles@, Suit::Spades, rk) == suit_rank_count(
                    rem7,
                    Suit::Spades,
                    rk,
                ));
            }
        }
        let trump_count = dizha.len() + tongzi.len() + bombs.len();
        let r = HandPatterns {
            dizha,
            tongzi,
            bombs,
            airplane_chains,
            triples,
            consecutive_pair_chains,
            pairs,
            singles,
            total_cards,
            trump_count,
            has_control_cards,
        };
        proof {
            assert(r.cards_ms() =~= hand@.to_multiset());
        }
        r
    }
}

} // verus!
