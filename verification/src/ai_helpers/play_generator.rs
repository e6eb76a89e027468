//! Play generation: enumerating candidate plays from a hand, and the
//! beating plays against a current pattern.

use vstd::prelude::*;

use crate::ai_helpers::identical_play_filter::filter_consecutive_pairs;
use crate::ai_helpers::identical_play_filter::filter_pairs;
use crate::ai_helpers::identical_play_filter::filter_singles;
use crate::ai_helpers::identical_play_filter::filter_triples;
use crate::models::card::Card;
use crate::models::card::Rank;
use crate::models::card::Suit;
use crate::models::card::rank_from_value;
use crate::models::card::rank_of_value;
use crate::models::counting::rank_count;
use crate::models::counting::suit_rank_count;
use crate::models::counting::rank_count_v;
use crate::patterns::pattern::PlayPattern;
use crate::patterns::pattern::PlayType;
use crate::patterns::recognizer::MAX_PLAY_CARDS;
use crate::patterns::recognizer::PatternRecognizer;
use crate::patterns::recognizer::PlayValidator;
use crate::patterns::recognizer::beats;
use crate::patterns::shapes::classifiable;
use crate::patterns::shapes::is_pair;
use crate::patterns::shapes::bomb_rank_model;
use crate::patterns::shapes::single_model;
use crate::patterns::shapes::classify_model;

verus! {

broadcast use {
    vstd::seq_lib::group_to_multiset_ensures,
    vstd::multiset::group_multiset_axioms,
    vstd::multiset::group_multiset_properties,
};

/// Every card of every play comes from the hand.
pub open spec fn plays_from(plays: Seq<Vec<Card>>, hand: Seq<Card>) -> bool {
    forall|i: int|
        0 <= i < plays.len() ==> forall|x: int|
            0 <= x < (#[trigger] plays[i])@.len() ==> hand.contains(#[trigger] plays[i]@[x])
}

/// Every play is classifiable and within the size cap.
pub open spec fn plays_classifiable(plays: Seq<Vec<Card>>) -> bool {
    forall|i: int|
        0 <= i < plays.len() ==> classifiable((#[trigger] plays[i])@) && plays[i]@.len()
            <= MAX_PLAY_CARDS
}

/// Every rank held by the hand appears as a one-card play in the list.
pub open spec fn covers_singles(plays: Seq<Vec<Card>>, hand: Seq<Card>) -> bool {
    forall|rk: Rank|
        crate::ai_helpers::identical_play_filter::has_rank(hand, rk) ==> exists|y: int|
            0 <= y < plays.len() && (#[trigger] plays[y])@.len() == 1 && plays[y]@[0].rank == rk
}

/// Extending the play list never loses the singles coverage.
proof fn lemma_covers_extend(prev: Seq<Vec<Card>>, cur: Seq<Vec<Card>>, hand: Seq<Card>)
    requires
        covers_singles(prev, hand),
        cur.len() >= prev.len(),
        forall|i: int| 0 <= i < prev.len() ==> #[trigger] cur[i] == prev[i],
    ensures
        covers_singles(cur, hand),
{
    assert forall|rk: Rank|
        crate::ai_helpers::identical_play_filter::has_rank(hand, rk) implies exists|y: int|
        0 <= y < cur.len() && (#[trigger] cur[y])@.len() == 1 && cur[y]@[0].rank == rk by {
        let y = choose|y: int|
            0 <= y < prev.len() && (#[trigger] prev[y])@.len() == 1 && prev[y]@[0].rank == rk;
        assert(cur[y] == prev[y]);
    }
}

/// All cards of one rank, in hand order.
/// Some listed play classifies as a bomb of the rank and size.
pub open spec fn has_bomb_play(plays: Seq<Vec<Card>>, rk: Rank, sz: nat) -> bool {
    exists|y: int|
        0 <= y < plays.len() && classify_model((#[trigger] plays[y])@) == Some(
            bomb_rank_model(rk, sz),
        )
}

/// Some listed play classifies as a tongzi of the cell.
pub open spec fn has_tongzi_play(plays: Seq<Vec<Card>>, su: Suit, rk: Rank) -> bool {
    exists|y: int|
        0 <= y < plays.len() && classify_model((#[trigger] plays[y])@) == Some(
            crate::patterns::shapes::tongzi_cell_model(rk, su),
        )
}

/// Some listed play classifies as a dizha of the rank.
pub open spec fn has_dizha_play(plays: Seq<Vec<Card>>, rk: Rank) -> bool {
    exists|y: int|
        0 <= y < plays.len() && classify_model((#[trigger] plays[y])@) == Some(
            crate::patterns::shapes::dizha_rank_model(rk),
        )
}

/// Every rank value appears fewer than `m` times in the hand.
pub open spec fn all_counts_below(hand: Seq<Card>, m: int) -> bool {
    forall|u: int| #[trigger] rank_count_v(hand, u) < m
}

fn cards_of_rank(hand: &[Card], rank: Rank) -> (out: Vec<Card>)
    ensures
        forall|x: int|
            0 <= x < out@.len() ==> (#[trigger] out@[x]).rank == rank && hand@.contains(out@[x]),
        out@.len() <= hand@.len(),
        out@.len() == rank_count(hand@, rank),
{
    let n = hand.len();
    let mut out: Vec<Card> = Vec::new();
    let mut i: usize = 0;
    proof {
        assert(hand@.take(0) =~= Seq::<Card>::empty());
        assert(hand@.take(0).to_multiset() =~= vstd::multiset::Multiset::<Card>::empty());
        assert(hand@.take(0).to_multiset().len() == 0);
    }
    while i < n
        invariant
            0 <= i <= n,
            n == hand@.len(),
            out@.len() <= i,
            forall|x: int|
                0 <= x < out@.len() ==> (#[trigger] out@[x]).rank == rank && hand@.contains(
                    out@[x],
                ),
            out@.len() == rank_count(hand@.take(i as int), rank),
        decreases n - i,
    {
        proof {
            crate::models::counting::lemma_take_one_more(hand@, i as int);
            crate::models::counting::lemma_counts_insert(
                hand@.take(i as int),
                hand@.take(i + 1),
                hand@[i as int],
            );
        }
        if hand[i].rank == rank {
            out.push(hand[i]);
            proof {
                assert(hand@.contains(hand@[i as int]));
            }
        }
        i = i + 1;
    }
    proof {
        assert(hand@.take(n as int) =~= hand@);
    }
    out
}

/// All `k`-element combinations of `cards[start..]`, in index order.
fn combos_cards(cards: &Vec<Card>, start: usize, k: usize) -> (out: Vec<Vec<Card>>)
    requires
        start <= cards@.len(),
        k <= 16,
    ensures
        forall|i: int|
            0 <= i < out@.len() ==> (#[trigger] out@[i])@.len() == k && forall|x: int|
                0 <= x < out@[i]@.len() ==> cards@.contains(#[trigger] out@[i]@[x]),
        k <= cards@.len() - start ==> out@.len() >= 1,
    decreases cards@.len() - start, k,
{
    let mut out: Vec<Vec<Card>> = Vec::new();
    if k == 0 {
        let empty: Vec<Card> = Vec::new();
        out.push(empty);
        return out;
    }
    if start >= cards.len() || k > cards.len() - start {
        return out;
    }
    let first = cards[start];
    proof {
        assert(cards@.contains(cards@[start as int]));
    }
    let with_first = combos_cards(cards, start + 1, k - 1);
    let nw = with_first.len();
    let mut i: usize = 0;
    while i < nw
        invariant
            0 <= i <= nw,
            nw == with_first@.len(),
            k >= 1,
            cards@.contains(first),
            forall|j: int|
                0 <= j < with_first@.len() ==> (#[trigger] with_first@[j])@.len() == k - 1
                    && forall|x: int|
                    0 <= x < with_first@[j]@.len() ==> cards@.contains(
                        #[trigger] with_first@[j]@[x],
                    ),
            out@.len() == i,
            forall|j: int|
                0 <= j < out@.len() ==> (#[trigger] out@[j])@.len() == k && forall|x: int|
                    0 <= x < out@[j]@.len() ==> cards@.contains(#[trigger] out@[j]@[x]),
        decreases nw - i,
    {
        let sub = &with_first[i];
        let mut combo: Vec<Card> = Vec::new();
        combo.push(first);
        let ns = sub.len();
        let mut x: usize = 0;
        while x < ns
            invariant
                0 <= x <= ns,
                ns == sub@.len(),
                cards@.contains(first),
                combo@.len() == 1 + x,
                forall|y: int| 0 <= y < sub@.len() ==> cards@.contains(#[trigger] sub@[y]),
                forall|y: int| 0 <= y < combo@.len() ==> cards@.contains(#[trigger] combo@[y]),
            decreases ns - x,
        {
            combo.push(sub[x]);
            x = x + 1;
        }
        let ghost prev = out@;
        out.push(combo);
        proof {
            assert forall|j: int| 0 <= j < out@.len() implies (#[trigger] out@[j])@.len() == k && (
            forall|y: int| 0 <= y < out@[j]@.len() ==> cards@.contains(#[trigger] out@[j]@[y])) by {
                if j < prev.len() {
                    assert(out@[j] == prev[j]);
                }
            }
        }
        i = i + 1;
    }
    let without = combos_cards(cards, start + 1, k);
    let nwo = without.len();
    let mut i: usize = 0;
    while i < nwo
        invariant
            0 <= i <= nwo,
            nwo == without@.len(),
            out@.len() >= nw,
            forall|j: int|
                0 <= j < without@.len() ==> (#[trigger] without@[j])@.len() == k && forall|x: int|
                    0 <= x < without@[j]@.len() ==> cards@.contains(#[trigger] without@[j]@[x]),
            forall|j: int|
                0 <= j < out@.len() ==> (#[trigger] out@[j])@.len() == k && forall|x: int|
                    0 <= x < out@[j]@.len() ==> cards@.contains(#[trigger] out@[j]@[x]),
        decreases nwo - i,
    {
        let mut copy: Vec<Card> = Vec::new();
        let sub = &without[i];
        let ns = sub.len();
        let mut x: usize = 0;
        while x < ns
            invariant
                0 <= x <= ns,
                ns == sub@.len(),
                copy@ == sub@.take(x as int),
                forall|y: int| 0 <= y < sub@.len() ==> cards@.contains(#[trigger] sub@[y]),
            decreases ns - x,
        {
            copy.push(sub[x]);
            proof {
                assert(copy@ =~= sub@.take(x + 1));
            }
            x = x + 1;
        }
        proof {
            assert(sub@.take(ns as int) =~= sub@);
        }
        let ghost prev = out@;
        out.push(copy);
        proof {
            assert forall|j: int| 0 <= j < out@.len() implies (#[trigger] out@[j])@.len() == k && (
            forall|y: int| 0 <= y < out@[j]@.len() ==> cards@.contains(#[trigger] out@[j]@[y])) by {
                if j < prev.len() {
                    assert(out@[j] == prev[j]);
                }
            }
        }
        i = i + 1;
    }
    out
}

/// Appends a validated play to the output when it classifies to the wanted
/// type.
fn push_if_type(
    out: &mut Vec<Vec<Card>>,
    play: Vec<Card>,
    want: PlayType,
    Ghost(hand): Ghost<Seq<Card>>,
)
    requires
        play@.len() <= MAX_PLAY_CARDS,
        forall|x: int| 0 <= x < play@.len() ==> hand.contains(#[trigger] play@[x]),
        plays_from(old(out)@, hand),
        plays_classifiable(old(out)@),
    ensures
        plays_from(final(out)@, hand),
        plays_classifiable(final(out)@),
        classify_model(play@) is Some && (classify_model(play@)->Some_0).play_type == want
            ==> final(out)@ == old(out)@.push(play),
        !(classify_model(play@) is Some && (classify_model(play@)->Some_0).play_type == want)
            ==> final(out)@ == old(out)@,
{
    let pattern = PatternRecognizer::analyze_cards(play.as_slice());
    let matched = match pattern {
        Some(p) => p.play_type() == want,
        None => false,
    };
    if matched {
        let ghost prev = out@;
        out.push(play);
        proof {
            assert forall|i: int|
                0 <= i < out@.len() implies classifiable((#[trigger] out@[i])@) && out@[i]@.len()
                <= MAX_PLAY_CARDS && (forall|x: int|
                0 <= x < out@[i]@.len() ==> hand.contains(#[trigger] out@[i]@[x])) by {
                if i < prev.len() {
                    assert(out@[i] == prev[i]);
                    assert(classifiable(prev[i]@));
                    assert(plays_from(prev, hand));
                }
            }
        }
    }
}

/// Generates valid plays from a hand of cards.
///
/// A pure utility for AI assistance: it keeps no state, and every returned
/// play is drawn from the hand.
pub struct PlayGenerator;

impl PlayGenerator {
    /// Generates all valid plays from the hand: filtered singles, pairs,
    /// consecutive pairs and triples, plus every airplane,
    /// airplane-with-wings, bomb, tongzi and dizha combination. Fails once
    /// more than `max_combinations` plays accumulate, naming the counts.
    pub fn generate_all_plays(hand: &[Card], max_combinations: usize) -> (r: Result<
        Vec<Vec<Card>>,
        String,
    >)
        requires
            hand@.len() <= MAX_PLAY_CARDS,
        ensures
            r matches Ok(plays) ==> plays@.len() <= max_combinations && plays_from(plays@, hand@)
                && plays_classifiable(plays@),
            r matches Ok(plays) ==> covers_singles(plays@, hand@),
            hand@.len() == 0 ==> r is Ok && (r->Ok_0)@.len() == 0,
            hand@.len() > 0 && max_combinations >= 13 && all_counts_below(hand@, 2) ==> r is Ok,
    {
        let mut all_plays: Vec<Vec<Card>> = Vec::new();
        if hand.len() == 0 {
            proof {
                assert(covers_singles(all_plays@, hand@));
            }
            return Ok(all_plays);
        }
        let singles = filter_singles(hand);
        Self::append_groups(&mut all_plays, singles, Ghost(hand@));
        proof {
            assert(covers_singles(all_plays@, hand@)) by {
                assert forall|rk: Rank|
                    crate::ai_helpers::identical_play_filter::has_rank(
                        hand@,
                        rk,
                    ) implies exists|y: int|
                    0 <= y < all_plays@.len() && (#[trigger] all_plays@[y])@.len() == 1
                        && all_plays@[y]@[0].rank == rk by {
                    assert(crate::ai_helpers::identical_play_filter::groups_have_rank(
                        singles@,
                        rk,
                    ));
                    let g = choose|g: int|
                        0 <= g < singles@.len() && singles@[g]@[0].rank == rk;
                    assert(all_plays@[0 + g]@ == singles@[g]@);
                    assert(all_plays@[g]@.len() == 1 && all_plays@[g]@[0].rank == rk);
                }
            }
        }
        let ghost s1 = all_plays@;
        let pair_groups = filter_pairs(hand);
        proof {
            if all_counts_below(hand@, 2) && pair_groups@.len() > 0 {
                let rk = pair_groups@[0]@[0].rank;
                assert(crate::ai_helpers::identical_play_filter::groups_have_rank(pair_groups@, rk));
                crate::models::card::lemma_rank_value_roundtrip(rk);
                assert(rank_count(hand@, rk) == rank_count_v(hand@, rk.spec_value() as int));
                crate::ai_helpers::identical_play_filter::lemma_thin_unpickable(hand@, rk, 2);
                assert(false);
            }
        }
        Self::append_groups(&mut all_plays, pair_groups, Ghost(hand@));
        proof {
            lemma_covers_extend(s1, all_plays@, hand@);
        }
        let ghost s2 = all_plays@;
        let cp_groups = filter_consecutive_pairs(hand);
        proof {
            if all_counts_below(hand@, 2) && cp_groups@.len() > 0 {
                let lo = crate::patterns::shapes::low_rank_v(cp_groups@[0]@);
                assert(crate::ai_helpers::identical_play_filter::pair_window(
                    hand@,
                    lo,
                    cp_groups@[0]@.len() as int / 2,
                ));
                assert(rank_count_v(hand@, lo) >= 2);
                assert(false);
            }
        }
        Self::append_groups(&mut all_plays, cp_groups, Ghost(hand@));
        proof {
            lemma_covers_extend(s2, all_plays@, hand@);
        }
        let ghost s3 = all_plays@;
        let triple_groups = filter_triples(hand);
        proof {
            if all_counts_below(hand@, 2) && triple_groups@.len() > 0 {
                let rk = triple_groups@[0]@[0].rank;
                assert(crate::ai_helpers::identical_play_filter::groups_have_rank(triple_groups@, rk));
                crate::models::card::lemma_rank_value_roundtrip(rk);
                assert(rank_count(hand@, rk) == rank_count_v(hand@, rk.spec_value() as int));
                crate::ai_helpers::identical_play_filter::lemma_thin_unpickable(hand@, rk, 3);
                assert(false);
            }
        }
        Self::append_groups(&mut all_plays, triple_groups, Ghost(hand@));
        proof {
            lemma_covers_extend(s3, all_plays@, hand@);
        }
        let ghost s4 = all_plays@;
        let kicker_groups = Self::triples_with_kickers(hand);
        Self::append_groups(&mut all_plays, kicker_groups, Ghost(hand@));
        proof {
            lemma_covers_extend(s4, all_plays@, hand@);
        }
        let ghost s5 = all_plays@;
        let airplane_groups = Self::airplanes(hand);
        Self::append_groups(&mut all_plays, airplane_groups, Ghost(hand@));
        proof {
            lemma_covers_extend(s5, all_plays@, hand@);
        }
        let ghost s6 = all_plays@;
        let wing_groups = Self::airplanes_with_wings(hand);
        Self::append_groups(&mut all_plays, wing_groups, Ghost(hand@));
        proof {
            lemma_covers_extend(s6, all_plays@, hand@);
        }
        let ghost s7 = all_plays@;
        let bomb_groups = Self::bombs(hand);
        Self::append_groups(&mut all_plays, bomb_groups, Ghost(hand@));
        proof {
            lemma_covers_extend(s7, all_plays@, hand@);
        }
        let ghost s8 = all_plays@;
        let tongzi_groups = Self::tongzi_plays(hand);
        Self::append_groups(&mut all_plays, tongzi_groups, Ghost(hand@));
        proof {
            lemma_covers_extend(s8, all_plays@, hand@);
        }
        let ghost s9 = all_plays@;
        let dizha_groups = Self::dizha_plays(hand);
        Self::append_groups(&mut all_plays, dizha_groups, Ghost(hand@));
        proof {
            lemma_covers_extend(s9, all_plays@, hand@);
        }
        proof {
            if all_counts_below(hand@, 2) {
                assert forall|u: int| #[trigger] rank_count_v(hand@, u) < 3 by {
                    assert(rank_count_v(hand@, u) < 2);
                }
                assert forall|u: int| #[trigger] rank_count_v(hand@, u) < 4 by {
                    assert(rank_count_v(hand@, u) < 2);
                }
                assert(all_counts_below(hand@, 3) && all_counts_below(hand@, 4));
                assert(all_plays@.len() <= 13);
            }
        }
        if all_plays.len() > max_combinations {
            let mut msg = crate::text::dec_string(all_plays.len() as u64);
            vstd::string::StringExecFns::append(
                &mut msg,
                " combinations generated exceeds limit ",
            );
            let limit = crate::text::dec_string(max_combinations as u64);
            vstd::string::StringExecFns::append(&mut msg, limit.as_str());
            vstd::string::StringExecFns::append(
                &mut msg,
                "; use the beating-plays or count-only alternatives instead",
            );
            return Err(msg);
        }
        Ok(all_plays)
    }

    /// Appends a batch of sound groups to the play list.
    fn append_groups(out: &mut Vec<Vec<Card>>, groups: Vec<Vec<Card>>, Ghost(hand): Ghost<
        Seq<Card>,
    >)
        requires
            plays_from(old(out)@, hand),
            plays_classifiable(old(out)@),
            plays_from(groups@, hand),
            plays_classifiable(groups@),
        ensures
            plays_from(final(out)@, hand),
            plays_classifiable(final(out)@),
            final(out)@.len() == old(out)@.len() + groups@.len(),
            forall|i: int| 0 <= i < old(out)@.len() ==> #[trigger] final(out)@[i] == old(out)@[i],
            forall|i: int|
                0 <= i < groups@.len() ==> (#[trigger] final(out)@[old(out)@.len() + i])@
                    == groups@[i]@,
    {
        let n = groups.len();
        let mut i: usize = 0;
        let ghost g0 = groups@;
        let ghost base = old(out)@;
        let mut groups = groups;
        while i < n
            invariant
                0 <= i <= n,
                n == groups@.len(),
                groups@ == g0,
                plays_from(out@, hand),
                plays_classifiable(out@),
                plays_from(groups@, hand),
                plays_classifiable(groups@),
                out@.len() == base.len() + i,
                forall|j: int| 0 <= j < base.len() ==> #[trigger] out@[j] == base[j],
                forall|j: int| 0 <= j < i ==> (#[trigger] out@[base.len() + j])@ == g0[j]@,
            decreases n - i,
        {
            let g = groups[i].clone();
            proof {
                assert(g@ == groups@[i as int]@);
                assert(classifiable(groups@[i as int]@));
            }
            let ghost prev = out@;
            out.push(g);
            proof {
                assert forall|j: int|
                    0 <= j < out@.len() implies classifiable((#[trigger] out@[j])@)
                    && out@[j]@.len() <= MAX_PLAY_CARDS && (forall|x: int|
                    0 <= x < out@[j]@.len() ==> hand.contains(#[trigger] out@[j]@[x])) by {
                    if j < prev.len() {
                        assert(out@[j] == prev[j]);
                        assert(classifiable(prev[j]@));
                        assert(plays_from(prev, hand));
                    } else {
                        assert(out@[j]@ == groups@[i as int]@);
                        assert(plays_from(groups@, hand));
                    }
                }
                assert(out@[base.len() + i as int]@ == g0[i as int]@);
                assert forall|j: int| 0 <= j < i + 1 implies (#[trigger] out@[base.len() + j])@
                    == g0[j]@ by {
                    if j < i {
                        assert(out@[base.len() + j] == prev[base.len() + j]);
                    }
                }
            }
            i = i + 1;
        }
    }

    /// Triple-with-kicker candidates: a triple body plus one or two loose
    /// cards, kept only when the whole classifies as a triple of that size.
    fn triples_with_kickers(hand: &[Card]) -> (out: Vec<Vec<Card>>)
        requires
            hand@.len() <= MAX_PLAY_CARDS,
        ensures
            plays_from(out@, hand@),
            plays_classifiable(out@),
            all_counts_below(hand@, 3) ==> out@.len() == 0,
    {
        let mut out: Vec<Vec<Card>> = Vec::new();
        let mut v: u8 = 3;
        while v <= 15
            invariant
                3 <= v <= 16,
                hand@.len() <= MAX_PLAY_CARDS,
                plays_from(out@, hand@),
                plays_classifiable(out@),
                all_counts_below(hand@, 3) ==> out@.len() == 0,
            decreases 16 - v,
        {
            let rank = rank_from_value(v);
            let rv = cards_of_rank(hand, rank);
            proof {
                assert(rank_count_v(hand@, v as int) == rank_count(hand@, rank));
            }
            if rv.len() >= 3 {
                let mut triple: Vec<Card> = Vec::new();
                triple.push(rv[0]);
                triple.push(rv[1]);
                triple.push(rv[2]);
                let mut kickers: Vec<Card> = Vec::new();
                let n = hand.len();
                let mut i: usize = 0;
                while i < n
                    invariant
                        0 <= i <= n,
                        n == hand@.len(),
                        triple@.len() == 3,
                        kickers@.len() <= i,
                        forall|x: int|
                            0 <= x < kickers@.len() ==> hand@.contains(#[trigger] kickers@[x]),
                    decreases n - i,
                {
                    let c = hand[i];
                    if !(c == triple[0] || c == triple[1] || c == triple[2]) {
                        kickers.push(c);
                        proof {
                            assert(hand@.contains(hand@[i as int]));
                        }
                    }
                    i = i + 1;
                }
                let nk = kickers.len();
                let mut i: usize = 0;
                while i < nk
                    invariant
                        0 <= i <= nk,
                        nk == kickers@.len(),
                        triple@.len() == 3,
                        hand@.len() <= MAX_PLAY_CARDS,
                        nk <= hand@.len(),
                        forall|x: int|
                            0 <= x < triple@.len() ==> hand@.contains(#[trigger] triple@[x]),
                        forall|x: int|
                            0 <= x < kickers@.len() ==> hand@.contains(#[trigger] kickers@[x]),
                        plays_from(out@, hand@),
                        plays_classifiable(out@),
                    decreases nk - i,
                {
                    let mut combo = triple.clone();
                    combo.push(kickers[i]);
                    proof {
                        assert(combo@.len() == 4);
                    }
                    push_if_type(&mut out, combo, PlayType::Triple, Ghost(hand@));
                    let mut j: usize = i + 1;
                    while j < nk
                        invariant
                            0 <= i < j <= nk,
                            nk == kickers@.len(),
                            triple@.len() == 3,
                            hand@.len() <= MAX_PLAY_CARDS,
                            nk <= hand@.len(),
                            forall|x: int|
                                0 <= x < triple@.len() ==> hand@.contains(#[trigger] triple@[x]),
                            forall|x: int|
                                0 <= x < kickers@.len() ==> hand@.contains(#[trigger] kickers@[x]),
                            plays_from(out@, hand@),
                            plays_classifiable(out@),
                        decreases nk - j,
                    {
                        let mut combo2 = triple.clone();
                        combo2.push(kickers[i]);
                        combo2.push(kickers[j]);
                        push_if_type(&mut out, combo2, PlayType::Triple, Ghost(hand@));
                        j = j + 1;
                    }
                    i = i + 1;
                }
            }
            v = v + 1;
        }
        out
    }

    /// All airplane candidates: consecutive windows of ranks holding three
    /// or more cards, three cards from each.
    fn airplanes(hand: &[Card]) -> (out: Vec<Vec<Card>>)
        requires
            hand@.len() <= MAX_PLAY_CARDS,
        ensures
            plays_from(out@, hand@),
            plays_classifiable(out@),
            all_counts_below(hand@, 3) ==> out@.len() == 0,
    {
        Self::window_plays(hand, 3, PlayType::Airplane)
    }

    /// All consecutive-pair candidates: windows of ranks holding two or
    /// more cards, two cards from each.
    fn consecutive_pairs(hand: &[Card]) -> (out: Vec<Vec<Card>>)
        requires
            hand@.len() <= MAX_PLAY_CARDS,
        ensures
            plays_from(out@, hand@),
            plays_classifiable(out@),
            all_counts_below(hand@, 2) ==> out@.len() == 0,
    {
        Self::window_plays(hand, 2, PlayType::ConsecutivePairs)
    }

    /// Enumerates all consecutive windows of ranks holding at least `m`
    /// cards, taking the first `m` cards of each rank, validating each
    /// candidate. Rank Two never joins a window.
    fn window_plays(hand: &[Card], m: usize, want: PlayType) -> (out: Vec<Vec<Card>>)
        requires
            hand@.len() <= MAX_PLAY_CARDS,
            2 <= m <= 3,
        ensures
            plays_from(out@, hand@),
            plays_classifiable(out@),
            forall|i: int| 0 <= i < out@.len() ==> (#[trigger] out@[i])@.len() <= 36,
            all_counts_below(hand@, m as int) ==> out@.len() == 0,
    {
        let mut out: Vec<Vec<Card>> = Vec::new();
        let mut valid: Vec<u8> = Vec::new();
        let mut v: u8 = 3;
        while v <= 14
            invariant
                3 <= v <= 15,
                hand@.len() <= MAX_PLAY_CARDS,
                valid@.len() <= v - 3,
                forall|x: int| 0 <= x < valid@.len() ==> 3 <= #[trigger] valid@[x] <= 14,
                all_counts_below(hand@, m as int) ==> valid@.len() == 0,
            decreases 15 - v,
        {
            let rank = rank_from_value(v);
            let rv = cards_of_rank(hand, rank);
            proof {
                assert(rank_count_v(hand@, v as int) == rank_count(hand@, rank));
            }
            if rv.len() >= m {
                let ghost prevv = valid@;
                valid.push(v);
                proof {
                    assert forall|x: int| 0 <= x < valid@.len() implies 3 <= #[trigger] valid@[x]
                        <= 14 by {
                        if x < prevv.len() {
                            assert(valid@[x] == prevv[x]);
                        }
                    }
                }
            }
            v = v + 1;
        }
        let nv = valid.len();
        let mut length: usize = 2;
        while length <= nv
            invariant
                2 <= length,
                nv == valid@.len(),
                nv <= 12,
                hand@.len() <= MAX_PLAY_CARDS,
                2 <= m <= 3,
                forall|x: int| 0 <= x < valid@.len() ==> 3 <= #[trigger] valid@[x] <= 14,
                plays_from(out@, hand@),
                plays_classifiable(out@),
                forall|i: int| 0 <= i < out@.len() ==> (#[trigger] out@[i])@.len() <= 36,
                all_counts_below(hand@, m as int) ==> nv == 0 && out@.len() == 0,
            decreases nv + 1 - length,
        {
            let mut start: usize = 0;
            while start <= nv - length
                invariant
                    0 <= start,
                    2 <= length <= nv,
                    nv <= 12,
                    nv == valid@.len(),
                    hand@.len() <= MAX_PLAY_CARDS,
                    2 <= m <= 3,
                    forall|x: int| 0 <= x < valid@.len() ==> 3 <= #[trigger] valid@[x] <= 14,
                    plays_from(out@, hand@),
                    plays_classifiable(out@),
                    forall|i: int| 0 <= i < out@.len() ==> (#[trigger] out@[i])@.len() <= 36,
                decreases nv + 1 - start,
            {
                let mut consecutive = true;
                let mut t: usize = 1;
                while t < length
                    invariant
                        1 <= t <= length,
                        start + length <= nv,
                        nv == valid@.len(),
                        forall|x: int| 0 <= x < valid@.len() ==> 3 <= #[trigger] valid@[x] <= 14,
                    decreases length - t,
                {
                    if valid[start + t] != valid[start + t - 1] + 1 {
                        consecutive = false;
                    }
                    t = t + 1;
                }
                if consecutive {
                    let mut candidate: Vec<Card> = Vec::new();
                    let mut t: usize = 0;
                    while t < length
                        invariant
                            0 <= t <= length,
                            start + length <= nv,
                            nv == valid@.len(),
                            hand@.len() <= MAX_PLAY_CARDS,
                            2 <= m <= 3,
                            candidate@.len() <= 3 * t,
                            forall|x: int|
                                0 <= x < valid@.len() ==> 3 <= #[trigger] valid@[x] <= 14,
                            forall|x: int|
                                0 <= x < candidate@.len() ==> hand@.contains(
                                    #[trigger] candidate@[x],
                                ),
                        decreases length - t,
                    {
                        let rank = rank_from_value(valid[start + t]);
                        let rv = cards_of_rank(hand, rank);
                        let mut x: usize = 0;
                        while x < m && x < rv.len()
                            invariant
                                0 <= x <= m,
                                2 <= m <= 3,
                                candidate@.len() <= 3 * t + x,
                                forall|y: int|
                                    0 <= y < rv@.len() ==> hand@.contains(#[trigger] rv@[y]),
                                forall|y: int|
                                    0 <= y < candidate@.len() ==> hand@.contains(
                                        #[trigger] candidate@[y],
                                    ),
                            decreases m - x,
                        {
                            candidate.push(rv[x]);
                            x = x + 1;
                        }
                        t = t + 1;
                    }
                    proof {
                        assert(candidate@.len() <= 3 * length <= 36);
                    }
                    let ghost prev_out = out@;
                    let ghost cand = candidate@;
                    push_if_type(&mut out, candidate, want, Ghost(hand@));
                    proof {
                        assert forall|i: int| 0 <= i < out@.len() implies (#[trigger] out@[i])@.len()
                            <= 36 by {
                            if i < prev_out.len() {
                                assert(out@[i] == prev_out[i]);
                            } else {
                                assert(out@ == prev_out.push(out@[i]));
                                assert(out@[i]@ == cand);
                            }
                        }
                    }
                }
                start = start + 1;
            }
            length = length + 1;
        }
        out
    }

    /// All airplane-with-wings candidates: an airplane core plus a pair of
    /// wings per core rank, drawn from the leftover cards.
    fn airplanes_with_wings(hand: &[Card]) -> (out: Vec<Vec<Card>>)
        requires
            hand@.len() <= MAX_PLAY_CARDS,
        ensures
            plays_from(out@, hand@),
            plays_classifiable(out@),
            all_counts_below(hand@, 3) ==> out@.len() == 0,
    {
        let cores = Self::window_plays(hand, 3, PlayType::Airplane);
        let mut out: Vec<Vec<Card>> = Vec::new();
        let nc = cores.len();
        let mut ci: usize = 0;
        while ci < nc
            invariant
                0 <= ci <= nc,
                nc == cores@.len(),
                hand@.len() <= MAX_PLAY_CARDS,
                plays_from(cores@, hand@),
                plays_classifiable(cores@),
                forall|i: int| 0 <= i < cores@.len() ==> (#[trigger] cores@[i])@.len() <= 36,
                plays_from(out@, hand@),
                plays_classifiable(out@),
                all_counts_below(hand@, 3) ==> nc == 0 && out@.len() == 0,
            decreases nc - ci,
        {
            let core = &cores[ci];
            let n = hand.len();
            let mut remaining: Vec<Card> = Vec::new();
            let mut i: usize = 0;
            while i < n
                invariant
                    0 <= i <= n,
                    n == hand@.len(),
                    remaining@.len() <= i,
                    forall|x: int|
                        0 <= x < remaining@.len() ==> hand@.contains(#[trigger] remaining@[x]),
                decreases n - i,
            {
                let c = hand[i];
                let mut in_core = false;
                let nc2 = core.len();
                let mut y: usize = 0;
                while y < nc2
                    invariant
                        0 <= y <= nc2,
                        nc2 == core@.len(),
                    decreases nc2 - y,
                {
                    if core[y] == c {
                        in_core = true;
                    }
                    y = y + 1;
                }
                if !in_core {
                    remaining.push(c);
                    proof {
                        assert(hand@.contains(hand@[i as int]));
                    }
                }
                i = i + 1;
            }
            let core_len = core.len() / 3;
            let mut pair_ranks: Vec<Rank> = Vec::new();
            let mut v: u8 = 3;
            while v <= 15
                invariant
                    3 <= v <= 16,
                    pair_ranks@.len() <= 13,
                    forall|x: int|
                        0 <= x < remaining@.len() ==> hand@.contains(#[trigger] remaining@[x]),
                decreases 16 - v,
            {
                let rank = rank_from_value(v);
                let rv = cards_of_rank(remaining.as_slice(), rank);
                if rv.len() >= 2 {
                    if pair_ranks.len() < 13 {
                        pair_ranks.push(rank);
                    }
                }
                v = v + 1;
            }
            if pair_ranks.len() >= core_len && core_len >= 1 && core_len <= 12 {
                let rank_combos = Self::combos_ranks(&pair_ranks, 0, core_len);
                let nrc = rank_combos.len();
                let mut rci: usize = 0;
                while rci < nrc
                    invariant
                        0 <= rci <= nrc,
                        nrc == rank_combos@.len(),
                        hand@.len() <= MAX_PLAY_CARDS,
                        core@.len() <= 36,
                        forall|x: int|
                            0 <= x < core@.len() ==> hand@.contains(#[trigger] core@[x]),
                        forall|x: int|
                            0 <= x < remaining@.len() ==> hand@.contains(#[trigger] remaining@[x]),
                        forall|j: int|
                            0 <= j < rank_combos@.len() ==> (#[trigger] rank_combos@[j])@.len()
                                <= 16,
                        plays_from(out@, hand@),
                        plays_classifiable(out@),
                    decreases nrc - rci,
                {
                    let rc = &rank_combos[rci];
                    let mut combo: Vec<Card> = Vec::new();
                    let ncore = core.len();
                    let mut x: usize = 0;
                    while x < ncore
                        invariant
                            0 <= x <= ncore,
                            ncore == core@.len(),
                            combo@ == core@.take(x as int),
                            forall|y: int|
                                0 <= y < core@.len() ==> hand@.contains(#[trigger] core@[y]),
                        decreases ncore - x,
                    {
                        combo.push(core[x]);
                        proof {
                            assert(combo@ =~= core@.take(x + 1));
                        }
                        x = x + 1;
                    }
                    proof {
                        assert(core@.take(ncore as int) =~= core@);
                        assert forall|y: int| 0 <= y < combo@.len() implies hand@.contains(
                            #[trigger] combo@[y],
                        ) by {
                            assert(combo@[y] == core@[y]);
                        }
                    }
                    let nrr = rc.len();
                    let mut y: usize = 0;
                    while y < nrr
                        invariant
                            0 <= y <= nrr,
                            nrr == rc@.len(),
                            nrr <= 16,
                            hand@.len() <= MAX_PLAY_CARDS,
                            core@.len() <= 36,
                            combo@.len() <= core@.len() + 2 * y,
                            forall|z: int|
                                0 <= z < remaining@.len() ==> hand@.contains(
                                    #[trigger] remaining@[z],
                                ),
                            forall|z: int|
                                0 <= z < combo@.len() ==> hand@.contains(#[trigger] combo@[z]),
                        decreases nrr - y,
                    {
                        let wv = cards_of_rank(remaining.as_slice(), rc[y]);
                        if wv.len() >= 2 {
                            combo.push(wv[0]);
                            combo.push(wv[1]);
                        }
                        y = y + 1;
                    }
                    proof {
                        assert(combo@.len() <= 36 + 32);
                    }
                    push_if_type(&mut out, combo, PlayType::AirplaneWithWings, Ghost(hand@));
                    rci = rci + 1;
                }
            }
            ci = ci + 1;
        }
        out
    }

    /// All `k`-element combinations of `ranks[start..]`.
    fn combos_ranks(ranks: &Vec<Rank>, start: usize, k: usize) -> (out: Vec<Vec<Rank>>)
        requires
            start <= ranks@.len(),
            k <= 16,
            ranks@.len() <= 16,
        ensures
            forall|i: int| 0 <= i < out@.len() ==> (#[trigger] out@[i])@.len() <= 16,
        decreases ranks@.len() - start, k,
    {
        let mut out: Vec<Vec<Rank>> = Vec::new();
        if k == 0 {
            let empty: Vec<Rank> = Vec::new();
            out.push(empty);
            return out;
        }
        if start >= ranks.len() || k > ranks.len() - start {
            return out;
        }
        let first = ranks[start];
        let with_first = Self::combos_ranks(ranks, start + 1, k - 1);
        let nw = with_first.len();
        let mut i: usize = 0;
        while i < nw
            invariant
                0 <= i <= nw,
                nw == with_first@.len(),
                forall|j: int| 0 <= j < with_first@.len() ==> (#[trigger] with_first@[j])@.len()
                    <= 16,
                forall|j: int| 0 <= j < out@.len() ==> (#[trigger] out@[j])@.len() <= 16,
            decreases nw - i,
        {
            let sub = &with_first[i];
            let mut combo: Vec<Rank> = Vec::new();
            combo.push(first);
            let ns = sub.len();
            let mut x: usize = 0;
            while x < ns && combo.len() < 16
                invariant
                    0 <= x <= ns,
                    ns == sub@.len(),
                    combo@.len() <= 1 + x,
                    combo@.len() <= 16,
                decreases ns - x,
            {
                combo.push(sub[x]);
                x = x + 1;
            }
            let ghost prev = out@;
            out.push(combo);
            proof {
                assert forall|j: int| 0 <= j < out@.len() implies (#[trigger] out@[j])@.len()
                    <= 16 by {
                    if j < prev.len() {
                        assert(out@[j] == prev[j]);
                    }
                }
            }
            i = i + 1;
        }
        let without = Self::combos_ranks(ranks, start + 1, k);
        let nwo = without.len();
        let mut i: usize = 0;
        while i < nwo
            invariant
                0 <= i <= nwo,
                nwo == without@.len(),
                forall|j: int| 0 <= j < without@.len() ==> (#[trigger] without@[j])@.len() <= 16,
                forall|j: int| 0 <= j < out@.len() ==> (#[trigger] out@[j])@.len() <= 16,
            decreases nwo - i,
        {
            let sub = &without[i];
            let mut copy: Vec<Rank> = Vec::new();
            let ns = sub.len();
            let mut x: usize = 0;
            while x < ns
                invariant
                    0 <= x <= ns,
                    ns == sub@.len(),
                    ns <= 16,
                    copy@.len() == x,
                decreases ns - x,
            {
                copy.push(sub[x]);
                x = x + 1;
            }
            let ghost prev = out@;
            out.push(copy);
            proof {
                assert forall|j: int| 0 <= j < out@.len() implies (#[trigger] out@[j])@.len()
                    <= 16 by {
                    if j < prev.len() {
                        assert(out@[j] == prev[j]);
                    }
                }
            }
            i = i + 1;
        }
        out
    }

    /// All bomb combinations: for each rank with four or more cards, every
    /// subset of size four up to the whole group, skipping any eight-card
    /// subset that classifies as a dizha.
    fn bombs(hand: &[Card]) -> (out: Vec<Vec<Card>>)
        requires
            hand@.len() <= MAX_PLAY_CARDS,
        ensures
            plays_from(out@, hand@),
            plays_classifiable(out@),
            all_counts_below(hand@, 4) ==> out@.len() == 0,
            forall|rk: Rank, sz: nat|
                4 <= sz <= 16 && sz != 8 && rank_count(hand@, rk) >= sz
                    ==> #[trigger] has_bomb_play(out@, rk, sz),
    {
        let mut out: Vec<Vec<Card>> = Vec::new();
        let mut v: u8 = 3;
        while v <= 15
            invariant
                3 <= v <= 16,
                all_counts_below(hand@, 4) ==> out@.len() == 0,
                hand@.len() <= MAX_PLAY_CARDS,
                plays_from(out@, hand@),
                plays_classifiable(out@),
                forall|rk: Rank, sz: nat|
                    rk.spec_value() < v && 4 <= sz <= 16 && sz != 8 && rank_count(hand@, rk) >= sz
                        ==> #[trigger] has_bomb_play(out@, rk, sz),
            decreases 16 - v,
        {
            let rank = rank_from_value(v);
            let rv = cards_of_rank(hand, rank);
            proof {
                assert(rank_count_v(hand@, v as int) == rank_count(hand@, rank));
            }
            let c = rv.len();
            if c >= 4 {
                let mut size: usize = 4;
                while size <= c
                    invariant
                        4 <= size,
                        c == rv@.len(),
                        c <= hand@.len() <= MAX_PLAY_CARDS,
                        c == rank_count(hand@, rank),
                        rank == rank_of_value(v as int),
                        3 <= v <= 15,
                        rank_count_v(hand@, v as int) >= 4,
                        forall|x: int| 0 <= x < rv@.len() ==> (#[trigger] rv@[x]).rank == rank,
                        forall|y: int| 0 <= y < rv@.len() ==> hand@.contains(#[trigger] rv@[y]),
                        plays_from(out@, hand@),
                        plays_classifiable(out@),
                        all_counts_below(hand@, 4) ==> out@.len() == 0,
                        forall|rk: Rank, sz: nat|
                            rk.spec_value() < v && 4 <= sz <= 16 && sz != 8 && rank_count(
                                hand@,
                                rk,
                            ) >= sz ==> #[trigger] has_bomb_play(out@, rk, sz),
                        forall|sz: nat|
                            4 <= sz < size && sz <= 16 && sz != 8 && rank_count(hand@, rank) >= sz
                                ==> #[trigger] has_bomb_play(out@, rank, sz),
                    decreases c + 1 - size,
                {
                    if size <= 16 {
                        let combos = combos_cards(&rv, 0, size);
                        let ncb = combos.len();
                        proof {
                            assert(ncb >= 1);
                        }
                        let mut x: usize = 0;
                        while x < ncb
                            invariant
                                0 <= x <= ncb,
                                ncb == combos@.len(),
                                4 <= size <= 16,
                                size <= c,
                                c == rank_count(hand@, rank),
                                rank == rank_of_value(v as int),
                                3 <= v <= 15,
                                hand@.len() <= MAX_PLAY_CARDS,
                                forall|j: int|
                                    0 <= j < combos@.len() ==> (#[trigger] combos@[j])@.len()
                                        == size && forall|y: int|
                                        0 <= y < combos@[j]@.len() ==> rv@.contains(
                                            #[trigger] combos@[j]@[y],
                                        ),
                                forall|z: int|
                                    0 <= z < rv@.len() ==> (#[trigger] rv@[z]).rank == rank,
                                forall|y: int|
                                    0 <= y < rv@.len() ==> hand@.contains(#[trigger] rv@[y]),
                                plays_from(out@, hand@),
                                plays_classifiable(out@),
                                forall|rk: Rank, sz: nat|
                                    rk.spec_value() < v && 4 <= sz <= 16 && sz != 8 && rank_count(
                                        hand@,
                                        rk,
                                    ) >= sz ==> #[trigger] has_bomb_play(out@, rk, sz),
                                forall|sz: nat|
                                    4 <= sz < size && sz <= 16 && sz != 8 && rank_count(
                                        hand@,
                                        rank,
                                    ) >= sz ==> #[trigger] has_bomb_play(out@, rank, sz),
                                x >= 1 && size != 8 ==> has_bomb_play(
                                    out@,
                                    rank,
                                    size as nat,
                                ),
                            decreases ncb - x,
                        {
                            let combo = combos[x].clone();
                            let ghost cb = combo@;
                            proof {
                                assert(combo@ == combos@[x as int]@);
                                assert forall|y: int|
                                    0 <= y < combo@.len() implies hand@.contains(
                                    #[trigger] combo@[y],
                                ) by {
                                    assert(rv@.contains(combo@[y]));
                                    let z = choose|z: int|
                                        0 <= z < rv@.len() && rv@[z] == combo@[y];
                                }
                                if size != 8 {
                                    assert forall|q: int|
                                        0 <= q < cb.len() implies (#[trigger] cb[q]).rank
                                        == rank by {
                                        assert(rv@.contains(cb[q]));
                                        let z = choose|z: int|
                                            0 <= z < rv@.len() && rv@[z] == cb[q];
                                    }
                                    assert(crate::patterns::shapes::is_bomb(cb));
                                    assert(!crate::patterns::shapes::is_dizha(cb));
                                    crate::patterns::shapes::lemma_classify_bomb(cb);
                                    assert(cb[0].rank == rank);
                                    assert(classify_model(cb) == Some(
                                        bomb_rank_model(rank, size as nat),
                                    ));
                                }
                            }
                            let ghost prev_out = out@;
                            push_if_type(&mut out, combo, PlayType::Bomb, Ghost(hand@));
                            proof {
                                if size != 8 {
                                    assert(out@ == prev_out.push(combo));
                                    assert(out@[out@.len() - 1]@ == cb);
                                }
                                assert forall|rk: Rank, sz: nat|
                                    rk.spec_value() < v && 4 <= sz <= 16 && sz != 8 && rank_count(
                                        hand@,
                                        rk,
                                    ) >= sz implies #[trigger] has_bomb_play(out@, rk, sz) by {
                                    assert(has_bomb_play(prev_out, rk, sz));
                                    let y = choose|y: int|
                                        0 <= y < prev_out.len() && classify_model(
                                            (#[trigger] prev_out[y])@,
                                        ) == Some(bomb_rank_model(rk, sz));
                                    assert(out@[y] == prev_out[y]);
                                }
                                assert forall|sz: nat|
                                    4 <= sz < size && sz <= 16 && sz != 8 && rank_count(
                                        hand@,
                                        rank,
                                    ) >= sz implies #[trigger] has_bomb_play(
                                    out@,
                                    rank,
                                    sz,
                                ) by {
                                    assert(has_bomb_play(prev_out, rank, sz));
                                    let y = choose|y: int|
                                        0 <= y < prev_out.len() && classify_model(
                                            (#[trigger] prev_out[y])@,
                                        ) == Some(bomb_rank_model(rank, sz));
                                    assert(out@[y] == prev_out[y]);
                                }
                                if size != 8 {
                                    assert(has_bomb_play(out@, rank, size as nat)) by {
                                        assert(classify_model(
                                            (out@[out@.len() - 1])@,
                                        ) == Some(bomb_rank_model(rank, size as nat)));
                                    }
                                }
                            }
                            x = x + 1;
                        }
                    }
                    size = size + 1;
                }
                proof {
                    assert forall|sz: nat|
                        4 <= sz <= 16 && sz != 8 && rank_count(hand@, rank)
                            >= sz implies #[trigger] has_bomb_play(out@, rank, sz) by {
                        assert(sz < size);
                    }
                }
            }
            proof {
                assert forall|rk: Rank, sz: nat|
                    rk.spec_value() < v + 1 && 4 <= sz <= 16 && sz != 8 && rank_count(hand@, rk)
                        >= sz implies #[trigger] has_bomb_play(out@, rk, sz) by {
                    if rk.spec_value() == v as int {
                        crate::models::card::lemma_rank_value_roundtrip(rk);
                        assert(rk == rank);
                        assert(rank_count(hand@, rank) >= 4);
                    }
                }
            }
            v = v + 1;
        }
        proof {
            assert forall|rk: Rank, sz: nat|
                4 <= sz <= 16 && sz != 8 && rank_count(hand@, rk)
                    >= sz implies #[trigger] has_bomb_play(out@, rk, sz) by {
                crate::models::card::lemma_rank_value_roundtrip(rk);
            }
        }
        out
    }

    /// All tongzi combinations: for each (suit, rank) cell with three or
    /// more identical cards, every three-card subset.
    fn tongzi_plays(hand: &[Card]) -> (out: Vec<Vec<Card>>)
        requires
            hand@.len() <= MAX_PLAY_CARDS,
        ensures
            plays_from(out@, hand@),
            plays_classifiable(out@),
            all_counts_below(hand@, 3) ==> out@.len() == 0,
            forall|su: Suit, rk: Rank|
                suit_rank_count(hand@, su, rk) >= 3 ==> #[trigger] has_tongzi_play(out@, su, rk),
    {
        let suits: [Suit; 4] = [Suit::Diamonds, Suit::Clubs, Suit::Hearts, Suit::Spades];
        let mut out: Vec<Vec<Card>> = Vec::new();
        let mut si: usize = 0;
        while si < 4
            invariant
                0 <= si <= 4,
                suits@ == seq![Suit::Diamonds, Suit::Clubs, Suit::Hearts, Suit::Spades],
                hand@.len() <= MAX_PLAY_CARDS,
                plays_from(out@, hand@),
                plays_classifiable(out@),
                all_counts_below(hand@, 3) ==> out@.len() == 0,
                forall|su: Suit, rk: Rank|
                    su.spec_value() <= si && suit_rank_count(hand@, su, rk) >= 3
                        ==> #[trigger] has_tongzi_play(out@, su, rk),
            decreases 4 - si,
        {
            let suit = suits[si];
            let mut v: u8 = 3;
            while v <= 15
                invariant
                    3 <= v <= 16,
                    0 <= si < 4,
                    suit == suits@[si as int],
                    suits@ == seq![Suit::Diamonds, Suit::Clubs, Suit::Hearts, Suit::Spades],
                    hand@.len() <= MAX_PLAY_CARDS,
                    plays_from(out@, hand@),
                    plays_classifiable(out@),
                    all_counts_below(hand@, 3) ==> out@.len() == 0,
                    forall|su: Suit, rk: Rank|
                        su.spec_value() <= si && suit_rank_count(hand@, su, rk) >= 3
                            ==> #[trigger] has_tongzi_play(out@, su, rk),
                    forall|rk: Rank|
                        rk.spec_value() < v && suit_rank_count(hand@, suit, rk) >= 3
                            ==> #[trigger] has_tongzi_play(out@, suit, rk),
                decreases 16 - v,
            {
                let rank = rank_from_value(v);
                let mut cell: Vec<Card> = Vec::new();
                let n = hand.len();
                let mut i: usize = 0;
                proof {
                    assert(hand@.take(0) =~= Seq::<Card>::empty());
                    assert(hand@.take(0).to_multiset()
                        =~= vstd::multiset::Multiset::<Card>::empty());
                    assert(hand@.take(0).to_multiset().len() == 0);
                }
                while i < n
                    invariant
                        0 <= i <= n,
                        n == hand@.len(),
                        cell@.len() <= i,
                        cell@.len() == suit_rank_count(hand@.take(i as int), suit, rank),
                        forall|x: int|
                            0 <= x < cell@.len() ==> (#[trigger] cell@[x]) == (Card {
                                rank,
                                suit,
                            }),
                        forall|x: int|
                            0 <= x < cell@.len() ==> hand@.contains(#[trigger] cell@[x]),
                    decreases n - i,
                {
                    proof {
                        crate::models::counting::lemma_take_one_more(hand@, i as int);
                        crate::models::counting::lemma_counts_insert(
                            hand@.take(i as int),
                            hand@.take(i + 1),
                            hand@[i as int],
                        );
                    }
                    if hand[i].suit == suit && hand[i].rank == rank {
                        cell.push(hand[i]);
                        proof {
                            assert(hand@.contains(hand@[i as int]));
                        }
                    }
                    i = i + 1;
                }
                proof {
                    assert(hand@.take(n as int) =~= hand@);
                    assert(rank_count_v(hand@, v as int) == rank_count(hand@, rank));
                    assert(cell@.len() == suit_rank_count(hand@, suit, rank));
                    assert(suit_rank_count(hand@, suit, rank) <= rank_count(hand@, rank));
                }
                let c = cell.len();
                if c >= 3 {
                    let combos = combos_cards(&cell, 0, 3);
                    let ncb = combos.len();
                    proof {
                        assert(ncb >= 1);
                    }
                    let mut x: usize = 0;
                    while x < ncb
                        invariant
                            0 <= x <= ncb,
                            ncb == combos@.len(),
                            0 <= si < 4,
                            suit == suits@[si as int],
                            suits@ == seq![
                                Suit::Diamonds,
                                Suit::Clubs,
                                Suit::Hearts,
                                Suit::Spades,
                            ],
                            3 <= v <= 15,
                            rank == rank_of_value(v as int),
                            hand@.len() <= MAX_PLAY_CARDS,
                            rank_count_v(hand@, v as int) >= 3,
                            forall|j: int|
                                0 <= j < combos@.len() ==> (#[trigger] combos@[j])@.len() == 3
                                    && forall|y: int|
                                    0 <= y < combos@[j]@.len() ==> cell@.contains(
                                        #[trigger] combos@[j]@[y],
                                    ),
                            forall|z: int|
                                0 <= z < cell@.len() ==> (#[trigger] cell@[z]) == (Card {
                                    rank,
                                    suit,
                                }),
                            forall|y: int|
                                0 <= y < cell@.len() ==> hand@.contains(#[trigger] cell@[y]),
                            plays_from(out@, hand@),
                            plays_classifiable(out@),
                            forall|su: Suit, rk: Rank|
                                su.spec_value() <= si && suit_rank_count(hand@, su, rk) >= 3
                                    ==> #[trigger] has_tongzi_play(out@, su, rk),
                            forall|rk: Rank|
                                rk.spec_value() < v && suit_rank_count(hand@, suit, rk) >= 3
                                    ==> #[trigger] has_tongzi_play(out@, suit, rk),
                            x >= 1 ==> has_tongzi_play(out@, suit, rank),
                        decreases ncb - x,
                    {
                        let combo = combos[x].clone();
                        let ghost cb = combo@;
                        proof {
                            assert(combo@ == combos@[x as int]@);
                            assert forall|y: int| 0 <= y < combo@.len() implies hand@.contains(
                                #[trigger] combo@[y],
                            ) by {
                                assert(cell@.contains(combo@[y]));
                                let z = choose|z: int|
                                    0 <= z < cell@.len() && cell@[z] == combo@[y];
                            }
                            assert forall|q: int| 0 <= q < cb.len() implies (#[trigger] cb[q]) == (
                            Card { rank, suit }) by {
                                assert(cell@.contains(cb[q]));
                                let z = choose|z: int| 0 <= z < cell@.len() && cell@[z] == cb[q];
                            }
                            assert(crate::patterns::shapes::is_tongzi(cb));
                            crate::patterns::shapes::lemma_classify_tongzi(cb);
                            assert(cb[0] == (Card { rank, suit }));
                            assert(classify_model(cb) == Some(
                                crate::patterns::shapes::tongzi_cell_model(rank, suit),
                            ));
                        }
                        let ghost prev_out = out@;
                        push_if_type(&mut out, combo, PlayType::Tongzi, Ghost(hand@));
                        proof {
                            assert(out@ == prev_out.push(combo));
                            assert(out@[out@.len() - 1]@ == cb);
                            assert forall|su: Suit, rk: Rank|
                                su.spec_value() <= si && suit_rank_count(hand@, su, rk)
                                    >= 3 implies #[trigger] has_tongzi_play(out@, su, rk) by {
                                assert(has_tongzi_play(prev_out, su, rk));
                                let y = choose|y: int|
                                    0 <= y < prev_out.len() && classify_model(
                                        (#[trigger] prev_out[y])@,
                                    ) == Some(crate::patterns::shapes::tongzi_cell_model(rk, su));
                                assert(out@[y] == prev_out[y]);
                            }
                            assert forall|rk: Rank|
                                rk.spec_value() < v && suit_rank_count(hand@, suit, rk)
                                    >= 3 implies #[trigger] has_tongzi_play(out@, suit, rk) by {
                                assert(has_tongzi_play(prev_out, suit, rk));
                                let y = choose|y: int|
                                    0 <= y < prev_out.len() && classify_model(
                                        (#[trigger] prev_out[y])@,
                                    ) == Some(crate::patterns::shapes::tongzi_cell_model(
                                        rk,
                                        suit,
                                    ));
                                assert(out@[y] == prev_out[y]);
                            }
                            assert(has_tongzi_play(out@, suit, rank)) by {
                                assert(classify_model((out@[out@.len() - 1])@) == Some(
                                    crate::patterns::shapes::tongzi_cell_model(rank, suit),
                                ));
                            }
                        }
                        x = x + 1;
                    }
                }
                proof {
                    assert forall|rk: Rank|
                        rk.spec_value() < v + 1 && suit_rank_count(hand@, suit, rk)
                            >= 3 implies #[trigger] has_tongzi_play(out@, suit, rk) by {
                        if rk.spec_value() == v as int {
                            crate::models::card::lemma_rank_value_roundtrip(rk);
                            assert(rk == rank);
                            assert(c >= 3);
                        }
                    }
                }
                v = v + 1;
            }
            proof {
                assert forall|su: Suit, rk: Rank|
                    su.spec_value() <= si + 1 && suit_rank_count(hand@, su, rk)
                        >= 3 implies #[trigger] has_tongzi_play(out@, su, rk) by {
                    if su.spec_value() == si + 1 {
                        assert(su == suit) by {
                            if su == Suit::Diamonds {
                            } else if su == Suit::Clubs {
                            } else if su == Suit::Hearts {
                            } else {
                            }
                        }
                        crate::models::card::lemma_rank_value_roundtrip(rk);
                    }
                }
            }
            si = si + 1;
        }
        proof {
            assert forall|su: Suit, rk: Rank|
                suit_rank_count(hand@, su, rk) >= 3 implies #[trigger] has_tongzi_play(
                out@,
                su,
                rk,
            ) by {
                assert(su.spec_value() <= 4) by {
                    if su == Suit::Diamonds {
                    } else if su == Suit::Clubs {
                    } else if su == Suit::Hearts {
                    } else {
                    }
                }
            }
        }
        out
    }

    /// All dizha plays: for each rank with two or more cards in every suit,
    /// two cards per suit, Spades first.
    fn dizha_plays(hand: &[Card]) -> (out: Vec<Vec<Card>>)
        requires
            hand@.len() <= MAX_PLAY_CARDS,
        ensures
            plays_from(out@, hand@),
            plays_classifiable(out@),
            all_counts_below(hand@, 2) ==> out@.len() == 0,
            forall|rk: Rank|
                crate::ai_helpers::hand_pattern_analyzer::dizha_ready(hand@, rk)
                    ==> #[trigger] has_dizha_play(out@, rk),
    {
        let suits: [Suit; 4] = [Suit::Spades, Suit::Hearts, Suit::Clubs, Suit::Diamonds];
        let mut out: Vec<Vec<Card>> = Vec::new();
        let mut v: u8 = 3;
        while v <= 15
            invariant
                3 <= v <= 16,
                suits@ == seq![Suit::Spades, Suit::Hearts, Suit::Clubs, Suit::Diamonds],
                hand@.len() <= MAX_PLAY_CARDS,
                plays_from(out@, hand@),
                plays_classifiable(out@),
                all_counts_below(hand@, 2) ==> out@.len() == 0,
                forall|rk: Rank|
                    rk.spec_value() < v && crate::ai_helpers::hand_pattern_analyzer::dizha_ready(
                        hand@,
                        rk,
                    ) ==> #[trigger] has_dizha_play(out@, rk),
            decreases 16 - v,
        {
            let rank = rank_from_value(v);
            let mut candidate: Vec<Card> = Vec::new();
            let mut complete = true;
            let mut si: usize = 0;
            proof {
                assert(candidate@.to_multiset() =~= vstd::multiset::Multiset::<Card>::empty());
                assert(candidate@.to_multiset().len() == 0);
            }
            while si < 4
                invariant
                    0 <= si <= 4,
                    suits@ == seq![Suit::Spades, Suit::Hearts, Suit::Clubs, Suit::Diamonds],
                    candidate@.len() <= 2 * si,
                    complete && si >= 1 ==> rank_count(hand@, rank) >= 2,
                    forall|x: int|
                        0 <= x < candidate@.len() ==> hand@.contains(#[trigger] candidate@[x]),
                    forall|x: int|
                        0 <= x < candidate@.len() ==> (#[trigger] candidate@[x]).rank == rank,
                    complete ==> candidate@.len() == 2 * si,
                    complete ==> forall|x: int|
                        0 <= x < si ==> suit_rank_count(candidate@, #[trigger] suits@[x], rank)
                            == 2,
                    forall|x: int|
                        si <= x < 4 ==> suit_rank_count(candidate@, #[trigger] suits@[x], rank)
                            == 0,
                    !complete ==> exists|x: int|
                        0 <= x < si && suit_rank_count(hand@, #[trigger] suits@[x], rank) < 2,
                decreases 4 - si,
            {
                let suit = suits[si];
                let mut found: usize = 0;
                let n = hand.len();
                let mut i: usize = 0;
                let ghost cand0 = candidate@;
                proof {
                    assert(hand@.take(0) =~= Seq::<Card>::empty());
                    assert(hand@.take(0).to_multiset()
                        =~= vstd::multiset::Multiset::<Card>::empty());
                    assert(hand@.take(0).to_multiset().len() == 0);
                }
                while i < n
                    invariant
                        0 <= i <= n,
                        n == hand@.len(),
                        found <= 2,
                        found <= rank_count(hand@.take(i as int), rank),
                        found == (if suit_rank_count(hand@.take(i as int), suit, rank) <= 2 {
                            suit_rank_count(hand@.take(i as int), suit, rank) as int
                        } else {
                            2int
                        }),
                        candidate@.len() <= 2 * si + found,
                        candidate@.len() == cand0.len() + found,
                        forall|su2: Suit|
                            #[trigger] suit_rank_count(candidate@, su2, rank)
                                == suit_rank_count(cand0, su2, rank) + (if su2 == suit {
                                found as int
                            } else {
                                0int
                            }),
                        forall|x: int|
                            0 <= x < candidate@.len() ==> hand@.contains(#[trigger] candidate@[x]),
                        forall|x: int|
                            0 <= x < cand0.len() ==> #[trigger] candidate@[x] == cand0[x],
                        forall|x: int|
                            0 <= x < candidate@.len() ==> (#[trigger] candidate@[x]).rank == rank,
                    decreases n - i,
                {
                    proof {
                        crate::models::counting::lemma_take_one_more(hand@, i as int);
                        crate::models::counting::lemma_counts_insert(
                            hand@.take(i as int),
                            hand@.take(i + 1),
                            hand@[i as int],
                        );
                    }
                    if found < 2 && hand[i].suit == suit && hand[i].rank == rank {
                        let ghost prevc = candidate@;
                        candidate.push(hand[i]);
                        proof {
                            assert(hand@.contains(hand@[i as int]));
                            crate::models::counting::lemma_counts_insert(
                                prevc,
                                candidate@,
                                hand@[i as int],
                            );
                        }
                        found = found + 1;
                    }
                    i = i + 1;
                }
                proof {
                    assert(hand@.take(n as int) =~= hand@);
                }
                if found < 2 {
                    complete = false;
                    proof {
                        assert(suit_rank_count(hand@, suit, rank) < 2);
                        assert(suits@[si as int] == suit);
                    }
                }
                si = si + 1;
            }
            if complete {
                proof {
                    assert(candidate@.len() == 8);
                    assert(rank_count_v(hand@, v as int) == rank_count(hand@, rank));
                    assert(suit_rank_count(candidate@, Suit::Spades, rank) == 2);
                    assert(suit_rank_count(candidate@, Suit::Hearts, rank) == 2);
                    assert(suit_rank_count(candidate@, Suit::Clubs, rank) == 2);
                    assert(suit_rank_count(candidate@, Suit::Diamonds, rank) == 2);
                    assert(candidate@[0].rank == rank);
                    assert(crate::patterns::shapes::is_dizha(candidate@));
                    crate::patterns::shapes::lemma_classify_dizha(candidate@);
                }
                let ghost cb = candidate@;
                let ghost prev_out = out@;
                push_if_type(&mut out, candidate, PlayType::Dizha, Ghost(hand@));
                proof {
                    assert(out@ == prev_out.push(candidate));
                    assert(out@[out@.len() - 1]@ == cb);
                    assert forall|rk: Rank|
                        rk.spec_value() < v
                            && crate::ai_helpers::hand_pattern_analyzer::dizha_ready(
                            hand@,
                            rk,
                        ) implies #[trigger] has_dizha_play(out@, rk) by {
                        assert(has_dizha_play(prev_out, rk));
                        let y = choose|y: int|
                            0 <= y < prev_out.len() && classify_model((#[trigger] prev_out[y])@)
                                == Some(crate::patterns::shapes::dizha_rank_model(rk));
                        assert(out@[y] == prev_out[y]);
                    }
                    assert(has_dizha_play(out@, rank)) by {
                        assert(classify_model((out@[out@.len() - 1])@) == Some(
                            crate::patterns::shapes::dizha_rank_model(rank),
                        ));
                    }
                }
            }
            proof {
                assert forall|rk: Rank|
                    rk.spec_value() < v + 1 && crate::ai_helpers::hand_pattern_analyzer::dizha_ready(
                        hand@,
                        rk,
                    ) implies #[trigger] has_dizha_play(out@, rk) by {
                    if rk.spec_value() == v as int {
                        crate::models::card::lemma_rank_value_roundtrip(rk);
                        assert(rk == rank);
                        if !complete {
                            let x = choose|x: int|
                                0 <= x < 4 && suit_rank_count(hand@, #[trigger] suits@[x], rank)
                                    < 2;
                            assert(false);
                        }
                    }
                }
            }
            v = v + 1;
        }
        proof {
            assert forall|rk: Rank|
                crate::ai_helpers::hand_pattern_analyzer::dizha_ready(
                    hand@,
                    rk,
                ) implies #[trigger] has_dizha_play(out@, rk) by {
                crate::models::card::lemma_rank_value_roundtrip(rk);
            }
        }
        out
    }

    /// Generates the plays that can beat the current pattern with the same
    /// type or a trump: same-type higher candidates, plus bombs, tongzi and
    /// dizha as the hierarchy allows, all validated against the current
    /// pattern — every returned play defeats it.
    #[verifier::rlimit(100)]
    pub fn generate_beating_plays_with_same_type_or_trump(
        hand: &[Card],
        current_pattern: &PlayPattern,
    ) -> (r: Vec<Vec<Card>>)
        requires
            hand@.len() <= MAX_PLAY_CARDS,
        ensures
            plays_from(r@, hand@),
            forall|i: int|
                0 <= i < r@.len() ==> classifiable((#[trigger] r@[i])@) && beats(
                    classify_model(r@[i]@)->Some_0,
                    current_pattern.model(),
                ),
            current_pattern.play_type == PlayType::Single ==> forall|j: int|
                0 <= j < hand@.len() && beats(
                    single_model(seq![#[trigger] hand@[j]]),
                    current_pattern.model(),
                ) ==> exists|y: int| 0 <= y < r@.len() && (#[trigger] r@[y])@ == seq![hand@[j]],
            current_pattern.play_type == PlayType::Pair ==> forall|rk: Rank|
                #[trigger] rank_count(hand@, rk) >= 2 && beats(
                    crate::patterns::shapes::pair_rank_model(rk),
                    current_pattern.model(),
                ) ==> exists|y: int|
                    0 <= y < r@.len() && is_pair((#[trigger] r@[y])@) && r@[y]@[0].rank == rk,
            current_pattern.play_type != PlayType::Tongzi && current_pattern.play_type
                != PlayType::Dizha ==> forall|rk: Rank, sz: nat|
                4 <= sz <= 16 && sz != 8 && rank_count(hand@, rk) >= sz && beats(
                    bomb_rank_model(rk, sz),
                    current_pattern.model(),
                ) ==> #[trigger] has_bomb_play(r@, rk, sz),
            current_pattern.play_type != PlayType::Dizha ==> forall|su: Suit, rk: Rank|
                suit_rank_count(hand@, su, rk) >= 3 && beats(
                    crate::patterns::shapes::tongzi_cell_model(rk, su),
                    current_pattern.model(),
                ) ==> #[trigger] has_tongzi_play(r@, su, rk),
            hand@.len() > 0 ==> forall|rk: Rank|
                crate::ai_helpers::hand_pattern_analyzer::dizha_ready(hand@, rk) && beats(
                    crate::patterns::shapes::dizha_rank_model(rk),
                    current_pattern.model(),
                ) ==> #[trigger] has_dizha_play(r@, rk),
    {
        let mut candidates: Vec<Vec<Card>> = Vec::new();
        if hand.len() == 0 {
            return candidates;
        }
        let current_type = current_pattern.play_type();
        match current_type {
            PlayType::Single => {
                let n = hand.len();
                let mut i: usize = 0;
                while i < n
                    invariant
                        0 <= i <= n,
                        n == hand@.len(),
                        plays_from(candidates@, hand@),
                        plays_classifiable(candidates@),
                        forall|j: int|
                            0 <= j < i ==> exists|y: int|
                                0 <= y < candidates@.len() && candidates@[y]@ == seq![
                                    #[trigger] hand@[j],
                                ],
                    decreases n - i,
                {
                    let mut single: Vec<Card> = Vec::new();
                    single.push(hand[i]);
                    let ghost prev_c = candidates@;
                    proof {
                        assert(hand@.contains(hand@[i as int]));
                        assert(single@ =~= seq![hand@[i as int]]);
                        crate::patterns::shapes::lemma_small_no_wings(single@);
                        assert(classify_model(single@) == Some(single_model(single@)));
                    }
                    push_if_type(&mut candidates, single, PlayType::Single, Ghost(hand@));
                    proof {
                        assert(candidates@ == prev_c.push(single));
                        assert(candidates@[candidates@.len() - 1]@ == seq![hand@[i as int]]);
                        assert forall|j: int| 0 <= j < i + 1 implies exists|y: int|
                            0 <= y < candidates@.len() && candidates@[y]@ == seq![
                                #[trigger] hand@[j],
                            ] by {
                            if j < i {
                                let y = choose|y: int|
                                    0 <= y < prev_c.len() && (#[trigger] prev_c[y])@
                                        == seq![hand@[j]];
                                assert(candidates@[y]@ == seq![hand@[j]]);
                            } else {
                                assert(candidates@[candidates@.len() - 1]@ == seq![hand@[j]]);
                            }
                        }
                    }
                    i = i + 1;
                }
            },
            PlayType::Pair => {
                let pair_cands = Self::pairs(hand);
                let ghost pc = pair_cands@;
                Self::append_groups(&mut candidates, pair_cands, Ghost(hand@));
                proof {
                    assert forall|rk: Rank| #[trigger] rank_count(hand@, rk) >= 2 implies exists|
                        y: int,
                    |
                        0 <= y < candidates@.len() && is_pair((#[trigger] candidates@[y])@)
                            && candidates@[y]@[0].rank == rk by {
                        let g = choose|g: int|
                            0 <= g < pc.len() && is_pair((pc[g])@) && pc[g]@[0].rank == rk;
                        assert(candidates@[0 + g]@ == pc[g]@);
                    }
                }
            },
            PlayType::ConsecutivePairs => {
                Self::append_groups(&mut candidates, Self::consecutive_pairs(hand), Ghost(hand@));
            },
            PlayType::Triple => {
                Self::append_groups(&mut candidates, Self::triples(hand), Ghost(hand@));
            },
            PlayType::Airplane => {
                Self::append_groups(&mut candidates, Self::airplanes(hand), Ghost(hand@));
            },
            PlayType::AirplaneWithWings => {
                Self::append_groups(
                    &mut candidates,
                    Self::airplanes_with_wings(hand),
                    Ghost(hand@),
                );
            },
            _ => {},
        }
        let ghost c0 = candidates@;
        let is_trump = current_type == PlayType::Bomb || current_type == PlayType::Tongzi
            || current_type == PlayType::Dizha;
        if !is_trump {
            let bomb_cands = Self::bombs(hand);
            let ghost bc = bomb_cands@;
            Self::append_groups(&mut candidates, bomb_cands, Ghost(hand@));
            let ghost c1 = candidates@;
            proof {
                assert forall|rk: Rank, sz: nat|
                    4 <= sz <= 16 && sz != 8 && rank_count(hand@, rk)
                        >= sz implies #[trigger] has_bomb_play(candidates@, rk, sz) by {
                    assert(has_bomb_play(bc, rk, sz));
                    let g = choose|g: int|
                        0 <= g < bc.len() && classify_model((#[trigger] bc[g])@) == Some(
                            bomb_rank_model(rk, sz),
                        );
                    assert(candidates@[c0.len() + g]@ == bc[g]@);
                }
            }
            let tongzi_cands = Self::tongzi_plays(hand);
            let ghost tc = tongzi_cands@;
            Self::append_groups(&mut candidates, tongzi_cands, Ghost(hand@));
            let ghost c2 = candidates@;
            proof {
                assert forall|rk: Rank, sz: nat|
                    4 <= sz <= 16 && sz != 8 && rank_count(hand@, rk)
                        >= sz implies #[trigger] has_bomb_play(candidates@, rk, sz) by {
                    assert(has_bomb_play(c1, rk, sz));
                    let y = choose|y: int|
                        0 <= y < c1.len() && classify_model((#[trigger] c1[y])@) == Some(
                            bomb_rank_model(rk, sz),
                        );
                    assert(candidates@[y] == c1[y]);
                }
                assert forall|su: Suit, rk: Rank|
                    suit_rank_count(hand@, su, rk) >= 3 implies #[trigger] has_tongzi_play(
                    candidates@,
                    su,
                    rk,
                ) by {
                    assert(has_tongzi_play(tc, su, rk));
                    let g = choose|g: int|
                        0 <= g < tc.len() && classify_model((#[trigger] tc[g])@) == Some(
                            crate::patterns::shapes::tongzi_cell_model(rk, su),
                        );
                    assert(candidates@[c1.len() + g]@ == tc[g]@);
                }
            }
            let dizha_cands = Self::dizha_plays(hand);
            let ghost dzc = dizha_cands@;
            Self::append_groups(&mut candidates, dizha_cands, Ghost(hand@));
            proof {
                assert forall|rk: Rank|
                    crate::ai_helpers::hand_pattern_analyzer::dizha_ready(hand@, rk) implies #[trigger] has_dizha_play(candidates@, rk) by {
                    assert(has_dizha_play(dzc, rk));
                    let g = choose|g: int|
                        0 <= g < dzc.len() && classify_model((#[trigger] dzc[g])@) == Some(
                            crate::patterns::shapes::dizha_rank_model(rk),
                        );
                    assert(candidates@[c2.len() + g]@ == dzc[g]@);
                }
                assert forall|y: int| 0 <= y < c0.len() implies #[trigger] candidates@[y]
                    == c0[y] by {
                    assert(c1[y] == c0[y]);
                    assert(c2[y] == c1[y]);
                    assert(candidates@[y] == c2[y]);
                }
                assert forall|rk: Rank, sz: nat|
                    4 <= sz <= 16 && sz != 8 && rank_count(hand@, rk)
                        >= sz implies #[trigger] has_bomb_play(candidates@, rk, sz) by {
                    assert(has_bomb_play(c2, rk, sz));
                    let y = choose|y: int|
                        0 <= y < c2.len() && classify_model((#[trigger] c2[y])@) == Some(
                            bomb_rank_model(rk, sz),
                        );
                    assert(candidates@[y] == c2[y]);
                }
                assert forall|su: Suit, rk: Rank|
                    suit_rank_count(hand@, su, rk) >= 3 implies #[trigger] has_tongzi_play(
                    candidates@,
                    su,
                    rk,
                ) by {
                    assert(has_tongzi_play(c2, su, rk));
                    let y = choose|y: int|
                        0 <= y < c2.len() && classify_model((#[trigger] c2[y])@) == Some(
                            crate::patterns::shapes::tongzi_cell_model(rk, su),
                        );
                    assert(candidates@[y] == c2[y]);
                }
            }
        } else {
            match current_type {
                PlayType::Bomb => {
                    let bomb_cands = Self::bombs(hand);
                    let ghost bc = bomb_cands@;
                    let ghost b0 = candidates@;
                    Self::append_groups(&mut candidates, bomb_cands, Ghost(hand@));
                    let ghost b1 = candidates@;
                    proof {
                        assert forall|rk: Rank, sz: nat|
                            4 <= sz <= 16 && sz != 8 && rank_count(hand@, rk)
                                >= sz implies #[trigger] has_bomb_play(candidates@, rk, sz) by {
                            assert(has_bomb_play(bc, rk, sz));
                            let g = choose|g: int|
                                0 <= g < bc.len() && classify_model((#[trigger] bc[g])@) == Some(
                                    bomb_rank_model(rk, sz),
                                );
                            assert(candidates@[b0.len() + g]@ == bc[g]@);
                        }
                    }
                    let tongzi_cands = Self::tongzi_plays(hand);
                    let ghost tc = tongzi_cands@;
                    Self::append_groups(&mut candidates, tongzi_cands, Ghost(hand@));
                    let ghost b2 = candidates@;
                    proof {
                        assert forall|rk: Rank, sz: nat|
                            4 <= sz <= 16 && sz != 8 && rank_count(hand@, rk)
                                >= sz implies #[trigger] has_bomb_play(candidates@, rk, sz) by {
                            assert(has_bomb_play(b1, rk, sz));
                            let y = choose|y: int|
                                0 <= y < b1.len() && classify_model((#[trigger] b1[y])@) == Some(
                                    bomb_rank_model(rk, sz),
                                );
                            assert(candidates@[y] == b1[y]);
                        }
                        assert forall|su: Suit, rk: Rank|
                            suit_rank_count(hand@, su, rk) >= 3 implies #[trigger] has_tongzi_play(
                            candidates@,
                            su,
                            rk,
                        ) by {
                            assert(has_tongzi_play(tc, su, rk));
                            let g = choose|g: int|
                                0 <= g < tc.len() && classify_model((#[trigger] tc[g])@) == Some(
                                    crate::patterns::shapes::tongzi_cell_model(rk, su),
                                );
                            assert(candidates@[b1.len() + g]@ == tc[g]@);
                        }
                    }
                    let dizha_cands = Self::dizha_plays(hand);
                    let ghost dzc = dizha_cands@;
                    Self::append_groups(&mut candidates, dizha_cands, Ghost(hand@));
                    proof {
                        assert forall|rk: Rank|
                            crate::ai_helpers::hand_pattern_analyzer::dizha_ready(hand@, rk) implies #[trigger] has_dizha_play(candidates@, rk) by {
                            assert(has_dizha_play(dzc, rk));
                            let g = choose|g: int|
                                0 <= g < dzc.len() && classify_model((#[trigger] dzc[g])@) == Some(
                                    crate::patterns::shapes::dizha_rank_model(rk),
                                );
                            assert(candidates@[b2.len() + g]@ == dzc[g]@);
                        }
                        assert forall|rk: Rank, sz: nat|
                            4 <= sz <= 16 && sz != 8 && rank_count(hand@, rk)
                                >= sz implies #[trigger] has_bomb_play(candidates@, rk, sz) by {
                            assert(has_bomb_play(b2, rk, sz));
                            let y = choose|y: int|
                                0 <= y < b2.len() && classify_model((#[trigger] b2[y])@) == Some(
                                    bomb_rank_model(rk, sz),
                                );
                            assert(candidates@[y] == b2[y]);
                        }
                        assert forall|su: Suit, rk: Rank|
                            suit_rank_count(hand@, su, rk) >= 3 implies #[trigger] has_tongzi_play(
                            candidates@,
                            su,
                            rk,
                        ) by {
                            assert(has_tongzi_play(b2, su, rk));
                            let y = choose|y: int|
                                0 <= y < b2.len() && classify_model((#[trigger] b2[y])@) == Some(
                                    crate::patterns::shapes::tongzi_cell_model(rk, su),
                                );
                            assert(candidates@[y] == b2[y]);
                        }
                    }
                },
                PlayType::Tongzi => {
                    let tongzi_cands = Self::tongzi_plays(hand);
                    let ghost tc = tongzi_cands@;
                    let ghost t0 = candidates@;
                    Self::append_groups(&mut candidates, tongzi_cands, Ghost(hand@));
                    let ghost t1 = candidates@;
                    proof {
                        assert forall|su: Suit, rk: Rank|
                            suit_rank_count(hand@, su, rk) >= 3 implies #[trigger] has_tongzi_play(
                            candidates@,
                            su,
                            rk,
                        ) by {
                            assert(has_tongzi_play(tc, su, rk));
                            let g = choose|g: int|
                                0 <= g < tc.len() && classify_model((#[trigger] tc[g])@) == Some(
                                    crate::patterns::shapes::tongzi_cell_model(rk, su),
                                );
                            assert(candidates@[t0.len() + g]@ == tc[g]@);
                        }
                    }
                    let dizha_cands = Self::dizha_plays(hand);
                    let ghost dzc = dizha_cands@;
                    Self::append_groups(&mut candidates, dizha_cands, Ghost(hand@));
                    proof {
                        assert forall|rk: Rank|
                            crate::ai_helpers::hand_pattern_analyzer::dizha_ready(hand@, rk) implies #[trigger] has_dizha_play(candidates@, rk) by {
                            assert(has_dizha_play(dzc, rk));
                            let g = choose|g: int|
                                0 <= g < dzc.len() && classify_model((#[trigger] dzc[g])@) == Some(
                                    crate::patterns::shapes::dizha_rank_model(rk),
                                );
                            assert(candidates@[t1.len() + g]@ == dzc[g]@);
                        }
                        assert forall|su: Suit, rk: Rank|
                            suit_rank_count(hand@, su, rk) >= 3 implies #[trigger] has_tongzi_play(
                            candidates@,
                            su,
                            rk,
                        ) by {
                            assert(has_tongzi_play(t1, su, rk));
                            let y = choose|y: int|
                                0 <= y < t1.len() && classify_model((#[trigger] t1[y])@) == Some(
                                    crate::patterns::shapes::tongzi_cell_model(rk, su),
                                );
                            assert(candidates@[y] == t1[y]);
                        }
                    }
                },
                PlayType::Dizha => {
                    let dizha_cands = Self::dizha_plays(hand);
                    let ghost dzc = dizha_cands@;
                    let ghost d0 = candidates@;
                    Self::append_groups(&mut candidates, dizha_cands, Ghost(hand@));
                    proof {
                        assert forall|rk: Rank|
                            crate::ai_helpers::hand_pattern_analyzer::dizha_ready(hand@, rk) implies #[trigger] has_dizha_play(candidates@, rk) by {
                            assert(has_dizha_play(dzc, rk));
                            let g = choose|g: int|
                                0 <= g < dzc.len() && classify_model((#[trigger] dzc[g])@) == Some(
                                    crate::patterns::shapes::dizha_rank_model(rk),
                                );
                            assert(candidates@[d0.len() + g]@ == dzc[g]@);
                        }
                    }
                },
                _ => {},
            }
        }
        let mut valid_plays: Vec<Vec<Card>> = Vec::new();
        let nc = candidates.len();
        let mut i: usize = 0;
        while i < nc
            invariant
                0 <= i <= nc,
                nc == candidates@.len(),
                plays_from(candidates@, hand@),
                plays_classifiable(candidates@),
                plays_from(valid_plays@, hand@),
                forall|j: int|
                    0 <= j < valid_plays@.len() ==> classifiable((#[trigger] valid_plays@[j])@)
                        && beats(
                        classify_model(valid_plays@[j]@)->Some_0,
                        current_pattern.model(),
                    ),
                forall|j: int|
                    0 <= j < i && classifiable((#[trigger] candidates@[j])@) && beats(
                        classify_model(candidates@[j]@)->Some_0,
                        current_pattern.model(),
                    ) ==> exists|y: int|
                        0 <= y < valid_plays@.len() && (#[trigger] valid_plays@[y])@
                            == candidates@[j]@,
            decreases nc - i,
        {
            let play = candidates[i].clone();
            proof {
                assert(play@ == candidates@[i as int]@);
                assert(classifiable(candidates@[i as int]@));
            }
            let ghost prev = valid_plays@;
            if PlayValidator::can_beat_play(play.as_slice(), Some(current_pattern)) {
                valid_plays.push(play);
                proof {
                    assert(valid_plays@[valid_plays@.len() - 1]@ == candidates@[i as int]@);
                    assert forall|j: int|
                        0 <= j < valid_plays@.len() implies classifiable(
                        (#[trigger] valid_plays@[j])@,
                    ) && beats(classify_model(valid_plays@[j]@)->Some_0, current_pattern.model())
                        && (forall|x: int|
                        0 <= x < valid_plays@[j]@.len() ==> hand@.contains(
                            #[trigger] valid_plays@[j]@[x],
                        )) by {
                        if j < prev.len() {
                            assert(valid_plays@[j] == prev[j]);
                            assert(classifiable(prev[j]@));
                            assert(plays_from(prev, hand@));
                        } else {
                            assert(valid_plays@[j]@ == candidates@[i as int]@);
                            assert(plays_from(candidates@, hand@));
                        }
                    }
                }
            }
            proof {
                assert forall|j: int|
                    0 <= j < i + 1 && classifiable((#[trigger] candidates@[j])@) && beats(
                        classify_model(candidates@[j]@)->Some_0,
                        current_pattern.model(),
                    ) implies exists|y: int|
                    0 <= y < valid_plays@.len() && (#[trigger] valid_plays@[y])@
                        == candidates@[j]@ by {
                    if j < i {
                        let y = choose|y: int|
                            0 <= y < prev.len() && (#[trigger] prev[y])@ == candidates@[j]@;
                        assert(valid_plays@[y]@ == candidates@[j]@);
                    } else {
                        assert(valid_plays@[valid_plays@.len() - 1]@ == candidates@[j]@);
                    }
                }
            }
            i = i + 1;
        }
        proof {
            if current_pattern.play_type == PlayType::Single {
                assert forall|j: int|
                    0 <= j < hand@.len() && beats(
                        single_model(seq![#[trigger] hand@[j]]),
                        current_pattern.model(),
                    ) implies exists|y: int|
                    0 <= y < valid_plays@.len() && (#[trigger] valid_plays@[y])@
                        == seq![hand@[j]] by {
                    let c = choose|c: int|
                        0 <= c < c0.len() && (#[trigger] c0[c])@ == seq![hand@[j]];
                    assert(candidates@[c] == c0[c]);
                    assert(candidates@[c]@ == seq![hand@[j]]);
                    crate::patterns::shapes::lemma_small_no_wings(seq![hand@[j]]);
                    assert(classify_model(candidates@[c]@) == Some(single_model(seq![hand@[j]])));
                    assert(classifiable(candidates@[c]@));
                    assert(beats(
                        classify_model(candidates@[c]@)->Some_0,
                        current_pattern.model(),
                    ));
                    let y = choose|y: int|
                        0 <= y < valid_plays@.len() && (#[trigger] valid_plays@[y])@
                            == candidates@[c]@;
                    assert(valid_plays@[y]@ == seq![hand@[j]]);
                }
            }
        }
        proof {
            if current_pattern.play_type == PlayType::Pair {
                assert forall|rk: Rank|
                    #[trigger] rank_count(hand@, rk) >= 2 && beats(
                        crate::patterns::shapes::pair_rank_model(rk),
                        current_pattern.model(),
                    ) implies exists|y: int|
                    0 <= y < valid_plays@.len() && is_pair((#[trigger] valid_plays@[y])@)
                        && valid_plays@[y]@[0].rank == rk by {
                    let g = choose|g: int|
                        0 <= g < c0.len() && is_pair((c0[g])@) && c0[g]@[0].rank == rk;
                    assert(candidates@[g] == c0[g]);
                    crate::patterns::shapes::lemma_classify_pair(candidates@[g]@);
                    assert(classifiable(candidates@[g]@));
                    assert(classify_model(candidates@[g]@)->Some_0
                        == crate::patterns::shapes::pair_rank_model(rk));
                    let y = choose|y: int|
                        0 <= y < valid_plays@.len() && valid_plays@[y]@ == candidates@[g]@;
                    assert(is_pair(valid_plays@[y]@) && valid_plays@[y]@[0].rank == rk);
                }
            }
            if current_pattern.play_type != PlayType::Tongzi && current_pattern.play_type
                != PlayType::Dizha {
                assert forall|rk: Rank, sz: nat|
                    4 <= sz <= 16 && sz != 8 && rank_count(hand@, rk) >= sz && beats(
                        bomb_rank_model(rk, sz),
                        current_pattern.model(),
                    ) implies #[trigger] has_bomb_play(valid_plays@, rk, sz) by {
                    assert(has_bomb_play(candidates@, rk, sz));
                    let g = choose|g: int|
                        0 <= g < candidates@.len() && classify_model((#[trigger] candidates@[g])@)
                            == Some(bomb_rank_model(rk, sz));
                    assert(classifiable(candidates@[g]@));
                    assert(classify_model(candidates@[g]@)->Some_0 == bomb_rank_model(rk, sz));
                    let y = choose|y: int|
                        0 <= y < valid_plays@.len() && valid_plays@[y]@ == candidates@[g]@;
                    assert(classify_model(valid_plays@[y]@) == Some(bomb_rank_model(rk, sz)));
                }
            }
            if current_pattern.play_type != PlayType::Dizha {
                assert forall|su: Suit, rk: Rank|
                    suit_rank_count(hand@, su, rk) >= 3 && beats(
                        crate::patterns::shapes::tongzi_cell_model(rk, su),
                        current_pattern.model(),
                    ) implies #[trigger] has_tongzi_play(valid_plays@, su, rk) by {
                    assert(has_tongzi_play(candidates@, su, rk));
                    let g = choose|g: int|
                        0 <= g < candidates@.len() && classify_model((#[trigger] candidates@[g])@)
                            == Some(crate::patterns::shapes::tongzi_cell_model(rk, su));
                    assert(classifiable(candidates@[g]@));
                    assert(classify_model(candidates@[g]@)->Some_0
                        == crate::patterns::shapes::tongzi_cell_model(rk, su));
                    let y = choose|y: int|
                        0 <= y < valid_plays@.len() && valid_plays@[y]@ == candidates@[g]@;
                    assert(classify_model(valid_plays@[y]@) == Some(
                        crate::patterns::shapes::tongzi_cell_model(rk, su),
                    ));
                }
            }
            assert forall|rk: Rank|
                crate::ai_helpers::hand_pattern_analyzer::dizha_ready(hand@, rk) && beats(
                    crate::patterns::shapes::dizha_rank_model(rk),
                    current_pattern.model(),
                ) implies #[trigger] has_dizha_play(valid_plays@, rk) by {
                assert(has_dizha_play(candidates@, rk));
                let g = choose|g: int|
                    0 <= g < candidates@.len() && classify_model((#[trigger] candidates@[g])@)
                        == Some(crate::patterns::shapes::dizha_rank_model(rk));
                assert(classifiable(candidates@[g]@));
                assert(classify_model(candidates@[g]@)->Some_0 == crate::patterns::shapes::dizha_rank_model(rk));
                let y = choose|y: int|
                    0 <= y < valid_plays@.len() && valid_plays@[y]@ == candidates@[g]@;
                assert(classify_model(valid_plays@[y]@) == Some(crate::patterns::shapes::dizha_rank_model(rk)));
            }
        }
        valid_plays
    }

    /// All pair candidates: every two-card same-rank combination.
    fn pairs(hand: &[Card]) -> (out: Vec<Vec<Card>>)
        requires
            hand@.len() <= MAX_PLAY_CARDS,
        ensures
            plays_from(out@, hand@),
            plays_classifiable(out@),
            all_counts_below(hand@, 2) ==> out@.len() == 0,
            forall|rk: Rank|
                #[trigger] rank_count(hand@, rk) >= 2 ==> exists|y: int|
                    0 <= y < out@.len() && is_pair((#[trigger] out@[y])@) && out@[y]@[0].rank
                        == rk,
    {
        let mut out: Vec<Vec<Card>> = Vec::new();
        let mut v: u8 = 3;
        while v <= 15
            invariant
                3 <= v <= 16,
                hand@.len() <= MAX_PLAY_CARDS,
                plays_from(out@, hand@),
                plays_classifiable(out@),
                all_counts_below(hand@, 2) ==> out@.len() == 0,
                forall|rk: Rank|
                    rk.spec_value() < v && #[trigger] rank_count(hand@, rk) >= 2 ==> exists|
                        y: int,
                    |
                        0 <= y < out@.len() && is_pair((#[trigger] out@[y])@) && out@[y]@[0].rank
                            == rk,
            decreases 16 - v,
        {
            let rank = rank_from_value(v);
            let rv = cards_of_rank(hand, rank);
            proof {
                assert(rank_count_v(hand@, v as int) == rank_count(hand@, rank));
            }
            let c = rv.len();
            let mut i: usize = 0;
            while i < c
                invariant
                    0 <= i <= c,
                    c == rv@.len(),
                    c <= hand@.len() <= MAX_PLAY_CARDS,
                    c == rank_count_v(hand@, v as int),
                    c == rank_count(hand@, rank),
                    rank == rank_of_value(v as int),
                    3 <= v <= 15,
                    forall|x: int| 0 <= x < rv@.len() ==> (#[trigger] rv@[x]).rank == rank,
                    forall|y: int| 0 <= y < rv@.len() ==> hand@.contains(#[trigger] rv@[y]),
                    plays_from(out@, hand@),
                    plays_classifiable(out@),
                    all_counts_below(hand@, 2) ==> out@.len() == 0,
                    forall|rk: Rank|
                        rk.spec_value() < v && #[trigger] rank_count(hand@, rk) >= 2 ==> exists|
                            y: int,
                        |
                            0 <= y < out@.len() && is_pair((#[trigger] out@[y])@)
                                && out@[y]@[0].rank == rk,
                    i > 0 && c >= 2 ==> exists|y: int|
                        0 <= y < out@.len() && is_pair((#[trigger] out@[y])@) && out@[y]@[0].rank
                            == rank,
                decreases c - i,
            {
                let mut j: usize = i + 1;
                while j < c
                    invariant
                        0 <= i < j <= c,
                        c == rv@.len(),
                        c <= hand@.len() <= MAX_PLAY_CARDS,
                        c == rank_count_v(hand@, v as int),
                        rank == rank_of_value(v as int),
                        3 <= v <= 15,
                        forall|x: int| 0 <= x < rv@.len() ==> (#[trigger] rv@[x]).rank == rank,
                        forall|y: int| 0 <= y < rv@.len() ==> hand@.contains(#[trigger] rv@[y]),
                        plays_from(out@, hand@),
                        plays_classifiable(out@),
                        all_counts_below(hand@, 2) ==> out@.len() == 0,
                        forall|rk: Rank|
                            rk.spec_value() < v && #[trigger] rank_count(hand@, rk) >= 2
                                ==> exists|y: int|
                                0 <= y < out@.len() && is_pair((#[trigger] out@[y])@)
                                    && out@[y]@[0].rank == rk,
                        j > i + 1 || i > 0 ==> exists|y: int|
                            0 <= y < out@.len() && is_pair((#[trigger] out@[y])@)
                                && out@[y]@[0].rank == rank,
                    decreases c - j,
                {
                    let mut pair: Vec<Card> = Vec::new();
                    pair.push(rv[i]);
                    pair.push(rv[j]);
                    let ghost pseq = pair@;
                    let ghost prev_out = out@;
                    proof {
                        assert(pseq =~= seq![rv@[i as int], rv@[j as int]]);
                        assert(is_pair(pseq));
                        crate::patterns::shapes::lemma_classify_pair(pseq);
                    }
                    push_if_type(&mut out, pair, PlayType::Pair, Ghost(hand@));
                    proof {
                        assert(out@ == prev_out.push(pair));
                        assert(out@[out@.len() - 1]@ == pseq);
                        assert forall|rk: Rank|
                            rk.spec_value() < v && #[trigger] rank_count(hand@, rk) >= 2 implies exists|
                            y: int,
                        |
                            0 <= y < out@.len() && is_pair((#[trigger] out@[y])@)
                                && out@[y]@[0].rank == rk by {
                            let y = choose|y: int|
                                0 <= y < prev_out.len() && is_pair((prev_out[y])@)
                                    && prev_out[y]@[0].rank == rk;
                            assert(out@[y] == prev_out[y]);
                        }
                        assert(is_pair(out@[out@.len() - 1]@) && out@[out@.len() - 1]@[0].rank
                            == rank);
                    }
                    j = j + 1;
                }
                i = i + 1;
            }
            proof {
                assert forall|rk: Rank|
                    rk.spec_value() < v + 1 && #[trigger] rank_count(hand@, rk) >= 2 implies exists|
                    y: int,
                |
                    0 <= y < out@.len() && is_pair((#[trigger] out@[y])@) && out@[y]@[0].rank
                        == rk by {
                    if rk.spec_value() == v as int {
                        crate::models::card::lemma_rank_value_roundtrip(rk);
                        assert(rk == rank);
                        assert(c >= 2);
                    }
                }
            }
            v = v + 1;
        }
        proof {
            assert forall|rk: Rank| #[trigger] rank_count(hand@, rk) >= 2 implies exists|y: int|
                0 <= y < out@.len() && is_pair((#[trigger] out@[y])@) && out@[y]@[0].rank
                    == rk by {
                crate::models::card::lemma_rank_value_roundtrip(rk);
            }
        }
        out
    }

    /// All triple candidates: every three-card same-rank combination of
    /// mixed suits.
    fn triples(hand: &[Card]) -> (out: Vec<Vec<Card>>)
        requires
            hand@.len() <= MAX_PLAY_CARDS,
        ensures
            plays_from(out@, hand@),
            plays_classifiable(out@),
            all_counts_below(hand@, 3) ==> out@.len() == 0,
    {
        let mut out: Vec<Vec<Card>> = Vec::new();
        let mut v: u8 = 3;
        while v <= 15
            invariant
                3 <= v <= 16,
                hand@.len() <= MAX_PLAY_CARDS,
                plays_from(out@, hand@),
                plays_classifiable(out@),
                all_counts_below(hand@, 3) ==> out@.len() == 0,
            decreases 16 - v,
        {
            let rank = rank_from_value(v);
            let rv = cards_of_rank(hand, rank);
            proof {
                assert(rank_count_v(hand@, v as int) == rank_count(hand@, rank));
            }
            let c = rv.len();
            if c >= 3 {
                let combos = combos_cards(&rv, 0, 3);
                let ncb = combos.len();
                let mut x: usize = 0;
                while x < ncb
                    invariant
                        0 <= x <= ncb,
                        ncb == combos@.len(),
                        hand@.len() <= MAX_PLAY_CARDS,
                        rank_count_v(hand@, v as int) >= 3,
                        forall|j: int|
                            0 <= j < combos@.len() ==> (#[trigger] combos@[j])@.len() == 3
                                && forall|y: int|
                                0 <= y < combos@[j]@.len() ==> rv@.contains(
                                    #[trigger] combos@[j]@[y],
                                ),
                        forall|y: int| 0 <= y < rv@.len() ==> hand@.contains(#[trigger] rv@[y]),
                        plays_from(out@, hand@),
                        plays_classifiable(out@),
                        all_counts_below(hand@, 3) ==> out@.len() == 0,
                    decreases ncb - x,
                {
                    let combo = combos[x].clone();
                    proof {
                        assert(combo@ == combos@[x as int]@);
                        assert forall|y: int| 0 <= y < combo@.len() implies hand@.contains(
                            #[trigger] combo@[y],
                        ) by {
                            assert(rv@.contains(combo@[y]));
                            let z = choose|z: int| 0 <= z < rv@.len() && rv@[z] == combo@[y];
                        }
                    }
                    push_if_type(&mut out, combo, PlayType::Triple, Ghost(hand@));
                    x = x + 1;
                }
            }
            v = v + 1;
        }
        out
    }

    /// Counts the valid plays of the hand without keeping them: singles
    /// plus every pair, consecutive-pair, triple, kicker, airplane, wing,
    /// bomb, tongzi and dizha combination.
    pub fn count_all_plays(hand: &[Card]) -> (r: usize)
        requires
            hand@.len() <= MAX_PLAY_CARDS,
        ensures
            hand@.len() == 0 ==> r == 0,
            hand@.len() > 0 ==> r >= hand@.len(),
            hand@.len() > 0 && all_counts_below(hand@, 2) ==> r == hand@.len(),
    {
        if hand.len() == 0 {
            return 0;
        }
        proof {
            if all_counts_below(hand@, 2) {
                assert forall|u: int| #[trigger] rank_count_v(hand@, u) < 3 by {
                    assert(rank_count_v(hand@, u) < 2);
                }
                assert forall|u: int| #[trigger] rank_count_v(hand@, u) < 4 by {
                    assert(rank_count_v(hand@, u) < 2);
                }
                assert(all_counts_below(hand@, 3) && all_counts_below(hand@, 4));
            }
        }
        let mut count: usize = hand.len();
        count = count.saturating_add(Self::pairs(hand).len());
        count = count.saturating_add(Self::consecutive_pairs(hand).len());
        count = count.saturating_add(Self::triples(hand).len());
        count = count.saturating_add(Self::triples_with_kickers(hand).len());
        count = count.saturating_add(Self::airplanes(hand).len());
        count = count.saturating_add(Self::airplanes_with_wings(hand).len());
        count = count.saturating_add(Self::bombs(hand).len());
        count = count.saturating_add(Self::tongzi_plays(hand).len());
        count = count.saturating_add(Self::dizha_plays(hand).len());
        count
    }
}

} // verus!
