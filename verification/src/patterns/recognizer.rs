//! Pattern recognition and play validation.

use vstd::prelude::*;
use vstd::slice::slice_to_vec;

use crate::models::card::Card;
use crate::models::card::Rank;
use crate::models::card::Suit;
use crate::models::card::lemma_rank_value_roundtrip;
use crate::models::card::rank_from_value;
use crate::models::card::rank_of_value;
use crate::models::counting::count_suit_rank;
use crate::models::counting::is_rank_table;
use crate::models::counting::lemma_contains_count;
use crate::models::counting::rank_count;
use crate::models::counting::rank_count_v;
use crate::models::counting::rank_table;
use crate::models::counting::suit_rank_count;
use crate::patterns::pattern::PatternModel;
use crate::patterns::pattern::PlayPattern;
use crate::patterns::pattern::PlayType;
use crate::patterns::shapes::aww_len;
use crate::patterns::shapes::aww_lo;
use crate::patterns::shapes::airplane_model;
use crate::patterns::shapes::airplane_with_wings_model;
use crate::patterns::shapes::all_same_card;
use crate::patterns::shapes::all_same_rank;
use crate::patterns::shapes::best_wing_len;
use crate::patterns::shapes::bomb_model;
use crate::patterns::shapes::classifiable;
use crate::patterns::shapes::classify_model;
use crate::patterns::shapes::consecutive_pairs_model;
use crate::patterns::shapes::dizha_model;
use crate::patterns::shapes::exact_run;
use crate::patterns::shapes::find_count_v;
use crate::patterns::shapes::find_wing_lo;
use crate::patterns::shapes::is_airplane;
use crate::patterns::shapes::is_airplane_with_wings;
use crate::patterns::shapes::is_bomb;
use crate::patterns::shapes::is_consecutive_pairs;
use crate::patterns::shapes::is_dizha;
use crate::patterns::shapes::is_pair;
use crate::patterns::shapes::is_single;
use crate::patterns::shapes::is_tongzi;
use crate::patterns::shapes::is_triple;
use crate::patterns::shapes::is_triple_with_two;
use crate::patterns::shapes::lemma_min_present_from;
use crate::patterns::shapes::low_rank_v;
use crate::patterns::shapes::min_present_from;
use crate::patterns::shapes::pair_model;
use crate::patterns::shapes::run_ranks;
use crate::patterns::shapes::single_model;
use crate::patterns::shapes::tongzi_model;
use crate::patterns::shapes::triple_model;
use crate::patterns::shapes::triple_with_two_model;
use crate::patterns::shapes::wing_run;

verus! {

/// Largest accepted play size; the packed strength must fit in 32 bits.
pub const MAX_PLAY_CARDS: usize = 1000000000;

/// A non-empty hand holds its first card's rank.
proof fn lemma_first_present(s: Seq<Card>)
    requires
        s.len() > 0,
    ensures
        rank_count_v(s, s[0].rank.spec_value() as int) > 0,
        3 <= low_rank_v(s) <= s[0].rank.spec_value(),
{
    let c = s[0];
    assert(s.contains(c));
    lemma_contains_count(s, c);
    lemma_rank_value_roundtrip(c.rank);
    let v = c.rank.spec_value() as int;
    assert(rank_of_value(v) == c.rank);
    assert(rank_count(s, c.rank) >= suit_rank_count(s, c.suit, c.rank)) by {
        if c.suit == Suit::Diamonds {
        } else if c.suit == Suit::Clubs {
        } else if c.suit == Suit::Hearts {
        } else {
        }
    }
    lemma_min_present_from(s, 3);
}

/// Every card matches the first card's rank.
fn all_same_rank_exec(cards: &Vec<Card>) -> (b: bool)
    requires
        cards@.len() >= 1,
    ensures
        b == all_same_rank(cards@),
{
    let first = cards[0].rank;
    let n = cards.len();
    let mut i: usize = 1;
    while i < n
        invariant
            1 <= i <= n,
            n == cards@.len(),
            first == cards@[0].rank,
            forall|j: int| 0 <= j < i ==> #[trigger] cards@[j].rank == cards@[0].rank,
        decreases n - i,
    {
        if cards[i].rank != first {
            return false;
        }
        i = i + 1;
    }
    true
}

/// Every card equals the first card.
fn all_same_card_exec(cards: &Vec<Card>) -> (b: bool)
    requires
        cards@.len() >= 1,
    ensures
        b == all_same_card(cards@),
{
    let first = cards[0];
    let n = cards.len();
    let mut i: usize = 1;
    while i < n
        invariant
            1 <= i <= n,
            n == cards@.len(),
            first == cards@[0],
            forall|j: int| 0 <= j < i ==> #[trigger] cards@[j] == cards@[0],
        decreases n - i,
    {
        if cards[i] != first {
            return false;
        }
        i = i + 1;
    }
    true
}

/// The lowest present rank value, from the count table.
fn lowest_present(t: &Vec<usize>, Ghost(s): Ghost<Seq<Card>>) -> (lo: usize)
    requires
        is_rank_table(s, t@),
    ensures
        lo as int == low_rank_v(s),
        3 <= lo <= 16,
{
    let mut v: usize = 3;
    while v < 16
        invariant
            3 <= v <= 16,
            is_rank_table(s, t@),
            low_rank_v(s) == min_present_from(s, v as int),
        decreases 16 - v,
    {
        if t[v] > 0 {
            return v;
        }
        v = v + 1;
    }
    16
}

/// Checks that the hand's ranks are exactly `k` consecutive values from
/// `lo`, each counted `m` times.
fn check_exact_run(t: &Vec<usize>, Ghost(s): Ghost<Seq<Card>>, lo: usize, k: usize, m: usize) -> (b:
    bool)
    requires
        is_rank_table(s, t@),
        3 <= lo <= 16,
        1 <= k,
    ensures
        b == exact_run(s, lo as int, k as int, m as nat),
{
    if k > 12 {
        return false;
    }
    if lo + k - 1 > 14 {
        return false;
    }
    let mut v: usize = 3;
    while v < 16
        invariant
            3 <= v <= 16,
            is_rank_table(s, t@),
            3 <= lo,
            lo + k - 1 <= 14,
            1 <= k <= 12,
            forall|u: int|
                3 <= u < v && lo <= u < lo + k ==> #[trigger] rank_count_v(s, u) == m,
            forall|u: int|
                3 <= u < v && !(lo <= u < lo + k) ==> #[trigger] rank_count_v(s, u) == 0,
        decreases 16 - v,
    {
        let expected: usize = if lo <= v && v < lo + k {
            m
        } else {
            0
        };
        if t[v] != expected {
            return false;
        }
        v = v + 1;
    }
    true
}

/// Checks for a wing run of the given start and length.
fn wing_run_at(t: &Vec<usize>, Ghost(s): Ghost<Seq<Card>>, n: usize, lo: usize, len: usize) -> (b:
    bool)
    requires
        is_rank_table(s, t@),
        n == s.len(),
        3 <= lo <= 14,
        2 <= len <= 12,
    ensures
        b == wing_run(s, lo as int, len as int),
{
    if lo + len - 1 > 14 {
        return false;
    }
    if n < 4 * len || n > 5 * len {
        return false;
    }
    let mut v: usize = lo;
    while v < lo + len
        invariant
            lo <= v <= lo + len,
            is_rank_table(s, t@),
            3 <= lo,
            lo + len - 1 <= 14,
            2 <= len <= 12,
            forall|u: int| lo <= u < v ==> #[trigger] rank_count_v(s, u) >= 3,
        decreases lo + len - v,
    {
        if t[v] < 3 {
            return false;
        }
        v = v + 1;
    }
    true
}

/// Finds the lowest start of a wing run of the given length.
fn find_wing_lo_exec(t: &Vec<usize>, Ghost(s): Ghost<Seq<Card>>, n: usize, len: usize) -> (r:
    Option<usize>)
    requires
        is_rank_table(s, t@),
        n == s.len(),
        2 <= len <= 12,
    ensures
        r matches Some(lo) ==> lo as int == find_wing_lo(s, len as int, 3) && wing_run(
            s,
            lo as int,
            len as int,
        ) && 3 <= lo <= 14,
        r is None ==> find_wing_lo(s, len as int, 3) == -1,
{
    let mut lo: usize = 3;
    while lo <= 14
        invariant
            3 <= lo <= 15,
            is_rank_table(s, t@),
            n == s.len(),
            2 <= len <= 12,
            find_wing_lo(s, len as int, 3) == find_wing_lo(s, len as int, lo as int),
        decreases 15 - lo,
    {
        if wing_run_at(t, Ghost(s), n, lo, len) {
            return Some(lo);
        }
        lo = lo + 1;
    }
    None
}

/// Finds the longest wing-run length, searching from the longest down.
fn best_wing_len_exec(t: &Vec<usize>, Ghost(s): Ghost<Seq<Card>>, n: usize) -> (len: usize)
    requires
        is_rank_table(s, t@),
        n == s.len(),
    ensures
        len as int == aww_len(s),
        len == 0 || 2 <= len <= 12,
{
    let mut len: usize = 12;
    while len >= 2
        invariant
            1 <= len <= 12,
            is_rank_table(s, t@),
            n == s.len(),
            aww_len(s) == best_wing_len(s, len as int),
        decreases len,
    {
        if let Some(_lo) = find_wing_lo_exec(t, Ghost(s), n, len) {
            return len;
        }
        len = len - 1;
    }
    assert(best_wing_len(s, 1) == 0);
    0
}

/// Finds the lowest rank value counted exactly `c` times.
fn find_count_exec(t: &Vec<usize>, Ghost(s): Ghost<Seq<Card>>, c: usize) -> (r: Option<usize>)
    requires
        is_rank_table(s, t@),
    ensures
        r matches Some(v) ==> v as int == find_count_v(s, c as nat, 3) && 3 <= v <= 15
            && rank_count_v(s, v as int) == c,
        r is None ==> find_count_v(s, c as nat, 3) == -1,
{
    let mut v: usize = 3;
    while v <= 15
        invariant
            3 <= v <= 16,
            is_rank_table(s, t@),
            find_count_v(s, c as nat, 3) == find_count_v(s, c as nat, v as int),
        decreases 16 - v,
    {
        if t[v] == c {
            return Some(v);
        }
        v = v + 1;
    }
    None
}

/// Builds the ascending rank vector `lo`, ..., `lo + k - 1`.
fn run_rank_vec(lo: usize, k: usize) -> (v: Vec<Rank>)
    requires
        3 <= lo,
        lo + k <= 16,
    ensures
        v@ =~= run_ranks(lo as int, k as int),
{
    let mut out: Vec<Rank> = Vec::new();
    let mut i: usize = 0;
    while i < k
        invariant
            0 <= i <= k,
            3 <= lo,
            lo + k <= 16,
            out@.len() == i,
            forall|j: int| 0 <= j < i ==> #[trigger] out@[j] == rank_of_value(lo + j),
        decreases k - i,
    {
        out.push(rank_from_value((lo + i) as u8));
        i = i + 1;
    }
    out
}

/// Recognizes and analyzes card patterns.
pub struct PatternRecognizer;

impl PatternRecognizer {
    /// Analyzes a list of cards and returns the recognized pattern, or
    /// `None` when the cards match none of the ten shapes.
    ///
    /// The returned pattern is exactly the classification of the cards'
    /// multiset: the shape checks are probed in strict priority order
    /// (Dizha, Tongzi, Bomb, Airplane, AirplaneWithWings, TripleWithTwo,
    /// Triple, ConsecutivePairs, Pair, Single) and the first match decides.
    pub fn analyze_cards(cards: &[Card]) -> (r: Option<PlayPattern>)
        requires
            cards@.len() <= MAX_PLAY_CARDS,
        ensures
            r is Some <==> classifiable(cards@),
            r matches Some(p) ==> classify_model(cards@) == Some(p.model()),
    {
        let v: Vec<Card> = slice_to_vec(cards);
        assert(v@ =~= cards@);
        if v.len() == 0 {
            return None;
        }
        let t = rank_table(&v);
        if let Some(p) = Self::check_dizha(&v) {
            return Some(p);
        }
        if let Some(p) = Self::check_tongzi(&v) {
            return Some(p);
        }
        if let Some(p) = Self::check_bomb(&v) {
            return Some(p);
        }
        if let Some(p) = Self::check_airplane(&v, &t) {
            return Some(p);
        }
        if let Some(p) = Self::check_airplane_with_wings(&v, &t) {
            return Some(p);
        }
        if let Some(p) = Self::check_triple_with_two(&v, &t) {
            return Some(p);
        }
        if let Some(p) = Self::check_triple(&v) {
            return Some(p);
        }
        if let Some(p) = Self::check_consecutive_pairs(&v, &t) {
            return Some(p);
        }
        if let Some(p) = Self::check_pair(&v) {
            return Some(p);
        }
        if let Some(p) = Self::check_single(&v) {
            return Some(p);
        }
        None
    }

    /// Checks for a single card.
    fn check_single(cards: &Vec<Card>) -> (r: Option<PlayPattern>)
        requires
            cards@.len() >= 1,
        ensures
            r is Some <==> is_single(cards@),
            r matches Some(p) ==> p.model() == single_model(cards@),
    {
        if cards.len() != 1 {
            return None;
        }
        let c = cards[0];
        let p = PlayPattern::new(
            PlayType::Single,
            c.rank,
            Some(c.suit),
            Vec::new(),
            1,
            c.rank.value() as u32,
        );
        proof {
            assert(p.model() =~= single_model(cards@));
        }
        Some(p)
    }

    /// Checks for a pair.
    fn check_pair(cards: &Vec<Card>) -> (r: Option<PlayPattern>)
        requires
            cards@.len() >= 1,
        ensures
            r is Some <==> is_pair(cards@),
            r matches Some(p) ==> p.model() == pair_model(cards@),
    {
        if cards.len() != 2 {
            return None;
        }
        if !all_same_rank_exec(cards) {
            return None;
        }
        let rk = cards[0].rank;
        let p = PlayPattern::new(PlayType::Pair, rk, None, Vec::new(), 2, rk.value() as u32);
        proof {
            assert(p.model() =~= pair_model(cards@));
        }
        Some(p)
    }

    /// Checks for a triple (of any suits).
    fn check_triple(cards: &Vec<Card>) -> (r: Option<PlayPattern>)
        requires
            cards@.len() >= 1,
        ensures
            r is Some <==> is_triple(cards@),
            r matches Some(p) ==> p.model() == triple_model(cards@),
    {
        if cards.len() != 3 {
            return None;
        }
        if !all_same_rank_exec(cards) {
            return None;
        }
        let rk = cards[0].rank;
        let p = PlayPattern::new(PlayType::Triple, rk, None, Vec::new(), 3, rk.value() as u32);
        proof {
            assert(p.model() =~= triple_model(cards@));
        }
        Some(p)
    }

    /// Checks for a tongzi: a same-suit triple.
    fn check_tongzi(cards: &Vec<Card>) -> (r: Option<PlayPattern>)
        requires
            cards@.len() >= 1,
        ensures
            r is Some <==> is_tongzi(cards@),
            r matches Some(p) ==> p.model() == tongzi_model(cards@),
    {
        if cards.len() != 3 {
            return None;
        }
        if !all_same_card_exec(cards) {
            return None;
        }
        let c = cards[0];
        let strength: u32 = (c.rank.value() as u32) * 10000 + (c.suit.value() as u32) * 1000;
        let p = PlayPattern::new(PlayType::Tongzi, c.rank, Some(c.suit), Vec::new(), 3, strength);
        proof {
            assert(p.model() =~= tongzi_model(cards@));
        }
        Some(p)
    }

    /// Checks for a bomb: four or more of one rank.
    fn check_bomb(cards: &Vec<Card>) -> (r: Option<PlayPattern>)
        requires
            1 <= cards@.len() <= MAX_PLAY_CARDS,
        ensures
            r is Some <==> is_bomb(cards@),
            r matches Some(p) ==> p.model() == bomb_model(cards@),
    {
        let n = cards.len();
        if n < 4 {
            return None;
        }
        if !all_same_rank_exec(cards) {
            return None;
        }
        let rk = cards[0].rank;
        let strength: u32 = (rk.value() as u32) * 1000 + (n as u32);
        let p = PlayPattern::new(PlayType::Bomb, rk, None, Vec::new(), n, strength);
        proof {
            assert(p.model() =~= bomb_model(cards@));
        }
        Some(p)
    }

    /// Checks for a dizha: eight of one rank, two per suit.
    fn check_dizha(cards: &Vec<Card>) -> (r: Option<PlayPattern>)
        requires
            cards@.len() >= 1,
        ensures
            r is Some <==> is_dizha(cards@),
            r matches Some(p) ==> p.model() == dizha_model(cards@),
    {
        if cards.len() != 8 {
            return None;
        }
        if !all_same_rank_exec(cards) {
            return None;
        }
        let rk = cards[0].rank;
        if count_suit_rank(cards, Suit::Diamonds, rk) != 2 {
            return None;
        }
        if count_suit_rank(cards, Suit::Clubs, rk) != 2 {
            return None;
        }
        if count_suit_rank(cards, Suit::Hearts, rk) != 2 {
            return None;
        }
        if count_suit_rank(cards, Suit::Spades, rk) != 2 {
            return None;
        }
        let strength: u32 = (rk.value() as u32) * 100000;
        let p = PlayPattern::new(PlayType::Dizha, rk, None, Vec::new(), 8, strength);
        proof {
            assert(p.model() =~= dizha_model(cards@));
        }
        Some(p)
    }

    /// Checks for an airplane: consecutive triples.
    fn check_airplane(cards: &Vec<Card>, t: &Vec<usize>) -> (r: Option<PlayPattern>)
        requires
            1 <= cards@.len() <= MAX_PLAY_CARDS,
            is_rank_table(cards@, t@),
        ensures
            r is Some <==> is_airplane(cards@),
            r matches Some(p) ==> p.model() == airplane_model(cards@),
    {
        let n = cards.len();
        if n < 6 || n % 3 != 0 {
            return None;
        }
        let k = n / 3;
        let lo = lowest_present(t, Ghost(cards@));
        proof {
            lemma_first_present(cards@);
        }
        assert(3 <= lo <= 15);
        if !check_exact_run(t, Ghost(cards@), lo, k, 3) {
            return None;
        }
        let hi = lo + k - 1;
        let primary = rank_from_value(hi as u8);
        let sec = run_rank_vec(lo, k);
        let strength: u32 = (primary.value() as u32) * 1000 + (k as u32);
        let p = PlayPattern::new(PlayType::Airplane, primary, None, sec, n, strength);
        proof {
            assert(p.model() =~= airplane_model(cards@));
        }
        Some(p)
    }

    /// Checks for an airplane with wings, preferring the longest airplane
    /// core and then the lowest starting rank.
    fn check_airplane_with_wings(cards: &Vec<Card>, t: &Vec<usize>) -> (r: Option<PlayPattern>)
        requires
            1 <= cards@.len() <= MAX_PLAY_CARDS,
            is_rank_table(cards@, t@),
        ensures
            r is Some <==> is_airplane_with_wings(cards@),
            r matches Some(p) ==> p.model() == airplane_with_wings_model(cards@),
    {
        let n = cards.len();
        let len = best_wing_len_exec(t, Ghost(cards@), n);
        if len < 2 {
            return None;
        }
        proof {
            crate::patterns::shapes::lemma_best_wing_len(cards@, 12);
        }
        let lo_opt = find_wing_lo_exec(t, Ghost(cards@), n, len);
        let lo = match lo_opt {
            Some(lo) => lo,
            None => {
                proof {
                    assert(false);
                }
                3
            },
        };
        assert(lo as int == aww_lo(cards@));
        let hi = lo + len - 1;
        let primary = rank_from_value(hi as u8);
        let sec = run_rank_vec(lo, len);
        let strength: u32 = (primary.value() as u32) * 1000 + (len as u32);
        let p = PlayPattern::new(PlayType::AirplaneWithWings, primary, None, sec, n, strength);
        proof {
            assert(p.model() =~= airplane_with_wings_model(cards@));
        }
        Some(p)
    }

    /// Checks for a triple with a pair attached.
    fn check_triple_with_two(cards: &Vec<Card>, t: &Vec<usize>) -> (r: Option<PlayPattern>)
        requires
            cards@.len() >= 1,
            is_rank_table(cards@, t@),
        ensures
            r is Some <==> is_triple_with_two(cards@),
            r matches Some(p) ==> p.model() == triple_with_two_model(cards@),
    {
        if cards.len() != 5 {
            return None;
        }
        let v1 = match find_count_exec(t, Ghost(cards@), 3) {
            Some(v) => v,
            None => {
                return None;
            },
        };
        let v2 = match find_count_exec(t, Ghost(cards@), 2) {
            Some(v) => v,
            None => {
                return None;
            },
        };
        let mut v: usize = 3;
        while v <= 15
            invariant
                3 <= v <= 16,
                is_rank_table(cards@, t@),
                v1 as int == find_count_v(cards@, 3, 3),
                v2 as int == find_count_v(cards@, 2, 3),
                3 <= v1 <= 15,
                3 <= v2 <= 15,
                forall|u: int|
                    3 <= u < v && u != v1 && u != v2 ==> #[trigger] rank_count_v(cards@, u) == 0,
            decreases 16 - v,
        {
            if v != v1 && v != v2 {
                if t[v] != 0 {
                    return None;
                }
            }
            v = v + 1;
        }
        let primary = rank_from_value(v1 as u8);
        let p = PlayPattern::new(
            PlayType::TripleWithTwo,
            primary,
            None,
            Vec::new(),
            5,
            primary.value() as u32,
        );
        proof {
            assert(p.model() =~= triple_with_two_model(cards@));
        }
        Some(p)
    }

    /// Returns whether the ranks form one contiguous ascending run.
    ///
    /// Rank Two never takes part in a run of two or more: runs must not
    /// wrap past Ace. Lists of at most one rank count as consecutive.
    pub fn are_consecutive(ranks: &[Rank]) -> (b: bool)
        ensures
            b == spec_consecutive(ranks@),
    {
        let n = ranks.len();
        if n <= 1 {
            return true;
        }
        let mut i: usize = 0;
        while i < n
            invariant
                0 <= i <= n,
                n == ranks@.len() >= 2,
                forall|j: int| 0 <= j < i ==> #[trigger] ranks@[j] != Rank::Two,
            decreases n - i,
        {
            if ranks[i] == Rank::Two {
                return false;
            }
            i = i + 1;
        }
        let mut i: usize = 1;
        while i < n
            invariant
                1 <= i <= n,
                n == ranks@.len() >= 2,
                forall|j: int| 0 <= j < n ==> #[trigger] ranks@[j] != Rank::Two,
                forall|j: int|
                    1 <= j < i ==> (#[trigger] ranks@[j]).spec_value() == ranks@[j
                        - 1].spec_value() + 1,
            decreases n - i,
        {
            if ranks[i].value() != ranks[i - 1].value() + 1 {
                return false;
            }
            i = i + 1;
        }
        true
    }

    /// Checks for consecutive pairs.
    fn check_consecutive_pairs(cards: &Vec<Card>, t: &Vec<usize>) -> (r: Option<PlayPattern>)
        requires
            1 <= cards@.len() <= MAX_PLAY_CARDS,
            is_rank_table(cards@, t@),
        ensures
            r is Some <==> is_consecutive_pairs(cards@),
            r matches Some(p) ==> p.model() == consecutive_pairs_model(cards@),
    {
        let n = cards.len();
        if n < 4 || n % 2 != 0 {
            return None;
        }
        let k = n / 2;
        let lo = lowest_present(t, Ghost(cards@));
        proof {
            lemma_first_present(cards@);
        }
        assert(3 <= lo <= 15);
        if !check_exact_run(t, Ghost(cards@), lo, k, 2) {
            return None;
        }
        let hi = lo + k - 1;
        let primary = rank_from_value(hi as u8);
        let sec = run_rank_vec(lo, k);
        let strength: u32 = (primary.value() as u32) * 1000 + (k as u32);
        let p = PlayPattern::new(PlayType::ConsecutivePairs, primary, None, sec, n, strength);
        proof {
            assert(p.model() =~= consecutive_pairs_model(cards@));
        }
        Some(p)
    }
}

/// The ranks ascend by exactly one step each, and rank Two never takes
/// part in a run of two or more.
pub open spec fn spec_consecutive(rs: Seq<Rank>) -> bool {
    &&& forall|i: int|
        1 <= i < rs.len() ==> (#[trigger] rs[i]).spec_value() == rs[i - 1].spec_value() + 1
    &&& rs.len() >= 2 ==> forall|i: int| 0 <= i < rs.len() ==> #[trigger] rs[i] != Rank::Two
}

/// Whether pattern `a` defeats pattern `b`, under the trump hierarchy
/// Dizha > Tongzi > Bomb > normal shapes, with the documented comparisons
/// inside each level. Normal shapes must match in play type, chain shapes
/// also in exact card count, and then strictly greater strength wins.
pub open spec fn beats(a: PatternModel, b: PatternModel) -> bool {
    if a.play_type == PlayType::Dizha {
        if b.play_type != PlayType::Dizha {
            true
        } else {
            a.primary_rank.spec_value() > b.primary_rank.spec_value()
        }
    } else if b.play_type == PlayType::Dizha {
        false
    } else if a.play_type == PlayType::Tongzi {
        if b.play_type == PlayType::Bomb {
            true
        } else if b.play_type != PlayType::Tongzi {
            false
        } else if a.primary_rank.spec_value() > b.primary_rank.spec_value() {
            true
        } else if a.primary_rank.spec_value() == b.primary_rank.spec_value() {
            match (a.primary_suit, b.primary_suit) {
                (Some(sa), Some(sb)) => sa.spec_value() > sb.spec_value(),
                _ => false,
            }
        } else {
            false
        }
    } else if b.play_type == PlayType::Tongzi {
        false
    } else if a.play_type == PlayType::Bomb {
        if b.play_type != PlayType::Bomb {
            true
        } else if a.primary_rank.spec_value() > b.primary_rank.spec_value() {
            true
        } else if a.primary_rank.spec_value() == b.primary_rank.spec_value() {
            a.card_count > b.card_count
        } else {
            false
        }
    } else if b.play_type == PlayType::Bomb {
        false
    } else if a.play_type != b.play_type {
        false
    } else if (a.play_type == PlayType::ConsecutivePairs || a.play_type == PlayType::Airplane
        || a.play_type == PlayType::AirplaneWithWings) && a.card_count != b.card_count {
        false
    } else {
        a.strength > b.strength
    }
}

/// Validates plays: does a candidate hand defeat the table's current play?
pub struct PlayValidator;

impl PlayValidator {
    /// Returns whether the new cards can beat the current play.
    ///
    /// With no current play, any classifiable hand is accepted; otherwise
    /// the hand must classify and its pattern must defeat the current one
    /// under the trump hierarchy.
    pub fn can_beat_play(new_cards: &[Card], current_play: Option<&PlayPattern>) -> (r: bool)
        requires
            new_cards@.len() <= MAX_PLAY_CARDS,
        ensures
            current_play is None ==> r == classifiable(new_cards@),
            current_play matches Some(cur) ==> r == (classifiable(new_cards@) && beats(
                classify_model(new_cards@)->Some_0,
                cur.model(),
            )),
    {
        let new_pattern = PatternRecognizer::analyze_cards(new_cards);
        match (new_pattern, current_play) {
            (None, _) => false,
            (Some(_), None) => true,
            (Some(p), Some(cur)) => Self::compare_patterns(&p, cur),
        }
    }

    /// Returns whether the new pattern beats the current pattern.
    fn compare_patterns(new_pattern: &PlayPattern, current_pattern: &PlayPattern) -> (r: bool)
        ensures
            r == beats(new_pattern.model(), current_pattern.model()),
    {
        let a = new_pattern;
        let b = current_pattern;
        if a.play_type == PlayType::Dizha {
            if b.play_type != PlayType::Dizha {
                return true;
            }
            return a.primary_rank.value() > b.primary_rank.value();
        }
        if b.play_type == PlayType::Dizha {
            return false;
        }
        if a.play_type == PlayType::Tongzi {
            if b.play_type == PlayType::Bomb {
                return true;
            }
            if b.play_type != PlayType::Tongzi {
                return false;
            }
            if a.primary_rank.value() > b.primary_rank.value() {
                return true;
            }
            if a.primary_rank.value() == b.primary_rank.value() {
                return match (a.primary_suit, b.primary_suit) {
                    (Some(sa), Some(sb)) => sa.value() > sb.value(),
                    _ => false,
                };
            }
            return false;
        }
        if b.play_type == PlayType::Tongzi {
            return false;
        }
        if a.play_type == PlayType::Bomb {
            if b.play_type != PlayType::Bomb {
                return true;
            }
            if a.primary_rank.value() > b.primary_rank.value() {
                return true;
            }
            if a.primary_rank.value() == b.primary_rank.value() {
                return a.card_count > b.card_count;
            }
            return false;
        }
        if b.play_type == PlayType::Bomb {
            return false;
        }
        if a.play_type != b.play_type {
            return false;
        }
        if a.play_type == PlayType::ConsecutivePairs || a.play_type == PlayType::Airplane
            || a.play_type == PlayType::AirplaneWithWings {
            if a.card_count != b.card_count {
                return false;
            }
        }
        a.strength > b.strength
    }
}

} // verus!
