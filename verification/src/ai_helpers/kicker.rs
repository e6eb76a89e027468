//! Multi-track kicker selection: a depth-first branch-and-bound search over
//! per-rank blocks, parameterized by tactical cost models.

use vstd::prelude::*;

use crate::models::card::Card;
use crate::models::card::Rank;
use crate::models::counting::rank_count;
use crate::patterns::recognizer::MAX_PLAY_CARDS;

verus! {

broadcast use {
    vstd::seq_lib::group_to_multiset_ensures,
    vstd::multiset::group_multiset_axioms,
    vstd::multiset::group_multiset_properties,
};

/// Kicker selection tactic.
#[derive(Debug, Clone, Copy, PartialEq, Eq, Structural)]
pub enum Tactic {
    /// Efficiency first: reward whole-block takes, penalize splits.
    Efficiency,
    /// Save high cards: Aces and Twos carry an extra penalty.
    SaveHigh,
    /// Dump score cards: Tens and Kings get a negative cost.
    DumpScore,
    /// Hoard score cards: Tens and Kings carry a high penalty.
    HoardScore,
    /// Aggressive mode: taking cards is always rewarded.
    Aggressive,
}

/// A block of same-rank cards available as kickers.
#[derive(Debug, Clone)]
pub struct Block {
    /// The rank of cards in this block.
    pub rank: Rank,
    /// Number of cards available.
    pub count: usize,
    /// Whether this is a scoring rank (Ten or King).
    pub is_score: bool,
    /// Whether this is a high rank (Ace or Two).
    pub is_big: bool,
    /// Whether this block could form a bomb (four or more cards).
    pub is_power: bool,
}

impl Block {
    /// A block is the per-rank summary of the available cards.
    pub open spec fn wf(self, cards: Seq<Card>) -> bool {
        &&& self.count == rank_count(cards, self.rank)
        &&& self.is_score == (self.rank == Rank::Ten || self.rank == Rank::King)
        &&& self.is_big == (self.rank == Rank::Ace || self.rank == Rank::Two)
        &&& self.is_power == (self.count >= 4)
    }

    /// Creates a block summarizing the cards of one rank.
    pub fn from_cards(cards: &[Card], rank: Rank) -> (b: Block)
        ensures
            b.rank == rank,
            b.wf(cards@),
    {
        let n = cards.len();
        let mut count: usize = 0;
        let mut i: usize = 0;
        proof {
            assert(cards@.take(0) =~= Seq::<Card>::empty());
            assert(cards@.take(0).to_multiset() =~= vstd::multiset::Multiset::<Card>::empty());
            assert(cards@.take(0).to_multiset().len() == 0);
        }
        while i < n
            invariant
                0 <= i <= n,
                n == cards@.len(),
                count == rank_count(cards@.take(i as int), rank),
                count <= i,
            decreases n - i,
        {
            let ghost prefix = cards@.take(i as int);
            let c = cards[i];
            proof {
                crate::models::counting::lemma_take_one_more(cards@, i as int);
                crate::models::counting::lemma_counts_insert(prefix, cards@.take(i + 1), c);
            }
            if c.rank == rank {
                count = count + 1;
            }
            i = i + 1;
        }
        proof {
            assert(cards@.take(n as int) =~= cards@);
        }
        Block {
            rank,
            count,
            is_score: rank == Rank::Ten || rank == Rank::King,
            is_big: rank == Rank::Ace || rank == Rank::Two,
            is_power: count >= 4,
        }
    }
}

/// Result of the knapsack solver: the chosen (rank, count) selection and
/// its accumulated cost.
#[derive(Debug, Clone)]
pub struct KnapsackResult {
    /// Selected (rank, count) pairs, in block order.
    pub selected: Vec<(Rank, usize)>,
    /// Total cost of the selection.
    pub total_cost: i64,
}

impl Default for KnapsackResult {
    /// The empty result with the sentinel worst cost.
    fn default() -> (r: Self)
        ensures
            r.selected@ == Seq::<(Rank, usize)>::empty(),
            r.total_cost == i64::MAX,
    {
        KnapsackResult { selected: Vec::new(), total_cost: i64::MAX }
    }
}

/// The cost of taking `take` cards from a block under a tactic:
/// base (rank value times take) + integrity modifier + tactical modifier
/// + power-card protection. Taking nothing costs nothing.
pub open spec fn spec_cost(b: Block, take: int, tactic: Tactic) -> int {
    if take == 0 {
        0
    } else {
        let base: int = b.rank.spec_value() * take;
        let integrity: int = if take == b.count {
            -5
        } else if b.count >= 2 {
            if b.count - take == 1 {
                30
            } else if b.count - take == 2 {
                20
            } else {
                10
            }
        } else {
            0
        };
        let tactical: int = match tactic {
            Tactic::Efficiency => if take == b.count {
                -10
            } else {
                0
            },
            Tactic::SaveHigh => if b.is_big {
                100 * take
            } else {
                0
            },
            Tactic::DumpScore => if b.is_score {
                -50 * take
            } else {
                0
            },
            Tactic::HoardScore => if b.is_score {
                100 * take
            } else {
                0
            },
            Tactic::Aggressive => -100 * take,
        };
        let power: int = if b.is_power {
            1000
        } else {
            0
        };
        base + integrity + tactical + power
    }
}

/// The cost of a take is bounded linearly in the take.
pub proof fn lemma_cost_bound(b: Block, take: int, tactic: Tactic)
    requires
        0 <= take,
    ensures
        take == 0 ==> spec_cost(b, take, tactic) == 0,
        take >= 1 ==> -1145 * take <= spec_cost(b, take, tactic) <= 1145 * take,
{
    assert(0 <= b.rank.spec_value() * take <= 15 * take) by (nonlinear_arith)
        requires
            0 <= take,
            3 <= b.rank.spec_value() <= 15,
    ;
    if take >= 1 {
        assert(1030 <= 1030 * take && 100 * take <= 100 * take && 15 * take + 30 + 100 * take
            + 1000 <= 1145 * take && -100 * take - 5 >= -1145 * take) by (nonlinear_arith)
            requires
                take >= 1,
        ;
    }
}

/// Calculates the cost of taking `take` cards from a block.
pub fn calculate_cost(block: &Block, take: usize, tactic: Tactic) -> (cost: i64)
    requires
        take <= block.count,
        take <= MAX_PLAY_CARDS,
    ensures
        cost == spec_cost(*block, take as int, tactic),
{
    if take == 0 {
        return 0;
    }
    let v = block.rank.value();
    proof {
        assert(0 <= (v as int) * (take as int) <= 15 * (take as int)) by (nonlinear_arith)
            requires
                0 <= take,
                3 <= v <= 15,
        ;
    }
    let base: i64 = (v as i64) * (take as i64);
    proof {
        assert((-50) * (take as int) >= -50000000000 && 50 * (take as int) <= 50000000000)
            by (nonlinear_arith)
            requires
                0 <= take <= 1000000000,
        ;
        assert((-100) * (take as int) >= -100000000000 && 100 * (take as int) <= 100000000000)
            by (nonlinear_arith)
            requires
                0 <= take <= 1000000000,
        ;
    }
    let integrity: i64 = if take == block.count {
        -5
    } else if block.count >= 2 {
        let left = block.count - take;
        if left == 1 {
            30
        } else if left == 2 {
            20
        } else {
            10
        }
    } else {
        0
    };
    let tactical: i64 = match tactic {
        Tactic::Efficiency => if take == block.count {
            -10
        } else {
            0
        },
        Tactic::SaveHigh => if block.is_big {
            100 * (take as i64)
        } else {
            0
        },
        Tactic::DumpScore => if block.is_score {
            -50 * (take as i64)
        } else {
            0
        },
        Tactic::HoardScore => if block.is_score {
            100 * (take as i64)
        } else {
            0
        },
        Tactic::Aggressive => -100 * (take as i64),
    };
    let power: i64 = if block.is_power {
        1000
    } else {
        0
    };
    base + integrity + tactical + power
}

/// One step of the take loop: try every take from `take` up to `max_take`
/// at block `idx`, threading the best result found so far.
pub open spec fn dfs_takes(
    blocks: Seq<Block>,
    capacity: int,
    tactic: Tactic,
    idx: int,
    cur_count: int,
    cur_cost: int,
    cur_sel: Seq<(Rank, usize)>,
    best: (Seq<(Rank, usize)>, int),
    take: int,
    max_take: int,
) -> (Seq<(Rank, usize)>, int)
    decreases blocks.len() - idx, 0int, max_take - take + 1,
    when 0 <= idx < blocks.len() && 0 <= take && max_take < capacity - cur_count + 1
{
    if take > max_take {
        best
    } else {
        let cost = spec_cost(blocks[idx], take, tactic);
        let sel2 = if take > 0 {
            cur_sel.push((blocks[idx].rank, take as usize))
        } else {
            cur_sel
        };
        let best2 = dfs_node(
            blocks,
            capacity,
            tactic,
            idx + 1,
            cur_count + take,
            cur_cost + cost,
            sel2,
            best,
        );
        dfs_takes(
            blocks,
            capacity,
            tactic,
            idx,
            cur_count,
            cur_cost,
            cur_sel,
            best2,
            take + 1,
            max_take,
        )
    }
}

/// The branch-and-bound search: prune any branch whose accumulated cost is
/// not strictly below the best complete cost found so far; at the
/// terminals, charge 100 per unit of unused capacity (when the blocks ran
/// out) and keep the cheaper of the candidate and the best so far.
pub open spec fn dfs_node(
    blocks: Seq<Block>,
    capacity: int,
    tactic: Tactic,
    idx: int,
    cur_count: int,
    cur_cost: int,
    cur_sel: Seq<(Rank, usize)>,
    best: (Seq<(Rank, usize)>, int),
) -> (Seq<(Rank, usize)>, int)
    decreases blocks.len() - idx, 1int, 0int,
    when 0 <= idx <= blocks.len() && cur_count <= capacity
{
    if cur_cost >= best.1 {
        best
    } else if idx >= blocks.len() {
        let unfilled = if cur_count < capacity {
            (capacity - cur_count) * 100
        } else {
            0
        };
        let total = cur_cost + unfilled;
        if total < best.1 {
            (cur_sel, total)
        } else {
            best
        }
    } else if cur_count >= capacity {
        (cur_sel, cur_cost)
    } else {
        let max_take = if blocks[idx].count < capacity - cur_count {
            blocks[idx].count as int
        } else {
            capacity - cur_count
        };
        dfs_takes(blocks, capacity, tactic, idx, cur_count, cur_cost, cur_sel, best, 0, max_take)
    }
}

/// The whole solve: run the search from an empty selection against the
/// sentinel worst cost; if nothing was recorded, the result is the empty
/// selection at cost zero.
pub open spec fn knapsack_spec(blocks: Seq<Block>, capacity: int, tactic: Tactic) -> (
    Seq<(Rank, usize)>,
    int,
) {
    let best = dfs_node(
        blocks,
        capacity,
        tactic,
        0,
        0,
        0,
        Seq::empty(),
        (Seq::empty(), i64::MAX as int),
    );
    if best.1 == i64::MAX as int {
        (best.0, 0)
    } else {
        best
    }
}

/// The recursive worker for the knapsack solver.
#[verifier::rlimit(60)]
fn dfs_recursive(
    blocks: &[Block],
    capacity: usize,
    tactic: Tactic,
    block_idx: usize,
    current_count: usize,
    current_cost: i64,
    current_selection: &mut Vec<(Rank, usize)>,
    best_result: &mut KnapsackResult,
)
    requires
        capacity <= MAX_PLAY_CARDS,
        block_idx <= blocks@.len(),
        current_count <= capacity,
        -1145 * (current_count as int) <= current_cost <= 1145 * (current_count as int),
        old(best_result).total_cost == i64::MAX || -1145000000000 <= old(best_result).total_cost
            <= 1245000000000,
    ensures
        final(current_selection)@ == old(current_selection)@,
        (final(best_result).selected@, final(best_result).total_cost as int) == dfs_node(
            blocks@,
            capacity as int,
            tactic,
            block_idx as int,
            current_count as int,
            current_cost as int,
            old(current_selection)@,
            (old(best_result).selected@, old(best_result).total_cost as int),
        ),
        final(best_result).total_cost == i64::MAX
            || -1145000000000 <= final(best_result).total_cost <= 1245000000000,
    decreases blocks@.len() - block_idx,
{
    let ghost b0 = (best_result.selected@, best_result.total_cost as int);
    proof {
        assert(capacity <= 1000000000);
    }
    if current_cost >= best_result.total_cost {
        return ;
    }
    if block_idx >= blocks.len() {
        let unfilled: i64 = if current_count < capacity {
            ((capacity - current_count) as i64) * 100
        } else {
            0
        };
        proof {
            assert(0 <= ((capacity as int) - (current_count as int)) * 100 <= 100000000000)
                by (nonlinear_arith)
                requires
                    0 <= current_count <= capacity <= 1000000000,
            ;
        }
        let total_cost = current_cost + unfilled;
        if total_cost < best_result.total_cost {
            best_result.selected = clone_selection(current_selection);
            best_result.total_cost = total_cost;
        }
        return ;
    }
    if current_count >= capacity {
        best_result.selected = clone_selection(current_selection);
        best_result.total_cost = current_cost;
        return ;
    }
    let block = &blocks[block_idx];
    let remaining = capacity - current_count;
    let max_take = if block.count < remaining {
        block.count
    } else {
        remaining
    };
    let mut take: usize = 0;
    while take <= max_take
        invariant
            capacity <= MAX_PLAY_CARDS,
            block_idx < blocks@.len(),
            blocks@.len() <= usize::MAX,
            current_count < capacity,
            remaining == capacity - current_count,
            max_take == (if blocks@[block_idx as int].count < remaining {
                blocks@[block_idx as int].count as int
            } else {
                remaining as int
            }),
            0 <= take <= max_take + 1,
            max_take <= remaining,
            block == blocks@[block_idx as int],
            -1145 * (current_count as int) <= current_cost <= 1145 * (current_count as int),
            current_selection@ == old(current_selection)@,
            best_result.total_cost == i64::MAX || -1145000000000 <= best_result.total_cost
                <= 1245000000000,
            dfs_node(
                blocks@,
                capacity as int,
                tactic,
                block_idx as int,
                current_count as int,
                current_cost as int,
                old(current_selection)@,
                b0,
            ) == dfs_takes(
                blocks@,
                capacity as int,
                tactic,
                block_idx as int,
                current_count as int,
                current_cost as int,
                old(current_selection)@,
                (best_result.selected@, best_result.total_cost as int),
                take as int,
                max_take as int,
            ),
        decreases max_take + 1 - take,
    {
        let cost = calculate_cost(block, take, tactic);
        proof {
            lemma_cost_bound(*block, take as int, tactic);
            assert(0 <= 1145 * (take as int) <= 1145000000000) by (nonlinear_arith)
                requires
                    0 <= take <= 1000000000,
            ;
            assert(-1145000000000 <= cost <= 1145000000000);
            assert(0 <= 1145 * (current_count as int) <= 1145000000000) by (nonlinear_arith)
                requires
                    0 <= current_count <= 1000000000,
            ;
        }
        if take > 0 {
            current_selection.push((block.rank, take));
        }
        let ghost sel2 = current_selection@;
        let ghost best_before = (best_result.selected@, best_result.total_cost as int);
        dfs_recursive(
            blocks,
            capacity,
            tactic,
            block_idx + 1,
            current_count + take,
            current_cost + cost,
            current_selection,
            best_result,
        );
        proof {
            let best2 = dfs_node(
                blocks@,
                capacity as int,
                tactic,
                block_idx as int + 1,
                current_count as int + take as int,
                current_cost as int + cost as int,
                sel2,
                best_before,
            );
            assert((best_result.selected@, best_result.total_cost as int) == best2);
            assert(dfs_takes(
                blocks@,
                capacity as int,
                tactic,
                block_idx as int,
                current_count as int,
                current_cost as int,
                old(current_selection)@,
                best_before,
                take as int,
                max_take as int,
            ) == dfs_takes(
                blocks@,
                capacity as int,
                tactic,
                block_idx as int,
                current_count as int,
                current_cost as int,
                old(current_selection)@,
                best2,
                take as int + 1,
                max_take as int,
            ));
        }
        if take > 0 {
            let _popped = current_selection.pop();
            proof {
                assert(current_selection@ =~= old(current_selection)@);
            }
        }
        take = take + 1;
    }
    proof {
        assert(dfs_takes(
            blocks@,
            capacity as int,
            tactic,
            block_idx as int,
            current_count as int,
            current_cost as int,
            old(current_selection)@,
            (best_result.selected@, best_result.total_cost as int),
            take as int,
            max_take as int,
        ) == (best_result.selected@, best_result.total_cost as int));
    }
}

/// Clones a selection list.
fn clone_selection(sel: &Vec<(Rank, usize)>) -> (out: Vec<(Rank, usize)>)
    ensures
        out@ == sel@,
{
    let mut out: Vec<(Rank, usize)> = Vec::new();
    let n = sel.len();
    let mut i: usize = 0;
    while i < n
        invariant
            0 <= i <= n,
            n == sel@.len(),
            out@ == sel@.take(i as int),
        decreases n - i,
    {
        out.push(sel[i]);
        proof {
            assert(out@ =~= sel@.take(i + 1));
        }
        i = i + 1;
    }
    proof {
        assert(sel@.take(n as int) =~= sel@);
    }
    out
}

/// A card may serve as a kicker when it is not part of the main play and
/// not protected as a potential bomb (four or more of its rank in the full
/// hand).
pub open spec fn in_pool(hand: Seq<Card>, main: Seq<Card>, c: Card) -> bool {
    !main.contains(c) && rank_count(hand, c.rank) < 4
}

/// The pool of candidate kicker cards, in hand order.
pub open spec fn kicker_pool(hand: Seq<Card>, main: Seq<Card>) -> Seq<Card> {
    hand.filter(|c: Card| in_pool(hand, main, c))
}

/// The distinct ranks of the pool, in order of first occurrence.
pub open spec fn rank_order(s: Seq<Card>) -> Seq<Rank>
    decreases s.len(),
{
    if s.len() == 0 {
        Seq::empty()
    } else {
        let ro = rank_order(s.drop_last());
        if ro.contains(s.last().rank) {
            ro
        } else {
            ro.push(s.last().rank)
        }
    }
}

/// A rank is in the rank order exactly when some card holds it.
proof fn lemma_rank_order_contains(s: Seq<Card>, r: Rank)
    ensures
        rank_order(s).contains(r) <==> (exists|i: int| 0 <= i < s.len() && s[i].rank == r),
    decreases s.len(),
{
    if s.len() > 0 {
        let prefix = s.drop_last();
        lemma_rank_order_contains(prefix, r);
        let ro = rank_order(prefix);
        let lr = s.last().rank;
        if ro.contains(lr) {
            assert(rank_order(s) == ro);
            if rank_order(s).contains(r) {
                let i = choose|i: int| 0 <= i < prefix.len() && prefix[i].rank == r;
                assert(s[i] == prefix[i]);
            }
            if exists|i: int| 0 <= i < s.len() && s[i].rank == r {
                let i = choose|i: int| 0 <= i < s.len() && s[i].rank == r;
                if i < s.len() - 1 {
                    assert(prefix[i] == s[i]);
                } else {
                    assert(r == lr);
                }
            }
        } else {
            assert(rank_order(s) == ro.push(lr));
            if rank_order(s).contains(r) {
                let i = choose|i: int| 0 <= i < ro.push(lr).len() && ro.push(lr)[i] == r;
                if i < ro.len() {
                    assert(ro[i] == r);
                    let j = choose|j: int| 0 <= j < prefix.len() && prefix[j].rank == r;
                    assert(s[j] == prefix[j]);
                } else {
                    assert(r == lr);
                    assert(s[s.len() - 1].rank == r);
                }
            }
            if exists|i: int| 0 <= i < s.len() && s[i].rank == r {
                let i = choose|i: int| 0 <= i < s.len() && s[i].rank == r;
                if i < s.len() - 1 {
                    assert(prefix[i] == s[i]);
                    assert(ro.contains(r));
                    let j = choose|j: int| 0 <= j < ro.len() && ro[j] == r;
                    assert(ro.push(lr)[j] == r);
                } else {
                    assert(ro.push(lr)[ro.len() as int] == r);
                }
            }
        }
    }
}

/// The per-rank blocks of a pool: one block per rank in first-occurrence
/// order, each summarizing the pool's cards of that rank.
pub open spec fn blocks_wf(blocks: Seq<Block>, pool: Seq<Card>) -> bool {
    &&& blocks.len() == rank_order(pool).len()
    &&& forall|j: int|
        0 <= j < blocks.len() ==> (#[trigger] blocks[j]).rank == rank_order(pool)[j]
            && blocks[j].wf(pool)
}

/// The first `k` cards of the given rank, in pool order.
pub open spec fn first_k_of_rank(pool: Seq<Card>, rank: Rank, k: int) -> Seq<Card>
    decreases pool.len(),
{
    if k <= 0 || pool.len() == 0 {
        Seq::empty()
    } else if pool[0].rank == rank {
        Seq::empty().push(pool[0]) + first_k_of_rank(pool.drop_first(), rank, k - 1)
    } else {
        first_k_of_rank(pool.drop_first(), rank, k)
    }
}

/// The concrete cards of a (rank, count) selection: for each entry in
/// order, the first so-many pool cards of that rank.
pub open spec fn picks(pool: Seq<Card>, sel: Seq<(Rank, usize)>) -> Seq<Card>
    decreases sel.len(),
{
    if sel.len() == 0 {
        Seq::empty()
    } else {
        picks(pool, sel.drop_last()) + first_k_of_rank(pool, sel.last().0, sel.last().1 as int)
    }
}

/// The tactic used by the selector: the caller's, or Aggressive when few
/// loose cards are left (at most capacity + 1), else Efficiency.
pub open spec fn chosen_tactic(
    hand: Seq<Card>,
    main: Seq<Card>,
    capacity: int,
    tactic: Option<Tactic>,
) -> Tactic {
    match tactic {
        Some(t) => t,
        None => if kicker_pool(hand, main).len() <= capacity + 1 {
            Tactic::Aggressive
        } else {
            Tactic::Efficiency
        },
    }
}

/// Does the slice hold this exact card?
fn contains_card(cards: &[Card], c: Card) -> (b: bool)
    ensures
        b == cards@.contains(c),
{
    let n = cards.len();
    let mut i: usize = 0;
    while i < n
        invariant
            0 <= i <= n,
            n == cards@.len(),
            forall|j: int| 0 <= j < i ==> cards@[j] != c,
        decreases n - i,
    {
        if cards[i] == c {
            return true;
        }
        i = i + 1;
    }
    false
}

/// Counts the cards of one rank in a slice.
fn count_rank_slice(cards: &[Card], rank: Rank) -> (n: usize)
    ensures
        n == rank_count(cards@, rank),
{
    let b = Block::from_cards(cards, rank);
    b.count
}

/// Returns whether a card is protected: four or more cards of its rank in
/// the full hand reserve it as a potential bomb.
pub fn is_protected(hand: &[Card], card: &Card) -> (b: bool)
    ensures
        b == (rank_count(hand@, card.rank) >= 4),
{
    count_rank_slice(hand, card.rank) >= 4
}

/// Builds the pool of candidate kickers.
fn build_pool(hand: &[Card], main_cards: &[Card]) -> (pool: Vec<Card>)
    ensures
        pool@ == kicker_pool(hand@, main_cards@),
{
    let mut pool: Vec<Card> = Vec::new();
    let n = hand.len();
    let mut i: usize = 0;
    proof {
        reveal(Seq::filter);
        assert(hand@.take(0) =~= Seq::<Card>::empty());
        assert(pool@ =~= hand@.take(0).filter(|c: Card| in_pool(hand@, main_cards@, c)));
    }
    while i < n
        invariant
            0 <= i <= n,
            n == hand@.len(),
            pool@ == hand@.take(i as int).filter(|c: Card| in_pool(hand@, main_cards@, c)),
        decreases n - i,
    {
        let c = hand[i];
        let keep = !contains_card(main_cards, c) && count_rank_slice(hand, c.rank) < 4;
        let ghost prefix = hand@.take(i as int);
        proof {
            reveal(Seq::filter);
            assert(hand@.take(i + 1).drop_last() =~= prefix);
            assert(hand@.take(i + 1).last() == c);
            assert(keep == in_pool(hand@, main_cards@, c));
        }
        if keep {
            pool.push(c);
        }
        proof {
            reveal(Seq::filter);
            assert(pool@ =~= hand@.take(i + 1).filter(|c: Card| in_pool(hand@, main_cards@, c)));
        }
        i = i + 1;
    }
    proof {
        assert(hand@.take(n as int) =~= hand@);
    }
    pool
}

/// Returns whether the aggressive tactic should be auto-selected: the loose
/// (unprotected, non-main) cards number at most capacity + 1.
pub fn should_use_aggressive(hand: &[Card], main_cards: &[Card], capacity: usize) -> (b: bool)
    ensures
        b == (kicker_pool(hand@, main_cards@).len() <= capacity + 1),
{
    let loose = build_pool(hand, main_cards);
    let l = loose.len();
    if capacity == usize::MAX {
        return true;
    }
    l <= capacity + 1
}

/// Builds the per-rank blocks of the pool, in first-occurrence order.
fn build_blocks(pool: &Vec<Card>) -> (blocks: Vec<Block>)
    ensures
        blocks_wf(blocks@, pool@),
{
    let mut blocks: Vec<Block> = Vec::new();
    let n = pool.len();
    let mut i: usize = 0;
    proof {
        assert(pool@.take(0) =~= Seq::<Card>::empty());
    }
    while i < n
        invariant
            0 <= i <= n,
            n == pool@.len(),
            blocks@.len() == rank_order(pool@.take(i as int)).len(),
            forall|j: int|
                0 <= j < blocks@.len() ==> (#[trigger] blocks@[j]).rank == rank_order(
                    pool@.take(i as int),
                )[j] && blocks@[j].wf(pool@),
        decreases n - i,
    {
        let c = pool[i];
        let mut seen = false;
        let mut j: usize = 0;
        while j < i
            invariant
                0 <= j <= i <= n,
                n == pool@.len(),
                seen == (exists|x: int| 0 <= x < j && pool@[x].rank == c.rank),
            decreases i - j,
        {
            if pool[j].rank == c.rank {
                seen = true;
            }
            j = j + 1;
        }
        let ghost prefix = pool@.take(i as int);
        proof {
            lemma_rank_order_contains(prefix, c.rank);
            assert forall|x: int| 0 <= x < i && pool@[x].rank == c.rank implies (exists|y: int|
                0 <= y < prefix.len() && prefix[y].rank == c.rank) by {
                assert(prefix[x] == pool@[x]);
            }
            assert(seen == rank_order(prefix).contains(c.rank));
            assert(pool@.take(i + 1).drop_last() =~= prefix);
            assert(pool@.take(i + 1).last() == c);
        }
        if !seen {
            let b = Block::from_cards(pool.as_slice(), c.rank);
            blocks.push(b);
            proof {
                assert(rank_order(pool@.take(i + 1)) =~= rank_order(prefix).push(c.rank));
            }
        } else {
            proof {
                assert(rank_order(pool@.take(i + 1)) =~= rank_order(prefix));
            }
        }
        i = i + 1;
    }
    proof {
        assert(pool@.take(n as int) =~= pool@);
    }
    blocks
}

/// Collects the first `k` pool cards of the given rank.
fn collect_first_k(pool: &Vec<Card>, rank: Rank, k: usize, out: &mut Vec<Card>)
    ensures
        final(out)@ == old(out)@ + first_k_of_rank(pool@, rank, k as int),
{
    let n = pool.len();
    let mut i: usize = 0;
    let mut got: usize = 0;
    proof {
        assert(pool@.skip(0) =~= pool@);
    }
    while i < n && got < k
        invariant
            0 <= i <= n,
            n == pool@.len(),
            0 <= got <= k,
            out@ + first_k_of_rank(pool@.skip(i as int), rank, k - got) == old(out)@
                + first_k_of_rank(pool@, rank, k as int),
        decreases n - i,
    {
        let ghost tail = pool@.skip(i as int);
        proof {
            assert(tail.drop_first() =~= pool@.skip(i + 1));
            assert(tail[0] == pool@[i as int]);
        }
        if pool[i].rank == rank {
            let ghost prev_out = out@;
            out.push(pool[i]);
            proof {
                assert(first_k_of_rank(tail, rank, k - got) =~= Seq::empty().push(tail[0])
                    + first_k_of_rank(tail.drop_first(), rank, k - got - 1));
                assert(prev_out + first_k_of_rank(tail, rank, k - got) =~= out@
                    + first_k_of_rank(pool@.skip(i + 1), rank, k - (got + 1)));
            }
            got = got + 1;
        } else {
            proof {
                assert(first_k_of_rank(tail, rank, k - got) == first_k_of_rank(
                    tail.drop_first(),
                    rank,
                    k - got,
                ));
            }
        }
        i = i + 1;
    }
    proof {
        if got >= k {
            assert(first_k_of_rank(pool@.skip(i as int), rank, k - got) =~= Seq::<Card>::empty());
        } else {
            assert(pool@.skip(i as int) =~= Seq::<Card>::empty());
            assert(first_k_of_rank(pool@.skip(i as int), rank, k - got) =~= Seq::<Card>::empty());
        }
        assert(out@ =~= out@ + Seq::<Card>::empty());
    }
}

/// Selects kicker cards for a main combination using the multi-track
/// algorithm: exclude main and protected cards, group the rest into
/// per-rank blocks, run the branch-and-bound knapsack under the chosen
/// tactic, and hand back the selected cards in pool order.
pub fn select_kickers(
    hand: &[Card],
    main_cards: &[Card],
    capacity: usize,
    tactic: Option<Tactic>,
) -> (r: Vec<Card>)
    requires
        capacity <= MAX_PLAY_CARDS,
    ensures
        (kicker_pool(hand@, main_cards@).len() == 0 || capacity == 0) ==> r@ == Seq::<
            Card,
        >::empty(),
        kicker_pool(hand@, main_cards@).len() > 0 && capacity > 0 ==> exists|blocks: Seq<Block>|
            #[trigger] blocks_wf(blocks, kicker_pool(hand@, main_cards@)) && r@ == picks(
                kicker_pool(hand@, main_cards@),
                knapsack_spec(
                    blocks,
                    capacity as int,
                    chosen_tactic(hand@, main_cards@, capacity as int, tactic),
                ).0,
            ),
{
    let pool = build_pool(hand, main_cards);
    if pool.len() == 0 || capacity == 0 {
        return Vec::new();
    }
    let tac = match tactic {
        Some(t) => t,
        None => {
            if should_use_aggressive(hand, main_cards, capacity) {
                Tactic::Aggressive
            } else {
                Tactic::Efficiency
            }
        },
    };
    proof {
        assert(tac == chosen_tactic(hand@, main_cards@, capacity as int, tactic));
    }
    let blocks = build_blocks(&pool);
    let result = solve_knapsack(blocks.as_slice(), capacity, tac);
    let mut kickers: Vec<Card> = Vec::new();
    let sel = result.selected;
    let ns = sel.len();
    let mut si: usize = 0;
    proof {
        assert(sel@.take(0) =~= Seq::<(Rank, usize)>::empty());
        assert(kickers@ =~= picks(pool@, sel@.take(0)));
    }
    while si < ns
        invariant
            0 <= si <= ns,
            ns == sel@.len(),
            pool@ == kicker_pool(hand@, main_cards@),
            kickers@ == picks(pool@, sel@.take(si as int)),
        decreases ns - si,
    {
        let (rank, cnt) = sel[si];
        collect_first_k(&pool, rank, cnt, &mut kickers);
        proof {
            assert(sel@.take(si + 1).drop_last() =~= sel@.take(si as int));
            assert(sel@.take(si + 1).last() == sel@[si as int]);
        }
        si = si + 1;
    }
    proof {
        assert(sel@.take(ns as int) =~= sel@);
        assert(blocks_wf(blocks@, kicker_pool(hand@, main_cards@)));
    }
    kickers
}

/// DFS knapsack solver for kicker selection: exhaustive search over the
/// blocks in order with branch-and-bound pruning, returning the recorded
/// best selection (empty, at cost zero, when nothing was recorded).
pub fn solve_knapsack(blocks: &[Block], capacity: usize, tactic: Tactic) -> (r: KnapsackResult)
    requires
        capacity <= MAX_PLAY_CARDS,
    ensures
        (r.selected@, r.total_cost as int) == knapsack_spec(blocks@, capacity as int, tactic),
{
    let mut best_result = KnapsackResult::default();
    let mut current_selection: Vec<(Rank, usize)> = Vec::new();
    dfs_recursive(blocks, capacity, tactic, 0, 0, 0, &mut current_selection, &mut best_result);
    if best_result.total_cost == i64::MAX {
        best_result.total_cost = 0;
    }
    best_result
}

} // verus!
