//! The rules that the search over the tree of moves goes by, as far as they
//! are about whole numbers: what a stored entry allows, when the null move
//! is tried, in which order the moves are searched, and what is stored.

use vstd::prelude::*;
use crate::board::Board;
use crate::eval::{has_non_pawn_material, spec_has_non_pawn_material};
use crate::transpos::{Entry, EntryType};

verus! {

/// Whether the entry `entry` of the table ends the search of a node with
/// `depth_remaining` moves to go: it is valid, was stored with at least as
/// many moves to go, and is exact, or a lower bound with a value of at
/// least the upper end of the window (`at_least_upper`), or an upper bound
/// with a value of at most the lower end (`at_most_lower`). In the
/// search of captures after the last move no entry ends the search.
pub open spec fn spec_probe_cut(
    entry: &Entry,
    depth_remaining: u8,
    at_most_lower: bool,
    at_least_upper: bool,
) -> bool {
    &&& entry.is_valid()
    &&& depth_remaining > 0
    &&& entry.depth_remaining >= depth_remaining
    &&& match entry.entry_type {
        EntryType::Exact => true,
        EntryType::FailLow => at_most_lower,
        EntryType::FailHigh => at_least_upper,
        EntryType::Invalid => false,
    }
}

/// Whether the entry `entry` ends the search of a node.
pub fn probe_cut(entry: &Entry, depth_remaining: u8, at_most_lower: bool, at_least_upper: bool) -> (cut:
    bool)
    ensures
        cut == spec_probe_cut(entry, depth_remaining, at_most_lower, at_least_upper),
{
    if !entry.is_valid() || depth_remaining == 0 || entry.depth_remaining < depth_remaining {
        return false;
    }
    match entry.entry_type {
        EntryType::Exact => true,
        EntryType::FailLow => at_most_lower,
        EntryType::FailHigh => at_least_upper,
        EntryType::Invalid => false,
    }
}

/// The move that the entry `entry` names as the best of a position with
/// `n_moves` moves, to be searched first: the place of the move among the
/// moves. None where the entry is not valid or names no move of the
/// position.
pub fn hint_index(entry: &Entry, n_moves: usize) -> (hint: Option<usize>)
    ensures
        hint == if entry.is_valid() && (entry.best_move_idx as int) < n_moves {
            Some(entry.best_move_idx as usize)
        } else {
            None
        },
{
    if entry.is_valid() && (entry.best_move_idx as usize) < n_moves {
        Some(entry.best_move_idx as usize)
    } else {
        None
    }
}

/// Whether the side to move may pass to see whether the position is still
/// too good: passing is switched on, the position's value is at least the
/// upper end of the window, the side is not in check, there is at least one
/// move to go and two were made, and the side has more than king and pawns.
pub open spec fn spec_null_move_allowed(
    board: &Board,
    enabled: bool,
    at_least_upper: bool,
    depth_remaining: u8,
    depth_elapsed: usize,
) -> bool {
    &&& enabled
    &&& at_least_upper
    &&& board.checkers == 0
    &&& depth_remaining >= 1
    &&& depth_elapsed >= 2
    &&& spec_has_non_pawn_material(board)
}

/// Whether the side to move may pass.
pub fn null_move_allowed(
    board: &Board,
    enabled: bool,
    at_least_upper: bool,
    depth_remaining: u8,
    depth_elapsed: usize,
) -> (allowed: bool)
    requires
        board.turn_idx < 2,
    ensures
        allowed == spec_null_move_allowed(
            board,
            enabled,
            at_least_upper,
            depth_remaining,
            depth_elapsed,
        ),
{
    enabled && at_least_upper && board.checkers == 0 && depth_remaining >= 1 && depth_elapsed >= 2
        && has_non_pawn_material(board)
}

/// The moves to go after a pass: half of those that were to go.
pub fn null_move_depth(depth_remaining: u8) -> (depth: u8)
    ensures
        depth == depth_remaining / 2,
{
    depth_remaining / 2
}

/// What kind of bound the value of a searched node is: a lower bound where
/// it is at least the upper end of the window, an upper bound where it is
/// below the lower end, else exact.
pub fn bound_kind(at_least_upper: bool, below_lower: bool) -> (kind: EntryType)
    ensures
        kind == if at_least_upper {
            EntryType::FailHigh
        } else if below_lower {
            EntryType::FailLow
        } else {
            EntryType::Exact
        },
{
    if at_least_upper {
        EntryType::FailHigh
    } else if below_lower {
        EntryType::FailLow
    } else {
        EntryType::Exact
    }
}

/// How many of the numbers are the last of them.
pub open spec fn count_last(numbers: Seq<u8>, n: int) -> int
    decreases n,
{
    if n <= 0 {
        0
    } else {
        count_last(numbers, n - 1) + if numbers[n - 1] == numbers.last() {
            1int
        } else {
            0int
        }
    }
}

/// How many of the best moves found depth by depth are the one found last.
pub fn matching_best_moves(best_moves: &Vec<u8>) -> (count: usize)
    ensures
        count == count_last(best_moves@, best_moves@.len() as int),
        count <= best_moves@.len(),
{
    let mut count: usize = 0;
    let mut i: usize = 0;
    while i < best_moves.len()
        invariant
            i <= best_moves@.len(),
            count == count_last(best_moves@, i as int),
            count <= i,
        decreases best_moves@.len() - i,
    {
        if best_moves[i] == best_moves[best_moves.len() - 1] {
            count += 1;
        }
        i += 1;
    }
    count
}

/// A move by its place among the moves of a position, with the number that
/// it is ordered by.
#[derive(Debug, Copy, Clone, PartialEq, Eq, Structural)]
pub struct RatedMove {
    pub idx: usize,
    pub key: i64,
}

/// The places `order` name each place below `n` once.
pub open spec fn is_order(order: Seq<int>, n: int) -> bool {
    &&& order.len() == n
    &&& forall|i: int| 0 <= i < n ==> 0 <= #[trigger] order[i] < n
    &&& forall|i: int, j: int| 0 <= i < j < n ==> #[trigger] order[i] != #[trigger] order[j]
}

/// Of the moves `rated`, the one at place `a` is searched before the one at
/// place `b`: it has the larger number, or the same and stands earlier.
pub open spec fn goes_first(rated: Seq<RatedMove>, a: int, b: int) -> bool {
    rated[a].key > rated[b].key || (rated[a].key == rated[b].key && a < b)
}

/// `after` holds the moves of `before` in the order in which they are
/// searched, and `order` names for each place of `after` the place in
/// `before` that its move stood at.
pub open spec fn sorted_by(before: Seq<RatedMove>, after: Seq<RatedMove>, order: Seq<int>) -> bool {
    &&& is_order(order, before.len() as int)
    &&& after.len() == before.len()
    &&& forall|i: int| 0 <= i < after.len() ==> #[trigger] after[i] == before[order[i]]
    &&& forall|i: int, j: int|
        0 <= i < j < after.len() ==> goes_first(before, #[trigger] order[i], #[trigger] order[j])
}

/// Puts the moves in the order in which they are searched: larger numbers
/// first, and moves with the same number in the order they stood in.
pub fn sort_rated(rated: &mut Vec<RatedMove>)
    ensures
        exists|order: Seq<int>| sorted_by(old(rated)@, final(rated)@, order),
{
    let ghost before = rated@;
    let n = rated.len();
    let ghost mut order: Seq<int> = Seq::new(n as nat, |k: int| k);
    if n < 2 {
        assert(sorted_by(before, rated@, order));
        return ;
    }
    let mut i: usize = 1;
    while i < n
        invariant
            1 <= i <= n,
            n == before.len(),
            rated@.len() == n,
            is_order(order, n as int),
            forall|k: int| 0 <= k < n ==> #[trigger] rated@[k] == before[order[k]],
            forall|k: int| i <= k < n ==> #[trigger] order[k] == k,
            forall|k: int| 0 <= k < i ==> #[trigger] order[k] < i,
            forall|a: int, b: int|
                0 <= a < b < i ==> goes_first(before, #[trigger] order[a], #[trigger] order[b]),
        decreases n - i,
    {
        let mut j: usize = i;
        while j > 0
            invariant_except_break
                order[j as int] == i,
                forall|a: int, b: int|
                    0 <= a < b <= i && a != j && b != j ==> goes_first(
                        before,
                        #[trigger] order[a],
                        #[trigger] order[b],
                    ),
                forall|b: int| j < b <= i ==> before[i as int].key > before[#[trigger] order[b]].key,
            invariant
                0 <= j <= i < n,
                n == before.len(),
                rated@.len() == n,
                is_order(order, n as int),
                forall|k: int| 0 <= k < n ==> #[trigger] rated@[k] == before[order[k]],
                forall|k: int| i < k < n ==> #[trigger] order[k] == k,
                forall|k: int| 0 <= k <= i ==> #[trigger] order[k] <= i,
            ensures
                forall|a: int, b: int|
                    0 <= a < b <= i ==> goes_first(before, #[trigger] order[a], #[trigger] order[b]),
            decreases j,
        {
            let prev = rated[j - 1];
            let cur = rated[j];
            if cur.key > prev.key {
                rated.set(j - 1, cur);
                rated.set(j, prev);
                proof {
                    let ghost earlier = order;
                    order = earlier.update(j - 1, earlier[j as int]).update(
                        j as int,
                        earlier[j - 1],
                    );
                    assert forall|a: int, b: int|
                        0 <= a < b <= i && a != j - 1 && b != j - 1 implies goes_first(
                        before,
                        #[trigger] order[a],
                        #[trigger] order[b],
                    ) by {
                        let ea = if a == j {
                            j - 1
                        } else {
                            a
                        };
                        let eb = if b == j {
                            j - 1
                        } else {
                            b
                        };
                        assert(order[a] == earlier[ea]);
                        assert(order[b] == earlier[eb]);
                        if a != j {
                            assert(goes_first(before, earlier[ea], earlier[eb]));
                        } else {
                            assert(goes_first(before, earlier[ea], earlier[eb]));
                        }
                    }
                    assert forall|b: int| j - 1 < b <= i implies before[i as int].key
                        > before[#[trigger] order[b]].key by {
                        if b == j {
                            assert(order[b] == earlier[j - 1]);
                        } else {
                            assert(order[b] == earlier[b]);
                        }
                    }
                    assert forall|x: int, y: int| 0 <= x < y < n implies #[trigger] order[x]
                        != #[trigger] order[y] by {
                        let ex = if x == j {
                            j - 1
                        } else if x == j - 1 {
                            j as int
                        } else {
                            x
                        };
                        let ey = if y == j {
                            j - 1
                        } else if y == j - 1 {
                            j as int
                        } else {
                            y
                        };
                        assert(order[x] == earlier[ex]);
                        assert(order[y] == earlier[ey]);
                        if ex < ey {
                            assert(earlier[ex] != earlier[ey]);
                        } else {
                            assert(earlier[ey] != earlier[ex]);
                        }
                    }
                }
            } else {
                proof {
                    assert forall|a: int, b: int| 0 <= a < b <= i implies goes_first(
                        before,
                        #[trigger] order[a],
                        #[trigger] order[b],
                    ) by {
                        if b == j {
                            assert(order[a] != order[j as int]);
                            assert(order[a] <= i);
                            if a < j - 1 {
                                assert(goes_first(before, order[a], order[j - 1]));
                            }
                        } else if a == j {
                        }
                    }
                }
                break ;
            }
            j -= 1;
        }
        i += 1;
    }
    proof {
        assert(sorted_by(before, rated@, order));
    }
}

} // verus!
