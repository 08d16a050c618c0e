//! The rules by which a game between two engines ends beside mate and
//! stalemate: a position that stands on the board for the third time, and a
//! clock that has run out.

use std::collections::HashMap;
use vstd::prelude::*;
use vstd::std_specs::hash::*;
use crate::board::Board;
use crate::eval::{is_checkmate_possible, spec_is_checkmate_possible};

verus! {

/// How often the position with the hash `hash` stood on the board, by the
/// tally `counts`.
pub open spec fn times_seen(counts: Map<u64, usize>, hash: u64) -> int {
    if counts.contains_key(hash) {
        counts[hash] as int
    } else {
        0
    }
}

/// Notes in the tally that the position with the hash `hash` stands on the
/// board once more, and returns how often it has stood there now. The count
/// stops at the largest number.
pub fn note_position(counts: &mut HashMap<u64, usize>, hash: u64) -> (count: usize)
    ensures
        count == if times_seen(old(counts)@, hash) < usize::MAX {
            times_seen(old(counts)@, hash) + 1
        } else {
            usize::MAX as int
        },
        final(counts)@ == old(counts)@.insert(hash, count),
{
    broadcast use group_hash_axioms;

    let before: usize = match counts.get(&hash) {
        Some(n) => *n,
        None => 0,
    };
    let count: usize = if before < usize::MAX {
        before + 1
    } else {
        usize::MAX
    };
    counts.insert(hash, count);
    count
}

/// Whether a position that has stood on the board `count` times ends the
/// game as a draw.
pub fn is_threefold(count: usize) -> (draw: bool)
    ensures
        draw == (count >= 3),
{
    count >= 3
}

/// Who wins when the clock of the side to move has run out: the other
/// side where it has the material to mate, nobody where it has not.
pub fn clock_verdict(board: &Board) -> (winner: Option<usize>)
    requires
        board.turn_idx < 2,
        board.occupancy[1 - board.turn_idx as int] != 0,
    ensures
        winner == if spec_is_checkmate_possible(board, 1 - board.turn_idx as int) {
            Some((1 - board.turn_idx) as usize)
        } else {
            None
        },
{
    if is_checkmate_possible(board, 1 - board.turn_idx) {
        Some(1 - board.turn_idx)
    } else {
        None
    }
}

/// Who has won a game that is over on the board: the side that gives
/// check, nobody where no check is given.
pub fn final_verdict(board: &Board) -> (winner: Option<usize>)
    requires
        board.turn_idx < 2,
    ensures
        winner == if board.checkers != 0 {
            Some((1 - board.turn_idx) as usize)
        } else {
            None
        },
{
    if board.checkers != 0 {
        Some(1 - board.turn_idx)
    } else {
        None
    }
}

} // verus!
