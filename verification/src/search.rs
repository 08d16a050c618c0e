//! Walks over the tree of moves: counting its leaves, and reading the line
//! of best moves out of the transposition table; in the module below, the
//! rules that a search goes by.

use std::collections::HashSet;
use vstd::prelude::*;
use vstd::std_specs::hash::*;
use crate::board::{Board, Move};
use crate::move_gen::generate_moves;
use crate::transpos::Table;
use crate::zobrist::ZobristKeys;
use crate::Tables;

pub mod rules;

verus! {

/// The sum, over the moves `moves` made in `board`, of the number of lines
/// of `depth` moves from the position after the move.
pub open spec fn perft_sum(keys: &ZobristKeys, board: Board, moves: Seq<Move>, depth: nat) -> nat
    decreases depth, moves.len() + 1,
{
    if moves.len() == 0 {
        0
    } else {
        perft_sum(keys, board, moves.drop_last(), depth) + spec_perft(
            keys,
            board.spec_do_move(keys, &moves.last()),
            depth,
        )
    }
}

/// The number of lines of `depth` moves from `board`: one for depth 0, and
/// else the sum over the moves of the position of the number of lines of one
/// move less from the position after the move.
pub open spec fn spec_perft(keys: &ZobristKeys, board: Board, depth: nat) -> nat
    decreases depth, 0nat,
{
    if depth == 0 {
        1
    } else {
        perft_sum(keys, board, board.move_list(), (depth - 1) as nat)
    }
}

/// `n`, or the largest `usize` where `n` is larger.
pub open spec fn capped(n: nat) -> usize {
    if n > usize::MAX {
        usize::MAX
    } else {
        n as usize
    }
}

/// Each move ends one line of no further moves.
proof fn lemma_perft_sum_leaves(keys: &ZobristKeys, board: Board, moves: Seq<Move>)
    ensures
        perft_sum(keys, board, moves, 0) == moves.len(),
    decreases moves.len(),
{
    if moves.len() > 0 {
        lemma_perft_sum_leaves(keys, board, moves.drop_last());
        assert(spec_perft(keys, board.spec_do_move(keys, &moves.last()), 0) == 1);
        assert(perft_sum(keys, board, moves, 0) == perft_sum(keys, board, moves.drop_last(), 0)
            + spec_perft(keys, board.spec_do_move(keys, &moves.last()), 0));
    }
}

/// The number of lines of `depth` moves from `board`. The count stops at the
/// largest `usize`.
pub fn perft(tables: &Tables, board: &Board, depth: u8) -> (count: usize)
    requires
        tables.wf(),
        board.inv(&tables.zobrist),
    ensures
        count == capped(spec_perft(&tables.zobrist, *board, depth as nat)),
    decreases depth,
{
    if depth == 0 {
        return 1;
    }
    let ghost keys = &tables.zobrist;
    let moves = generate_moves(tables, board);
    if depth == 1 {
        proof {
            lemma_perft_sum_leaves(keys, *board, moves@);
        }
        return moves.len();
    }
    let mut total: usize = 0;
    let mut i: usize = 0;
    while i < moves.len()
        invariant
            tables.wf(),
            board.inv(&tables.zobrist),
            keys == &tables.zobrist,
            depth > 1,
            i <= moves@.len(),
            moves@ == board.move_list(),
            forall|j: int| 0 <= j < moves@.len() ==> board.move_ok(&#[trigger] moves@[j]),
            total == capped(perft_sum(keys, *board, moves@.take(i as int), (depth - 1) as nat)),
        decreases moves@.len() - i,
    {
        let mut next_board: Board = *board;
        next_board.do_move(tables, &moves[i]);
        let sub_total = perft(tables, &next_board, depth - 1);
        proof {
            assert(moves@.take(i + 1).drop_last() =~= moves@.take(i as int));
            assert(moves@.take(i + 1).last() == moves@[i as int]);
        }
        total = if sub_total > usize::MAX - total {
            usize::MAX
        } else {
            total + sub_total
        };
        i += 1;
    }
    proof {
        assert(moves@.take(i as int) =~= moves@);
    }
    total
}

/// Why no line of best moves could be read.
#[derive(Debug, Copy, Clone, PartialEq, Eq, Structural)]
pub enum PvError {
    /// The table holds nothing for the first position.
    NoEntry,
    /// An entry names a move that its position does not have: the entry
    /// belongs to another position with the same hash.
    BadMoveIndex,
}

/// `line` put before what `rest` holds.
pub open spec fn pv_prepend(line: Seq<Move>, rest: Result<Seq<Move>, PvError>) -> Result<
    Seq<Move>,
    PvError,
> {
    match rest {
        Ok(moves) => Ok(line + moves),
        Err(error) => Err(error),
    }
}

/// The line of best moves from `board` on: while the table holds an entry
/// for the position and the hash of the position is not in `seen`, the move
/// that the entry names among the moves of the position, and then the line
/// from the position after it. An entry that names no move of the position
/// is an error. `fuel` bounds the steps for the sake of the definition; with
/// as much of it as the table has slots left it never runs out
/// (`lemma_pv_fuel`).
pub open spec fn pv_from(
    keys: &ZobristKeys,
    table: &Table,
    board: Board,
    seen: Seq<u64>,
    fuel: nat,
) -> Result<Seq<Move>, PvError>
    decreases fuel,
{
    let entry = table.spec_get(board.hash);
    if fuel == 0 || !entry.spec_is_set() || seen.contains(board.hash) {
        Ok(Seq::empty())
    } else if entry.best_move_idx >= board.move_list().len() {
        Err(PvError::BadMoveIndex)
    } else {
        let best_move = board.move_list()[entry.best_move_idx as int];
        pv_prepend(
            seq![best_move],
            pv_from(
                keys,
                table,
                board.spec_do_move(keys, &best_move),
                seen.push(board.hash),
                (fuel - 1) as nat,
            ),
        )
    }
}

/// The steps that a line can take at most after the hashes `seen`: one for
/// each slot of the table that no hash of `seen` stands in, and one more to
/// see the end.
pub open spec fn pv_fuel(table: &Table, seen: Seq<u64>) -> nat {
    (4 * table.buckets@.len() + 1 - seen.len()) as nat
}

/// The line of best moves from `board` on, which must not be empty. It ends
/// at the first position without an entry or with a hash that came before.
pub open spec fn spec_pv(keys: &ZobristKeys, table: &Table, board: Board) -> Result<
    Seq<Move>,
    PvError,
> {
    match pv_from(keys, table, board, Seq::empty(), pv_fuel(table, Seq::empty())) {
        Ok(moves) => if moves.len() == 0 {
            Err(PvError::NoEntry)
        } else {
            Ok(moves)
        },
        Err(error) => Err(error),
    }
}

/// The slot in which the entry for `hash` is found, counted through the
/// whole table.
pub open spec fn entry_place(table: &Table, hash: u64) -> int {
    4 * table.spec_bucket_idx(hash) + table.buckets@[table.spec_bucket_idx(hash)].match_slot(hash)
}

/// The hashes `seen` are those of positions that a line went through: no
/// two are the same, and the table holds an entry for each.
pub open spec fn visited(table: &Table, seen: Seq<u64>) -> bool {
    &&& seen.no_duplicates()
    &&& forall|i: int| 0 <= i < seen.len() ==> table.spec_get(#[trigger] seen[i]).spec_is_set()
}

/// A line goes through no more positions than the table has slots: the
/// entries of different hashes stand in different slots.
pub proof fn lemma_visited_bound(table: &Table, seen: Seq<u64>)
    requires
        table.wf(),
        visited(table, seen),
    ensures
        seen.len() <= 4 * table.buckets@.len(),
{
    let n = table.buckets@.len() as int;
    let places = Seq::new(seen.len(), |i: int| entry_place(table, seen[i]));
    assert forall|i: int| 0 <= i < seen.len() implies 0 <= #[trigger] places[i] < 4 * n
        && table.buckets@[table.spec_bucket_idx(seen[i])].entries[places[i] % 4].hash == seen[i]
        && places[i] / 4 == table.spec_bucket_idx(seen[i]) by {
        let hash = seen[i];
        assert(table.spec_get(hash).spec_is_set());
        let b = table.spec_bucket_idx(hash);
        let slot = table.buckets@[b].match_slot(hash);
        assert(0 <= b < n);
        assert(0 <= slot < 4);
    }
    assert forall|i: int, j: int| 0 <= i < j < places.len() implies places[i] != places[j] by {
        assert(seen[i] != seen[j]);
        if places[i] == places[j] {
            assert(places[i] / 4 == places[j] / 4);
            assert(places[i] % 4 == places[j] % 4);
        }
    }
    assert(places.no_duplicates());
    places.unique_seq_to_set();
    vstd::set_lib::lemma_int_range(0, 4 * n);
    assert(places.to_set().subset_of(vstd::set_lib::set_int_range(0, 4 * n))) by {
        assert forall|v: int| places.to_set().contains(v) implies vstd::set_lib::set_int_range(
            0,
            4 * n,
        ).contains(v) by {
            let i = choose|i: int| 0 <= i < places.len() && places[i] == v;
            assert(0 <= places[i] < 4 * n);
        }
    }
    vstd::set_lib::lemma_len_subset(places.to_set(), vstd::set_lib::set_int_range(0, 4 * n));
}

/// A line never ends for want of fuel: from the fuel that the slots of the
/// table give, more fuel gives the same line.
pub proof fn lemma_pv_fuel(
    keys: &ZobristKeys,
    table: &Table,
    board: Board,
    seen: Seq<u64>,
    fuel: nat,
    more: nat,
)
    requires
        table.wf(),
        visited(table, seen),
        pv_fuel(table, seen) <= fuel <= more,
    ensures
        pv_from(keys, table, board, seen, fuel) == pv_from(keys, table, board, seen, more),
    decreases fuel,
{
    lemma_visited_bound(table, seen);
    let entry = table.spec_get(board.hash);
    if entry.spec_is_set() && !seen.contains(board.hash) && entry.best_move_idx
        < board.move_list().len() {
        let best_move = board.move_list()[entry.best_move_idx as int];
        let after = seen.push(board.hash);
        assert(visited(table, after)) by {
            assert forall|i: int, j: int| 0 <= i < j < after.len() implies after[i] != after[j] by {
                if j == seen.len() {
                    assert(seen[i] == after[i]);
                } else {
                    assert(seen[i] != seen[j]);
                }
            }
        }
        lemma_pv_fuel(
            keys,
            table,
            board.spec_do_move(keys, &best_move),
            after,
            (fuel - 1) as nat,
            (more - 1) as nat,
        );
    }
}

/// The line of best moves that the table holds from `board` on: at each
/// position the move that the entry of the position names, up to the first
/// position without an entry or with a hash that came before.
pub fn determine_pv(tables: &Tables, board: Board, table: &Table) -> (line: Result<
    Vec<Move>,
    PvError,
>)
    requires
        tables.wf(),
        table.wf(),
        board.inv(&tables.zobrist),
    ensures
        match spec_pv(&tables.zobrist, table, board) {
            Ok(moves) => line is Ok && line->Ok_0@ == moves,
            Err(error) => line == Err::<Vec<Move>, PvError>(error),
        },
{
    let ghost keys = &tables.zobrist;
    let ghost goal = pv_from(keys, table, board, Seq::empty(), pv_fuel(table, Seq::empty()));
    let mut cur = board;
    let mut result: Vec<Move> = Vec::new();
    let mut found_hashes: HashSet<u64> = HashSet::new();
    let ghost mut seen: Seq<u64> = Seq::empty();
    proof {
        assert(Seq::<Move>::empty() + Seq::<Move>::empty() =~= Seq::<Move>::empty());
        assert(result@ =~= Seq::<Move>::empty());
        match goal {
            Ok(moves) => {
                assert(result@ + moves =~= moves);
            },
            Err(_) => {},
        }
    }
    loop
        invariant_except_break
            goal == pv_prepend(result@, pv_from(keys, table, cur, seen, pv_fuel(table, seen))),
        invariant
            tables.wf(),
            table.wf(),
            cur.inv(&tables.zobrist),
            keys == &tables.zobrist,
            goal == pv_from(
                &tables.zobrist,
                table,
                board,
                Seq::empty(),
                pv_fuel(table, Seq::empty()),
            ),
            visited(table, seen),
            forall|hash: u64| found_hashes@.contains(hash) == seen.contains(hash),
        ensures
            goal == Ok::<Seq<Move>, PvError>(result@),
        decreases 4 * table.buckets@.len() + 1 - seen.len(),
    {
        broadcast use group_hash_axioms;

        proof {
            lemma_visited_bound(table, seen);
        }
        let entry = table.get_fast(cur.hash);
        if !entry.is_set() || found_hashes.contains(&cur.hash) {
            proof {
                assert(result@ + Seq::<Move>::empty() =~= result@);
            }
            break ;
        }
        let ghost before = cur;
        let ghost line = result@;
        let ghost earlier = seen;
        found_hashes.insert(cur.hash);
        proof {
            seen = earlier.push(cur.hash);
            assert forall|hash: u64| found_hashes@.contains(hash) == seen.contains(hash) by {
                if earlier.contains(hash) {
                    let i = choose|i: int| 0 <= i < earlier.len() && earlier[i] == hash;
                    assert(seen[i] == hash);
                }
                if hash == before.hash {
                    assert(seen[earlier.len() as int] == hash);
                }
            }
            assert(visited(table, seen)) by {
                assert forall|i: int, j: int| 0 <= i < j < seen.len() implies seen[i] != seen[j] by {
                    if j == earlier.len() {
                        assert(earlier[i] == seen[i]);
                    } else {
                        assert(earlier[i] != earlier[j]);
                    }
                }
            }
            lemma_visited_bound(table, seen);
        }
        let moves = generate_moves(tables, &cur);
        let best_move_idx = entry.best_move_idx as usize;
        if best_move_idx >= moves.len() {
            proof {
                assert(pv_from(keys, table, before, earlier, pv_fuel(table, earlier)) == Err::<
                    Seq<Move>,
                    PvError,
                >(PvError::BadMoveIndex));
            }
            return Err(PvError::BadMoveIndex);
        }
        let best_move = moves[best_move_idx];
        result.push(best_move);
        cur.do_move(tables, &best_move);
        proof {
            let rest = pv_from(keys, table, cur, seen, pv_fuel(table, seen));
            assert(pv_fuel(table, seen) == pv_fuel(table, earlier) - 1);
            assert(pv_from(keys, table, before, earlier, pv_fuel(table, earlier)) == pv_prepend(
                seq![best_move],
                rest,
            ));
            match rest {
                Ok(tail) => {
                    assert(line + (seq![best_move] + tail) =~= result@ + tail);
                },
                Err(_) => {},
            }
        }
    }
    if result.len() == 0 {
        return Err(PvError::NoEntry);
    }
    Ok(result)
}

/// Whether the position with hash `hash`, reached `ply` moves into the search,
/// stood on the board before: two, four, six, eight or ten moves earlier in
/// `depth_hashes`, the hashes of the positions by the number of moves into
/// the search.
pub fn is_repetition(depth_hashes: &[u64; 256], ply: usize, hash: u64) -> (repeated: bool)
    requires
        ply < 256,
    ensures
        repeated == exists|back: int|
            1 <= back <= 5 && 2 * back <= ply && #[trigger] depth_hashes[ply - 2 * back] == hash,
{
    let mut back: usize = 1;
    while back <= 5
        invariant
            1 <= back <= 6,
            ply < 256,
            forall|b: int|
                1 <= b < back && 2 * b <= ply ==> #[trigger] depth_hashes[ply - 2 * b] != hash,
        decreases 6 - back,
    {
        if 2 * back <= ply && depth_hashes[ply - 2 * back] == hash {
            return true;
        }
        back += 1;
    }
    false
}

/// Whether the game is over in `board`: fifty half-moves have gone by without
/// a capture or a pawn's move, or neither side has the material to mate, or
/// the side to move is in check and has no move.
pub open spec fn spec_is_game_over(board: &Board) -> bool {
    ||| board.half_move_counter >= 50
    ||| (!crate::eval::spec_is_checkmate_possible(board, 0)
        && !crate::eval::spec_is_checkmate_possible(board, 1))
    ||| (board.checkers != 0 && board.move_list().len() == 0)
}

/// Whether the game is over in `board`.
pub fn is_game_over(tables: &Tables, board: &Board) -> (over: bool)
    requires
        tables.wf(),
        board.ready(),
    ensures
        over == spec_is_game_over(board),
{
    if board.half_move_counter >= 50 {
        return true;
    }
    proof {
        crate::bitmask::lemma_is_square(board.pieces[0][5]);
        crate::bitmask::lemma_is_square(board.pieces[1][5]);
        board.lemma_only_holder(0, 5, board.king_sq(0));
        board.lemma_only_holder(1, 5, board.king_sq(1));
        crate::bitmask::lemma_has_nonzero(board.occupancy[0], board.king_sq(0));
        crate::bitmask::lemma_has_nonzero(board.occupancy[1], board.king_sq(1));
    }
    if !crate::eval::is_checkmate_possible(board, 0) && !crate::eval::is_checkmate_possible(
        board,
        1,
    ) {
        return true;
    }
    if board.checkers != 0 {
        let moves = generate_moves(tables, board);
        return moves.len() == 0;
    }
    false
}


} // verus!
