//! The Universal Chess Interface: finding a move by its text and making a
//! list of moves here; reading the commands and writing the answers in the
//! modules below.

use vstd::prelude::*;
use crate::board::{Board, Move};
use crate::move_gen::generate_moves;
use crate::text::{same_text, texts_view};
use crate::zobrist::ZobristKeys;
use crate::Tables;

pub mod go;
pub mod info;
pub mod options;
pub mod position;

verus! {

/// The place of the first of the moves `moves` with the text `text`, or the
/// number of the moves where none has it.
pub open spec fn spec_find(moves: Seq<Move>, text: Seq<char>) -> int
    decreases moves.len(),
{
    if moves.len() == 0 {
        0
    } else if spec_find(moves.drop_last(), text) < moves.len() - 1 {
        spec_find(moves.drop_last(), text)
    } else if moves.last().uci_text() == text {
        moves.len() - 1
    } else {
        moves.len() as int
    }
}

/// What `spec_find` finds is the first move with the text.
pub proof fn lemma_find(moves: Seq<Move>, text: Seq<char>)
    ensures
        0 <= spec_find(moves, text) <= moves.len(),
        spec_find(moves, text) < moves.len() ==> moves[spec_find(moves, text)].uci_text() == text,
        forall|i: int| 0 <= i < spec_find(moves, text) ==> (#[trigger] moves[i]).uci_text() != text,
    decreases moves.len(),
{
    if moves.len() > 0 {
        lemma_find(moves.drop_last(), text);
        assert forall|i: int| 0 <= i < spec_find(moves, text) implies (#[trigger] moves[i]).uci_text()
            != text by {
            if i < moves.len() - 1 {
                assert(moves.drop_last()[i] == moves[i]);
            }
        }
        if spec_find(moves.drop_last(), text) < moves.len() - 1 {
            assert(moves.drop_last()[spec_find(moves.drop_last(), text)] == moves[spec_find(
                moves.drop_last(),
                text,
            )]);
        }
    }
}

/// The move of the position `board` that is written `text` in coordinates,
/// such as `e2e4` or `e7e8q`: the first of its moves with this text.
pub fn find_move(tables: &Tables, board: &Board, text: &str) -> (found: Option<Move>)
    requires
        tables.wf(),
        board.ready(),
    ensures
        match found {
            Some(mv) => spec_find(board.move_list(), text@) < board.move_list().len() && mv
                == board.move_list()[spec_find(board.move_list(), text@)] && board.move_ok(&mv),
            None => spec_find(board.move_list(), text@) == board.move_list().len(),
        },
{
    let moves = generate_moves(tables, board);
    let mut i: usize = 0;
    proof {
        assert(moves@.take(0) =~= Seq::<Move>::empty());
    }
    while i < moves.len()
        invariant
            i <= moves@.len(),
            moves@ == board.move_list(),
            forall|j: int| 0 <= j < moves@.len() ==> board.move_ok(&#[trigger] moves@[j]),
            spec_find(moves@.take(i as int), text@) == i,
        decreases moves@.len() - i,
    {
        let mv = moves[i];
        assert(board.move_ok(&moves@[i as int]));
        let written = mv.to_string();
        proof {
            assert(moves@.take(i + 1).drop_last() =~= moves@.take(i as int));
            assert(moves@.take(i + 1).last() == mv);
        }
        if same_text(written.as_str(), text) {
            proof {
                lemma_find_stays(moves@, text@, i + 1);
            }
            return Some(mv);
        }
        i += 1;
    }
    proof {
        assert(moves@.take(i as int) =~= moves@);
    }
    None
}

/// A move found among the first moves is the move found among all.
proof fn lemma_find_stays(moves: Seq<Move>, text: Seq<char>, n: int)
    requires
        0 <= n <= moves.len(),
        spec_find(moves.take(n), text) < n,
    ensures
        spec_find(moves, text) == spec_find(moves.take(n), text),
    decreases moves.len() - n,
{
    if n == moves.len() {
        assert(moves.take(n) =~= moves);
    } else {
        assert(moves.take(n + 1).drop_last() =~= moves.take(n));
        lemma_find_stays(moves, text, n + 1);
    }
}

/// The position after the moves written `texts` in coordinates are made one
/// after the other from `board`; or the place of the first text that is no
/// move of its position.
pub open spec fn spec_apply(keys: &ZobristKeys, board: Board, texts: Seq<Seq<char>>) -> Result<
    Board,
    int,
>
    decreases texts.len(),
{
    if texts.len() == 0 {
        Ok(board)
    } else {
        match spec_apply(keys, board, texts.drop_last()) {
            Err(place) => Err(place),
            Ok(before) => {
                let place = spec_find(before.move_list(), texts.last());
                if place < before.move_list().len() {
                    Ok(before.spec_do_move(keys, &before.move_list()[place]))
                } else {
                    Err(texts.len() - 1)
                }
            },
        }
    }
}

/// Makes the moves written `texts` in coordinates one after the other. Where
/// a text is no move of its position, its place among the texts is returned.
pub fn apply_moves(tables: &Tables, board: &Board, texts: &Vec<String>) -> (after: Result<
    Board,
    usize,
>)
    requires
        tables.wf(),
        board.inv(&tables.zobrist),
    ensures
        match spec_apply(&tables.zobrist, *board, texts_view(texts)) {
            Ok(reached) => after == Ok::<Board, usize>(reached) && reached.inv(&tables.zobrist),
            Err(place) => after == Err::<Board, usize>(place as usize) && 0 <= place
                < texts@.len(),
        },
{
    let ghost keys = &tables.zobrist;
    let ghost all = texts_view(texts);
    let mut cur: Board = *board;
    let mut i: usize = 0;
    proof {
        assert(all.take(0) =~= Seq::<Seq<char>>::empty());
    }
    while i < texts.len()
        invariant
            i <= texts@.len(),
            tables.wf(),
            keys == &tables.zobrist,
            all == texts_view(texts),
            cur.inv(&tables.zobrist),
            spec_apply(keys, *board, all.take(i as int)) == Ok::<Board, int>(cur),
        decreases texts@.len() - i,
    {
        proof {
            assert(all.take(i + 1).drop_last() =~= all.take(i as int));
            assert(all.take(i + 1).last() == texts@[i as int]@);
        }
        match find_move(tables, &cur, texts[i].as_str()) {
            Some(mv) => {
                cur.do_move(tables, &mv);
            },
            None => {
                proof {
                    lemma_apply_fails_on(keys, *board, all, i + 1);
                }
                return Err(i);
            },
        }
        i += 1;
    }
    proof {
        assert(all.take(i as int) =~= all);
    }
    Ok(cur)
}

/// Once making the moves has failed, it has failed for every longer list.
proof fn lemma_apply_fails_on(keys: &ZobristKeys, board: Board, texts: Seq<Seq<char>>, n: int)
    requires
        0 <= n <= texts.len(),
        spec_apply(keys, board, texts.take(n)) is Err,
    ensures
        spec_apply(keys, board, texts) == spec_apply(keys, board, texts.take(n)),
    decreases texts.len() - n,
{
    if n == texts.len() {
        assert(texts.take(n) =~= texts);
    } else {
        assert(texts.take(n + 1).drop_last() =~= texts.take(n));
        lemma_apply_fails_on(keys, board, texts, n + 1);
    }
}

} // verus!
