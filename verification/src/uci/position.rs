//! The command that sets the position up: `position`, then `startpos` or
//! `fen` with the fields of a position, then, after `moves`, the moves made
//! from there.

use vstd::prelude::*;
use crate::board::Board;
use crate::fen::read::{fen_fault, load_fen_from_parts, parts_view, reads_as, FenError};
use crate::text::{same_text, texts_view};
use crate::uci::options::{find_word, word_at};
use crate::uci::{apply_moves, spec_apply};
use crate::zobrist::ZobristKeys;
use crate::Tables;

verus! {

/// Why a command that sets the position up was refused.
#[derive(Debug, Copy, Clone, PartialEq, Eq, Structural)]
pub enum PositionError {
    /// The command has no second word.
    TooFew,
    /// After `fen` no field follows.
    FenMissing,
    /// The fields after `fen` are not those of a position.
    BadFen(FenError),
    /// The second word is neither `startpos` nor `fen`.
    UnknownKind,
    /// After `startpos` something else than `moves` follows.
    UnknownSuffix,
    /// The move at this place of the list is no move of its position.
    BadMove(usize),
}

/// The place where the words of the position end: of the word `moves`, or
/// the number of the words. After `startpos` it is the third place.
pub open spec fn start_end(parts: Seq<Seq<char>>) -> int {
    if parts[1] == "fen"@ {
        word_at(parts, "moves"@, 2)
    } else {
        2
    }
}

/// What is wrong with the words before the moves, if anything.
pub open spec fn start_fault(parts: Seq<Seq<char>>) -> Option<PositionError> {
    if parts.len() < 2 {
        Some(PositionError::TooFew)
    } else if parts[1] == "fen"@ {
        if start_end(parts) == 2 {
            Some(PositionError::FenMissing)
        } else {
            match fen_fault(parts.subrange(2, start_end(parts))) {
                Some(error) => Some(PositionError::BadFen(error)),
                None => None,
            }
        }
    } else if parts[1] == "startpos"@ {
        if 2 < parts.len() && parts[2] != "moves"@ {
            Some(PositionError::UnknownSuffix)
        } else {
            None
        }
    } else {
        Some(PositionError::UnknownKind)
    }
}

/// `start` is the position that the words before the moves give, with every
/// derived field as it follows from the pieces.
pub open spec fn starts_at(keys: &ZobristKeys, parts: Seq<Seq<char>>, start: &Board) -> bool {
    &&& start.inv(keys)
    &&& start.derived_ok(keys)
    &&& if parts[1] == "fen"@ {
        reads_as(parts.subrange(2, start_end(parts)), start)
    } else {
        &&& start.at_start()
        &&& start.turn_idx == 0
        &&& start.en_passant_mask == 0
        &&& start.half_move_counter == 0
        &&& forall|t: int, side: int|
            0 <= t < 2 && 0 <= side < 2 ==> #[trigger] start.castle_rights[t][side]
    }
}

/// The moves of the command: the words after `moves`.
pub open spec fn move_words(parts: Seq<Seq<char>>) -> Seq<Seq<char>> {
    if start_end(parts) < parts.len() {
        parts.subrange(start_end(parts) + 1, parts.len() as int)
    } else {
        Seq::empty()
    }
}

/// The position after the moves `texts` are made from `start`, or the place
/// of the first that is no move of its position.
pub open spec fn moved_from(keys: &ZobristKeys, start: Board, texts: Seq<Seq<char>>) -> Result<
    Board,
    PositionError,
> {
    match spec_apply(keys, start, texts) {
        Ok(reached) => Ok(reached),
        Err(place) => Err(PositionError::BadMove(place as usize)),
    }
}

/// The words of `parts` from place `from` up to place `to`.
fn words_between(parts: &Vec<String>, from: usize, to: usize) -> (words: Vec<String>)
    requires
        from <= to <= parts@.len(),
    ensures
        texts_view(&words) == texts_view(parts).subrange(from as int, to as int),
{
    let mut words: Vec<String> = Vec::new();
    let mut i: usize = from;
    while i < to
        invariant
            from <= i <= to,
            to <= parts@.len(),
            words@.len() == i - from,
            forall|j: int| 0 <= j < i - from ==> (#[trigger] words@[j])@ == parts@[from + j]@,
        decreases to - i,
    {
        let mut word = String::new();
        crate::text::push_text(&mut word, parts[i].as_str());
        words.push(word);
        i += 1;
    }
    proof {
        assert(texts_view(&words) =~= texts_view(parts).subrange(from as int, to as int));
    }
    words
}

/// Reads the command `position`, given as its words: sets up the starting
/// position or the position of the fields after `fen`, and makes the moves
/// after `moves` one after the other. The first fault is returned, and
/// nothing is set up then.
pub fn read_position(tables: &Tables, parts: &Vec<String>) -> (found: Result<Board, PositionError>)
    requires
        tables.wf(),
    ensures
        match start_fault(texts_view(parts)) {
            Some(error) => found == Err::<Board, PositionError>(error),
            None => exists|start: Board| #[trigger]
                starts_at(&tables.zobrist, texts_view(parts), &start) && found == moved_from(
                    &tables.zobrist,
                    start,
                    move_words(texts_view(parts)),
                ),
        },
        found matches Ok(board) ==> board.inv(&tables.zobrist),
{
    let ghost all = texts_view(parts);
    if parts.len() < 2 {
        return Err(PositionError::TooFew);
    }
    let start: Board;
    let end: usize;
    if same_text(parts[1].as_str(), "fen") {
        end = find_word(parts, "moves", 2);
        if end == 2 {
            return Err(PositionError::FenMissing);
        }
        let fields = words_between(parts, 2, end);
        proof {
            assert(parts_view(&fields) =~= texts_view(&fields));
        }
        match load_fen_from_parts(tables, &fields) {
            Ok(board) => {
                start = board;
            },
            Err(error) => {
                return Err(PositionError::BadFen(error));
            },
        }
    } else if same_text(parts[1].as_str(), "startpos") {
        proof {
            reveal_strlit("fen");
            reveal_strlit("startpos");
        }
        end = 2;
        start = Board::start_pos(tables);
        if 2 < parts.len() && !same_text(parts[2].as_str(), "moves") {
            return Err(PositionError::UnknownSuffix);
        }
    } else {
        return Err(PositionError::UnknownKind);
    }
    assert(starts_at(&tables.zobrist, all, &start));
    let texts = if end < parts.len() {
        words_between(parts, end + 1, parts.len())
    } else {
        Vec::new()
    };
    proof {
        assert(texts_view(&texts) =~= move_words(all));
    }
    match apply_moves(tables, &start, &texts) {
        Ok(board) => Ok(board),
        Err(place) => Err(PositionError::BadMove(place)),
    }
}

} // verus!
