//! Games as text: moves in standard algebraic notation.

use vstd::prelude::*;
use crate::bitmask::{
    BitMask, has_sq, sq_mask, is_square, lowest_sq, file_of, rank_of, coord_text, file_char,
    rank_char, lemma_is_square, lemma_has_nonzero, lemma_nonempty, bm_to_xy, bm_make_column,
    bm_make_row,
};
use crate::geometry::is_sq;
use crate::board::{Board, Move, PIECE_PAWN};
use crate::fen::{make_fen, piece_char, piece_letter, FEN_START_POS};
use crate::move_gen::generate_moves;
use crate::text::{number_text, push_number, push_text, same_text};
use crate::zobrist::ZobristKeys;
use crate::Tables;

verus! {

/// Why a move or a game could not be written down.
#[derive(Debug, Copy, Clone, PartialEq, Eq, Structural)]
pub enum PgnError {
    /// The position has no move.
    NoValidMoves,
    /// The move is none of the position's moves.
    MoveNotFound,
}

impl Board {
    /// Another piece of the same kind as that of `mv`, on `a`, can go to the
    /// same square.
    pub open spec fn rival_on(&self, mv: &Move, a: int) -> bool {
        a != mv.from_sq() && exists|i: int|
            0 <= i < self.move_list().len() && {
                let other = #[trigger] self.move_list()[i];
                other.from_piece_idx == mv.from_piece_idx && other.to == mv.to && other.from
                    == sq_mask(a)
            }
    }

    /// What tells the piece of `mv` from others of its kind that can go to
    /// the same square: nothing where there is none; the file it comes from
    /// where no other comes from that file; else the rank where no other
    /// comes from that rank; else the square.
    pub open spec fn san_origin(&self, mv: &Move) -> Seq<char> {
        let f = mv.from_sq();
        let any = exists|a: int| is_sq(a) && #[trigger] self.rival_on(mv, a);
        let on_file = exists|a: int|
            is_sq(a) && #[trigger] self.rival_on(mv, a) && file_of(a) == file_of(f);
        let on_rank = exists|a: int|
            is_sq(a) && #[trigger] self.rival_on(mv, a) && rank_of(a) == rank_of(f);
        if !any {
            Seq::empty()
        } else if !on_file {
            seq![file_char(file_of(f))]
        } else if !on_rank {
            seq![rank_char(rank_of(f))]
        } else {
            coord_text(f)
        }
    }

    /// The move without the mark of check: for a pawn the square it goes
    /// to, after the file it comes from and `x` where it captures, and the
    /// piece it promotes to after `=`; for a piece its letter, what tells it
    /// from its rivals, `x` where it captures, and the square it goes to.
    pub open spec fn san_body(&self, mv: &Move) -> Seq<char> {
        let takes: Seq<char> = if mv.spec_has_flag(Move::FLAG_CAPTURE) {
            seq!['x']
        } else {
            Seq::empty()
        };
        if mv.from_piece_idx == PIECE_PAWN {
            (if mv.spec_has_flag(Move::FLAG_CAPTURE) {
                seq![file_char(file_of(mv.from_sq()))]
            } else {
                Seq::empty()
            }) + takes + coord_text(mv.to_sq()) + (if mv.to_piece_idx != PIECE_PAWN {
                seq!['=', piece_char(0, mv.to_piece_idx as int)]
            } else {
                Seq::empty()
            })
        } else {
            seq![piece_char(0, mv.from_piece_idx as int)] + self.san_origin(mv) + takes
                + coord_text(mv.to_sq())
        }
    }

    /// The mark of check of a move that leads to the position `after`: `#`
    /// where the side to move is in check and has no move, `+` where it is in
    /// check and has one, and nothing else.
    pub open spec fn san_check(after: &Board) -> Seq<char> {
        if after.checkers != 0 {
            if after.move_list().len() == 0 {
                seq!['#']
            } else {
                seq!['+']
            }
        } else {
            Seq::empty()
        }
    }

    /// The move without the mark of check: castling is written `O-O` to the
    /// king's wing and `O-O-O` to the queen's, any other move as `san_body`
    /// has it.
    pub open spec fn san_move(&self, mv: &Move) -> Seq<char> {
        if mv.spec_has_flag(Move::FLAG_CASTLE) {
            if mv.to > mv.from {
                seq!['O', '-', 'O']
            } else {
                seq!['O', '-', 'O', '-', 'O']
            }
        } else {
            self.san_body(mv)
        }
    }

    /// The move `mv` in standard algebraic notation: the move, and the mark
    /// of check or mate where it gives one.
    pub open spec fn san_text(&self, keys: &ZobristKeys, mv: &Move) -> Result<Seq<char>, PgnError> {
        if self.move_list().len() == 0 {
            Err(PgnError::NoValidMoves)
        } else if !self.move_list().contains(*mv) {
            Err(PgnError::MoveNotFound)
        } else {
            Ok(self.san_move(mv) + Self::san_check(&self.spec_do_move(keys, mv)))
        }
    }
}

/// Whether `mv` is one of `moves`.
fn is_listed(moves: &Vec<Move>, mv: &Move) -> (listed: bool)
    ensures
        listed == moves@.contains(*mv),
{
    let mut i: usize = 0;
    while i < moves.len()
        invariant
            i <= moves@.len(),
            forall|j: int| 0 <= j < i ==> moves@[j] != *mv,
        decreases moves@.len() - i,
    {
        if moves[i] == *mv {
            return true;
        }
        i += 1;
    }
    false
}

/// The squares that pieces of the kind of `mv` come from when they go to the
/// square that `mv` goes to.
fn possible_origins(moves: &Vec<Move>, mv: &Move) -> (froms: BitMask)
    requires
        forall|i: int| 0 <= i < moves@.len() ==> is_square((#[trigger] moves@[i]).from),
    ensures
        forall|a: int|
            is_sq(a) ==> #[trigger] has_sq(froms, a) == exists|i: int|
                0 <= i < moves@.len() && {
                    let other = #[trigger] moves@[i];
                    other.from_piece_idx == mv.from_piece_idx && other.to == mv.to && other.from
                        == sq_mask(a)
                },
{
    let mut froms: BitMask = 0;
    let mut n: usize = 0;
    proof {
        assert forall|a: int| is_sq(a) implies !has_sq(0, a) by {
            crate::bitmask::lemma_has_zero(a);
        }
    }
    while n < moves.len()
        invariant
            n <= moves@.len(),
            forall|i: int| 0 <= i < moves@.len() ==> is_square((#[trigger] moves@[i]).from),
            forall|a: int|
                is_sq(a) ==> #[trigger] has_sq(froms, a) == exists|i: int|
                    0 <= i < n && {
                        let other = #[trigger] moves@[i];
                        other.from_piece_idx == mv.from_piece_idx && other.to == mv.to
                            && other.from == sq_mask(a)
                    },
        decreases moves@.len() - n,
    {
        let other = moves[n];
        let ghost before = froms;
        if other.from_piece_idx == mv.from_piece_idx && other.to == mv.to {
            froms |= other.from;
        }
        proof {
            lemma_is_square(other.from);
            assert forall|a: int| is_sq(a) implies #[trigger] has_sq(froms, a) == exists|i: int|
                0 <= i < n + 1 && {
                    let o = #[trigger] moves@[i];
                    o.from_piece_idx == mv.from_piece_idx && o.to == mv.to && o.from == sq_mask(a)
                } by {
                crate::bitmask::lemma_has_or(before, other.from, a);
                crate::bitmask::lemma_square(a);
                let hit = other.from_piece_idx == mv.from_piece_idx && other.to == mv.to
                    && other.from == sq_mask(a);
                if has_sq(before, a) {
                    let i = choose|i: int|
                        0 <= i < n && {
                            let o = #[trigger] moves@[i];
                            o.from_piece_idx == mv.from_piece_idx && o.to == mv.to && o.from
                                == sq_mask(a)
                        };
                    assert(moves@[i].from == sq_mask(a));
                } else if hit {
                    assert(moves@[n as int].from == sq_mask(a));
                } else {
                    assert forall|i: int| 0 <= i < n + 1 implies !({
                        let o = #[trigger] moves@[i];
                        o.from_piece_idx == mv.from_piece_idx && o.to == mv.to && o.from == sq_mask(
                            a,
                        )
                    }) by {
                        if i < n {
                        }
                    }
                }
            }
        }
        n += 1;
    }
    froms
}

/// Appends the two characters that name the square of `mask`.
fn push_coord(text: &mut String, mask: BitMask)
    requires
        is_square(mask),
    ensures
        final(text)@ == old(text)@ + coord_text(lowest_sq(mask)),
{
    let ghost before = text@;
    let (x, y) = bm_to_xy(mask);
    text.push(((x as u8) + 97) as char);
    text.push(((y as u8) + 49) as char);
    proof {
        assert(text@ =~= before + coord_text(lowest_sq(mask)));
    }
}

/// Appends what tells the piece of `mv` from its rivals.
fn push_origin(text: &mut String, board: &Board, moves: &Vec<Move>, mv: &Move)
    requires
        moves@ == board.move_list(),
        forall|i: int| 0 <= i < moves@.len() ==> is_square((#[trigger] moves@[i]).from),
        is_square(mv.from),
    ensures
        final(text)@ == old(text)@ + board.san_origin(mv),
{
    let ghost before = text@;
    let ghost f = mv.from_sq();
    let possible_froms = possible_origins(moves, mv);
    let (from_x, from_y) = bm_to_xy(mv.from);
    let other_possible_froms = possible_froms & !mv.from;
    let on_file = other_possible_froms & bm_make_column(from_x);
    let on_rank = other_possible_froms & bm_make_row(from_y);
    proof {
        broadcast use crate::bitmask::group_has_sq;

        lemma_is_square(mv.from);
        assert forall|a: int| is_sq(a) implies #[trigger] has_sq(other_possible_froms, a)
            == board.rival_on(mv, a) by {}
        if other_possible_froms != 0 {
            lemma_nonempty(other_possible_froms);
            assert(board.rival_on(mv, lowest_sq(other_possible_froms)));
        }
        if exists|a: int| is_sq(a) && #[trigger] board.rival_on(mv, a) {
            let a = choose|a: int| is_sq(a) && #[trigger] board.rival_on(mv, a);
            lemma_has_nonzero(other_possible_froms, a);
        }
        if on_file != 0 {
            lemma_nonempty(on_file);
            assert(board.rival_on(mv, lowest_sq(on_file)));
        }
        if exists|a: int| is_sq(a) && #[trigger] board.rival_on(mv, a) && file_of(a) == file_of(f) {
            let a = choose|a: int|
                is_sq(a) && #[trigger] board.rival_on(mv, a) && file_of(a) == file_of(f);
            lemma_has_nonzero(on_file, a);
        }
        if on_rank != 0 {
            lemma_nonempty(on_rank);
            assert(board.rival_on(mv, lowest_sq(on_rank)));
        }
        if exists|a: int| is_sq(a) && #[trigger] board.rival_on(mv, a) && rank_of(a) == rank_of(f) {
            let a = choose|a: int|
                is_sq(a) && #[trigger] board.rival_on(mv, a) && rank_of(a) == rank_of(f);
            lemma_has_nonzero(on_rank, a);
        }
    }
    if other_possible_froms != 0 {
        if on_file == 0 {
            text.push(((from_x as u8) + 97) as char);
        } else if on_rank == 0 {
            text.push(((from_y as u8) + 49) as char);
        } else {
            push_coord(text, mv.from);
        }
    }
    proof {
        assert(text@ =~= before + board.san_origin(mv));
    }
}

/// Appends the move without the mark of check.
fn push_body(text: &mut String, board: &Board, moves: &Vec<Move>, mv: &Move)
    requires
        moves@ == board.move_list(),
        forall|i: int| 0 <= i < moves@.len() ==> is_square((#[trigger] moves@[i]).from),
        is_square(mv.from),
        is_square(mv.to),
        mv.from_piece_idx < 6,
        mv.to_piece_idx < 6,
    ensures
        final(text)@ == old(text)@ + board.san_body(mv),
{
    let ghost before = text@;
    if mv.from_piece_idx == PIECE_PAWN {
        if mv.has_flag(Move::FLAG_CAPTURE) {
            let (from_x, _from_y) = bm_to_xy(mv.from);
            text.push(((from_x as u8) + 97) as char);
            text.push('x');
        }
        push_coord(text, mv.to);
        if mv.to_piece_idx != PIECE_PAWN {
            text.push('=');
            text.push(piece_letter(0, mv.to_piece_idx));
        }
    } else {
        text.push(piece_letter(0, mv.from_piece_idx));
        push_origin(text, board, moves, mv);
        if mv.has_flag(Move::FLAG_CAPTURE) {
            text.push('x');
        }
        push_coord(text, mv.to);
    }
    proof {
        assert(text@ =~= before + board.san_body(mv));
    }
}

/// The move `mv` of the position `board` in standard algebraic notation.
pub fn move_to_algebraic_str(tables: &Tables, board: &Board, mv: &Move) -> (text: Result<
    String,
    PgnError,
>)
    requires
        tables.wf(),
        board.inv(&tables.zobrist),
    ensures
        match board.san_text(&tables.zobrist, mv) {
            Ok(san) => text matches Ok(written) && written@ == san,
            Err(error) => text == Err::<String, PgnError>(error),
        },
        text is Ok ==> board.move_list().contains(*mv) && board.move_ok(mv),
{
    let moves = generate_moves(tables, board);
    if moves.len() == 0 {
        return Err(PgnError::NoValidMoves);
    }
    if !is_listed(&moves, mv) {
        return Err(PgnError::MoveNotFound);
    }
    proof {
        let i = choose|i: int| 0 <= i < moves@.len() && moves@[i] == *mv;
        assert(board.move_ok(&moves@[i]));
        assert forall|j: int| 0 <= j < moves@.len() implies is_square((#[trigger] moves@[j]).from) by {
            assert(board.move_ok(&moves@[j]));
        }
    }
    let mut text = String::new();
    if mv.has_flag(Move::FLAG_CASTLE) {
        text.push('O');
        text.push('-');
        text.push('O');
        if !(mv.to > mv.from) {
            text.push('-');
            text.push('O');
        }
        proof {
            assert(text@ =~= board.san_move(mv));
        }
    } else {
        push_body(&mut text, board, &moves, mv);
    }
    // The mark of check, or of mate.
    let mut next_board: Board = *board;
    next_board.do_move(tables, mv);
    if next_board.checkers != 0 {
        let next_moves = generate_moves(tables, &next_board);
        if next_moves.len() == 0 {
            text.push('#');
        } else {
            text.push('+');
        }
    }
    proof {
        assert(text@ =~= board.san_move(mv) + Board::san_check(&next_board));
    }
    Ok(text)
}

/// The tag of a game that does not start from the starting position.
pub const VARIANT_TAG: &'static str = "[Variant \"From Position\"]";

/// What opens the tag of the position that a game starts from.
pub const FEN_TAG_OPEN: &'static str = "[FEN \"";

/// What closes the tag of the position that a game starts from.
pub const FEN_TAG_CLOSE: &'static str = "\"]";

/// What stands before a word: nothing before the first, a space before others.
pub open spec fn gap(first: bool) -> Seq<char> {
    if first {
        Seq::empty()
    } else {
        seq![' ']
    }
}

/// The tags of a game from `board`: none for the starting position, and else
/// the tag of the variant and, on a line of its own, the tag of the position.
pub open spec fn pgn_header(board: &Board) -> Seq<char> {
    if board.fen_text() == FEN_START_POS@ {
        Seq::empty()
    } else {
        VARIANT_TAG@ + seq!['\n'] + FEN_TAG_OPEN@ + board.fen_text() + FEN_TAG_CLOSE@
    }
}

/// The moves `moves` from `board` on as text: each in algebraic notation,
/// White's after the number of the move and a full stop, with a space
/// between any two words. `number` is the number of the first move, and
/// `first` says whether no word stands before it.
pub open spec fn pgn_moves(
    keys: &ZobristKeys,
    board: Board,
    moves: Seq<Move>,
    number: nat,
    first: bool,
) -> Result<Seq<char>, PgnError>
    decreases moves.len(),
{
    if moves.len() == 0 {
        Ok(Seq::empty())
    } else {
        match board.san_text(keys, &moves[0]) {
            Err(error) => Err(error),
            Ok(san) => {
                let white = board.turn_idx == 0;
                let written = move_words(white, number, first, san);
                match pgn_moves(
                    keys,
                    board.spec_do_move(keys, &moves[0]),
                    moves.subrange(1, moves.len() as int),
                    if white {
                        number
                    } else {
                        number + 1
                    },
                    false,
                ) {
                    Err(error) => Err(error),
                    Ok(rest) => Ok(written + rest),
                }
            },
        }
    }
}

/// `text` put before what `rest` holds.
pub open spec fn pgn_prepend(text: Seq<char>, rest: Result<Seq<char>, PgnError>) -> Result<
    Seq<char>,
    PgnError,
> {
    match rest {
        Ok(more) => Ok(text + more),
        Err(error) => Err(error),
    }
}

/// The moves of a game from `board` as text: before Black's first move where
/// Black begins, `1...`.
pub open spec fn pgn_body(keys: &ZobristKeys, board: Board, moves: Seq<Move>) -> Result<
    Seq<char>,
    PgnError,
> {
    if board.turn_idx == 1 {
        pgn_prepend(seq!['1', '.', '.', '.'], pgn_moves(keys, board, moves, 1, false))
    } else {
        pgn_moves(keys, board, moves, 1, true)
    }
}

/// The game of the moves `moves` from `board` as text: the tags where there
/// are any, an empty line, and the moves.
pub open spec fn pgn_text(keys: &ZobristKeys, board: Board, moves: Seq<Move>) -> Result<
    Seq<char>,
    PgnError,
> {
    match pgn_body(keys, board, moves) {
        Err(error) => Err(error),
        Ok(body) => {
            let header = pgn_header(&board);
            if header.len() == 0 {
                Ok(body)
            } else if body.len() == 0 {
                Ok(header)
            } else {
                Ok(header + seq!['\n', '\n'] + body)
            }
        },
    }
}

/// The words of one move: White's after the number of the move and a full
/// stop, with a space before every word but the first of the text.
pub open spec fn move_words(white: bool, number: nat, first: bool, san: Seq<char>) -> Seq<char> {
    (if white {
        gap(first) + number_text(number) + seq!['.']
    } else {
        Seq::empty()
    }) + gap(first && !white) + san
}

/// Appends the words of the move `mv` of the position `board`.
fn write_move(
    body: &mut String,
    tables: &Tables,
    board: &Board,
    mv: &Move,
    number: usize,
    first: bool,
) -> (done: Result<(), PgnError>)
    requires
        tables.wf(),
        board.inv(&tables.zobrist),
    ensures
        match board.san_text(&tables.zobrist, mv) {
            Ok(san) => done is Ok && final(body)@ == old(body)@ + move_words(
                board.turn_idx == 0,
                number as nat,
                first,
                san,
            ) && board.move_ok(mv),
            Err(error) => done == Err::<(), PgnError>(error),
        },
{
    let ghost before = body@;
    let san = match move_to_algebraic_str(tables, board, mv) {
        Ok(san) => san,
        Err(error) => {
            return Err(error);
        },
    };
    let mut at_start = first;
    if board.turn_idx == 0 {
        // White's move: the number of the move goes before it.
        if !at_start {
            body.push(' ');
        }
        push_number(body, number);
        body.push('.');
        at_start = false;
    }
    if !at_start {
        body.push(' ');
    }
    push_text(body, san.as_str());
    proof {
        assert(body@ =~= before + move_words(board.turn_idx == 0, number as nat, first, san@));
    }
    Ok(())
}

/// The game of the moves `moves` from `start_board` as text. A move that is
/// none of the moves of its position ends the writing with an error.
pub fn make_pgn(tables: &Tables, start_board: &Board, moves: &Vec<Move>) -> (text: Result<
    String,
    PgnError,
>)
    requires
        tables.wf(),
        start_board.inv(&tables.zobrist),
        moves@.len() < usize::MAX,
    ensures
        match pgn_text(&tables.zobrist, *start_board, moves@) {
            Ok(pgn) => text matches Ok(written) && written@ == pgn,
            Err(error) => text == Err::<String, PgnError>(error),
        },
{
    let ghost keys = &tables.zobrist;
    let start_fen = make_fen(start_board);
    let mut header = String::new();
    if !same_text(start_fen.as_str(), FEN_START_POS) {
        push_text(&mut header, VARIANT_TAG);
        header.push('\n');
        push_text(&mut header, FEN_TAG_OPEN);
        push_text(&mut header, start_fen.as_str());
        push_text(&mut header, FEN_TAG_CLOSE);
    }
    proof {
        assert(header@ =~= pgn_header(start_board));
    }
    let mut body = String::new();
    let mut cur_board: Board = *start_board;
    let mut cur_move_number: usize = 1;
    let mut first = true;
    if cur_board.turn_idx == 1 {
        // Black begins.
        body.push('1');
        body.push('.');
        body.push('.');
        body.push('.');
        first = false;
    }
    let ghost goal = pgn_body(keys, *start_board, moves@);
    let mut i: usize = 0;
    proof {
        assert(moves@.subrange(0, moves@.len() as int) =~= moves@);
        lemma_prepend_empty(pgn_moves(keys, cur_board, moves@, 1, true));
        assert(body@ =~= if start_board.turn_idx == 1 {
            seq!['1', '.', '.', '.']
        } else {
            Seq::<char>::empty()
        });
    }
    while i < moves.len()
        invariant
            tables.wf(),
            keys == &tables.zobrist,
            cur_board.inv(&tables.zobrist),
            i <= moves@.len(),
            moves@.len() < usize::MAX,
            1 <= cur_move_number <= i + 1,
            goal == pgn_prepend(
                body@,
                pgn_moves(
                    keys,
                    cur_board,
                    moves@.subrange(i as int, moves@.len() as int),
                    cur_move_number as nat,
                    first,
                ),
            ),
            goal == pgn_body(&tables.zobrist, *start_board, moves@),
            header@ == pgn_header(start_board),
        decreases moves@.len() - i,
    {
        let mv = &moves[i];
        let ghost rest_moves = moves@.subrange(i as int, moves@.len() as int);
        let ghost before = body@;
        let ghost was_first = first;
        let ghost at = cur_board;
        proof {
            assert(rest_moves[0] == *mv);
            assert(rest_moves.subrange(1, rest_moves.len() as int) =~= moves@.subrange(
                i + 1,
                moves@.len() as int,
            ));
        }
        match write_move(&mut body, tables, &cur_board, mv, cur_move_number, first) {
            Ok(()) => {},
            Err(error) => {
                return Err(error);
            },
        }
        first = false;
        let ghost number = cur_move_number;
        if cur_board.turn_idx == 1 {
            cur_move_number += 1;
        }
        cur_board.do_move(tables, mv);
        proof {
            let san = at.san_text(keys, mv)->Ok_0;
            let written = move_words(at.turn_idx == 0, number as nat, was_first, san);
            let rest = pgn_moves(
                keys,
                cur_board,
                moves@.subrange(i + 1, moves@.len() as int),
                cur_move_number as nat,
                false,
            );
            assert(pgn_moves(keys, at, rest_moves, number as nat, was_first) == pgn_prepend(
                written,
                rest,
            ));
            match rest {
                Ok(more) => {
                    assert(before + (written + more) =~= body@ + more);
                },
                Err(_) => {},
            }
        }
        i += 1;
    }
    proof {
        assert(moves@.subrange(i as int, moves@.len() as int) =~= Seq::<Move>::empty());
        assert(body@ + Seq::<char>::empty() =~= body@);
    }
    if header.as_str().unicode_len() == 0 {
        return Ok(body);
    }
    if body.as_str().unicode_len() == 0 {
        return Ok(header);
    }
    let ghost tags = header@;
    header.push('\n');
    header.push('\n');
    push_text(&mut header, body.as_str());
    proof {
        assert(header@ =~= tags + seq!['\n', '\n'] + body@);
    }
    Ok(header)
}

proof fn lemma_prepend_empty(rest: Result<Seq<char>, PgnError>)
    ensures
        pgn_prepend(Seq::empty(), rest) == rest,
{
    match rest {
        Ok(more) => {
            assert(Seq::<char>::empty() + more =~= more);
        },
        Err(_) => {},
    }
}


} // verus!
