//! Reading a position from Forsyth-Edwards notation.

use vstd::prelude::*;
use vstd::string::StrSliceExecFns;
use crate::bitmask::{
    BitMask, has_sq, sq_mask, is_square, lowest_sq, sq_at, on_board, file_of, rank_of,
    is_file_char, is_rank_char, file_of_char, rank_of_char, group_has_sq, lemma_has_test,
    lemma_is_square, lemma_square, bm_from_xy, bm_from_coord, bm_to_idx,
};
use crate::geometry::{is_sq, lemma_sq_at};
use crate::board::{Board, pawn_dy, king_home, rook_home, PIECE_KING, PIECE_PAWN, PIECE_ROOK};
use crate::text::{parse_u8, read_u8};
use crate::move_gen::emit::lemma_push_contains;
use crate::Tables;

verus! {

/// Why a text is not a position.
#[derive(Debug, Copy, Clone, PartialEq, Eq, Structural)]
pub enum FenError {
    /// There are fewer than two fields: the pieces and the side to move.
    TooFewParts,
    /// A field holds a character that is not ASCII.
    NotAscii,
    /// A letter among the pieces names no piece.
    BadPieceChar,
    /// A side has two kings.
    MultipleKings,
    /// A digit among the pieces is not one of 1 to 8.
    BadDigit,
    /// A rank holds more than eight squares.
    RowTooLong,
    /// There are more than eight ranks.
    TooManyRanks,
    /// There are fewer than eight ranks.
    TooFewRanks,
    /// A rank ends before its eighth square.
    BadRankSeparator,
    /// A character among the pieces is neither letter, digit nor stroke.
    BadChar,
    /// A side has no king.
    NoKing,
    /// The side to move is neither `w` nor `b`.
    BadTurn,
    /// The castling rights are not a dash or up to four of `K`, `Q`, `k`,
    /// `q`, or they name a right whose king or rook is not at home.
    BadCastle,
    /// The en-passant square is not a dash or the name of an empty square
    /// behind a pawn that has just made a double step.
    BadEnPassant,
    /// The half-move counter is not a number below 256.
    BadHalfMove,
}

/// One piece on the board: side, kind and square.
pub struct Placed {
    pub team: int,
    pub kind: int,
    pub sq: int,
}

/// Where reading the pieces has come to: the next square, and the pieces so far.
pub struct Cursor {
    pub x: int,
    pub y: int,
    pub placed: Seq<Placed>,
}

pub open spec fn is_upper(c: char) -> bool {
    'A' <= c && c <= 'Z'
}

pub open spec fn is_lower(c: char) -> bool {
    'a' <= c && c <= 'z'
}

/// The letter `c` as a capital.
pub open spec fn to_upper(c: char) -> char {
    if is_lower(c) {
        (c as u8 - 32) as char
    } else {
        c
    }
}

/// The kind of piece that the letter `c` names in either case, 6 for none.
pub open spec fn letter_kind(c: char) -> int {
    let u = to_upper(c);
    if u == 'P' {
        0
    } else if u == 'N' {
        1
    } else if u == 'B' {
        2
    } else if u == 'R' {
        3
    } else if u == 'Q' {
        4
    } else if u == 'K' {
        5
    } else {
        6
    }
}

/// Side `t` has a king among `placed`.
pub open spec fn has_king(placed: Seq<Placed>, t: int) -> bool {
    exists|i: int| 0 <= i < placed.len() && (#[trigger] placed[i]).team == t && placed[i].kind == 5
}

/// Where the cursor stands at the start: the first square of the eighth rank.
pub open spec fn start_cursor() -> Cursor {
    Cursor { x: 0, y: 7, placed: Seq::empty() }
}

/// Reads one character of the pieces.
pub open spec fn place_step(at: Cursor, c: char) -> Result<Cursor, FenError> {
    if is_upper(c) || is_lower(c) {
        let team: int = if is_upper(c) {
            0
        } else {
            1
        };
        if letter_kind(c) == 6 {
            Err(FenError::BadPieceChar)
        } else if letter_kind(c) == 5 && has_king(at.placed, team) {
            Err(FenError::MultipleKings)
        } else if at.x >= 8 {
            Err(FenError::RowTooLong)
        } else {
            Ok(
                Cursor {
                    x: at.x + 1,
                    y: at.y,
                    placed: at.placed.push(
                        Placed { team, kind: letter_kind(c), sq: sq_at(at.x, at.y) },
                    ),
                },
            )
        }
    } else if '0' <= c && c <= '9' {
        let num = c as int - '0' as int;
        if num < 1 || num > 8 {
            Err(FenError::BadDigit)
        } else if at.x + num > 8 {
            Err(FenError::RowTooLong)
        } else {
            Ok(Cursor { x: at.x + num, y: at.y, placed: at.placed })
        }
    } else if c == '/' {
        if at.y <= 0 {
            Err(FenError::TooManyRanks)
        } else if at.x != 8 {
            Err(FenError::BadRankSeparator)
        } else {
            Ok(Cursor { x: 0, y: at.y - 1, placed: at.placed })
        }
    } else {
        Err(FenError::BadChar)
    }
}

/// Reads the characters `text` of the pieces from the start.
pub open spec fn place_chars(text: Seq<char>) -> Result<Cursor, FenError>
    decreases text.len(),
{
    if text.len() == 0 {
        Ok(start_cursor())
    } else {
        match place_chars(text.drop_last()) {
            Ok(at) => place_step(at, text.last()),
            Err(error) => Err(error),
        }
    }
}

/// Reads the characters `text` of the pieces, which must fill the board:
/// eight ranks of eight squares each. A last rank that ends before its
/// eighth square and a text of fewer than eight ranks are faults.
pub open spec fn place_board(text: Seq<char>) -> Result<Cursor, FenError> {
    match place_chars(text) {
        Err(error) => Err(error),
        Ok(at) => if at.x != 8 {
            Err(FenError::BadRankSeparator)
        } else if at.y != 0 {
            Err(FenError::TooFewRanks)
        } else {
            Ok(at)
        },
    }
}

/// The castling rights: White's queen's and king's wing, then Black's.
pub struct Rights {
    pub white_queen: bool,
    pub white_king: bool,
    pub black_queen: bool,
    pub black_king: bool,
}

pub open spec fn no_rights() -> Rights {
    Rights { white_queen: false, white_king: false, black_queen: false, black_king: false }
}

/// Reads one letter of the castling rights.
pub open spec fn castle_step(rights: Rights, c: char) -> Result<Rights, FenError> {
    if c == 'K' {
        Ok(Rights { white_king: true, ..rights })
    } else if c == 'Q' {
        Ok(Rights { white_queen: true, ..rights })
    } else if c == 'k' {
        Ok(Rights { black_king: true, ..rights })
    } else if c == 'q' {
        Ok(Rights { black_queen: true, ..rights })
    } else {
        Err(FenError::BadCastle)
    }
}

/// Reads the letters `text` of the castling rights.
pub open spec fn castle_chars(text: Seq<char>) -> Result<Rights, FenError>
    decreases text.len(),
{
    if text.len() == 0 {
        Ok(no_rights())
    } else {
        match castle_chars(text.drop_last()) {
            Ok(rights) => castle_step(rights, text.last()),
            Err(error) => Err(error),
        }
    }
}

/// Reads the field of the castling rights: a dash, or up to four letters.
pub open spec fn parse_castle(text: Seq<char>) -> Result<Rights, FenError> {
    if text == seq!['-'] {
        Ok(no_rights())
    } else if text.len() > 4 {
        Err(FenError::BadCastle)
    } else {
        castle_chars(text)
    }
}

/// Reads the field of the side to move.
pub open spec fn parse_turn(text: Seq<char>) -> Result<int, FenError> {
    if text.len() != 1 {
        Err(FenError::BadTurn)
    } else if text[0] == 'w' || text[0] == 'W' {
        Ok(0)
    } else if text[0] == 'b' || text[0] == 'B' {
        Ok(1)
    } else {
        Err(FenError::BadTurn)
    }
}

/// Reads the field of the en-passant square: a dash (no square, written as
/// 64 here), or the name of a square.
pub open spec fn parse_en_passant(text: Seq<char>) -> Result<int, FenError> {
    if text == seq!['-'] {
        Ok(64)
    } else if text.len() != 2 || !is_file_char(text[0]) || !is_rank_char(text[1]) {
        Err(FenError::BadEnPassant)
    } else {
        Ok(sq_at(file_of_char(text[0]), rank_of_char(text[1])))
    }
}

/// Whether every character of `text` is ASCII.
pub open spec fn all_ascii(text: Seq<char>) -> bool {
    forall|i: int| 0 <= i < text.len() ==> (#[trigger] text[i]) as u32 <= 127
}

/// The pieces of a board are those of `placed`.
pub open spec fn holds_placed(board: &Board, placed: Seq<Placed>) -> bool {
    forall|t: int, p: int, sq: int|
        0 <= t < 2 && 0 <= p < 6 && is_sq(sq) ==> #[trigger] board.piece_on(t, p, sq)
            == placed.contains(Placed { team: t, kind: p, sq })
}

/// The rights of a board are `rights`.
pub open spec fn holds_rights(board: &Board, rights: Rights) -> bool {
    &&& board.castle_rights[0][0] == rights.white_queen
    &&& board.castle_rights[0][1] == rights.white_king
    &&& board.castle_rights[1][0] == rights.black_queen
    &&& board.castle_rights[1][1] == rights.black_king
}

/// What the fields `parts` say, where they are a position: a board that
/// holds it is returned by `found`. The fields are the pieces, the side to
/// move, and then as far as they are there the castling rights, the
/// en-passant square and the half-move counter; what follows is not read.
pub open spec fn reads_as(parts: Seq<Seq<char>>, board: &Board) -> bool {
    &&& place_board(parts[0]) matches Ok(at) && holds_placed(board, at.placed)
    &&& parse_turn(parts[1]) matches Ok(turn) && board.turn_idx == turn
    &&& if parts.len() >= 3 {
        parse_castle(parts[2]) matches Ok(rights) && holds_rights(board, rights)
    } else {
        holds_rights(board, no_rights())
    }
    &&& if parts.len() >= 4 {
        parse_en_passant(parts[3]) matches Ok(e) && board.en_passant_mask == (if e < 64 {
            sq_mask(e)
        } else {
            0
        })
    } else {
        board.en_passant_mask == 0
    }
    &&& if parts.len() >= 5 {
        parse_u8(parts[4]) matches Some(n) && board.half_move_counter == n
    } else {
        board.half_move_counter == 0
    }
}

/// The first fault of the fields `parts`, read in order; none where they are
/// a position.
pub open spec fn fen_fault(parts: Seq<Seq<char>>) -> Option<FenError> {
    if parts.len() < 2 {
        Some(FenError::TooFewParts)
    } else if exists|i: int| 0 <= i < parts.len() && !all_ascii(#[trigger] parts[i]) {
        Some(FenError::NotAscii)
    } else {
        match place_board(parts[0]) {
            Err(error) => Some(error),
            Ok(at) => if !has_king(at.placed, 0) || !has_king(at.placed, 1) {
                Some(FenError::NoKing)
            } else {
                match parse_turn(parts[1]) {
                    Err(error) => Some(error),
                    Ok(turn) => rest_fault(parts, at.placed, turn),
                }
            },
        }
    }
}

/// Side `t` has a piece of kind `p` on `sq` among `placed`.
pub open spec fn placed_on(placed: Seq<Placed>, t: int, p: int, sq: int) -> bool {
    placed.contains(Placed { team: t, kind: p, sq })
}

/// Some piece of `placed` stands on `sq`.
pub open spec fn placed_any(placed: Seq<Placed>, sq: int) -> bool {
    exists|i: int| 0 <= i < placed.len() && (#[trigger] placed[i]).sq == sq
}

/// Each right of `rights` has its king and rook at home among `placed`.
pub open spec fn rights_fit(placed: Seq<Placed>, rights: Rights) -> bool {
    &&& rights.white_queen ==> placed_on(placed, 0, 5, 4) && placed_on(placed, 0, 3, 0)
    &&& rights.white_king ==> placed_on(placed, 0, 5, 4) && placed_on(placed, 0, 3, 7)
    &&& rights.black_queen ==> placed_on(placed, 1, 5, 60) && placed_on(placed, 1, 3, 56)
    &&& rights.black_king ==> placed_on(placed, 1, 5, 60) && placed_on(placed, 1, 3, 63)
}

/// The en-passant square `e` fits the pieces `placed` and the side `turn` to
/// move: it is empty, lies on the rank that this side captures on, and a
/// pawn of the other side stands just beyond it.
pub open spec fn en_passant_fits(placed: Seq<Placed>, turn: int, e: int) -> bool {
    &&& rank_of(e) == (if turn == 0 {
        5int
    } else {
        2int
    })
    &&& !placed_any(placed, e)
    &&& placed_on(placed, 1 - turn, 0, e - 8 * pawn_dy(turn))
}

/// The first fault of the fields after the side to move.
pub open spec fn rest_fault(parts: Seq<Seq<char>>, placed: Seq<Placed>, turn: int) -> Option<
    FenError,
> {
    let castle_fault = if parts.len() >= 3 {
        match parse_castle(parts[2]) {
            Err(error) => Some(error),
            Ok(rights) => if rights_fit(placed, rights) {
                None
            } else {
                Some(FenError::BadCastle)
            },
        }
    } else {
        None
    };
    let en_passant_fault = if parts.len() >= 4 {
        match parse_en_passant(parts[3]) {
            Err(error) => Some(error),
            Ok(e) => if e == 64 || en_passant_fits(placed, turn, e) {
                None
            } else {
                Some(FenError::BadEnPassant)
            },
        }
    } else {
        None
    };
    let counter_fault = if parts.len() >= 5 && parse_u8(parts[4]) is None {
        Some(FenError::BadHalfMove)
    } else {
        None
    };
    if castle_fault is Some {
        castle_fault
    } else if en_passant_fault is Some {
        en_passant_fault
    } else {
        counter_fault
    }
}

/// Every piece of `placed` is a piece of one of the two sides on a square of
/// the board that the cursor `(x, y)` has passed.
pub open spec fn placed_before(placed: Seq<Placed>, x: int, y: int) -> bool {
    forall|i: int|
        0 <= i < placed.len() ==> {
            let piece = #[trigger] placed[i];
            &&& 0 <= piece.team < 2
            &&& 0 <= piece.kind < 6
            &&& is_sq(piece.sq)
            &&& rank_of(piece.sq) > y || (rank_of(piece.sq) == y && file_of(piece.sq) < x)
        }
}

/// Whether every character of `text` is ASCII.
fn is_all_ascii(text: &str) -> (ascii: bool)
    ensures
        ascii == all_ascii(text@),
{
    let len = text.unicode_len();
    let mut i: usize = 0;
    while i < len
        invariant
            i <= len,
            len == text@.len(),
            forall|j: int| 0 <= j < i ==> (#[trigger] text@[j]) as u32 <= 127,
        decreases len - i,
    {
        if (text.get_char(i) as u32) > 127 {
            return false;
        }
        i += 1;
    }
    true
}

/// The kind of piece that the letter `c` names in either case, 6 for none.
fn kind_of_letter(c: char) -> (kind: usize)
    ensures
        kind == letter_kind(c),
{
    let u = if 'a' <= c && c <= 'z' {
        ((c as u8) - 32) as char
    } else {
        c
    };
    if u == 'P' {
        0
    } else if u == 'N' {
        1
    } else if u == 'B' {
        2
    } else if u == 'R' {
        3
    } else if u == 'Q' {
        4
    } else if u == 'K' {
        5
    } else {
        6
    }
}

/// Puts a piece of side `team` and kind `kind` on the square at `(x, y)`,
/// which no piece stands on.
fn put_piece(board: &mut Board, team: usize, kind: usize, x: i64, y: i64, Ghost(placed): Ghost<
    Seq<Placed>,
>)
    requires
        team < 2,
        kind < 6,
        on_board(x as int, y as int),
        holds_placed(old(board), placed),
        placed_before(placed, x as int, y as int),
        old(board).pieces_disjoint(),
        kind == 5 ==> old(board).pieces[team as int][5] == 0,
    ensures
        holds_placed(
            final(board),
            placed.push(Placed { team: team as int, kind: kind as int, sq: sq_at(x as int, y as int) }),
        ),
        final(board).pieces_disjoint(),
        kind == 5 ==> final(board).pieces[team as int][5] == sq_mask(sq_at(x as int, y as int)),
        forall|t: int, p: int|
            0 <= t < 2 && 0 <= p < 6 && !(t == team && p == kind) ==> #[trigger] final(board).pieces[t][p] == old(board).pieces[t][p],
        final(board).turn_idx == old(board).turn_idx,
        final(board).castle_rights == old(board).castle_rights,
        final(board).en_passant_mask == old(board).en_passant_mask,
        final(board).half_move_counter == old(board).half_move_counter,
{
    let ghost before = *board;
    let ghost s = sq_at(x as int, y as int);
    let ghost piece = Placed { team: team as int, kind: kind as int, sq: s };
    let bit = bm_from_xy(x, y);
    board.pieces[team][kind] |= bit;
    proof {
        broadcast use group_has_sq;

        lemma_sq_at(x as int, y as int);
        assert forall|t: int, p: int, sq: int| 0 <= t < 2 && 0 <= p < 6 && is_sq(sq) implies #[trigger]
            board.piece_on(t, p, sq) == placed.push(piece).contains(Placed { team: t, kind: p, sq }) by {
            lemma_push_contains(placed, piece, Placed { team: t, kind: p, sq });
            assert(before.piece_on(t, p, sq) == placed.contains(Placed { team: t, kind: p, sq }));
        }
        assert forall|t: int, p: int| 0 <= t < 2 && 0 <= p < 6 implies !before.piece_on(t, p, s) by {
            if placed.contains(Placed { team: t, kind: p, sq: s }) {
                let i = choose|i: int|
                    0 <= i < placed.len() && placed[i] == (Placed { team: t, kind: p, sq: s });
                assert(rank_of(placed[i].sq) > y || (rank_of(placed[i].sq) == y && file_of(
                    placed[i].sq,
                ) < x));
            }
        }
        assert forall|t: int, p: int, sq: int| 0 <= t < 2 && 0 <= p < 6 implies #[trigger]
            board.piece_on(t, p, sq) == (before.piece_on(t, p, sq) || (t == team && p == kind && sq
            == s)) by {}
        assert(board.pieces_disjoint()) by {
            reveal(Board::pieces_disjoint);
        }
        if kind == 5 {
            assert(board.pieces[team as int][5] == 0u64 | bit);
            assert(0u64 | bit == bit) by (bit_vector);
        }
    }
}

/// Reads the pieces.
fn place_pieces(text: &str) -> (found: Result<Board, FenError>)
    ensures
        match place_board(text@) {
            Err(error) => found == Err::<Board, FenError>(error),
            Ok(at) => found matches Ok(board) && {
                &&& holds_placed(&board, at.placed)
                &&& placed_before(at.placed, at.x, at.y)
                &&& board.pieces_disjoint()
                &&& forall|t: int|
                    0 <= t < 2 ==> (has_king(at.placed, t) ==> is_square(
                        #[trigger] board.pieces[t][5],
                    )) && (!has_king(at.placed, t) ==> board.pieces[t][5] == 0)
                &&& board.turn_idx == 0
                &&& board.en_passant_mask == 0
                &&& board.half_move_counter == 0
                &&& forall|t: int, side: int|
                    0 <= t < 2 && 0 <= side < 2 ==> !#[trigger] board.castle_rights[t][side]
            },
        },
{
    let mut board = Board::new();
    let len = text.unicode_len();
    let mut x: i64 = 0;
    let mut y: i64 = 7;
    let ghost mut placed: Seq<Placed> = Seq::empty();
    let mut i: usize = 0;
    proof {
        assert(text@.take(0) =~= Seq::<char>::empty());
        assert(board.pieces_disjoint()) by {
            reveal(Board::pieces_disjoint);
            assert forall|t: int, p: int, sq: int| 0 <= t < 2 && 0 <= p < 6 implies !board.piece_on(
                t,
                p,
                sq,
            ) by {
                crate::bitmask::lemma_has_zero(sq);
            }
        }
        assert forall|t: int, p: int, sq: int| 0 <= t < 2 && 0 <= p < 6 && is_sq(sq) implies #[trigger]
            board.piece_on(t, p, sq) == placed.contains(Placed { team: t, kind: p, sq }) by {
            crate::bitmask::lemma_has_zero(sq);
        }
    }
    while i < len
        invariant
            i <= len,
            len == text@.len(),
            0 <= x <= 8,
            0 <= y <= 7,
            place_chars(text@.take(i as int)) == Ok::<Cursor, FenError>(
                Cursor { x: x as int, y: y as int, placed },
            ),
            holds_placed(&board, placed),
            placed_before(placed, x as int, y as int),
            board.pieces_disjoint(),
            forall|t: int|
                0 <= t < 2 ==> (has_king(placed, t) ==> is_square(#[trigger] board.pieces[t][5]))
                    && (!has_king(placed, t) ==> board.pieces[t][5] == 0),
            board.turn_idx == 0,
            board.en_passant_mask == 0,
            board.half_move_counter == 0,
            forall|t: int, side: int|
                0 <= t < 2 && 0 <= side < 2 ==> !#[trigger] board.castle_rights[t][side],
        decreases len - i,
    {
        let c = text.get_char(i);
        let ghost at = Cursor { x: x as int, y: y as int, placed };
        proof {
            assert(text@.take(i + 1).drop_last() =~= text@.take(i as int));
            assert(text@.take(i + 1).last() == c);
            assert(place_chars(text@.take(i + 1)) == place_step(at, c));
            if i + 1 < len {
                lemma_place_fails_on(text@, i + 1);
            } else {
                assert(text@.take(i + 1) =~= text@);
            }
        }
        if ('a' <= c && c <= 'z') || ('A' <= c && c <= 'Z') {
            let team: usize = if 'A' <= c && c <= 'Z' {
                0
            } else {
                1
            };
            let kind = kind_of_letter(c);
            if kind == 6 {
                return Err(FenError::BadPieceChar);
            }
            proof {
                lemma_is_square_nonzero(board.pieces[team as int][5]);
            }
            if kind == PIECE_KING && board.pieces[team][PIECE_KING] != 0 {
                return Err(FenError::MultipleKings);
            }
            if x >= 8 {
                return Err(FenError::RowTooLong);
            }
            let ghost piece = Placed { team: team as int, kind: kind as int, sq: sq_at(x as int, y as int) };
            let ghost kings = board;
            put_piece(&mut board, team, kind, x, y, Ghost(placed));
            proof {
                lemma_sq_at(x as int, y as int);
                let grown = placed.push(piece);
                assert forall|t: int| 0 <= t < 2 implies (has_king(grown, t) ==> is_square(
                    #[trigger] board.pieces[t][5],
                )) && (!has_king(grown, t) ==> board.pieces[t][5] == 0) by {
                    if has_king(placed, t) {
                        let j = choose|j: int|
                            0 <= j < placed.len() && (#[trigger] placed[j]).team == t
                                && placed[j].kind == 5;
                        assert(grown[j] == placed[j]);
                    }
                    if has_king(grown, t) && !has_king(placed, t) {
                        let j = choose|j: int|
                            0 <= j < grown.len() && (#[trigger] grown[j]).team == t
                                && grown[j].kind == 5;
                        if j < placed.len() {
                            assert(placed[j] == grown[j]);
                        }
                        assert(t == team && kind == 5);
                        lemma_square(sq_at(x as int, y as int));
                    }
                    if kind == 5 && t == team {
                        assert(grown[placed.len() as int] == piece);
                        lemma_square(sq_at(x as int, y as int));
                    }
                    if !(kind == 5 && t == team) {
                        assert(board.pieces[t][5] == kings.pieces[t][5]);
                    }
                }
                assert forall|j: int| 0 <= j < grown.len() implies {
                    let q = #[trigger] grown[j];
                    &&& 0 <= q.team < 2
                    &&& 0 <= q.kind < 6
                    &&& is_sq(q.sq)
                    &&& rank_of(q.sq) > y || (rank_of(q.sq) == y && file_of(q.sq) < x + 1)
                } by {
                    if j < placed.len() {
                        assert(grown[j] == placed[j]);
                    }
                }
                placed = grown;
            }
            x += 1;
        } else if '0' <= c && c <= '9' {
            let num = ((c as u8) - 48) as i64;
            if num < 1 || num > 8 {
                return Err(FenError::BadDigit);
            }
            if x + num > 8 {
                return Err(FenError::RowTooLong);
            }
            x += num;
        } else if c == '/' {
            if y <= 0 {
                return Err(FenError::TooManyRanks);
            } else if x != 8 {
                return Err(FenError::BadRankSeparator);
            }
            y -= 1;
            x = 0;
        } else {
            return Err(FenError::BadChar);
        }
        i += 1;
    }
    proof {
        assert(text@.take(i as int) =~= text@);
    }
    if x != 8 {
        return Err(FenError::BadRankSeparator);
    }
    if y != 0 {
        return Err(FenError::TooFewRanks);
    }
    Ok(board)
}

/// A mask of one square is not zero.
proof fn lemma_is_square_nonzero(mask: BitMask)
    ensures
        is_square(mask) ==> mask != 0,
{
    if is_square(mask) {
        lemma_is_square(mask);
    }
}

/// Once reading the pieces has failed, it has failed for every longer text.
proof fn lemma_place_fails_on(text: Seq<char>, n: int)
    requires
        0 <= n <= text.len(),
    ensures
        place_chars(text.take(n)) matches Err(error) ==> place_chars(text) == Err::<
            Cursor,
            FenError,
        >(error),
    decreases text.len() - n,
{
    if n == text.len() {
        assert(text.take(n) =~= text);
    } else {
        assert(text.take(n + 1).drop_last() =~= text.take(n));
        lemma_place_fails_on(text, n + 1);
    }
}

/// Reads the field of the side to move.
fn read_turn(text: &str) -> (turn: Result<usize, FenError>)
    ensures
        match parse_turn(text@) {
            Ok(side) => turn == Ok::<usize, FenError>(side as usize) && side < 2,
            Err(error) => turn == Err::<usize, FenError>(error),
        },
{
    if text.unicode_len() != 1 {
        return Err(FenError::BadTurn);
    }
    let c = text.get_char(0);
    if c == 'w' || c == 'W' {
        Ok(0)
    } else if c == 'b' || c == 'B' {
        Ok(1)
    } else {
        Err(FenError::BadTurn)
    }
}

/// Once reading the rights has failed, it has failed for every longer text.
proof fn lemma_castle_fails_on(text: Seq<char>, n: int)
    requires
        0 <= n <= text.len(),
    ensures
        castle_chars(text.take(n)) matches Err(error) ==> castle_chars(text) == Err::<
            Rights,
            FenError,
        >(error),
    decreases text.len() - n,
{
    if n == text.len() {
        assert(text.take(n) =~= text);
    } else {
        assert(text.take(n + 1).drop_last() =~= text.take(n));
        lemma_castle_fails_on(text, n + 1);
    }
}

/// Reads the field of the castling rights.
fn read_castle(text: &str) -> (found: Result<[[bool; 2]; 2], FenError>)
    ensures
        match parse_castle(text@) {
            Ok(rights) => found matches Ok(table) && table[0][0] == rights.white_queen
                && table[0][1] == rights.white_king && table[1][0] == rights.black_queen
                && table[1][1] == rights.black_king,
            Err(error) => found == Err::<[[bool; 2]; 2], FenError>(error),
        },
{
    let len = text.unicode_len();
    if len == 1 && text.get_char(0) == '-' {
        proof {
            assert(text@ =~= seq!['-']);
        }
        return Ok([[false, false], [false, false]]);
    }
    if len > 4 {
        return Err(FenError::BadCastle);
    }
    let mut white_queen = false;
    let mut white_king = false;
    let mut black_queen = false;
    let mut black_king = false;
    let mut i: usize = 0;
    proof {
        assert(text@.take(0) =~= Seq::<char>::empty());
        if text@ == seq!['-'] {
            assert(text@.len() == 1 && text@[0] == '-');
        }
    }
    while i < len
        invariant
            i <= len,
            len == text@.len(),
            len <= 4,
            text@ != seq!['-'],
            castle_chars(text@.take(i as int)) == Ok::<Rights, FenError>(
                Rights { white_queen, white_king, black_queen, black_king },
            ),
        decreases len - i,
    {
        let c = text.get_char(i);
        proof {
            assert(text@.take(i + 1).drop_last() =~= text@.take(i as int));
            assert(text@.take(i + 1).last() == c);
            lemma_castle_fails_on(text@, i + 1);
        }
        if c == 'K' {
            white_king = true;
        } else if c == 'Q' {
            white_queen = true;
        } else if c == 'k' {
            black_king = true;
        } else if c == 'q' {
            black_queen = true;
        } else {
            return Err(FenError::BadCastle);
        }
        i += 1;
    }
    proof {
        assert(text@.take(i as int) =~= text@);
    }
    Ok([[white_queen, white_king], [black_queen, black_king]])
}

/// Reads the field of the en-passant square: a mask of the square, or the
/// empty mask for a dash.
fn read_en_passant(text: &str) -> (found: Result<BitMask, FenError>)
    ensures
        match parse_en_passant(text@) {
            Ok(e) => found == Ok::<BitMask, FenError>(
                if e < 64 {
                    sq_mask(e)
                } else {
                    0
                },
            ) && 0 <= e <= 64,
            Err(error) => found == Err::<BitMask, FenError>(error),
        },
{
    let len = text.unicode_len();
    if len == 1 && text.get_char(0) == '-' {
        proof {
            assert(text@ =~= seq!['-']);
        }
        return Ok(0);
    }
    if len != 2 {
        return Err(FenError::BadEnPassant);
    }
    let file = text.get_char(0);
    let rank = text.get_char(1);
    if !(('a' <= file && file <= 'h') || ('A' <= file && file <= 'H')) || !('1' <= rank && rank
        <= '8') {
        return Err(FenError::BadEnPassant);
    }
    Ok(bm_from_coord(text))
}


/// The fields as sequences of characters.
pub open spec fn parts_view(parts: &Vec<String>) -> Seq<Seq<char>> {
    Seq::new(parts@.len(), |i: int| parts@[i]@)
}

/// Whether side `t` has a piece of kind `p` on square `sq`.
fn has_piece(board: &Board, t: usize, p: usize, sq: usize) -> (has: bool)
    requires
        t < 2,
        p < 6,
        sq < 64,
    ensures
        has == board.piece_on(t as int, p as int, sq as int),
{
    proof {
        lemma_has_test(board.pieces[t as int][p as int], sq as int);
    }
    (board.pieces[t][p] & (1u64 << sq)) != 0
}

/// Whether each right of `rights` has its king and rook at home.
fn rights_fit_board(board: &Board, rights: &[[bool; 2]; 2], Ghost(placed): Ghost<Seq<Placed>>) -> (fit:
    bool)
    requires
        holds_placed(board, placed),
    ensures
        fit == rights_fit(
            placed,
            Rights {
                white_queen: rights[0][0],
                white_king: rights[0][1],
                black_queen: rights[1][0],
                black_king: rights[1][1],
            },
        ),
{
    let white_king_home = has_piece(board, 0, PIECE_KING, 4);
    let black_king_home = has_piece(board, 1, PIECE_KING, 60);
    (!rights[0][0] || (white_king_home && has_piece(board, 0, PIECE_ROOK, 0))) && (!rights[0][1]
        || (white_king_home && has_piece(board, 0, PIECE_ROOK, 7))) && (!rights[1][0] || (
    black_king_home && has_piece(board, 1, PIECE_ROOK, 56))) && (!rights[1][1] || (black_king_home
        && has_piece(board, 1, PIECE_ROOK, 63)))
}

/// Whether the en-passant square of `mask` fits the pieces and the side to move.
fn en_passant_fits_board(board: &Board, mask: BitMask, Ghost(placed): Ghost<Seq<Placed>>) -> (fit:
    bool)
    requires
        is_square(mask),
        board.turn_idx < 2,
        holds_placed(board, placed),
        exists|x: int, y: int| placed_before(placed, x, y),
    ensures
        fit == en_passant_fits(placed, board.turn_idx as int, lowest_sq(mask)),
{
    let ghost e = lowest_sq(mask);
    let e_idx = bm_to_idx(mask);
    let turn = board.turn_idx;
    let wanted_rank: usize = if turn == 0 {
        5
    } else {
        2
    };
    if e_idx / 8 != wanted_rank {
        return false;
    }
    let occupied = board.pieces[0][0] | board.pieces[0][1] | board.pieces[0][2]
        | board.pieces[0][3] | board.pieces[0][4] | board.pieces[0][5] | board.pieces[1][0]
        | board.pieces[1][1] | board.pieces[1][2] | board.pieces[1][3] | board.pieces[1][4]
        | board.pieces[1][5];
    proof {
        broadcast use group_has_sq;

        lemma_has_test(occupied, e);
        let (x, y) = choose|x: int, y: int| placed_before(placed, x, y);
        if placed_any(placed, e) {
            let i = choose|i: int| 0 <= i < placed.len() && (#[trigger] placed[i]).sq == e;
            let piece = placed[i];
            assert(placed.contains(Placed { team: piece.team, kind: piece.kind, sq: e }));
            assert(board.piece_on(piece.team, piece.kind, e));
            assert(has_sq(occupied, e));
        }
        assert forall|t: int, p: int|
            0 <= t < 2 && 0 <= p < 6 && #[trigger] board.piece_on(t, p, e) implies placed_any(
            placed,
            e,
        ) by {
            assert(placed.contains(Placed { team: t, kind: p, sq: e }));
            let i = choose|i: int|
                0 <= i < placed.len() && placed[i] == (Placed { team: t, kind: p, sq: e });
            assert(placed[i].sq == e);
        }
        assert(has_sq(occupied, e) == (board.piece_on(0, 0, e) || board.piece_on(0, 1, e)
            || board.piece_on(0, 2, e) || board.piece_on(0, 3, e) || board.piece_on(0, 4, e)
            || board.piece_on(0, 5, e) || board.piece_on(1, 0, e) || board.piece_on(1, 1, e)
            || board.piece_on(1, 2, e) || board.piece_on(1, 3, e) || board.piece_on(1, 4, e)
            || board.piece_on(1, 5, e)));
    }
    if (occupied & mask) != 0 {
        return false;
    }
    let behind: usize = if turn == 0 {
        e_idx - 8
    } else {
        e_idx + 8
    };
    has_piece(board, 1 - turn, PIECE_PAWN, behind)
}

/// Reads a position from the fields of its Forsyth-Edwards notation: the
/// pieces, the side to move, and then as far as they are there the castling
/// rights, the en-passant square and the half-move counter. The fields are
/// read in this order, and the first fault is returned.
pub fn load_fen_from_parts(tables: &Tables, fen_parts: &Vec<String>) -> (found: Result<
    Board,
    FenError,
>)
    requires
        tables.wf(),
    ensures
        match fen_fault(parts_view(fen_parts)) {
            Some(error) => found == Err::<Board, FenError>(error),
            None => found matches Ok(board) && reads_as(parts_view(fen_parts), &board) && board.inv(
                &tables.zobrist,
            ) && board.derived_ok(&tables.zobrist),
        },
{
    let ghost parts = parts_view(fen_parts);
    if fen_parts.len() < 2 {
        return Err(FenError::TooFewParts);
    }
    let mut i: usize = 0;
    while i < fen_parts.len()
        invariant
            i <= fen_parts@.len(),
            fen_parts@.len() >= 2,
            parts == parts_view(fen_parts),
            forall|j: int| 0 <= j < i ==> all_ascii(#[trigger] parts[j]),
        decreases fen_parts@.len() - i,
    {
        if !is_all_ascii(fen_parts[i].as_str()) {
            assert(!all_ascii(parts[i as int]));
            return Err(FenError::NotAscii);
        }
        i += 1;
    }
    let mut board = match place_pieces(fen_parts[0].as_str()) {
        Ok(board) => board,
        Err(error) => {
            return Err(error);
        },
    };
    let ghost at = place_board(parts[0])->Ok_0;
    let ghost placed = at.placed;
    proof {
        lemma_is_square_nonzero(board.pieces[0][5]);
        lemma_is_square_nonzero(board.pieces[1][5]);
    }
    if board.pieces[0][PIECE_KING] == 0 || board.pieces[1][PIECE_KING] == 0 {
        return Err(FenError::NoKing);
    }
    let turn = match read_turn(fen_parts[1].as_str()) {
        Ok(turn) => turn,
        Err(error) => {
            return Err(error);
        },
    };
    let ghost set_up = board;
    board.turn_idx = turn;
    proof {
        lemma_holds_same(&board, &set_up, placed);
    }
    if fen_parts.len() >= 3 {
        let rights = match read_castle(fen_parts[2].as_str()) {
            Ok(rights) => rights,
            Err(error) => {
                return Err(error);
            },
        };
        if !rights_fit_board(&board, &rights, Ghost(placed)) {
            return Err(FenError::BadCastle);
        }
        let ghost turned = board;
        board.castle_rights = rights;
        proof {
            lemma_holds_same(&board, &turned, placed);
        }
    }
    if fen_parts.len() >= 4 {
        let mask = match read_en_passant(fen_parts[3].as_str()) {
            Ok(mask) => mask,
            Err(error) => {
                return Err(error);
            },
        };
        proof {
            let e = parse_en_passant(parts[3])->Ok_0;
            if e < 64 {
                lemma_square(e);
            }
        }
        if mask != 0 && !en_passant_fits_board(&board, mask, Ghost(placed)) {
            return Err(FenError::BadEnPassant);
        }
        let ghost righted = board;
        board.en_passant_mask = mask;
        proof {
            lemma_holds_same(&board, &righted, placed);
        }
    }
    if fen_parts.len() >= 5 {
        let ghost passed = board;
        match read_u8(fen_parts[4].as_str()) {
            Some(counter) => {
                board.half_move_counter = counter;
            },
            None => {
                return Err(FenError::BadHalfMove);
            },
        }
        proof {
            lemma_holds_same(&board, &passed, placed);
        }
    }
    proof {
        lemma_read_wf(&board, parts, placed);
    }
    let ghost read = board;
    board.full_update(tables);
    proof {
        lemma_holds_same(&board, &read, placed);
    }
    Ok(board)
}

/// Boards with the same pieces hold the same pieces.
proof fn lemma_holds_same(board: &Board, other: &Board, placed: Seq<Placed>)
    requires
        board.pieces == other.pieces,
        holds_placed(other, placed),
    ensures
        holds_placed(board, placed),
        other.pieces_disjoint() ==> board.pieces_disjoint(),
{
    assert forall|t: int, p: int, sq: int| 0 <= t < 2 && 0 <= p < 6 && is_sq(sq) implies #[trigger]
        board.piece_on(t, p, sq) == placed.contains(Placed { team: t, kind: p, sq }) by {
        assert(other.piece_on(t, p, sq) == board.piece_on(t, p, sq));
    }
    if other.pieces_disjoint() {
        board.lemma_disjoint_same(other);
    }
}

/// What was read without fault is in order.
proof fn lemma_read_wf(board: &Board, parts: Seq<Seq<char>>, placed: Seq<Placed>)
    requires
        parts.len() >= 2,
        holds_placed(board, placed),
        board.pieces_disjoint(),
        is_square(board.pieces[0][5]),
        is_square(board.pieces[1][5]),
        board.turn_idx < 2,
        rights_fit(
            placed,
            Rights {
                white_queen: board.castle_rights[0][0],
                white_king: board.castle_rights[0][1],
                black_queen: board.castle_rights[1][0],
                black_king: board.castle_rights[1][1],
            },
        ),
        board.en_passant_mask == 0 || (is_square(board.en_passant_mask) && en_passant_fits(
            placed,
            board.turn_idx as int,
            lowest_sq(board.en_passant_mask),
        )),
        exists|x: int, y: int| placed_before(placed, x, y),
    ensures
        board.wf_core(),
{
    assert(board.castle_ok()) by {
        assert forall|t: int, side: int|
            0 <= t < 2 && 0 <= side < 2 && #[trigger] board.castle_rights[t][side]
            implies board.piece_on(t, PIECE_KING as int, king_home(t)) && board.piece_on(
            t,
            PIECE_ROOK as int,
            rook_home(t, side),
        ) by {
            assert(board.piece_on(t, 5, king_home(t)) == placed.contains(
                Placed { team: t, kind: 5, sq: king_home(t) },
            ));
            assert(board.piece_on(t, 3, rook_home(t, side)) == placed.contains(
                Placed { team: t, kind: 3, sq: rook_home(t, side) },
            ));
        }
    }
    if board.en_passant_mask != 0 {
        let e = lowest_sq(board.en_passant_mask);
        let t = board.turn_idx as int;
        lemma_is_square(board.en_passant_mask);
        let v = e - 8 * pawn_dy(t);
        assert(is_sq(v));
        assert(board.piece_on(1 - t, 0, v) == placed.contains(Placed { team: 1 - t, kind: 0, sq: v }));
        assert(!has_sq(board.occ_all(), e)) by {
            board.lemma_occ(0, e);
            board.lemma_occ(1, e);
            assert forall|t2: int, p: int| 0 <= t2 < 2 && 0 <= p < 6 implies !board.piece_on(
                t2,
                p,
                e,
            ) by {
                if board.piece_on(t2, p, e) {
                    assert(placed.contains(Placed { team: t2, kind: p, sq: e }));
                    let i = choose|i: int|
                        0 <= i < placed.len() && placed[i] == (Placed { team: t2, kind: p, sq: e });
                    assert(placed[i].sq == e);
                }
            }
        }
    }
}

/// The fields of `text` read so far, and the field that is being read:
/// fields end at a space.
pub open spec fn split_state(text: Seq<char>) -> (Seq<Seq<char>>, Seq<char>)
    decreases text.len(),
{
    if text.len() == 0 {
        (Seq::empty(), Seq::empty())
    } else {
        let (done, current) = split_state(text.drop_last());
        if text.last() == ' ' {
            (done.push(current), Seq::empty())
        } else {
            (done, current.push(text.last()))
        }
    }
}

/// The fields of `text`: what stands between its spaces.
pub open spec fn split_spaces(text: Seq<char>) -> Seq<Seq<char>> {
    split_state(text).0.push(split_state(text).1)
}

/// The fields of `text`: what stands between its spaces.
fn split_fields(text: &str) -> (fields: Vec<String>)
    ensures
        parts_view(&fields) == split_spaces(text@),
{
    let mut fields: Vec<String> = Vec::new();
    let mut current = String::new();
    let len = text.unicode_len();
    let mut i: usize = 0;
    proof {
        assert(text@.take(0) =~= Seq::<char>::empty());
        assert(parts_view(&fields) =~= Seq::<Seq<char>>::empty());
    }
    while i < len
        invariant
            i <= len,
            len == text@.len(),
            parts_view(&fields) == split_state(text@.take(i as int)).0,
            current@ == split_state(text@.take(i as int)).1,
        decreases len - i,
    {
        let c = text.get_char(i);
        proof {
            assert(text@.take(i + 1).drop_last() =~= text@.take(i as int));
            assert(text@.take(i + 1).last() == c);
        }
        let ghost before = parts_view(&fields);
        let ghost word = current@;
        if c == ' ' {
            fields.push(current);
            current = String::new();
            proof {
                assert(parts_view(&fields) =~= before.push(word));
            }
        } else {
            current.push(c);
        }
        i += 1;
    }
    let ghost before = parts_view(&fields);
    let ghost word = current@;
    fields.push(current);
    proof {
        assert(text@.take(i as int) =~= text@);
        assert(parts_view(&fields) =~= before.push(word));
    }
    fields
}

/// Reads a position from its Forsyth-Edwards notation, the fields of which
/// single spaces part.
pub fn load_fen(tables: &Tables, fen: &str) -> (found: Result<Board, FenError>)
    requires
        tables.wf(),
    ensures
        match fen_fault(split_spaces(fen@)) {
            Some(error) => found == Err::<Board, FenError>(error),
            None => found matches Ok(board) && reads_as(split_spaces(fen@), &board) && board.inv(
                &tables.zobrist,
            ) && board.derived_ok(&tables.zobrist),
        },
{
    let fen_parts = split_fields(fen);
    load_fen_from_parts(tables, &fen_parts)
}


} // verus!
