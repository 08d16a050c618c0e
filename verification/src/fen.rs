//! Positions as text: Forsyth-Edwards notation.

use vstd::prelude::*;
use vstd::string::StrSliceExecFns;
use crate::bitmask::{is_square, lowest_sq, sq_at, on_board, coord_text, bm_to_xy};
use crate::board::{Board};
use crate::text::{decimal_text, digit_char, push_decimal};
use crate::Tables;

pub mod laws;
pub mod read;

pub use crate::fen::read::{load_fen, load_fen_from_parts, FenError};

verus! {

pub const FEN_START_POS: &'static str = "rnbqkbnr/pppppppp/8/8/8/8/PPPPPPPP/RNBQKBNR w KQkq - 0 1";

/// The letter of a piece of side `t` and kind `p`: a capital for White.
pub open spec fn piece_char(t: int, p: int) -> char {
    if t == 0 {
        if p == 0 {
            'P'
        } else if p == 1 {
            'N'
        } else if p == 2 {
            'B'
        } else if p == 3 {
            'R'
        } else if p == 4 {
            'Q'
        } else {
            'K'
        }
    } else {
        if p == 0 {
            'p'
        } else if p == 1 {
            'n'
        } else if p == 2 {
            'b'
        } else if p == 3 {
            'r'
        } else if p == 4 {
            'q'
        } else {
            'k'
        }
    }
}

/// The letter of a piece of side `t` and kind `p`: a capital for White.
pub fn piece_letter(t: usize, p: usize) -> (letter: char)
    requires
        t < 2,
        p < 6,
    ensures
        letter == piece_char(t as int, p as int),
{
    if t == 0 {
        if p == 0 {
            'P'
        } else if p == 1 {
            'N'
        } else if p == 2 {
            'B'
        } else if p == 3 {
            'R'
        } else if p == 4 {
            'Q'
        } else {
            'K'
        }
    } else {
        if p == 0 {
            'p'
        } else if p == 1 {
            'n'
        } else if p == 2 {
            'b'
        } else if p == 3 {
            'r'
        } else if p == 4 {
            'q'
        } else {
            'k'
        }
    }
}

impl Board {
    /// The kind of the piece of side `t` on `sq`: the lowest kind that side
    /// `t` has there, 6 where it has none.
    pub open spec fn kind_on(&self, t: int, sq: int) -> int {
        if self.piece_on(t, 0, sq) {
            0
        } else if self.piece_on(t, 1, sq) {
            1
        } else if self.piece_on(t, 2, sq) {
            2
        } else if self.piece_on(t, 3, sq) {
            3
        } else if self.piece_on(t, 4, sq) {
            4
        } else if self.piece_on(t, 5, sq) {
            5
        } else {
            6
        }
    }

    /// The letter of the piece on `sq`: White's where White has one there,
    /// else Black's; none on an empty square.
    pub open spec fn square_char(&self, sq: int) -> Option<char> {
        if self.kind_on(0, sq) < 6 {
            Some(piece_char(0, self.kind_on(0, sq)))
        } else if self.kind_on(1, sq) < 6 {
            Some(piece_char(1, self.kind_on(1, sq)))
        } else {
            None
        }
    }

    /// The text of rank `y` from file `x` on, after `empties` empty squares:
    /// a letter for each piece, and for each run of empty squares its length.
    pub open spec fn rank_text(&self, y: int, x: int, empties: int) -> Seq<char>
        decreases 8 - x,
    {
        if x >= 8 {
            if empties > 0 {
                seq![digit_char(empties)]
            } else {
                Seq::empty()
            }
        } else {
            match self.square_char(sq_at(x, y)) {
                Some(letter) => (if empties > 0 {
                    seq![digit_char(empties)]
                } else {
                    Seq::empty()
                }) + seq![letter] + self.rank_text(y, x + 1, 0),
                None => self.rank_text(y, x + 1, empties + 1),
            }
        }
    }

    /// The text of the ranks from `y` down to the first, with a stroke
    /// between two ranks.
    pub open spec fn placement_text(&self, y: int) -> Seq<char>
        decreases y,
    {
        if y <= 0 {
            self.rank_text(0, 0, 0)
        } else {
            self.rank_text(y, 0, 0) + seq!['/'] + self.placement_text(y - 1)
        }
    }

    /// The text of the castling rights: `K`, `Q`, `k`, `q` for those that
    /// are there, and a dash where there is none.
    pub open spec fn castle_text(&self) -> Seq<char> {
        let rights = (if self.castle_rights[0][1] {
            seq!['K']
        } else {
            Seq::empty()
        }) + (if self.castle_rights[0][0] {
            seq!['Q']
        } else {
            Seq::empty()
        }) + (if self.castle_rights[1][1] {
            seq!['k']
        } else {
            Seq::empty()
        }) + (if self.castle_rights[1][0] {
            seq!['q']
        } else {
            Seq::empty()
        });
        if rights.len() == 0 {
            seq!['-']
        } else {
            rights
        }
    }

    /// The text of the en-passant square: its name, or a dash.
    pub open spec fn en_passant_text(&self) -> Seq<char> {
        if self.en_passant_mask != 0 {
            coord_text(lowest_sq(self.en_passant_mask))
        } else {
            seq!['-']
        }
    }

    /// The position in Forsyth-Edwards notation: the pieces rank by rank from
    /// the eighth, the side to move, the castling rights, the en-passant
    /// square, the half-move counter, and 1 for the number of the move, which
    /// the position does not keep.
    pub open spec fn fen_text(&self) -> Seq<char> {
        self.placement_text(7) + seq![' '] + seq![
            if self.turn_idx == 0 {
                'w'
            } else {
                'b'
            },
        ] + seq![' '] + self.castle_text() + seq![' '] + self.en_passant_text() + seq![' ']
            + decimal_text(self.half_move_counter) + seq![' ', '1']
    }

    /// The kind of the piece of side `t` on the square at `(x, y)`, 6 where
    /// there is none.
    fn find_kind(&self, t: usize, x: i64, y: i64) -> (kind: usize)
        requires
            t < 2,
            on_board(x as int, y as int),
        ensures
            kind == self.kind_on(t as int, sq_at(x as int, y as int)),
    {
        let mut p: usize = 0;
        while p < 6
            invariant
                t < 2,
                p <= 6,
                on_board(x as int, y as int),
                forall|p2: int| 0 <= p2 < p ==> !self.piece_on(t as int, p2, sq_at(x as int, y as int)),
            decreases 6 - p,
        {
            if crate::bitmask::bm_get(self.pieces[t][p], x, y) {
                return p;
            }
            p += 1;
        }
        6
    }

    /// Appends the text of rank `y`.
    fn write_rank(&self, text: &mut String, y: i64)
        requires
            0 <= y < 8,
        ensures
            final(text)@ == old(text)@ + self.rank_text(y as int, 0, 0),
    {
        let mut empty_counter: u8 = 0;
        let mut x: i64 = 0;
        proof {
            assert(text@ + self.rank_text(y as int, 0, 0) =~= old(text)@ + self.rank_text(
                y as int,
                0,
                0,
            ));
        }
        while x < 8
            invariant
                0 <= x <= 8,
                0 <= y < 8,
                empty_counter <= x,
                text@ + self.rank_text(y as int, x as int, empty_counter as int) == old(text)@
                    + self.rank_text(y as int, 0, 0),
            decreases 8 - x,
        {
            let ghost before = text@;
            let white = self.find_kind(0, x, y);
            let black = self.find_kind(1, x, y);
            if white < 6 || black < 6 {
                if empty_counter > 0 {
                    text.push((empty_counter + 48) as char);
                }
                let letter = if white < 6 {
                    piece_letter(0, white)
                } else {
                    piece_letter(1, black)
                };
                text.push(letter);
                proof {
                    assert(text@ + self.rank_text(y as int, x + 1, 0) =~= before + self.rank_text(
                        y as int,
                        x as int,
                        empty_counter as int,
                    ));
                }
                empty_counter = 0;
            } else {
                empty_counter += 1;
            }
            x += 1;
        }
        let ghost before = text@;
        if empty_counter > 0 {
            text.push((empty_counter + 48) as char);
        }
        proof {
            assert(text@ =~= before + self.rank_text(y as int, 8, empty_counter as int));
        }
    }
}

impl Board {
    /// Appends the text of all ranks, from the eighth down.
    fn write_placement(&self, text: &mut String)
        ensures
            final(text)@ == old(text)@ + self.placement_text(7),
    {
        let mut y: i64 = 7;
        proof {
            assert(text@ + self.placement_text(7) =~= old(text)@ + self.placement_text(7));
        }
        while y > 0
            invariant
                0 <= y <= 7,
                text@ + self.placement_text(y as int) == old(text)@ + self.placement_text(7),
            decreases y,
        {
            let ghost before = text@;
            self.write_rank(text, y);
            text.push('/');
            proof {
                assert(text@ + self.placement_text(y - 1) =~= before + self.placement_text(
                    y as int,
                ));
            }
            y -= 1;
        }
        self.write_rank(text, 0);
    }

    /// Appends the text of the castling rights.
    fn write_castle(&self, text: &mut String)
        ensures
            final(text)@ == old(text)@ + self.castle_text(),
    {
        let ghost before = text@;
        let mut any_right = false;
        if self.castle_rights[0][1] {
            text.push('K');
            any_right = true;
        }
        if self.castle_rights[0][0] {
            text.push('Q');
            any_right = true;
        }
        if self.castle_rights[1][1] {
            text.push('k');
            any_right = true;
        }
        if self.castle_rights[1][0] {
            text.push('q');
            any_right = true;
        }
        if !any_right {
            text.push('-');
        }
        proof {
            assert(text@ =~= before + self.castle_text());
        }
    }

    /// Appends the text of the en-passant square.
    fn write_en_passant(&self, text: &mut String)
        requires
            self.en_passant_mask == 0 || is_square(self.en_passant_mask),
        ensures
            final(text)@ == old(text)@ + self.en_passant_text(),
    {
        let ghost before = text@;
        if self.en_passant_mask != 0 {
            let (x, y) = bm_to_xy(self.en_passant_mask);
            text.push(((x as u8) + 97) as char);
            text.push(((y as u8) + 49) as char);
        } else {
            text.push('-');
        }
        proof {
            assert(text@ =~= before + self.en_passant_text());
        }
    }
}

/// The position in Forsyth-Edwards notation.
pub fn make_fen(board: &Board) -> (fen: String)
    requires
        board.en_passant_mask == 0 || is_square(board.en_passant_mask),
    ensures
        fen@ == board.fen_text(),
{
    let mut fen = String::new();
    board.write_placement(&mut fen);
    fen.push(' ');
    fen.push(
        if board.turn_idx == 0 {
            'w'
        } else {
            'b'
        },
    );
    fen.push(' ');
    board.write_castle(&mut fen);
    fen.push(' ');
    board.write_en_passant(&mut fen);
    fen.push(' ');
    // The half-move counter, and the number of the move.
    push_decimal(&mut fen, board.half_move_counter);
    fen.push(' ');
    fen.push('1');
    proof {
        assert(fen@ =~= board.fen_text());
    }
    fen
}

} // verus!
