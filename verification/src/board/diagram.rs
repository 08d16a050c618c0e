//! The position drawn as text: its notation, its derived fields as numbers,
//! and the board rank by rank from the eighth down.

use vstd::prelude::*;
use crate::bitmask::{bm_get, has_sq, is_square, sq_at};
use crate::board::{Board, NUM_PIECES, PIECE_KING};
use crate::fen::{make_fen, piece_char, piece_letter};
use crate::text::{digit_char, number_text, push_text, push_u64};

verus! {

impl Board {
    /// The letter drawn on the square `sq`, looking at the kinds of piece
    /// from `p` down: that of the highest kind of which a side has a piece
    /// there, White's before Black's; a blank where there is none.
    pub open spec fn diagram_piece(&self, sq: int, p: int) -> char
        decreases p + 1,
    {
        if p < 0 {
            ' '
        } else if self.piece_on(0, p, sq) {
            piece_char(0, p)
        } else if self.piece_on(1, p, sq) {
            piece_char(1, p)
        } else {
            self.diagram_piece(sq, p - 1)
        }
    }

    /// The marks drawn left and right of the square `sq`: `+` for a piece
    /// that gives check, `>` and `<` for a pinned piece of the side to move,
    /// `!` for its king in check, blanks else.
    pub open spec fn diagram_marks(&self, sq: int) -> (char, char) {
        if has_sq(self.checkers, sq) {
            ('+', '+')
        } else if has_sq(self.pinned[self.turn_idx as int], sq) {
            ('>', '<')
        } else if self.piece_on(self.turn_idx as int, PIECE_KING as int, sq) && self.checkers != 0 {
            ('!', '!')
        } else {
            (' ', ' ')
        }
    }

    /// The square `sq` as drawn: a bar, then its letter between its marks.
    pub open spec fn diagram_cell(&self, sq: int) -> Seq<char> {
        seq!['|', self.diagram_marks(sq).0, self.diagram_piece(sq, 5), self.diagram_marks(sq).1]
    }

    /// The first `n` squares of rank `y` as drawn.
    pub open spec fn diagram_cells(&self, y: int, n: int) -> Seq<char>
        decreases n,
    {
        if n <= 0 {
            Seq::empty()
        } else {
            self.diagram_cells(y, n - 1) + self.diagram_cell(sq_at(n - 1, y))
        }
    }

    /// The line between two ranks.
    pub open spec fn diagram_divider() -> Seq<char> {
        "+---+---+---+---+---+---+---+---+"@
    }

    /// Rank `y` as drawn: its squares, its number, and the line below it.
    pub open spec fn diagram_rank(&self, y: int) -> Seq<char> {
        seq!['\t'] + self.diagram_cells(y, 8) + seq!['|', ' ', digit_char(1 + y), '\n', '\t']
            + Self::diagram_divider() + seq!['\n']
    }

    /// The `n` highest ranks as drawn, the eighth first.
    pub open spec fn diagram_ranks(&self, n: int) -> Seq<char>
        decreases n,
    {
        if n <= 0 {
            Seq::empty()
        } else {
            self.diagram_ranks(n - 1) + self.diagram_rank(8 - n)
        }
    }

    /// A label and the number after it.
    pub open spec fn labelled(label: Seq<char>, n: u64) -> Seq<char> {
        label + number_text(n as nat)
    }

    /// A label and two numbers with a stroke between them.
    pub open spec fn labelled_pair(label: Seq<char>, first: u64, second: u64) -> Seq<char> {
        label + number_text(first as nat) + seq!['/'] + number_text(second as nat)
    }

    /// The derived fields as decimal numbers, each on a line of its own:
    /// the occupancy, the checking pieces, the pinned pieces, the attacks.
    pub open spec fn diagram_fields(&self) -> Seq<char> {
        Self::labelled_pair("\n\tOccupancy[0/1]: "@, self.occupancy[0], self.occupancy[1])
            + Self::labelled("\n\tCheckers: "@, self.checkers) + Self::labelled_pair(
            "\n\tPinned[0/1]: "@,
            self.pinned[0],
            self.pinned[1],
        ) + Self::labelled_pair("\n\tAttacks[0/1]: "@, self.attacks[0], self.attacks[1])
    }

    /// What stands above the board: the position in Forsyth-Edwards
    /// notation, the side to move, the derived fields, and the line above the
    /// eighth rank.
    pub open spec fn diagram_head(&self) -> Seq<char> {
        "Board {\n\tFEN: "@ + self.fen_text() + Self::labelled(
            "\n\tTurn: "@,
            self.turn_idx as u64,
        ) + self.diagram_fields() + "\n\t"@ + Self::diagram_divider() + seq!['\n']
    }

    /// The position drawn as text.
    pub open spec fn diagram_text(&self) -> Seq<char> {
        self.diagram_head() + self.diagram_ranks(8) + "\t  a   b   c   d   e   f   g   h\n}"@
    }

    /// The letter drawn on the square at file `x`, rank `y`.
    fn cell_letter(&self, x: i64, y: i64) -> (letter: char)
        requires
            0 <= x < 8,
            0 <= y < 8,
        ensures
            letter == self.diagram_piece(sq_at(x as int, y as int), 5),
    {
        let ghost sq = sq_at(x as int, y as int);
        let mut p: usize = NUM_PIECES;
        while p > 0
            invariant
                p <= 6,
                0 <= x < 8,
                0 <= y < 8,
                sq == sq_at(x as int, y as int),
                self.diagram_piece(sq, p - 1) == self.diagram_piece(sq, 5),
            decreases p,
        {
            p -= 1;
            if bm_get(self.pieces[0][p], x, y) {
                return piece_letter(0, p);
            } else if bm_get(self.pieces[1][p], x, y) {
                return piece_letter(1, p);
            }
        }
        ' '
    }

    /// Draws the square at file `x`, rank `y`.
    fn write_cell(&self, text: &mut String, x: i64, y: i64)
        requires
            0 <= x < 8,
            0 <= y < 8,
            self.turn_idx < 2,
        ensures
            final(text)@ == old(text)@ + self.diagram_cell(sq_at(x as int, y as int)),
    {
        let ghost before = text@;
        let letter = self.cell_letter(x, y);
        let marks: (char, char) = if bm_get(self.checkers, x, y) {
            ('+', '+')
        } else if bm_get(self.pinned[self.turn_idx], x, y) {
            ('>', '<')
        } else if bm_get(self.pieces[self.turn_idx][PIECE_KING], x, y) && self.checkers != 0 {
            ('!', '!')
        } else {
            (' ', ' ')
        };
        text.push('|');
        text.push(marks.0);
        text.push(letter);
        text.push(marks.1);
        proof {
            assert(text@ =~= before + self.diagram_cell(sq_at(x as int, y as int)));
        }
    }

    /// Draws rank `y`.
    fn write_diagram_rank(&self, text: &mut String, y: i64)
        requires
            0 <= y < 8,
            self.turn_idx < 2,
        ensures
            final(text)@ == old(text)@ + self.diagram_rank(y as int),
    {
        let ghost before = text@;
        text.push('\t');
        let mut x: i64 = 0;
        while x < 8
            invariant
                0 <= x <= 8,
                0 <= y < 8,
                self.turn_idx < 2,
                text@ == before + seq!['\t'] + self.diagram_cells(y as int, x as int),
            decreases 8 - x,
        {
            self.write_cell(text, x, y);
            proof {
                assert(text@ =~= before + seq!['\t'] + self.diagram_cells(y as int, x + 1));
            }
            x += 1;
        }
        text.push('|');
        text.push(' ');
        text.push(((y as u8) + 49) as char);
        text.push('\n');
        text.push('\t');
        push_text(text, "+---+---+---+---+---+---+---+---+");
        text.push('\n');
        proof {
            assert(text@ =~= before + self.diagram_rank(y as int));
        }
    }

    /// Writes a label and the number after it.
    fn write_labelled(text: &mut String, label: &str, n: u64)
        ensures
            final(text)@ == old(text)@ + Self::labelled(label@, n),
    {
        let ghost before = text@;
        push_text(text, label);
        push_u64(text, n);
        proof {
            assert(text@ =~= before + Self::labelled(label@, n));
        }
    }

    /// Writes a label and two numbers with a stroke between them.
    fn write_labelled_pair(text: &mut String, label: &str, first: u64, second: u64)
        ensures
            final(text)@ == old(text)@ + Self::labelled_pair(label@, first, second),
    {
        let ghost before = text@;
        push_text(text, label);
        push_u64(text, first);
        text.push('/');
        push_u64(text, second);
        proof {
            assert(text@ =~= before + Self::labelled_pair(label@, first, second));
        }
    }

    /// Writes the derived fields.
    fn write_diagram_fields(&self, text: &mut String)
        ensures
            final(text)@ == old(text)@ + self.diagram_fields(),
    {
        let ghost before = text@;
        Self::write_labelled_pair(text, "\n\tOccupancy[0/1]: ", self.occupancy[0], self.occupancy[1]);
        Self::write_labelled(text, "\n\tCheckers: ", self.checkers);
        Self::write_labelled_pair(text, "\n\tPinned[0/1]: ", self.pinned[0], self.pinned[1]);
        Self::write_labelled_pair(text, "\n\tAttacks[0/1]: ", self.attacks[0], self.attacks[1]);
        proof {
            assert(text@ =~= before + self.diagram_fields());
        }
    }

    /// Writes what stands above the board.
    fn write_diagram_head(&self, text: &mut String)
        requires
            self.turn_idx < 2,
            self.en_passant_mask == 0 || is_square(self.en_passant_mask),
        ensures
            final(text)@ == old(text)@ + self.diagram_head(),
    {
        let ghost before = text@;
        push_text(text, "Board {\n\tFEN: ");
        let fen = make_fen(self);
        push_text(text, fen.as_str());
        Self::write_labelled(text, "\n\tTurn: ", self.turn_idx as u64);
        self.write_diagram_fields(text);
        push_text(text, "\n\t");
        push_text(text, "+---+---+---+---+---+---+---+---+");
        text.push('\n');
        proof {
            assert(text@ =~= before + self.diagram_head());
        }
    }

    /// The position drawn as text: its notation and derived fields, then
    /// the board from the eighth rank down with the files named below.
    pub fn to_string(&self) -> (text: String)
        requires
            self.turn_idx < 2,
            self.en_passant_mask == 0 || is_square(self.en_passant_mask),
        ensures
            text@ == self.diagram_text(),
    {
        let mut text = String::new();
        self.write_diagram_head(&mut text);
        let mut i: i64 = 0;
        while i < 8
            invariant
                0 <= i <= 8,
                self.turn_idx < 2,
                text@ == self.diagram_head() + self.diagram_ranks(i as int),
            decreases 8 - i,
        {
            self.write_diagram_rank(&mut text, 8 - i - 1);
            proof {
                assert(text@ =~= self.diagram_head() + self.diagram_ranks(i + 1));
            }
            i += 1;
        }
        push_text(&mut text, "\t  a   b   c   d   e   f   g   h\n}");
        text
    }
}

} // verus!
