//! A position written and read again is the same position.

use vstd::prelude::*;
use crate::bitmask::{
    has_sq, is_square, lowest_sq, sq_at, file_of, rank_of, file_char, rank_char, lemma_ext,
    lemma_is_square,
};
use crate::geometry::{is_sq, lemma_sq_at, lemma_sq_coords};
use crate::board::{Board};
use crate::fen::piece_char;
use crate::fen::read::{
    Cursor, Placed, Rights, FenError, place_step, place_chars, place_board, start_cursor, has_king,
    letter_kind,
    is_upper, is_lower, split_state, split_spaces, all_ascii, castle_step, castle_chars,
    parse_castle, parse_en_passant, no_rights, reads_as, fen_fault, rest_fault, rights_fit,
    en_passant_fits, placed_any,
};
use crate::text::{decimal_text, digit_char, parse_u8, digits_value, unsigned_part};
use crate::move_gen::emit::lemma_push_contains;

verus! {

/// Reads the characters `text` of the pieces from the cursor `at` on.
pub open spec fn place_from(at: Cursor, text: Seq<char>) -> Result<Cursor, FenError>
    decreases text.len(),
{
    if text.len() == 0 {
        Ok(at)
    } else {
        match place_from(at, text.drop_last()) {
            Ok(next) => place_step(next, text.last()),
            Err(error) => Err(error),
        }
    }
}

/// Reading two texts one after the other is reading them as one.
pub proof fn lemma_place_from_concat(at: Cursor, first: Seq<char>, second: Seq<char>)
    ensures
        place_from(at, first + second) == (match place_from(at, first) {
            Ok(next) => place_from(next, second),
            Err(error) => Err(error),
        }),
    decreases second.len(),
{
    if second.len() == 0 {
        assert(first + second =~= first);
    } else {
        lemma_place_from_concat(at, first, second.drop_last());
        assert((first + second).drop_last() =~= first + second.drop_last());
        assert((first + second).last() == second.last());
    }
}

/// Reading from the start is reading from the start cursor.
pub proof fn lemma_place_chars_from(text: Seq<char>)
    ensures
        place_chars(text) == place_from(start_cursor(), text),
    decreases text.len(),
{
    if text.len() > 0 {
        lemma_place_chars_from(text.drop_last());
    }
}

/// Reading one character.
pub proof fn lemma_place_one(at: Cursor, c: char)
    ensures
        place_from(at, seq![c]) == place_step(at, c),
{
    assert(seq![c].drop_last() =~= Seq::<char>::empty());
    assert(place_from(at, Seq::<char>::empty()) == Ok::<Cursor, FenError>(at));
}

/// No character of `text` is a space, and all are ASCII.
pub open spec fn plain(text: Seq<char>) -> bool {
    forall|i: int| 0 <= i < text.len() ==> (#[trigger] text[i]) != ' ' && text[i] as u32 <= 127
}

/// A word without spaces goes on the field that is being read.
pub proof fn lemma_split_word(text: Seq<char>, word: Seq<char>)
    requires
        plain(word),
    ensures
        split_state(text + word) == (split_state(text).0, split_state(text).1 + word),
    decreases word.len(),
{
    if word.len() == 0 {
        assert(text + word =~= text);
        assert(split_state(text).1 + word =~= split_state(text).1);
    } else {
        lemma_split_word(text, word.drop_last());
        assert((text + word).drop_last() =~= text + word.drop_last());
        assert((text + word).last() == word.last());
        assert(word[word.len() - 1] != ' ');
        assert(split_state(text).1 + word =~= (split_state(text).1 + word.drop_last()).push(
            word.last(),
        ));
    }
}

/// A space ends the field that is being read.
pub proof fn lemma_split_space(text: Seq<char>)
    ensures
        split_state(text + seq![' ']) == (
            split_state(text).0.push(split_state(text).1),
            Seq::<char>::empty(),
        ),
{
    assert((text + seq![' ']).drop_last() =~= text);
    assert((text + seq![' ']).last() == ' ');
}

/// After the fields `done` and a field `word`, a space and another word
/// make one field more.
pub proof fn lemma_split_field(text: Seq<char>, word: Seq<char>)
    requires
        plain(word),
        split_state(text).1.len() == 0,
    ensures
        split_state(text + word + seq![' ']) == (
            split_state(text).0.push(word),
            Seq::<char>::empty(),
        ),
{
    lemma_split_word(text, word);
    lemma_split_space(text + word);
    assert(split_state(text).1 + word =~= word);
}

/// Reading has passed the square `sq` when it has come to `(x, y)`: it goes
/// through the ranks from the eighth down, and through each from the first
/// file up.
pub open spec fn passed(sq: int, x: int, y: int) -> bool {
    rank_of(sq) > y || (rank_of(sq) == y && file_of(sq) < x)
}

/// `placed` holds the pieces of `board` on the squares passed at `(x, y)`,
/// and nothing else.
pub open spec fn placed_exactly(board: &Board, placed: Seq<Placed>, x: int, y: int) -> bool {
    forall|q: Placed|
        #[trigger] placed.contains(q) <==> (0 <= q.team < 2 && 0 <= q.kind < 6 && is_sq(q.sq)
            && board.piece_on(q.team, q.kind, q.sq) && passed(q.sq, x, y))
}

/// The letter of a piece names its side and kind.
proof fn lemma_piece_char(t: int, p: int)
    requires
        0 <= t < 2,
        0 <= p < 6,
    ensures
        is_upper(piece_char(t, p)) == (t == 0),
        is_lower(piece_char(t, p)) == (t == 1),
        letter_kind(piece_char(t, p)) == p,
        piece_char(t, p) != ' ',
        piece_char(t, p) as u32 <= 127,
{
}

/// The digit of a number from 1 to 8 is read as that number.
proof fn lemma_digit_char(d: int)
    requires
        0 <= d <= 9,
    ensures
        '0' <= digit_char(d) && digit_char(d) <= '9',
        digit_char(d) as int - '0' as int == d,
        !is_upper(digit_char(d)) && !is_lower(digit_char(d)),
        digit_char(d) != ' ',
        digit_char(d) != '/',
        digit_char(d) != '+',
        digit_char(d) as u32 <= 127,
{
}

/// Reading the rest of a rank as it is written gives the pieces on it.
proof fn lemma_read_rank(board: &Board, at: Cursor, x: int, empties: int)
    requires
        board.wf_pieces(),
        0 <= at.y < 8,
        0 <= x <= 8,
        0 <= empties,
        0 <= at.x,
        at.x + empties == x,
        placed_exactly(board, at.placed, x, at.y),
    ensures
        place_from(at, board.rank_text(at.y, x, empties)) matches Ok(end) && end.x == 8 && end.y
            == at.y && placed_exactly(board, end.placed, 8, at.y),
        plain(board.rank_text(at.y, x, empties)),
    decreases 8 - x,
{
    let y = at.y;
    let text = board.rank_text(y, x, empties);
    let run: Seq<char> = if empties > 0 {
        seq![digit_char(empties)]
    } else {
        Seq::empty()
    };
    let after_run = Cursor { x, y, placed: at.placed };
    if empties > 0 {
        lemma_digit_char(empties);
        lemma_place_one(at, digit_char(empties));
    }
    assert(place_from(at, run) == Ok::<Cursor, FenError>(after_run));
    if x >= 8 {
        assert(text == run);
    } else {
        let sq = sq_at(x, y);
        lemma_sq_at(x, y);
        match board.square_char(sq) {
            Some(letter) => {
                let t: int = if board.kind_on(0, sq) < 6 {
                    0
                } else {
                    1
                };
                let p = board.kind_on(t, sq);
                assert(board.piece_on(t, p, sq));
                assert(letter == piece_char(t, p));
                lemma_piece_char(t, p);
                let piece = Placed { team: t, kind: p, sq };
                let grown = at.placed.push(piece);
                let next = Cursor { x: x + 1, y, placed: grown };
                assert(!(p == 5 && has_king(at.placed, t))) by {
                    if p == 5 && has_king(at.placed, t) {
                        let i = choose|i: int|
                            0 <= i < at.placed.len() && (#[trigger] at.placed[i]).team == t
                                && at.placed[i].kind == 5;
                        assert(at.placed.contains(at.placed[i]));
                        lemma_is_square(board.pieces[t][5]);
                        assert(board.piece_on(t, 5, at.placed[i].sq));
                    }
                }
                assert(place_step(after_run, letter) == Ok::<Cursor, FenError>(next));
                board.lemma_only_holder(t, p, sq);
                assert(placed_exactly(board, grown, x + 1, y)) by {
                    assert forall|q: Placed| #[trigger]
                        grown.contains(q) <==> (0 <= q.team < 2 && 0 <= q.kind < 6 && is_sq(q.sq)
                            && board.piece_on(q.team, q.kind, q.sq) && passed(q.sq, x + 1, y)) by {
                        lemma_push_contains(at.placed, piece, q);
                        assert(at.placed.contains(q) <==> (0 <= q.team < 2 && 0 <= q.kind < 6
                            && is_sq(q.sq) && board.piece_on(q.team, q.kind, q.sq) && passed(
                            q.sq,
                            x,
                            y,
                        )));
                        if is_sq(q.sq) && rank_of(q.sq) == y && file_of(q.sq) == x {
                            lemma_sq_coords(q.sq);
                            assert(q.sq == sq);
                        }
                    }
                }
                lemma_read_rank(board, next, x + 1, 0);
                let rest = board.rank_text(y, x + 1, 0);
                assert(text == run + seq![letter] + rest);
                lemma_place_from_concat(at, run, seq![letter]);
                lemma_place_one(after_run, letter);
                lemma_place_from_concat(at, run + seq![letter], rest);
            },
            None => {
                assert(board.kind_on(0, sq) == 6 && board.kind_on(1, sq) == 6);
                assert(placed_exactly(board, at.placed, x + 1, y)) by {
                    assert forall|q: Placed| #[trigger]
                        at.placed.contains(q) <==> (0 <= q.team < 2 && 0 <= q.kind < 6 && is_sq(
                            q.sq,
                        ) && board.piece_on(q.team, q.kind, q.sq) && passed(q.sq, x + 1, y)) by {
                        assert(at.placed.contains(q) <==> (0 <= q.team < 2 && 0 <= q.kind < 6
                            && is_sq(q.sq) && board.piece_on(q.team, q.kind, q.sq) && passed(
                            q.sq,
                            x,
                            y,
                        )));
                        if is_sq(q.sq) && rank_of(q.sq) == y && file_of(q.sq) == x {
                            lemma_sq_coords(q.sq);
                            assert(q.sq == sq);
                        }
                    }
                }
                lemma_read_rank(board, at, x + 1, empties + 1);
                assert(text == board.rank_text(y, x + 1, empties + 1));
            },
        }
    }
}

/// Reading the ranks from `y` down as they are written gives all pieces.
proof fn lemma_read_ranks(board: &Board, at: Cursor, y: int)
    requires
        board.wf_pieces(),
        0 <= y < 8,
        at.y == y,
        at.x == 0,
        placed_exactly(board, at.placed, 0, y),
    ensures
        place_from(at, board.placement_text(y)) matches Ok(end) && end.x == 8 && end.y == 0
            && placed_exactly(board, end.placed, 8, 0),
        plain(board.placement_text(y)),
    decreases y,
{
    lemma_read_rank(board, at, 0, 0);
    let rank = board.rank_text(y, 0, 0);
    if y > 0 {
        let end = place_from(at, rank)->Ok_0;
        let next = Cursor { x: 0, y: y - 1, placed: end.placed };
        assert(place_step(end, '/') == Ok::<Cursor, FenError>(next));
        assert(placed_exactly(board, next.placed, 0, y - 1)) by {
            assert forall|q: Placed| #[trigger]
                next.placed.contains(q) <==> (0 <= q.team < 2 && 0 <= q.kind < 6 && is_sq(q.sq)
                    && board.piece_on(q.team, q.kind, q.sq) && passed(q.sq, 0, y - 1)) by {
                assert(end.placed.contains(q) <==> (0 <= q.team < 2 && 0 <= q.kind < 6 && is_sq(
                    q.sq,
                ) && board.piece_on(q.team, q.kind, q.sq) && passed(q.sq, 8, y)));
            }
        }
        lemma_read_ranks(board, next, y - 1);
        let rest = board.placement_text(y - 1);
        assert(board.placement_text(y) == rank + seq!['/'] + rest);
        lemma_place_from_concat(at, rank, seq!['/']);
        lemma_place_one(end, '/');
        lemma_place_from_concat(at, rank + seq!['/'], rest);
    } else {
        assert(board.placement_text(y) == rank);
    }
}

/// The pieces as they are written are read without fault, and give the
/// pieces of the board.
pub proof fn lemma_read_placement(board: &Board)
    requires
        board.wf_pieces(),
    ensures
        place_board(board.placement_text(7)) matches Ok(end) && placed_exactly(
            board,
            end.placed,
            8,
            0,
        ),
        plain(board.placement_text(7)),
{
    let at = start_cursor();
    assert(placed_exactly(board, at.placed, 0, 7)) by {
        assert forall|q: Placed| #[trigger]
            at.placed.contains(q) <==> (0 <= q.team < 2 && 0 <= q.kind < 6 && is_sq(q.sq)
                && board.piece_on(q.team, q.kind, q.sq) && passed(q.sq, 0, 7)) by {}
    }
    lemma_read_ranks(board, at, 7);
    lemma_place_chars_from(board.placement_text(7));
}


/// Reading one letter more of the castling rights.
proof fn lemma_castle_push(text: Seq<char>, c: char)
    ensures
        castle_chars(text.push(c)) == (match castle_chars(text) {
            Ok(rights) => castle_step(rights, c),
            Err(error) => Err(error),
        }),
{
    assert(text.push(c).drop_last() =~= text);
    assert(text.push(c).last() == c);
}

/// The castling rights as they are written are read as the rights of the board.
proof fn lemma_read_castle(board: &Board)
    ensures
        parse_castle(board.castle_text()) == Ok::<Rights, FenError>(
            Rights {
                white_queen: board.castle_rights[0][0],
                white_king: board.castle_rights[0][1],
                black_queen: board.castle_rights[1][0],
                black_king: board.castle_rights[1][1],
            },
        ),
        plain(board.castle_text()),
        board.castle_text().len() >= 1,
{
    let none = Seq::<char>::empty();
    let t1 = if board.castle_rights[0][1] {
        none.push('K')
    } else {
        none
    };
    let t2 = if board.castle_rights[0][0] {
        t1.push('Q')
    } else {
        t1
    };
    let t3 = if board.castle_rights[1][1] {
        t2.push('k')
    } else {
        t2
    };
    let t4 = if board.castle_rights[1][0] {
        t3.push('q')
    } else {
        t3
    };
    let rights = (if board.castle_rights[0][1] {
        seq!['K']
    } else {
        Seq::empty()
    }) + (if board.castle_rights[0][0] {
        seq!['Q']
    } else {
        Seq::empty()
    }) + (if board.castle_rights[1][1] {
        seq!['k']
    } else {
        Seq::empty()
    }) + (if board.castle_rights[1][0] {
        seq!['q']
    } else {
        Seq::empty()
    });
    assert(rights =~= t4);
    lemma_castle_push(none, 'K');
    lemma_castle_push(t1, 'Q');
    lemma_castle_push(t2, 'k');
    lemma_castle_push(t3, 'q');
    assert(castle_chars(none) == Ok::<Rights, FenError>(no_rights()));
    let r1 = Rights { white_king: board.castle_rights[0][1], ..no_rights() };
    assert(castle_chars(t1) == Ok::<Rights, FenError>(r1));
    let r2 = Rights { white_queen: board.castle_rights[0][0], ..r1 };
    assert(castle_chars(t2) == Ok::<Rights, FenError>(r2));
    let r3 = Rights { black_king: board.castle_rights[1][1], ..r2 };
    assert(castle_chars(t3) == Ok::<Rights, FenError>(r3));
    let r4 = Rights { black_queen: board.castle_rights[1][0], ..r3 };
    assert(castle_chars(t4) == Ok::<Rights, FenError>(r4));
    if t4.len() > 0 {
        assert(t4[0] != '-');
        assert(t4 != seq!['-']) by {
            if t4 == seq!['-'] {
                assert(t4[0] == seq!['-'][0]);
            }
        }
    }
    let text = board.castle_text();
    assert forall|i: int| 0 <= i < text.len() implies (#[trigger] text[i]) != ' ' && text[i] as u32
        <= 127 by {}
}

/// The en-passant square as it is written is read as the square of the board.
proof fn lemma_read_en_passant(board: &Board)
    requires
        board.en_passant_mask == 0 || is_square(board.en_passant_mask),
    ensures
        parse_en_passant(board.en_passant_text()) == Ok::<int, FenError>(
            if board.en_passant_mask != 0 {
                lowest_sq(board.en_passant_mask)
            } else {
                64
            },
        ),
        plain(board.en_passant_text()),
{
    let text = board.en_passant_text();
    if board.en_passant_mask != 0 {
        let e = lowest_sq(board.en_passant_mask);
        lemma_sq_coords(e);
        assert(text[0] == file_char(file_of(e)));
        assert(text[1] == rank_char(rank_of(e)));
        assert(text != seq!['-']) by {
            if text == seq!['-'] {
                assert(text.len() == seq!['-'].len());
            }
        }
    }
}

/// The digits of a number as they are written are read as the number.
proof fn lemma_read_counter(n: u8)
    ensures
        parse_u8(decimal_text(n)) == Some(n),
        plain(decimal_text(n)),
{
    let text = decimal_text(n);
    lemma_digit_char(n as int % 10);
    lemma_digit_char((n as int / 10) % 10);
    lemma_digit_char(n as int / 100);
    assert(unsigned_part(text) == text);
    let empty = Seq::<char>::empty();
    assert(digits_value(empty) == 0);
    if n >= 100 {
        let a = digit_char(n as int / 100);
        let b = digit_char((n as int / 10) % 10);
        let c = digit_char(n as int % 10);
        assert(seq![a].drop_last() =~= empty);
        assert(seq![a, b].drop_last() =~= seq![a]);
        assert(seq![a, b, c].drop_last() =~= seq![a, b]);
        assert(digits_value(seq![a]) == n as int / 100);
        assert(digits_value(seq![a, b]) == 10 * (n as int / 100) + (n as int / 10) % 10);
        assert(digits_value(text) == n);
    } else if n >= 10 {
        let b = digit_char(n as int / 10);
        let c = digit_char(n as int % 10);
        assert(seq![b].drop_last() =~= empty);
        assert(seq![b, c].drop_last() =~= seq![b]);
        assert(digits_value(seq![b]) == n as int / 10);
        assert(digits_value(text) == n);
    } else {
        let c = digit_char(n as int);
        assert(seq![c].drop_last() =~= empty);
        assert(digits_value(text) == n);
    }
}

/// The fields of a position as it is written.
pub open spec fn written_fields(board: &Board) -> Seq<Seq<char>> {
    seq![
        board.placement_text(7),
        seq![if board.turn_idx == 0 {
            'w'
        } else {
            'b'
        }],
        board.castle_text(),
        board.en_passant_text(),
        decimal_text(board.half_move_counter),
        seq!['1'],
    ]
}

/// A position as it is written parts into its six fields.
proof fn lemma_split_written(board: &Board)
    requires
        board.wf_core(),
    ensures
        split_spaces(board.fen_text()) == written_fields(board),
{
    let p = board.placement_text(7);
    let t = seq![if board.turn_idx == 0 {
        'w'
    } else {
        'b'
    }];
    let c = board.castle_text();
    let e = board.en_passant_text();
    let d = decimal_text(board.half_move_counter);
    let sp = seq![' '];
    lemma_read_placement(board);
    lemma_read_castle(board);
    lemma_read_en_passant(board);
    lemma_read_counter(board.half_move_counter);
    let none = Seq::<char>::empty();
    assert(split_state(none) == (Seq::<Seq<char>>::empty(), none));
    let s1 = none + p + sp;
    lemma_split_field(none, p);
    let s2 = s1 + t + sp;
    lemma_split_field(s1, t);
    let s3 = s2 + c + sp;
    lemma_split_field(s2, c);
    let s4 = s3 + e + sp;
    lemma_split_field(s3, e);
    let s5 = s4 + d + sp;
    lemma_split_field(s4, d);
    let one = seq!['1'];
    lemma_split_word(s5, one);
    assert(board.fen_text() =~= s5 + one);
    assert(split_state(s5).1 + one =~= one);
    assert(split_spaces(board.fen_text()) =~= written_fields(board));
}

/// A position in order, written down, is read without fault.
pub proof fn lemma_written_is_read(board: &Board)
    requires
        board.wf_core(),
    ensures
        fen_fault(split_spaces(board.fen_text())) is None,
{
    let parts = split_spaces(board.fen_text());
    let t = board.turn_idx as int;
    lemma_split_written(board);
    lemma_read_placement(board);
    lemma_read_castle(board);
    lemma_read_en_passant(board);
    lemma_read_counter(board.half_move_counter);
    assert(parts.len() == 6);
    assert forall|i: int| 0 <= i < parts.len() implies all_ascii(#[trigger] parts[i]) by {
        assert(plain(parts[i]));
    }
    let placed = place_board(parts[0])->Ok_0.placed;
    lemma_is_square(board.pieces[0][5]);
    lemma_is_square(board.pieces[1][5]);
    lemma_all_passed(board, placed);
    assert forall|side: int| 0 <= side < 2 implies has_king(placed, side) by {
        let king = Placed { team: side, kind: 5, sq: board.king_sq(side) };
        assert(board.piece_on(side, 5, board.king_sq(side)));
        assert(placed.contains(king));
        let i = choose|i: int| 0 <= i < placed.len() && placed[i] == king;
        assert(placed[i].team == side && placed[i].kind == 5);
    }
    let rights = Rights {
        white_queen: board.castle_rights[0][0],
        white_king: board.castle_rights[0][1],
        black_queen: board.castle_rights[1][0],
        black_king: board.castle_rights[1][1],
    };
    assert(rights_fit(placed, rights)) by {
        if rights.white_queen {
            assert(board.castle_rights[0][0]);
        }
        if rights.white_king {
            assert(board.castle_rights[0][1]);
        }
        if rights.black_queen {
            assert(board.castle_rights[1][0]);
        }
        if rights.black_king {
            assert(board.castle_rights[1][1]);
        }
    }
    if board.en_passant_mask != 0 {
        let e = lowest_sq(board.en_passant_mask);
        lemma_is_square(board.en_passant_mask);
        assert(!placed_any(placed, e)) by {
            if placed_any(placed, e) {
                let i = choose|i: int| 0 <= i < placed.len() && (#[trigger] placed[i]).sq == e;
                assert(placed.contains(placed[i]));
                board.lemma_occ(0, e);
                board.lemma_occ(1, e);
            }
        }
        assert(en_passant_fits(placed, t, e));
    }
    assert(rest_fault(parts, placed, t) is None);
}

/// With every square passed, the pieces read are the pieces of the board.
proof fn lemma_all_passed(board: &Board, placed: Seq<Placed>)
    requires
        placed_exactly(board, placed, 8, 0),
    ensures
        forall|t: int, p: int, sq: int|
            0 <= t < 2 && 0 <= p < 6 && is_sq(sq) ==> #[trigger] board.piece_on(t, p, sq)
                == placed.contains(Placed { team: t, kind: p, sq }),
{
    assert forall|t: int, p: int, sq: int| 0 <= t < 2 && 0 <= p < 6 && is_sq(sq) implies #[trigger]
        board.piece_on(t, p, sq) == placed.contains(Placed { team: t, kind: p, sq }) by {
        let q = Placed { team: t, kind: p, sq };
        assert(placed.contains(q) <==> (0 <= q.team < 2 && 0 <= q.kind < 6 && is_sq(q.sq)
            && board.piece_on(q.team, q.kind, q.sq) && passed(q.sq, 8, 0)));
    }
}

/// A position in order that is written down and read again is the same
/// position: the board read holds the same pieces, side to move, castling
/// rights, en-passant square and half-move counter.
pub proof fn lemma_fen_round_trip(board: &Board, read: &Board)
    requires
        board.wf_core(),
        reads_as(split_spaces(board.fen_text()), read),
    ensures
        read.same_core(board),
{
    let parts = split_spaces(board.fen_text());
    lemma_split_written(board);
    lemma_read_placement(board);
    lemma_read_castle(board);
    lemma_read_en_passant(board);
    lemma_read_counter(board.half_move_counter);
    let placed = place_board(parts[0])->Ok_0.placed;
    lemma_all_passed(board, placed);
    assert forall|t: int, p: int| 0 <= t < 2 && 0 <= p < 6 implies read.pieces[t][p]
        == board.pieces[t][p] by {
        assert forall|sq: int| 0 <= sq < 64 implies has_sq(read.pieces[t][p], sq) == has_sq(
            board.pieces[t][p],
            sq,
        ) by {
            assert(read.piece_on(t, p, sq) == placed.contains(Placed { team: t, kind: p, sq }));
            assert(board.piece_on(t, p, sq) == placed.contains(Placed { team: t, kind: p, sq }));
        }
        lemma_ext(read.pieces[t][p], board.pieces[t][p]);
    }
    assert(read.pieces[0] =~= board.pieces[0]);
    assert(read.pieces[1] =~= board.pieces[1]);
    assert(read.pieces =~= board.pieces);
    assert(read.castle_rights[0] =~= board.castle_rights[0]);
    assert(read.castle_rights[1] =~= board.castle_rights[1]);
    assert(read.castle_rights =~= board.castle_rights);
    if board.en_passant_mask != 0 {
        lemma_is_square(board.en_passant_mask);
    }
}


} // verus!
