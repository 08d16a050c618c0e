//! What the evaluation counts on the board: how the pawns stand to each
//! other, which files are open for the rooks, and how the king is
//! sheltered.

use vstd::prelude::*;
use crate::bitmask::{
    bm_count, bm_flip_vertical, bm_make_column, bm_make_row, bm_shift, bm_to_idx, bm_to_xy,
    count_where, file_of, flip_sq, has_sq, is_square, lemma_count_where, lemma_has_and, popcount,
    lemma_has_full, lemma_has_not, lemma_has_or, lemma_has_shl, lemma_has_test, lemma_has_zero,
    lemma_is_square, lowest_sq, rank_of, BitMask,
};
use crate::board::{
    pawn_attacks, pawn_dy, Board, PIECE_BISHOP, PIECE_KING, PIECE_PAWN, PIECE_QUEEN, PIECE_ROOK,
};
use crate::eval::get_pawn_attack_mask;
use crate::geometry::{abs, is_sq};
use crate::lookup_gen::{get_piece_tos, piece_attacks};
use crate::Tables;

verus! {

/// The square `sq` as side `t` sees it from its own back rank: for Black
/// the board is turned upside down.
pub open spec fn seen_from(t: int, sq: int) -> int {
    if t == 0 {
        sq
    } else {
        flip_sq(sq)
    }
}

/// How many squares of `a`, as side `team_idx` sees them from its own back
/// rank, lie in `b`.
pub fn relative_count(team_idx: usize, a: BitMask, b: BitMask) -> (count: u32)
    ensures
        count == count_where(
            |sq: int| has_sq(a, seen_from(team_idx as int, sq)) && has_sq(b, sq),
            64,
        ),
        count <= 64,
{
    let seen = if team_idx == 0 {
        a
    } else {
        bm_flip_vertical(a)
    };
    let ghost t = team_idx as int;
    proof {
        assert forall|sq: int| 0 <= sq < 64 implies #[trigger] has_sq(seen & b, sq) == (has_sq(
            a,
            seen_from(t, sq),
        ) && has_sq(b, sq)) by {
            lemma_has_and(seen, b, sq);
        }
        lemma_count_where(seen & b, |sq: int| has_sq(a, seen_from(t, sq)) && has_sq(b, sq), 64);
    }
    bm_count(seen & b)
}

/// The squares `a` and `b` are on the same file or on neighbouring files.
pub open spec fn near_file(a: int, b: int) -> bool {
    abs(file_of(a) - file_of(b)) <= 1
}

/// Seen from side `t`, the square `c` lies on a rank further up the board
/// than `sq`.
pub open spec fn ahead(t: int, sq: int, c: int) -> bool {
    if t == 0 {
        rank_of(c) > rank_of(sq)
    } else {
        rank_of(c) < rank_of(sq)
    }
}

/// How a pawn stands among the other pawns.
#[derive(Debug, Copy, Clone, PartialEq, Eq, Structural)]
pub struct PawnTraits {
    /// The ranks between the pawn and its side's back rank, the pawn's own
    /// counted.
    pub advance: u8,
    /// No pawn of the other side stands ahead of it on its file or a
    /// neighbouring file.
    pub passed: bool,
    /// The pawns of its side on its file, itself counted.
    pub in_file: u32,
    /// No other pawn of its side stands on its file or a neighbouring file.
    pub isolated: bool,
    /// A pawn of its side attacks the square it stands on.
    pub connected: bool,
    /// It stands on one of the four squares in the middle of the board.
    pub in_center: bool,
}

/// How the pawn of side `t` on `sq` stands among the other pawns.
pub open spec fn spec_pawn_traits(board: &Board, t: int, sq: int) -> PawnTraits {
    PawnTraits {
        advance: (if t == 0 {
            rank_of(sq)
        } else {
            7 - rank_of(sq)
        }) as u8,
        passed: forall|c: int|
            is_sq(c) && #[trigger] board.piece_on(1 - t, PIECE_PAWN as int, c) && near_file(sq, c)
                ==> !ahead(t, sq, c),
        in_file: count_where(
            |c: int| board.piece_on(t, PIECE_PAWN as int, c) && file_of(c) == file_of(sq),
            64,
        ) as u32,
        isolated: forall|c: int|
            is_sq(c) && c != sq && #[trigger] board.piece_on(t, PIECE_PAWN as int, c)
                ==> !near_file(sq, c),
        connected: exists|a: int|
            is_sq(a) && board.piece_on(t, PIECE_PAWN as int, a) && #[trigger] pawn_attacks(
                t,
                a,
                sq,
            ),
        in_center: sq == 27 || sq == 28 || sq == 35 || sq == 36,
    }
}

/// The file `x` and its neighbouring files.
pub open spec fn files_around_mask(x: int) -> BitMask {
    let column = crate::bitmask::spec_shift(0x0101_0101_0101_0101, x, 0);
    column | crate::bitmask::spec_shift(
        column & !crate::bitmask::spec_shift(0x0101_0101_0101_0101, 7, 0),
        1,
        0,
    ) | crate::bitmask::spec_shift(
        column & !crate::bitmask::spec_shift(0x0101_0101_0101_0101, 0, 0),
        -1,
        0,
    )
}

/// The file `x` and its neighbouring files.
fn files_around(x: i64) -> (columns: BitMask)
    requires
        0 <= x < 8,
    ensures
        columns == files_around_mask(x as int),
        forall|c: int| #[trigger] has_sq(columns, c) == (is_sq(c) && abs(file_of(c) - x) <= 1),
{
    let column = bm_make_column(x);
    let last = bm_make_column(7);
    let first = bm_make_column(0);
    let right = bm_shift(column & !last, 1, 0);
    let left = bm_shift(column & !first, -1, 0);
    let columns = column | right | left;
    proof {
        assert forall|c: int| #[trigger] has_sq(columns, c) == (is_sq(c) && abs(file_of(c) - x) <= 1) by {
            lemma_has_or(column | right, left, c);
            lemma_has_or(column, right, c);
            lemma_has_and(column, !last, c - 1);
            lemma_has_not(last, c - 1);
            lemma_has_and(column, !first, c + 1);
            lemma_has_not(first, c + 1);
            assert(has_sq(right, c) == (is_sq(c) && has_sq(column & !last, c - 1)));
            assert(has_sq(left, c) == (is_sq(c) && has_sq(column & !first, c + 1)));
            if is_sq(c) {
                assert(has_sq(column, c) == (file_of(c) == x));
                assert(has_sq(right, c) == (file_of(c) == x + 1)) by {
                    if c >= 1 {
                        assert(has_sq(column, c - 1) == (file_of(c - 1) == x));
                        assert(has_sq(last, c - 1) == (file_of(c - 1) == 7));
                    }
                }
                assert(has_sq(left, c) == (file_of(c) == x - 1)) by {
                    if c + 1 < 64 {
                        assert(has_sq(column, c + 1) == (file_of(c + 1) == x));
                        assert(has_sq(first, c + 1) == (file_of(c + 1) == 0));
                    }
                }
            }
        }
    }
    columns
}

/// The ranks that lie ahead of rank `y` for side `team_idx`.
fn ranks_ahead(team_idx: usize, y: i64) -> (rows: BitMask)
    requires
        0 <= y < 8,
    ensures
        forall|c: int|
            #[trigger] has_sq(rows, c) == (is_sq(c) && if team_idx == 0 {
                rank_of(c) > y
            } else {
                rank_of(c) < y
            }),
{
    let below: u64 = (8 * y) as u64;
    let rows: BitMask = if team_idx == 0 {
        if y == 7 {
            0
        } else {
            u64::MAX << (below + 8)
        }
    } else {
        !(u64::MAX << below)
    };
    proof {
        assert forall|c: int|
            #[trigger] has_sq(rows, c) == (is_sq(c) && if team_idx == 0 {
                rank_of(c) > y
            } else {
                rank_of(c) < y
            }) by {
            lemma_has_zero(c);
            if is_sq(c) {
                if team_idx == 0 {
                    if y < 7 {
                        lemma_has_shl(u64::MAX, (below + 8) as u64, c);
                        lemma_has_full(c - (below + 8));
                    }
                } else {
                    lemma_has_shl(u64::MAX, below, c);
                    lemma_has_full(c - below);
                    lemma_has_not(u64::MAX << below, c);
                }
            }
        }
    }
    rows
}

/// How the pawn of side `team_idx` on the square `pawn` stands among the
/// other pawns.
pub fn pawn_traits(board: &Board, team_idx: usize, pawn: BitMask) -> (traits: PawnTraits)
    requires
        team_idx < 2,
        is_square(pawn),
    ensures
        traits == spec_pawn_traits(board, team_idx as int, lowest_sq(pawn)),
{
    let ghost t = team_idx as int;
    let ghost sq = lowest_sq(pawn);
    let own = board.pieces[team_idx][PIECE_PAWN];
    let other = board.pieces[1 - team_idx][PIECE_PAWN];
    let (pawn_x, pawn_y) = bm_to_xy(pawn);
    let advance: i64 = if team_idx == 0 {
        pawn_y
    } else {
        7 - pawn_y
    };
    let column = bm_make_column(pawn_x);
    let columns = files_around(pawn_x);
    let rows = ranks_ahead(team_idx, pawn_y);
    let in_the_way = columns & rows & other;
    let neighbours = (own & !pawn) & columns;
    let pawn_attacks_mask = get_pawn_attack_mask(board, team_idx);
    let in_file = bm_count(own & column);
    proof {
        lemma_is_square(pawn);
        crate::bitmask::lemma_only_square(pawn, sq);
        assert forall|c: int| 0 <= c < 64 implies #[trigger] has_sq(in_the_way, c) == (board.piece_on(
            1 - t,
            PIECE_PAWN as int,
            c,
        ) && near_file(sq, c) && ahead(t, sq, c)) by {
            lemma_has_and(columns & rows, other, c);
            lemma_has_and(columns, rows, c);
        }
        if in_the_way == 0 {
            assert forall|c: int|
                is_sq(c) && #[trigger] board.piece_on(1 - t, PIECE_PAWN as int, c) && near_file(
                    sq,
                    c,
                ) implies !ahead(t, sq, c) by {
                lemma_has_zero(c);
                assert(!has_sq(in_the_way, c));
            }
        } else {
            crate::bitmask::lemma_nonempty(in_the_way);
            let c = lowest_sq(in_the_way);
            assert(board.piece_on(1 - t, PIECE_PAWN as int, c) && near_file(sq, c) && ahead(
                t,
                sq,
                c,
            ));
        }
        assert forall|c: int| 0 <= c < 64 implies #[trigger] has_sq(neighbours, c) == (board.piece_on(
            t,
            PIECE_PAWN as int,
            c,
        ) && c != sq && near_file(sq, c)) by {
            lemma_has_and(own & !pawn, columns, c);
            lemma_has_and(own, !pawn, c);
            lemma_has_not(pawn, c);
        }
        if neighbours == 0 {
            assert forall|c: int|
                is_sq(c) && c != sq && #[trigger] board.piece_on(
                    t,
                    PIECE_PAWN as int,
                    c,
                ) implies !near_file(sq, c) by {
                lemma_has_zero(c);
                assert(!has_sq(neighbours, c));
            }
        } else {
            crate::bitmask::lemma_nonempty(neighbours);
            let c = lowest_sq(neighbours);
            assert(board.piece_on(t, PIECE_PAWN as int, c) && c != sq && near_file(sq, c));
        }
        lemma_has_test(pawn_attacks_mask, sq);
        lemma_has_test(0x18_1800_0000, sq);
        center_squares(sq as u64);
        assert forall|c: int| 0 <= c < 64 implies #[trigger] has_sq(own & column, c) == (board.piece_on(
            t,
            PIECE_PAWN as int,
            c,
        ) && file_of(c) == file_of(sq)) by {
            lemma_has_and(own, column, c);
        }
        lemma_count_where(
            own & column,
            |c: int| board.piece_on(t, PIECE_PAWN as int, c) && file_of(c) == file_of(sq),
            64,
        );
    }
    PawnTraits {
        advance: advance as u8,
        passed: in_the_way == 0,
        in_file,
        isolated: neighbours == 0,
        connected: pawn_attacks_mask & pawn != 0,
        in_center: 0x18_1800_0000 & pawn != 0,
    }
}

/// The four squares in the middle of the board are the only ones of their
/// mask.
proof fn center_squares(k: u64)
    by (bit_vector)
    requires
        k < 64,
    ensures
        ((0x18_1800_0000u64 >> k) & 1 == 1) == (k == 27 || k == 28 || k == 35 || k == 36),
{
}

/// How many pawns of both sides stand on file `x`.
pub open spec fn file_pawns(board: &Board, x: int) -> int {
    count_where(
        |c: int|
            file_of(c) == x && (board.piece_on(0, PIECE_PAWN as int, c) || board.piece_on(
                1,
                PIECE_PAWN as int,
                c,
            )),
        64,
    )
}

/// How many rooks of side `t` stand on file `x`.
pub open spec fn file_rooks(board: &Board, t: int, x: int) -> int {
    count_where(|c: int| file_of(c) == x && board.piece_on(t, PIECE_ROOK as int, c), 64)
}

/// How many rooks of side `t` stand on those of the first `n` files that
/// hold `pawns` pawns.
pub open spec fn rooks_on_files(board: &Board, t: int, pawns: int, n: int) -> int
    decreases n,
{
    if n <= 0 {
        0
    } else {
        rooks_on_files(board, t, pawns, n - 1) + if file_pawns(board, n - 1) == pawns {
            file_rooks(board, t, n - 1)
        } else {
            0
        }
    }
}

/// The rooks of a side by the files they stand on.
#[derive(Debug, Copy, Clone, PartialEq, Eq, Structural)]
pub struct RookFiles {
    /// Those on a file without pawns.
    pub open: u32,
    /// Those on a file with one pawn.
    pub half_open: u32,
}

/// Counts the rooks of side `team_idx` on files without pawns and on files
/// with one pawn.
pub fn rook_files(board: &Board, team_idx: usize) -> (files: RookFiles)
    requires
        team_idx < 2,
    ensures
        files.open == rooks_on_files(board, team_idx as int, 0, 8),
        files.half_open == rooks_on_files(board, team_idx as int, 1, 8),
{
    let ghost t = team_idx as int;
    let all_pawns = board.pieces[0][PIECE_PAWN] | board.pieces[1][PIECE_PAWN];
    let rooks = board.pieces[team_idx][PIECE_ROOK];
    let mut open: u32 = 0;
    let mut half_open: u32 = 0;
    let mut x: i64 = 0;
    while x < 8
        invariant
            0 <= x <= 8,
            t == team_idx,
            team_idx < 2,
            all_pawns == board.pieces[0][PIECE_PAWN as int] | board.pieces[1][PIECE_PAWN as int],
            rooks == board.pieces[t][PIECE_ROOK as int],
            open == rooks_on_files(board, t, 0, x as int),
            half_open == rooks_on_files(board, t, 1, x as int),
            open <= 64 * x,
            half_open <= 64 * x,
        decreases 8 - x,
    {
        let file = bm_make_column(x);
        let pawns_in_file = bm_count(all_pawns & file);
        let rooks_in_file = bm_count(rooks & file);
        proof {
            assert forall|c: int| 0 <= c < 64 implies #[trigger] has_sq(all_pawns & file, c) == (
            file_of(c) == x && (board.piece_on(0, PIECE_PAWN as int, c) || board.piece_on(
                1,
                PIECE_PAWN as int,
                c,
            ))) by {
                lemma_has_and(all_pawns, file, c);
                lemma_has_or(
                    board.pieces[0][PIECE_PAWN as int],
                    board.pieces[1][PIECE_PAWN as int],
                    c,
                );
            }
            lemma_count_where(
                all_pawns & file,
                |c: int|
                    file_of(c) == x && (board.piece_on(0, PIECE_PAWN as int, c) || board.piece_on(
                        1,
                        PIECE_PAWN as int,
                        c,
                    )),
                64,
            );
            assert forall|c: int| 0 <= c < 64 implies #[trigger] has_sq(rooks & file, c) == (
            file_of(c) == x && board.piece_on(t, PIECE_ROOK as int, c)) by {
                lemma_has_and(rooks, file, c);
            }
            lemma_count_where(
                rooks & file,
                |c: int| file_of(c) == x && board.piece_on(t, PIECE_ROOK as int, c),
                64,
            );
        }
        if pawns_in_file == 0 {
            open += rooks_in_file;
        } else if pawns_in_file == 1 {
            half_open += rooks_in_file;
        }
        x += 1;
    }
    RookFiles { open, half_open }
}

/// The light squares of the board.
pub const LIGHT_SQUARES: BitMask = 0x55aa_55aa_55aa_55aa;

/// How many pairs there are of a bishop and a pawn of side `team_idx` that
/// stand on squares of the same colour.
pub fn bishop_pawn_pairs(board: &Board, team_idx: usize) -> (pairs: u32)
    requires
        team_idx < 2,
    ensures
        pairs == popcount(board.pieces[team_idx as int][PIECE_BISHOP as int] & LIGHT_SQUARES)
            * popcount(board.pieces[team_idx as int][PIECE_PAWN as int] & LIGHT_SQUARES) + popcount(
            board.pieces[team_idx as int][PIECE_BISHOP as int] & !LIGHT_SQUARES,
        ) * popcount(board.pieces[team_idx as int][PIECE_PAWN as int] & !LIGHT_SQUARES),
{
    let bishops = board.pieces[team_idx][PIECE_BISHOP];
    let pawns = board.pieces[team_idx][PIECE_PAWN];
    let light_bishops = bm_count(bishops & LIGHT_SQUARES);
    let light_pawns = bm_count(pawns & LIGHT_SQUARES);
    let dark_bishops = bm_count(bishops & !LIGHT_SQUARES);
    let dark_pawns = bm_count(pawns & !LIGHT_SQUARES);
    assert(light_bishops * light_pawns <= 4096 && dark_bishops * dark_pawns <= 4096)
        by (nonlinear_arith)
        requires
            light_bishops <= 64,
            light_pawns <= 64,
            dark_bishops <= 64,
            dark_pawns <= 64,
    ;
    light_bishops * light_pawns + dark_bishops * dark_pawns
}

/// How the king of a side is sheltered.
#[derive(Debug, Copy, Clone, PartialEq, Eq, Structural)]
pub struct Shelter {
    /// The pawns of its side on the three squares in front of the king.
    pub near: u32,
    /// The pawns of its side on the three squares one rank further.
    pub far: u32,
    /// The ranks between the king and its side's back rank.
    pub height: u8,
    /// The king's file, from the queen's rook's file on.
    pub file: u8,
    /// The squares that a queen on the king's square would reach over the
    /// pieces of its side.
    pub reach: u32,
}

/// The pawn of side `t` on `c` stands `ranks` ranks in front of the square
/// `k`, on its file or a neighbouring file.
pub open spec fn shelters(board: &Board, t: int, k: int, ranks: int, c: int) -> bool {
    board.piece_on(t, PIECE_PAWN as int, c) && near_file(k, c) && rank_of(c) == rank_of(k) + ranks
        * pawn_dy(t)
}

/// How the king of side `t` is sheltered.
pub open spec fn spec_shelter(board: &Board, t: int) -> Shelter {
    let k = board.king_sq(t);
    Shelter {
        near: count_where(|c: int| shelters(board, t, k, 1, c), 64) as u32,
        far: count_where(|c: int| shelters(board, t, k, 2, c), 64) as u32,
        height: (if t == 0 {
            rank_of(k)
        } else {
            7 - rank_of(k)
        }) as u8,
        file: file_of(k) as u8,
        reach: count_where(
            |c: int|
                piece_attacks(
                    PIECE_QUEEN as int,
                    k,
                    board.occupancy[t] & !board.pieces[t][PIECE_KING as int],
                    c,
                ),
            64,
        ) as u32,
    }
}

/// The pawns in `pawns` on rank `y`, on file `x` or a neighbouring file;
/// none where the board has no such rank.
fn pawns_before(pawns: BitMask, x: i64, y: i64) -> (count: u32)
    requires
        0 <= x < 8,
        -2 <= y < 10,
    ensures
        count == count_where(
            |c: int| has_sq(pawns, c) && abs(x - file_of(c)) <= 1 && rank_of(c) == y,
            64,
        ),
        count <= 64,
{
    let squares = if 0 <= y && y < 8 {
        files_around(x) & bm_make_row(y)
    } else {
        0
    };
    proof {
        assert forall|c: int| 0 <= c < 64 implies #[trigger] has_sq(pawns & squares, c) == (has_sq(
            pawns,
            c,
        ) && abs(x - file_of(c)) <= 1 && rank_of(c) == y) by {
            lemma_has_and(pawns, squares, c);
            lemma_has_zero(c);
            if 0 <= y && y < 8 {
                let columns = files_around_mask(x as int);
                let row = crate::bitmask::spec_shift(0xff, 0, y as int);
                lemma_has_and(columns, row, c);
            }
        }
        lemma_count_where(
            pawns & squares,
            |c: int| has_sq(pawns, c) && abs(x - file_of(c)) <= 1 && rank_of(c) == y,
            64,
        );
    }
    bm_count(pawns & squares)
}

/// How the king of side `team_idx` is sheltered.
pub fn king_shelter(tables: &Tables, board: &Board, team_idx: usize) -> (shelter: Shelter)
    requires
        tables.wf(),
        team_idx < 2,
        is_square(board.pieces[team_idx as int][PIECE_KING as int]),
    ensures
        shelter == spec_shelter(board, team_idx as int),
{
    let ghost t = team_idx as int;
    let king = board.pieces[team_idx][PIECE_KING];
    let ghost k = lowest_sq(king);
    let king_pos_idx = bm_to_idx(king);
    let (king_x, king_y) = bm_to_xy(king);
    let up_dir: i64 = if team_idx == 0 {
        1
    } else {
        -1
    };
    let pawns = board.pieces[team_idx][PIECE_PAWN];
    let near = pawns_before(pawns, king_x, king_y + up_dir);
    let far = pawns_before(pawns, king_x, king_y + 2 * up_dir);
    let height: i64 = if team_idx == 0 {
        king_y
    } else {
        7 - king_y
    };
    let accessible = get_piece_tos(
        tables,
        PIECE_QUEEN,
        king,
        king_pos_idx,
        board.occupancy[team_idx],
    );
    let reach = bm_count(accessible);
    proof {
        lemma_count_where(
            accessible,
            |c: int|
                piece_attacks(
                    PIECE_QUEEN as int,
                    k,
                    board.occupancy[t] & !board.pieces[t][PIECE_KING as int],
                    c,
                ),
            64,
        );
        crate::bitmask::lemma_count_where_agree(
            |c: int| has_sq(pawns, c) && abs(king_x - file_of(c)) <= 1 && rank_of(c) == king_y + up_dir,
            |c: int| shelters(board, t, k, 1, c),
            64,
        );
        crate::bitmask::lemma_count_where_agree(
            |c: int|
                has_sq(pawns, c) && abs(king_x - file_of(c)) <= 1 && rank_of(c) == king_y + 2
                    * up_dir,
            |c: int| shelters(board, t, k, 2, c),
            64,
        );
    }
    Shelter { near, far, height: height as u8, file: king_x as u8, reach }
}


} // verus!
