//! Setting a position up: the starting position, and computing every derived
//! field from the pieces.

use vstd::prelude::*;
use crate::bitmask::{
    BitMask, has_sq, is_square, lowest_sq, rank_of, flip_sq, group_has_sq, lemma_nonempty,
    lemma_square, lemma_only_square, bm_to_idx, bm_make_row, bm_set, bm_flip_vertical,
    bm_iter_bits,
};
use crate::geometry::is_sq;
use crate::board::{
    Board, PIECE_PAWN, PIECE_KNIGHT, PIECE_BISHOP, PIECE_ROOK, PIECE_QUEEN, PIECE_KING,
};
use crate::zobrist::{
    ZobristKeys, pieces_keys, mask_keys, lemma_xor, lemma_mask_keys_none, lemma_mask_keys_toggle,
    lemma_mask_keys_agree, hash_piece, hash_castle_rights, hash_en_passant, hash_turn,
};
use crate::Tables;

verus! {

/// The XOR of the keys in row `(t, p)` of the squares that `mask` holds.
fn mask_hash(keys: &ZobristKeys, t: usize, p: usize, mask: BitMask) -> (hash: u64)
    requires
        t < 2,
        p < 6,
    ensures
        hash == mask_keys(keys.piece[t as int][p as int], mask, 64),
{
    let ghost row = keys.piece[t as int][p as int];
    let mut hash: u64 = 0;
    let mut itr = bm_iter_bits(mask);
    proof {
        broadcast use group_has_sq;

        lemma_mask_keys_none(row, mask & !itr.remaining_mask, 64);
    }
    loop
        invariant
            t < 2,
            p < 6,
            row == keys.piece[t as int][p as int],
            forall|a: int| has_sq(itr.remaining_mask, a) ==> has_sq(mask, a),
            hash == mask_keys(row, mask & !itr.remaining_mask, 64),
        ensures
            itr.remaining_mask == 0,
            hash == mask_keys(row, mask & !itr.remaining_mask, 64),
        decreases itr.remaining_mask,
    {
        let ghost remaining = itr.remaining_mask;
        match itr.next() {
            Some(bit) => {
                let idx = bm_to_idx(bit);
                proof {
                    broadcast use group_has_sq;

                    lemma_nonempty(remaining);
                    lemma_square(lowest_sq(remaining));
                    lemma_xor();
                    lemma_mask_keys_toggle(
                        row,
                        mask & !remaining,
                        mask & !itr.remaining_mask,
                        idx as int,
                        64,
                    );
                }
                hash ^= hash_piece(keys, t, p, idx);
            },
            None => {
                break ;
            },
        }
    }
    proof {
        broadcast use group_has_sq;

        lemma_mask_keys_agree(row, mask & !itr.remaining_mask, mask, 64);
    }
    hash
}

impl Board {
    /// The XOR of the keys of all pieces on their squares.
    fn pieces_hash(&self, keys: &ZobristKeys) -> (hash: u64)
        ensures
            hash == pieces_keys(keys, self.pieces, 12),
    {
        let mut hash: u64 = 0;
        let mut n: usize = 0;
        while n < 12
            invariant
                n <= 12,
                hash == pieces_keys(keys, self.pieces, n as int),
            decreases 12 - n,
        {
            let t = n / 6;
            let p = n % 6;
            hash ^= mask_hash(keys, t, p, self.pieces[t][p]);
            n += 1;
        }
        hash
    }

    /// Every derived field is what follows from the pieces.
    pub open spec fn derived_ok(&self, keys: &ZobristKeys) -> bool {
        &&& self.occupancy_ok()
        &&& self.hash == self.spec_hash(keys)
        &&& self.attacks_ok(0)
        &&& self.attacks_ok(1)
        &&& self.pinned_ok(0)
        &&& self.pinned_ok(1)
        &&& self.checkers_ok(1 - self.turn_idx)
    }

    /// The pieces, the side to move, the rights, the en-passant square and
    /// the counter are those of `other`.
    pub open spec fn same_core(&self, other: &Board) -> bool {
        &&& self.turn_idx == other.turn_idx
        &&& self.pieces == other.pieces
        &&& self.castle_rights == other.castle_rights
        &&& self.en_passant_mask == other.en_passant_mask
        &&& self.half_move_counter == other.half_move_counter
    }

    /// Computes every derived field from the pieces, the rights, the
    /// en-passant square and the side to move: the occupancy, the hash, and
    /// the attacks, pins and checks of both sides.
    pub fn full_update(&mut self, tables: &Tables)
        requires
            tables.wf(),
            old(self).turn_idx < 2,
            is_square(old(self).pieces[0][PIECE_KING as int]),
            is_square(old(self).pieces[1][PIECE_KING as int]),
            old(self).en_passant_mask == 0 || is_square(old(self).en_passant_mask),
        ensures
            final(self).same_core(old(self)),
            final(self).derived_ok(&tables.zobrist),
            old(self).wf_core() ==> final(self).inv(&tables.zobrist),
    {
        let ghost before = *self;
        let keys = &tables.zobrist;
        self.occupancy = [
            self.pieces[0][0] | self.pieces[0][1] | self.pieces[0][2] | self.pieces[0][3]
                | self.pieces[0][4] | self.pieces[0][5],
            self.pieces[1][0] | self.pieces[1][1] | self.pieces[1][2] | self.pieces[1][3]
                | self.pieces[1][4] | self.pieces[1][5],
        ];
        let mut hash = self.pieces_hash(keys);
        hash ^= hash_castle_rights(keys, self.castle_rights);
        hash ^= hash_en_passant(keys, self.en_passant_mask);
        if self.turn_idx == 1 {
            hash ^= hash_turn(keys);
        }
        proof {
            lemma_xor();
        }
        self.hash = hash;
        let turn = self.turn_idx;
        self.update_attacks(tables, turn);
        let ghost first = *self;
        self.update_attacks(tables, 1 - turn);
        proof {
            self.lemma_same_pieces(&first);
            self.lemma_same_pieces(&before);
            if before.wf_core() {
                self.lemma_wf_core_same(&before);
            }
        }
    }

    /// The position at the start of a game.
    pub fn start_pos(tables: &Tables) -> (board: Board)
        requires
            tables.wf(),
        ensures
            board.inv(&tables.zobrist),
            board.derived_ok(&tables.zobrist),
            board.turn_idx == 0,
            board.en_passant_mask == 0,
            board.half_move_counter == 0,
            forall|t: int, side: int|
                0 <= t < 2 && 0 <= side < 2 ==> #[trigger] board.castle_rights[t][side],
            board.at_start(),
    {
        let mut board = Board::new();
        let white = white_start_pieces();
        // Black's pieces mirror White's.
        let black = [
            bm_flip_vertical(white[0]),
            bm_flip_vertical(white[1]),
            bm_flip_vertical(white[2]),
            bm_flip_vertical(white[3]),
            bm_flip_vertical(white[4]),
            bm_flip_vertical(white[5]),
        ];
        board.pieces = [white, black];
        board.castle_rights = [[true;2];2];
        proof {
            board.lemma_start_wf();
        }
        board.full_update(tables);
        board
    }

    /// Whether the pieces stand as at the start of a game.
    pub open spec fn at_start(&self) -> bool {
        &&& forall|sq: int|
            #![trigger self.piece_on(0, 0, sq)]
            #![trigger self.piece_on(0, 1, sq)]
            #![trigger self.piece_on(0, 2, sq)]
            #![trigger self.piece_on(0, 3, sq)]
            #![trigger self.piece_on(0, 4, sq)]
            #![trigger self.piece_on(0, 5, sq)]
            is_sq(sq) ==> {
                &&& self.piece_on(0, PIECE_PAWN as int, sq) == (rank_of(sq) == 1)
                &&& self.piece_on(0, PIECE_KNIGHT as int, sq) == (sq == 1 || sq == 6)
                &&& self.piece_on(0, PIECE_BISHOP as int, sq) == (sq == 2 || sq == 5)
                &&& self.piece_on(0, PIECE_ROOK as int, sq) == (sq == 0 || sq == 7)
                &&& self.piece_on(0, PIECE_QUEEN as int, sq) == (sq == 3)
                &&& self.piece_on(0, PIECE_KING as int, sq) == (sq == 4)
            }
        &&& forall|p: int, sq: int|
            0 <= p < 6 && is_sq(sq) ==> #[trigger] self.piece_on(1, p, sq) == self.piece_on(
                0,
                p,
                flip_sq(sq),
            )
    }

    /// The pieces of the starting position are in order.
    proof fn lemma_start_wf(&self)
        requires
            self.at_start(),
            self.turn_idx == 0,
            self.en_passant_mask == 0,
        ensures
            self.wf_core(),
    {
        assert forall|sq: int| 0 <= sq < 64 implies has_sq(self.pieces[0][PIECE_KING as int], sq)
            == (sq == 4) by {
            assert(self.piece_on(0, PIECE_KING as int, sq) == (sq == 4));
        }
        lemma_only_square(self.pieces[0][PIECE_KING as int], 4);
        assert forall|sq: int| 0 <= sq < 64 implies has_sq(self.pieces[1][PIECE_KING as int], sq)
            == (sq == 60) by {
            assert(self.piece_on(1, PIECE_KING as int, sq) == self.piece_on(
                0,
                PIECE_KING as int,
                flip_sq(sq),
            ));
        }
        lemma_only_square(self.pieces[1][PIECE_KING as int], 60);
        assert(self.pieces_disjoint()) by {
            reveal(Board::pieces_disjoint);
            assert forall|t1: int, p1: int, t2: int, p2: int, sq: int|
                #![trigger self.piece_on(t1, p1, sq), self.piece_on(t2, p2, sq)]
                0 <= t1 < 2 && 0 <= p1 < 6 && 0 <= t2 < 2 && 0 <= p2 < 6 && (t1 != t2 || p1 != p2)
                implies !(self.piece_on(t1, p1, sq) && self.piece_on(t2, p2, sq)) by {
                if self.piece_on(t1, p1, sq) && self.piece_on(t2, p2, sq) {
                    assert(is_sq(sq));
                    assert(is_sq(flip_sq(sq)));
                    self.lemma_start_rank(t1, p1, sq);
                    self.lemma_start_rank(t2, p2, sq);
                }
            }
        }
        assert(self.castle_ok()) by {
            assert(self.piece_on(0, PIECE_KING as int, 4));
            assert(self.piece_on(0, PIECE_ROOK as int, 0));
            assert(self.piece_on(0, PIECE_ROOK as int, 7));
            assert(self.piece_on(1, PIECE_KING as int, 60) == self.piece_on(
                0,
                PIECE_KING as int,
                flip_sq(60),
            ));
            assert(self.piece_on(1, PIECE_ROOK as int, 56) == self.piece_on(
                0,
                PIECE_ROOK as int,
                flip_sq(56),
            ));
            assert(self.piece_on(1, PIECE_ROOK as int, 63) == self.piece_on(
                0,
                PIECE_ROOK as int,
                flip_sq(63),
            ));
        }
    }

    /// Where a piece of the starting position stands: each kind on its own
    /// squares of the side's first two ranks.
    proof fn lemma_start_rank(&self, t: int, p: int, sq: int)
        requires
            self.at_start(),
            0 <= t < 2,
            0 <= p < 6,
            is_sq(sq),
            self.piece_on(t, p, sq),
        ensures
            t == 0 ==> rank_of(sq) <= 1,
            t == 1 ==> rank_of(sq) >= 6,
            p == PIECE_PAWN <==> (rank_of(sq) == 1 || rank_of(sq) == 6),
            p == PIECE_KNIGHT ==> sq % 8 == 1 || sq % 8 == 6,
            p == PIECE_BISHOP ==> sq % 8 == 2 || sq % 8 == 5,
            p == PIECE_ROOK ==> sq % 8 == 0 || sq % 8 == 7,
            p == PIECE_QUEEN ==> sq % 8 == 3,
            p == PIECE_KING ==> sq % 8 == 4,
    {
        let w = if t == 0 {
            sq
        } else {
            flip_sq(sq)
        };
        assert(self.piece_on(0, p, w));
        assert(self.piece_on(0, 0, w) == (rank_of(w) == 1));
        assert(self.piece_on(0, 1, w) == (w == 1 || w == 6));
        assert(self.piece_on(0, 2, w) == (w == 2 || w == 5));
        assert(self.piece_on(0, 3, w) == (w == 0 || w == 7));
        assert(self.piece_on(0, 4, w) == (w == 3));
        assert(self.piece_on(0, 5, w) == (w == 4));
    }
}

/// White's pieces at the start of a game, by kind.
fn white_start_pieces() -> (white: [BitMask; 6])
    ensures
        forall|sq: int|
            #![trigger has_sq(white[0], sq)]
            #![trigger has_sq(white[1], sq)]
            #![trigger has_sq(white[2], sq)]
            #![trigger has_sq(white[3], sq)]
            #![trigger has_sq(white[4], sq)]
            #![trigger has_sq(white[5], sq)]
            is_sq(sq) ==> {
                &&& has_sq(white[0], sq) == (rank_of(sq) == 1)
                &&& has_sq(white[1], sq) == (sq == 1 || sq == 6)
                &&& has_sq(white[2], sq) == (sq == 2 || sq == 5)
                &&& has_sq(white[3], sq) == (sq == 0 || sq == 7)
                &&& has_sq(white[4], sq) == (sq == 3)
                &&& has_sq(white[5], sq) == (sq == 4)
            },
{
    let pawns = bm_make_row(1);
    let mut rooks: BitMask = 0;
    bm_set(&mut rooks, 0, 0, true);
    bm_set(&mut rooks, 7, 0, true);
    let mut knights: BitMask = 0;
    bm_set(&mut knights, 1, 0, true);
    bm_set(&mut knights, 6, 0, true);
    let mut bishops: BitMask = 0;
    bm_set(&mut bishops, 2, 0, true);
    bm_set(&mut bishops, 5, 0, true);
    let mut queen: BitMask = 0;
    bm_set(&mut queen, 3, 0, true);
    let mut king: BitMask = 0;
    bm_set(&mut king, 4, 0, true);
    proof {
        assert forall|sq: int| is_sq(sq) implies !has_sq(0, sq) by {
            crate::bitmask::lemma_has_zero(sq);
        }
    }
    [pawns, knights, bishops, rooks, queen, king]
}

} // verus!
