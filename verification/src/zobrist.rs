//! Zobrist keys: one random 64-bit word for each feature of a position. The
//! hash of a position is the XOR of the keys of the features it has.

use vstd::prelude::*;
use rand::Rng;
use crate::bitmask::{BitMask, has_sq, is_square, lowest_sq, bm_to_idx};
use crate::board::NUM_PIECES;

verus! {

pub type Hash = u64;

/// The keys, drawn once by `init`.
pub struct ZobristKeys {
    /// One key for each side, kind of piece and square.
    pub piece: [[[Hash; 64]; NUM_PIECES]; 2],
    /// One key for each side and each wing (queen's, king's).
    pub castle_rights: [[Hash; 2]; 2],
    /// One key for each square that a pawn can be taken on in passing.
    pub en_passant: [Hash; 64],
    /// The key of Black to move.
    pub turn: Hash,
}

/// The XOR of the keys of the castling rights that are set.
pub open spec fn spec_hash_castle_rights(keys: &ZobristKeys, rights: [[bool; 2]; 2]) -> Hash {
    (if rights[0][0] {
        keys.castle_rights[0][0]
    } else {
        0
    }) ^ (if rights[0][1] {
        keys.castle_rights[0][1]
    } else {
        0
    }) ^ (if rights[1][0] {
        keys.castle_rights[1][0]
    } else {
        0
    }) ^ (if rights[1][1] {
        keys.castle_rights[1][1]
    } else {
        0
    })
}

/// The key of the en-passant square, zero where there is none.
pub open spec fn spec_hash_en_passant(keys: &ZobristKeys, en_passant_mask: BitMask) -> Hash {
    if en_passant_mask != 0 {
        keys.en_passant[lowest_sq(en_passant_mask)]
    } else {
        0
    }
}

/// The XOR of the keys in `row` of the squares below `n` that `mask` holds.
pub open spec fn mask_keys(row: [Hash; 64], mask: BitMask, n: int) -> Hash
    decreases n,
{
    if n <= 0 {
        0
    } else {
        mask_keys(row, mask, n - 1) ^ (if has_sq(mask, n - 1) {
            row[n - 1]
        } else {
            0
        })
    }
}

/// The XOR of the keys of all pieces on the first `n` of the twelve piece
/// boards, White's six first.
pub open spec fn pieces_keys(keys: &ZobristKeys, pieces: [[BitMask; NUM_PIECES]; 2], n: int) -> Hash
    decreases n,
{
    if n <= 0 {
        0
    } else {
        pieces_keys(keys, pieces, n - 1) ^ mask_keys(
            keys.piece[(n - 1) / 6][(n - 1) % 6],
            pieces[(n - 1) / 6][(n - 1) % 6],
            64,
        )
    }
}

pub proof fn lemma_xor()
    by (bit_vector)
    ensures
        forall|a: u64, b: u64| #[trigger] (a ^ b) == b ^ a,
        forall|a: u64, b: u64, c: u64| #[trigger] ((a ^ b) ^ c) == a ^ (b ^ c),
        forall|a: u64| #[trigger] (a ^ a) == 0,
        forall|a: u64| #[trigger] (a ^ 0) == a,
        forall|a: u64| #[trigger] (0 ^ a) == a,
{
}

/// Masks that agree below `n` give the same keys there.
pub proof fn lemma_mask_keys_agree(row: [Hash; 64], a: BitMask, b: BitMask, n: int)
    requires
        forall|sq: int| 0 <= sq < n ==> has_sq(a, sq) == has_sq(b, sq),
    ensures
        mask_keys(row, a, n) == mask_keys(row, b, n),
    decreases n,
{
    if n > 0 {
        lemma_mask_keys_agree(row, a, b, n - 1);
    }
}

/// A mask that holds nothing below `n` gives no key there.
pub proof fn lemma_mask_keys_none(row: [Hash; 64], a: BitMask, n: int)
    requires
        forall|sq: int| 0 <= sq < n ==> !has_sq(a, sq),
    ensures
        mask_keys(row, a, n) == 0,
    decreases n,
{
    lemma_xor();
    if n > 0 {
        lemma_mask_keys_none(row, a, n - 1);
    }
}

/// Putting one square into a mask, or taking it out, XORs its key in.
pub proof fn lemma_mask_keys_toggle(row: [Hash; 64], a: BitMask, b: BitMask, sq: int, n: int)
    requires
        0 <= sq < 64,
        0 <= n <= 64,
        forall|k: int| 0 <= k < 64 && k != sq ==> has_sq(a, k) == has_sq(b, k),
        has_sq(a, sq) != has_sq(b, sq),
    ensures
        mask_keys(row, b, n) == mask_keys(row, a, n) ^ (if sq < n {
            row[sq]
        } else {
            0
        }),
    decreases n,
{
    lemma_xor();
    if n > 0 {
        lemma_mask_keys_toggle(row, a, b, sq, n - 1);
    }
}

/// Piece boards that are the same on the first `n` boards give the same keys.
pub proof fn lemma_pieces_keys_agree(
    keys: &ZobristKeys,
    a: [[BitMask; NUM_PIECES]; 2],
    b: [[BitMask; NUM_PIECES]; 2],
    n: int,
)
    requires
        0 <= n <= 12,
        forall|t: int, p: int| 0 <= t < 2 && 0 <= p < 6 && 6 * t + p < n ==> #[trigger] a[t][p] == b[t][p],
    ensures
        pieces_keys(keys, a, n) == pieces_keys(keys, b, n),
    decreases n,
{
    if n > 0 {
        lemma_pieces_keys_agree(keys, a, b, n - 1);
        assert(a[(n - 1) / 6][(n - 1) % 6] == b[(n - 1) / 6][(n - 1) % 6]);
    }
}

/// Changing one piece board by one square XORs that piece's key in.
pub proof fn lemma_pieces_keys_toggle(
    keys: &ZobristKeys,
    a: [[BitMask; NUM_PIECES]; 2],
    b: [[BitMask; NUM_PIECES]; 2],
    t: int,
    p: int,
    sq: int,
    n: int,
)
    requires
        0 <= t < 2,
        0 <= p < 6,
        0 <= sq < 64,
        0 <= n <= 12,
        forall|t2: int, p2: int|
            0 <= t2 < 2 && 0 <= p2 < 6 && !(t2 == t && p2 == p) ==> #[trigger] a[t2][p2] == b[t2][p2],
        forall|k: int| 0 <= k < 64 && k != sq ==> has_sq(a[t][p], k) == has_sq(b[t][p], k),
        has_sq(a[t][p], sq) != has_sq(b[t][p], sq),
    ensures
        pieces_keys(keys, b, n) == pieces_keys(keys, a, n) ^ (if 6 * t + p < n {
            keys.piece[t][p][sq]
        } else {
            0
        }),
    decreases n,
{
    lemma_xor();
    if n > 0 {
        lemma_pieces_keys_toggle(keys, a, b, t, p, sq, n - 1);
        let i = n - 1;
        if i == 6 * t + p {
            assert(i / 6 == t && i % 6 == p);
            lemma_mask_keys_toggle(keys.piece[t][p], a[t][p], b[t][p], sq, 64);
        } else {
            assert(a[i / 6][i % 6] == b[i / 6][i % 6]);
        }
    }
}

/// The key of a piece of kind `piece_idx` of side `team_idx` on square `pos_idx`.
pub fn hash_piece(keys: &ZobristKeys, team_idx: usize, piece_idx: usize, pos_idx: usize) -> (hash:
    Hash)
    requires
        team_idx < 2,
        piece_idx < NUM_PIECES,
        pos_idx < 64,
    ensures
        hash == keys.piece[team_idx as int][piece_idx as int][pos_idx as int],
{
    keys.piece[team_idx][piece_idx][pos_idx]
}

/// The XOR of the keys of the castling rights that are set.
pub fn hash_castle_rights(keys: &ZobristKeys, castle_rights: [[bool; 2]; 2]) -> (hash: Hash)
    ensures
        hash == spec_hash_castle_rights(keys, castle_rights),
{
    let mut result: Hash = 0;
    proof {
        lemma_xor();
    }
    if castle_rights[0][0] {
        result ^= keys.castle_rights[0][0];
    }
    if castle_rights[0][1] {
        result ^= keys.castle_rights[0][1];
    }
    if castle_rights[1][0] {
        result ^= keys.castle_rights[1][0];
    }
    if castle_rights[1][1] {
        result ^= keys.castle_rights[1][1];
    }
    result
}

/// The key of the en-passant square, zero where there is none.
pub fn hash_en_passant(keys: &ZobristKeys, en_passant_mask: BitMask) -> (hash: Hash)
    requires
        en_passant_mask == 0 || is_square(en_passant_mask),
    ensures
        hash == spec_hash_en_passant(keys, en_passant_mask),
{
    if en_passant_mask != 0 {
        keys.en_passant[bm_to_idx(en_passant_mask)]
    } else {
        0
    }
}

/// The key of Black to move.
pub fn hash_turn(keys: &ZobristKeys) -> (hash: Hash)
    ensures
        hash == keys.turn,
{
    keys.turn
}

/// `Rng::random::<u64>` of the crate rand on the thread's generator
/// (`rand::rng`): a word drawn at random. Nothing is claimed of its value.
#[verifier::external_body]
fn random_hash() -> (hash: Hash) {
    rand::rng().random::<Hash>()
}

/// Draws all keys at random.
pub fn init() -> (keys: ZobristKeys) {
    let mut keys = ZobristKeys {
        piece: [[[0;64];NUM_PIECES];2],
        castle_rights: [[0;2];2],
        en_passant: [0;64],
        turn: 0,
    };
    for i in 0..2usize {
        for j in 0..NUM_PIECES
            invariant
                i < 2,
        {
            for k in 0..64usize
                invariant
                    i < 2,
                    j < NUM_PIECES,
            {
                keys.piece[i][j][k] = random_hash();
            }
        }
        for j in 0..2usize
            invariant
                i < 2,
        {
            keys.castle_rights[i][j] = random_hash();
        }
    }
    for i in 0..64usize {
        keys.en_passant[i] = random_hash();
    }
    keys.turn = random_hash();
    keys
}

} // verus!
