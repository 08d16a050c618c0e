//! Magic tables: the attacks of rooks and bishops for every set of blockers,
//! found by one multiplication, one shift and one lookup.

use vstd::prelude::*;
use rand::RngCore;
use crate::bitmask::{
    BitMask, has_sq, group_has_sq, lemma_square, bm_from_idx, bm_to_xy, bm_make_column,
    bm_make_row, bm_count, file_of, rank_of, popcount, count_below, sq_at, lemma_count_rank,
};
use crate::geometry::{
    abs, is_sq, slider_attacks, rook_line, bishop_line, between, clear_between, lemma_line_coords,
};
use crate::lookup_gen::{LookupTables, get_slider_tos_slow};
use crate::board::{PIECE_BISHOP, PIECE_ROOK};

verus! {

/// How to find the attacks of one kind of slider on one square.
#[derive(Debug, Copy, Clone)]
pub struct MagicEntry {
    /// The squares whose pieces can matter.
    pub mask: BitMask,
    /// The multiplier that spreads the blockers over the top bits.
    pub magic_factor: u64,
    /// How far the product is shifted down.
    pub shift: u8,
    /// Where this square's attacks start in the shared vector.
    pub table_offset: usize,
}

impl MagicEntry {
    /// An entry that is not filled in: its offset is out of every table.
    pub fn new() -> (entry: MagicEntry)
        ensures
            entry.mask == 0,
            entry.magic_factor == 0,
            entry.shift == 0,
            entry.table_offset == usize::MAX,
    {
        MagicEntry { mask: 0, magic_factor: 0, shift: 0, table_offset: usize::MAX }
    }

    /// The slot of the blockers `occupy` within this square's part of the vector.
    pub open spec fn spec_slot(&self, occupy: BitMask) -> int {
        ((occupy & self.mask).wrapping_mul(self.magic_factor) >> (self.shift as u64)) as int
    }

    /// The place of the attacks for the blockers `occupy` in the shared vector.
    pub open spec fn spec_index(&self, occupy: BitMask) -> int {
        self.spec_slot(occupy) + self.table_offset
    }

    /// The place of the attacks for the blockers `occupy` in the shared vector.
    pub fn index(&self, occupy: BitMask) -> (idx: usize)
        requires
            self.shift < 64,
            self.spec_index(occupy) <= usize::MAX,
        ensures
            idx == self.spec_index(occupy),
    {
        let hash = (occupy & self.mask).wrapping_mul(self.magic_factor);
        (hash >> (self.shift as u64)) as usize + self.table_offset
    }
}

/// The magic entries of all squares, and the vector of attacks they point into.
pub struct MagicTables {
    pub bishop: [MagicEntry; 64],
    pub rook: [MagicEntry; 64],
    pub all_moves: Vec<BitMask>,
}

impl MagicTables {
    /// The entry `e` finds, for every set of blockers, the attacks of a rook
    /// (`rook`) or else a bishop on square `sq`.
    pub open spec fn entry_ok(&self, e: MagicEntry, rook: bool, sq: int) -> bool {
        &&& e.shift < 64
        &&& forall|occ: BitMask|
            0 <= #[trigger] e.spec_index(occ) < self.all_moves@.len() && forall|t: int|
                is_sq(t) ==> #[trigger] has_sq(self.all_moves@[e.spec_index(occ)], t)
                    == slider_attacks(rook, !rook, sq, occ, t)
    }

    /// Every entry finds the right attacks.
    pub open spec fn wf(&self) -> bool {
        &&& forall|sq: int| is_sq(sq) ==> self.entry_ok(#[trigger] self.bishop[sq], false, sq)
        &&& forall|sq: int| is_sq(sq) ==> self.entry_ok(#[trigger] self.rook[sq], true, sq)
    }
}

/// The squares that a bishop on `pos_idx` attacks over the pieces in `occupy`.
pub fn get_bishop_moves(magic: &MagicTables, pos_idx: usize, occupy: BitMask) -> (moves: BitMask)
    requires
        magic.wf(),
        pos_idx < 64,
    ensures
        forall|t: int|
            is_sq(t) ==> #[trigger] has_sq(moves, t) == slider_attacks(
                false,
                true,
                pos_idx as int,
                occupy,
                t,
            ),
{
    let entry = magic.bishop[pos_idx];
    assert(magic.entry_ok(magic.bishop[pos_idx as int], false, pos_idx as int));
    let len = magic.all_moves.len();
    assert(0 <= entry.spec_index(occupy) < len);
    let idx = entry.index(occupy);
    magic.all_moves[idx]
}

/// The squares that a rook on `pos_idx` attacks over the pieces in `occupy`.
pub fn get_rook_moves(magic: &MagicTables, pos_idx: usize, occupy: BitMask) -> (moves: BitMask)
    requires
        magic.wf(),
        pos_idx < 64,
    ensures
        forall|t: int|
            is_sq(t) ==> #[trigger] has_sq(moves, t) == slider_attacks(
                true,
                false,
                pos_idx as int,
                occupy,
                t,
            ),
{
    let entry = magic.rook[pos_idx];
    assert(magic.entry_ok(magic.rook[pos_idx as int], true, pos_idx as int));
    let len = magic.all_moves.len();
    assert(0 <= entry.spec_index(occupy) < len);
    let idx = entry.index(occupy);
    magic.all_moves[idx]
}

proof fn bv_subsets(s: u64, m: u64, t: u64)
    by (bit_vector)
    requires
        s & !m == 0,
    ensures
        (s == m) == ((s | !m) == 0xffff_ffff_ffff_ffffu64),
        t & !m == 0 && t > s ==> s != m,
        s <= m,
{
}

proof fn bv_next_subset(s: u64, m: u64, v: u64, t: u64)
    by (bit_vector)
    requires
        s & !m == 0,
        s != m,
        v == (s | !m) + 1,
    ensures
        (v & m) & !m == 0,
        (v & m) > s,
        t & !m == 0 && t > s ==> (v & m) <= t,
{
}

proof fn bv_slot_bound(h: u64, n: u64)
    by (bit_vector)
    requires
        1 <= n <= 16,
    ensures
        (h >> ((64 - n) as u64)) < (1u64 << n),
        (1u64 << n) <= 65536,
{
}

proof fn bv_slot_small(h: u64, s: u64)
    by (bit_vector)
    requires
        48 <= s < 64,
    ensures
        (h >> s) <= 0xffff,
{
}

proof fn bv_mask_part(occ: u64, m: u64)
    by (bit_vector)
    ensures
        (occ & m) & !m == 0,
        (occ & m) & m == occ & m,
{
}

/// The subsets of `mask`, each once, from the empty one up to the full one
/// in the order of their numbers.
pub fn enumerate_subsets(mask: BitMask) -> (subsets: Vec<BitMask>)
    ensures
        forall|t: BitMask| #![trigger subsets@.contains(t)] subsets@.contains(t) == (t & !mask == 0),
        forall|i: int, j: int|
            0 <= i < j < subsets@.len() ==> #[trigger] subsets@[i] < #[trigger] subsets@[j],
        subsets@.len() >= 1,
{
    let mut subsets: Vec<BitMask> = Vec::new();
    let mut occ_subset: BitMask = 0;
    proof {
        assert(0u64 & !mask == 0) by (bit_vector);
    }
    loop
        invariant_except_break
            occ_subset & !mask == 0,
            forall|t: BitMask|
                #![trigger subsets@.contains(t)]
                subsets@.contains(t) == (t & !mask == 0 && t < occ_subset),
        invariant
            forall|i: int, j: int|
                0 <= i < j < subsets@.len() ==> #[trigger] subsets@[i] < #[trigger] subsets@[j],
        ensures
            forall|t: BitMask|
                #![trigger subsets@.contains(t)]
                subsets@.contains(t) == (t & !mask == 0),
            subsets@.len() >= 1,
        decreases mask - occ_subset,
    {
        let ghost before = subsets@;
        let last = occ_subset;
        subsets.push(last);
        let filled = last | !mask;
        proof {
            bv_subsets(last, mask, 0);
            assert(subsets@[before.len() as int] == last);
            assert forall|i: int, j: int| 0 <= i < j < subsets@.len() implies #[trigger] subsets@[i]
                < #[trigger] subsets@[j] by {
                if j == before.len() {
                    assert(before.contains(before[i]));
                    assert(subsets@[i] == before[i]);
                } else {
                    assert(subsets@[i] == before[i] && subsets@[j] == before[j]);
                }
            }
        }
        if last == mask {
            // The full set is the last.
            proof {
                assert forall|t: BitMask| #![trigger subsets@.contains(t)] subsets@.contains(t)
                    == (t & !mask == 0) by {
                    crate::move_gen::emit::lemma_push_contains(before, last, t);
                    if t & !mask == 0 {
                        bv_subsets(t, mask, 0);
                    }
                }
            }
            break ;
        }
        // The next set: the carry runs through the squares outside the mask.
        let carried = filled + 1;
        occ_subset = carried & mask;
        proof {
            bv_next_subset(last, mask, carried, 0);
            bv_subsets(occ_subset, mask, 0);
            assert forall|t: BitMask| #![trigger subsets@.contains(t)] subsets@.contains(t) == (t
                & !mask == 0 && t < occ_subset) by {
                crate::move_gen::emit::lemma_push_contains(before, last, t);
                bv_next_subset(last, mask, carried, t);
            }
        }
    }
    subsets
}

/// Whether a piece on `c` can matter to a rook (`rook`) or else a bishop on
/// `sq`. For a bishop: `c` is on a diagonal of `sq` and not on the edge of
/// the board. For a rook: `c` is on the file of `sq` and not on the first or
/// last rank, or on the rank of `sq`, another square, and not on the first
/// or last file.
pub open spec fn relevant(rook: bool, sq: int, c: int) -> bool {
    if rook {
        (file_of(c) == file_of(sq) && 0 < rank_of(c) < 7) || (rank_of(c) == rank_of(sq) && 0
            < file_of(c) < 7 && c != sq)
    } else {
        bishop_line(sq, c) && 0 < file_of(c) < 7 && 0 < rank_of(c) < 7
    }
}

/// The squares between a slider and a square it can reach can all matter.
pub open spec fn covers_lines(rook: bool, sq: int, mask: BitMask) -> bool {
    forall|t: int, c: int|
        is_sq(t) && is_sq(c) && (if rook {
            rook_line(sq, t)
        } else {
            bishop_line(sq, t)
        }) && #[trigger] between(sq, t, c) ==> has_sq(mask, c)
}

/// How many squares of the first `k` ranks can matter at most to a slider on
/// rank `y`: for a rook one on each rank and seven more on its own, for a
/// bishop two on each rank.
pub open spec fn rank_bound(rook: bool, y: int, k: int) -> int {
    if rook {
        k + if k > y {
            7int
        } else {
            0int
        }
    } else {
        2 * k
    }
}

/// On a rank other than the rook's own only the square on the rook's file
/// can matter; on any rank only the two squares of a bishop's diagonals.
proof fn lemma_rank_files(rook: bool, sq: int, mask: BitMask, r: int, i: int)
    requires
        is_sq(sq),
        0 <= r < 8,
        0 <= i < 8,
        !rook || r != rank_of(sq),
        forall|c: int| #[trigger] has_sq(mask, c) == (is_sq(c) && relevant(rook, sq, c)),
        has_sq(mask, 8 * r + i),
    ensures
        rook ==> i == file_of(sq),
        !rook ==> i == file_of(sq) - abs(r - rank_of(sq)) || i == file_of(sq) + abs(
            r - rank_of(sq),
        ),
{
    crate::geometry::lemma_sq_at(i, r);
    let c = sq_at(i, r);
    assert(c == 8 * r + i);
    assert(relevant(rook, sq, c));
    assert(file_of(c) == i && rank_of(c) == r);
}

/// The squares of the first `k` ranks that can matter are few.
proof fn lemma_mask_count(rook: bool, sq: int, mask: BitMask, k: int)
    requires
        is_sq(sq),
        0 <= k <= 8,
        forall|c: int| #[trigger] has_sq(mask, c) == (is_sq(c) && relevant(rook, sq, c)),
    ensures
        count_below(mask, 8 * k) <= rank_bound(rook, rank_of(sq), k),
    decreases k,
{
    if k > 0 {
        let r = k - 1;
        lemma_mask_count(rook, sq, mask, r);
        let x = file_of(sq);
        let y = rank_of(sq);
        let d = abs(r - y);
        let a = if rook {
            x
        } else {
            x - d
        };
        let b = if rook {
            x
        } else {
            x + d
        };
        if !rook || r != y {
            assert forall|i: int| 0 <= i < 8 && #[trigger] has_sq(mask, 8 * r + i) implies i == a
                || i == b by {
                lemma_rank_files(rook, sq, mask, r, i);
            }
        }
        lemma_count_rank(mask, r, a, b);
    }
}

/// Between one and sixteen squares can matter to a slider.
proof fn lemma_mask_size(rook: bool, sq: int, mask: BitMask)
    requires
        is_sq(sq),
        forall|c: int| #[trigger] has_sq(mask, c) == (is_sq(c) && relevant(rook, sq, c)),
    ensures
        1 <= popcount(mask) <= 16,
{
    lemma_mask_count(rook, sq, mask, 8);
    let x = file_of(sq);
    let y = rank_of(sq);
    // A square that can matter: for a rook one on its file, for a bishop
    // its neighbour on the diagonal towards the middle of the board.
    let c = if rook {
        sq_at(x, 1)
    } else {
        sq_at(
            if x < 4 {
                x + 1
            } else {
                x - 1
            },
            if y < 4 {
                y + 1
            } else {
                y - 1
            },
        )
    };
    assert(is_sq(c) && relevant(rook, sq, c));
    assert(has_sq(mask, c));
    crate::bitmask::lemma_has_nonzero(mask, c);
    crate::bitmask::lemma_popcount_small(mask);
}

/// The squares whose pieces can matter to a rook on `pos_idx`: those of its
/// file and rank, the last square of each and the rook's own square on its
/// rank left out.
fn rook_mask(pos_idx: usize) -> (mask: BitMask)
    requires
        pos_idx < 64,
    ensures
        forall|c: int| #[trigger] has_sq(mask, c) == (is_sq(c) && relevant(true, pos_idx as int, c)),
        1 <= popcount(mask) <= 16,
        forall|t: int, c: int|
            is_sq(t) && is_sq(c) && rook_line(pos_idx as int, t) && #[trigger] between(
                pos_idx as int,
                t,
                c,
            ) ==> has_sq(mask, c),
{
    broadcast use group_has_sq;

    let pos = bm_from_idx(pos_idx);
    proof {
        lemma_square(pos_idx as int);
    }
    let (x, y) = bm_to_xy(pos);
    let board_edges_x = bm_make_column(0) | bm_make_column(7);
    let board_edges_y = bm_make_row(0) | bm_make_row(7);
    let mask = (bm_make_column(x) & !board_edges_y) | ((bm_make_row(y) & !board_edges_x) & !pos);
    proof {
        assert forall|c: int| #[trigger] has_sq(mask, c) == (is_sq(c) && relevant(
            true,
            pos_idx as int,
            c,
        )) by {
            crate::bitmask::lemma_is_square(pos);
        }
        lemma_mask_size(true, pos_idx as int, mask);
        assert forall|t: int, c: int|
            is_sq(t) && is_sq(c) && rook_line(pos_idx as int, t) && #[trigger] between(
                pos_idx as int,
                t,
                c,
            ) implies has_sq(mask, c) by {
            lemma_line_coords(pos_idx as int, t);
            lemma_line_coords(pos_idx as int, c);
        }
    }
    mask
}

/// The squares whose pieces can matter to a bishop on `pos_idx`: those of
/// its diagonals that are not on the edge of the board.
fn bishop_mask(lookup: &LookupTables, pos_idx: usize) -> (mask: BitMask)
    requires
        lookup.wf(),
        pos_idx < 64,
    ensures
        forall|c: int| #[trigger] has_sq(mask, c) == (is_sq(c) && relevant(false, pos_idx as int, c)),
        1 <= popcount(mask) <= 16,
        forall|t: int, c: int|
            is_sq(t) && is_sq(c) && bishop_line(pos_idx as int, t) && #[trigger] between(
                pos_idx as int,
                t,
                c,
            ) ==> has_sq(mask, c),
{
    broadcast use group_has_sq;

    let board_edges_x = bm_make_column(0) | bm_make_column(7);
    let board_edges_y = bm_make_row(0) | bm_make_row(7);
    assert(lookup.row_ok(pos_idx as int));
    let mask = lookup.bishop_moves[pos_idx] & !board_edges_x & !board_edges_y;
    proof {
        assert forall|c: int| #[trigger] has_sq(mask, c) == (is_sq(c) && relevant(
            false,
            pos_idx as int,
            c,
        )) by {
            if is_sq(c) {
                assert(has_sq(lookup.bishop_moves[pos_idx as int], c) == bishop_line(
                    pos_idx as int,
                    c,
                ));
            }
        }
        lemma_mask_size(false, pos_idx as int, mask);
        assert forall|t: int, c: int|
            is_sq(t) && is_sq(c) && bishop_line(pos_idx as int, t) && #[trigger] between(
                pos_idx as int,
                t,
                c,
            ) implies has_sq(mask, c) by {
            lemma_line_coords(pos_idx as int, t);
            lemma_line_coords(pos_idx as int, c);
            assert(has_sq(lookup.bishop_moves[pos_idx as int], c) == bishop_line(pos_idx as int, c));
        }
    }
    mask
}

/// Pieces on squares that cannot matter do not change what a slider attacks.
proof fn lemma_relevant(rook: bool, sq: int, mask: BitMask, occ: BitMask, t: int)
    requires
        is_sq(sq),
        is_sq(t),
        forall|t2: int, c: int|
            is_sq(t2) && is_sq(c) && (if rook {
                rook_line(sq, t2)
            } else {
                bishop_line(sq, t2)
            }) && #[trigger] between(sq, t2, c) ==> has_sq(mask, c),
    ensures
        slider_attacks(rook, !rook, sq, occ & mask, t) == slider_attacks(rook, !rook, sq, occ, t),
{
    broadcast use group_has_sq;

    if (rook && rook_line(sq, t)) || (!rook && bishop_line(sq, t)) {
        if clear_between(occ, sq, t) {
            assert forall|c: int| is_sq(c) && #[trigger] between(sq, t, c) implies !has_sq(
                occ & mask,
                c,
            ) by {}
        }
        if clear_between(occ & mask, sq, t) {
            assert forall|c: int| is_sq(c) && #[trigger] between(sq, t, c) implies !has_sq(occ, c) by {
                assert(has_sq(mask, c));
                assert(!has_sq(occ & mask, c));
            }
        }
    }
}

/// `RngCore::next_u64` of the crate rand on the thread's generator: a word
/// drawn at random. Nothing is claimed of its value.
#[verifier::external_body]
fn next_u64() -> (word: u64) {
    rand::rngs::ThreadRng::default().next_u64()
}

impl MagicEntry {
    /// No two of the sets `subsets` share a slot.
    pub open spec fn parts(&self, subsets: Seq<BitMask>) -> bool {
        forall|i: int, j: int|
            0 <= i < j < subsets.len() ==> self.spec_slot(#[trigger] subsets[i]) != self.spec_slot(
                #[trigger] subsets[j],
            )
    }

    /// The slot of the blockers `occupy` within this square's part of the vector.
    fn slot(&self, occupy: BitMask) -> (slot: usize)
        requires
            48 <= self.shift < 64,
        ensures
            slot == self.spec_slot(occupy),
    {
        proof {
            bv_slot_small(
                (occupy & self.mask).wrapping_mul(self.magic_factor),
                self.shift as u64,
            );
        }
        ((occupy & self.mask).wrapping_mul(self.magic_factor) >> (self.shift as u64)) as usize
    }
}

/// Whether the entry gives each of the sets `subsets` a slot of its own
/// among the slots of `stamps`. A slot that is taken gets the stamp `stamp`,
/// which no slot has yet.
fn parts_all(
    entry: &MagicEntry,
    subsets: &Vec<BitMask>,
    stamps: &mut Vec<usize>,
    stamp: usize,
    num_bits: u32,
) -> (parted: bool)
    requires
        1 <= num_bits <= 16,
        entry.shift == 64 - num_bits,
        old(stamps)@.len() == (1u64 << (num_bits as u64)),
        forall|i: int| 0 <= i < old(stamps)@.len() ==> #[trigger] old(stamps)@[i] < stamp,
    ensures
        parted == entry.parts(subsets@),
        final(stamps)@.len() == old(stamps)@.len(),
        forall|i: int|
            0 <= i < final(stamps)@.len() ==> #[trigger] final(stamps)@[i] == stamp
                || final(stamps)@[i] == old(stamps)@[i],
        parted ==> forall|i: int|
            0 <= i < final(stamps)@.len() ==> (#[trigger] final(stamps)@[i] == stamp <==> exists|
                j: int,
            | 0 <= j < subsets@.len() && entry.spec_slot(#[trigger] subsets@[j]) == i),
{
    let ghost size = stamps@.len();
    let mut k: usize = 0;
    while k < subsets.len()
        invariant
            k <= subsets@.len(),
            1 <= num_bits <= 16,
            entry.shift == 64 - num_bits,
            size == (1u64 << (num_bits as u64)),
            size == old(stamps)@.len(),
            stamps@.len() == size,
            forall|i: int|
                0 <= i < size ==> #[trigger] stamps@[i] == stamp || stamps@[i] == old(stamps)@[i],
            forall|i: int, j: int|
                0 <= i < j < k ==> entry.spec_slot(#[trigger] subsets@[i]) != entry.spec_slot(
                    #[trigger] subsets@[j],
                ),
            forall|idx: int|
                0 <= idx < size && #[trigger] stamps@[idx] == stamp ==> exists|j: int|
                    0 <= j < k && entry.spec_slot(#[trigger] subsets@[j]) == idx,
            forall|j: int|
                0 <= j < k ==> stamps@[entry.spec_slot(#[trigger] subsets@[j])] == stamp,
        decreases subsets@.len() - k,
    {
        let subset = subsets[k];
        proof {
            bv_slot_bound((subset & entry.mask).wrapping_mul(entry.magic_factor), num_bits as u64);
            assert(entry.spec_slot(subset) < size);
        }
        let idx = entry.slot(subset);
        if stamps[idx] == stamp {
            proof {
                let j = choose|j: int| 0 <= j < k && entry.spec_slot(#[trigger] subsets@[j]) == idx;
                assert(entry.spec_slot(subsets@[j]) == entry.spec_slot(subsets@[k as int]));
            }
            return false;
        }
        let ghost before = stamps@;
        stamps.set(idx, stamp);
        proof {
            assert forall|j: int| 0 <= j < k + 1 implies stamps@[entry.spec_slot(
                #[trigger] subsets@[j],
            )] == stamp by {
                if j < k {
                    assert(before[entry.spec_slot(subsets@[j])] == stamp);
                    bv_slot_bound(
                        (subsets@[j] & entry.mask).wrapping_mul(entry.magic_factor),
                        num_bits as u64,
                    );
                }
            }
            assert forall|idx2: int| 0 <= idx2 < size && #[trigger] stamps@[idx2] == stamp implies exists|
                j: int,
            | 0 <= j < k + 1 && entry.spec_slot(#[trigger] subsets@[j]) == idx2 by {
                if idx2 == idx {
                    assert(entry.spec_slot(subsets@[k as int]) == idx2);
                } else {
                    assert(before[idx2] == stamp);
                    let j = choose|j: int|
                        0 <= j < k && entry.spec_slot(#[trigger] subsets@[j]) == idx2;
                    assert(entry.spec_slot(subsets@[j]) == idx2);
                }
            }
            assert forall|i: int, j: int| 0 <= i < j < k + 1 implies entry.spec_slot(
                #[trigger] subsets@[i],
            ) != entry.spec_slot(#[trigger] subsets@[j]) by {
                if j == k {
                    assert(before[entry.spec_slot(subsets@[i])] == stamp);
                }
            }
        }
        k += 1;
    }
    proof {
        assert forall|i: int| 0 <= i < stamps@.len() implies (#[trigger] stamps@[i] == stamp <==> exists|
            j: int,
        | 0 <= j < subsets@.len() && entry.spec_slot(#[trigger] subsets@[j]) == i) by {
            if exists|j: int| 0 <= j < subsets@.len() && entry.spec_slot(#[trigger] subsets@[j]) == i {
                let j = choose|j: int|
                    0 <= j < subsets@.len() && entry.spec_slot(#[trigger] subsets@[j]) == i;
                assert(stamps@[entry.spec_slot(subsets@[j])] == stamp);
            }
        }
    }
    true
}

impl MagicTables {
    /// The mask of the entry `e` holds the squares that can matter to a rook
    /// (`rook`) or else a bishop on `sq`, its shift leaves as many bits as
    /// the mask has squares, and its multiplier gives every set of blockers
    /// on these squares a slot of its own.
    pub open spec fn entry_shaped(e: MagicEntry, rook: bool, sq: int) -> bool {
        &&& forall|c: int| #[trigger] has_sq(e.mask, c) == (is_sq(c) && relevant(rook, sq, c))
        &&& e.shift == 64 - popcount(e.mask)
        &&& e.perfect()
    }

    /// Every entry has the mask and the shift of its square.
    pub open spec fn shaped(&self) -> bool {
        &&& forall|sq: int|
            is_sq(sq) ==> Self::entry_shaped(#[trigger] self.bishop[sq], false, sq)
        &&& forall|sq: int| is_sq(sq) ==> Self::entry_shaped(#[trigger] self.rook[sq], true, sq)
    }

    /// As `entry_ok`, for the vector `moves`.
    pub open spec fn entry_fits(moves: Seq<BitMask>, e: MagicEntry, rook: bool, sq: int) -> bool {
        &&& e.shift < 64
        &&& forall|occ: BitMask|
            0 <= #[trigger] e.spec_index(occ) < moves.len() && forall|t: int|
                is_sq(t) ==> #[trigger] has_sq(moves[e.spec_index(occ)], t) == slider_attacks(
                    rook,
                    !rook,
                    sq,
                    occ,
                    t,
                )
    }
}

/// An entry that fits a vector fits every vector that begins with it.
proof fn lemma_fits_longer(moves: Seq<BitMask>, longer: Seq<BitMask>, e: MagicEntry, rook: bool, sq: int)
    requires
        MagicTables::entry_fits(moves, e, rook, sq),
        moves.len() <= longer.len(),
        forall|i: int| 0 <= i < moves.len() ==> moves[i] == longer[i],
    ensures
        MagicTables::entry_fits(longer, e, rook, sq),
{
    assert forall|occ: BitMask|
        0 <= #[trigger] e.spec_index(occ) < longer.len() && forall|t: int|
            is_sq(t) ==> #[trigger] has_sq(longer[e.spec_index(occ)], t) == slider_attacks(
                rook,
                !rook,
                sq,
                occ,
                t,
            ) by {
        let i = e.spec_index(occ);
        assert(0 <= i < moves.len());
        assert(moves[i] == longer[i]);
        assert forall|t: int| is_sq(t) implies #[trigger] has_sq(longer[i], t) == slider_attacks(
            rook,
            !rook,
            sq,
            occ,
            t,
        ) by {
            assert(has_sq(moves[i], t) == slider_attacks(rook, !rook, sq, occ, t));
        }
    }
}

/// Appends to `all_moves` the attacks of the slider on `pos_idx` for each of
/// the sets `subsets` of blockers, each in the slot that `entry` gives it.
fn fill_attacks(
    all_moves: &mut Vec<BitMask>,
    entry: &MagicEntry,
    subsets: &Vec<BitMask>,
    rook: bool,
    pos_idx: usize,
    size: usize,
    num_bits: u32,
)
    requires
        pos_idx < 64,
        1 <= num_bits <= 16,
        entry.shift == 64 - num_bits,
        size == (1u64 << (num_bits as u64)),
        entry.table_offset == old(all_moves)@.len(),
        old(all_moves)@.len() + size <= usize::MAX,
        entry.parts(subsets@),
    ensures
        final(all_moves)@.len() == old(all_moves)@.len() + size,
        forall|i: int| 0 <= i < old(all_moves)@.len() ==> final(all_moves)@[i] == old(all_moves)@[i],
        forall|j: int|
            #![trigger subsets@[j]]
            0 <= j < subsets@.len() ==> 0 <= entry.spec_index(subsets@[j]) < final(all_moves)@.len()
                && forall|t: int|
                is_sq(t) ==> #[trigger] has_sq(final(all_moves)@[entry.spec_index(subsets@[j])], t)
                    == slider_attacks(rook, !rook, pos_idx as int, subsets@[j], t),
{
    let ghost start = all_moves@;
    let mut n: usize = 0;
    while n < size
        invariant
            n <= size,
            start.len() + size <= usize::MAX,
            all_moves@.len() == start.len() + n,
            forall|i: int| 0 <= i < start.len() ==> all_moves@[i] == start[i],
        decreases size - n,
    {
        all_moves.push(0);
        n += 1;
    }
    let piece_idx = if rook {
        PIECE_ROOK
    } else {
        PIECE_BISHOP
    };
    let mut k: usize = 0;
    while k < subsets.len()
        invariant
            k <= subsets@.len(),
            pos_idx < 64,
            1 <= num_bits <= 16,
            entry.shift == 64 - num_bits,
            size == (1u64 << (num_bits as u64)),
            entry.table_offset == start.len(),
            start.len() + size <= usize::MAX,
            all_moves@.len() == start.len() + size,
            piece_idx == (if rook {
                PIECE_ROOK
            } else {
                PIECE_BISHOP
            }),
            entry.parts(subsets@),
            forall|i: int| 0 <= i < start.len() ==> all_moves@[i] == start[i],
            forall|j: int|
                #![trigger subsets@[j]]
                0 <= j < k ==> 0 <= entry.spec_index(subsets@[j]) < all_moves@.len() && forall|
                    t: int,
                |
                    is_sq(t) ==> #[trigger] has_sq(all_moves@[entry.spec_index(subsets@[j])], t)
                        == slider_attacks(rook, !rook, pos_idx as int, subsets@[j], t),
        decreases subsets@.len() - k,
    {
        let subset = subsets[k];
        proof {
            bv_slot_bound((subset & entry.mask).wrapping_mul(entry.magic_factor), num_bits as u64);
        }
        assert(entry.spec_slot(subset) < size);
        let idx = entry.slot(subset) + entry.table_offset;
        let valid_moves = get_slider_tos_slow(piece_idx, pos_idx, subset);
        let ghost before = all_moves@;
        all_moves.set(idx, valid_moves);
        proof {
            assert forall|j: int| #![trigger subsets@[j]] 0 <= j < k + 1 implies 0
                <= entry.spec_index(subsets@[j]) < all_moves@.len() && forall|t: int|
                is_sq(t) ==> #[trigger] has_sq(all_moves@[entry.spec_index(subsets@[j])], t)
                    == slider_attacks(rook, !rook, pos_idx as int, subsets@[j], t) by {
                if j < k {
                    assert(entry.spec_slot(subsets@[j]) != entry.spec_slot(subsets@[k as int]));
                    let i = entry.spec_index(subsets@[j]);
                    assert(all_moves@[i] == before[i]);
                    assert forall|t: int| is_sq(t) implies #[trigger] has_sq(all_moves@[i], t)
                        == slider_attacks(rook, !rook, pos_idx as int, subsets@[j], t) by {
                        assert(has_sq(before[i], t) == slider_attacks(
                            rook,
                            !rook,
                            pos_idx as int,
                            subsets@[j],
                            t,
                        ));
                    }
                }
            }
        }
        k += 1;
    }
}

/// `mask` holds exactly the squares that can matter to the slider on `sq`.
pub open spec fn is_relevant_mask(rook: bool, sq: int, mask: BitMask) -> bool {
    forall|c: int| #[trigger] has_sq(mask, c) == (is_sq(c) && relevant(rook, sq, c))
}

/// The mask of the squares that can matter to the slider on `sq`.
pub open spec fn relevant_mask(rook: bool, sq: int) -> BitMask {
    choose|mask: BitMask| is_relevant_mask(rook, sq, mask)
}

/// There is one mask of the squares that can matter.
pub proof fn lemma_relevant_mask(rook: bool, sq: int, mask: BitMask)
    requires
        is_relevant_mask(rook, sq, mask),
    ensures
        mask == relevant_mask(rook, sq),
{
    let other = relevant_mask(rook, sq);
    assert(is_relevant_mask(rook, sq, other));
    crate::bitmask::lemma_ext(mask, other);
}

impl MagicEntry {
    /// The entry gives every set of blockers on the squares of its mask a
    /// slot of its own.
    pub open spec fn perfect(&self) -> bool {
        forall|a: BitMask, b: BitMask|
            a & !self.mask == 0 && b & !self.mask == 0 && a != b ==> #[trigger] self.spec_slot(a)
                != #[trigger] self.spec_slot(b)
    }

    /// To part the subsets of the mask, listed each once, is to give every
    /// set of blockers a slot of its own.
    pub proof fn lemma_parts_all(&self, subsets: Seq<BitMask>)
        requires
            forall|t: BitMask|
                #![trigger subsets.contains(t)]
                subsets.contains(t) == (t & !self.mask == 0),
            forall|i: int, j: int|
                0 <= i < j < subsets.len() ==> #[trigger] subsets[i] < #[trigger] subsets[j],
        ensures
            self.parts(subsets) == self.perfect(),
    {
        if self.parts(subsets) {
            assert forall|a: BitMask, b: BitMask|
                a & !self.mask == 0 && b & !self.mask == 0 && a != b implies #[trigger] self.spec_slot(
                a,
            ) != #[trigger] self.spec_slot(b) by {
                assert(subsets.contains(a));
                assert(subsets.contains(b));
                let i = choose|i: int| 0 <= i < subsets.len() && subsets[i] == a;
                let j = choose|j: int| 0 <= j < subsets.len() && subsets[j] == b;
                if i < j {
                    assert(self.spec_slot(subsets[i]) != self.spec_slot(subsets[j]));
                } else {
                    assert(self.spec_slot(subsets[j]) != self.spec_slot(subsets[i]));
                }
            }
        }
        if self.perfect() {
            assert forall|i: int, j: int| 0 <= i < j < subsets.len() implies self.spec_slot(
                #[trigger] subsets[i],
            ) != self.spec_slot(#[trigger] subsets[j]) by {
                assert(subsets.contains(subsets[i]));
                assert(subsets.contains(subsets[j]));
                assert(subsets[i] < subsets[j]);
            }
        }
    }
}

/// An entry whose slots hold the attacks for every subset of its mask finds
/// the attacks for every set of blockers: the blockers off the mask do not
/// matter.
proof fn lemma_entry_fits(
    moves: Seq<BitMask>,
    e: MagicEntry,
    subsets: Seq<BitMask>,
    rook: bool,
    sq: int,
)
    requires
        is_sq(sq),
        e.shift < 64,
        holds_attacks(moves, e, subsets, rook, sq),
        covers_lines(rook, sq, e.mask),
        forall|t: BitMask| #![trigger subsets.contains(t)] subsets.contains(t) == (t & !e.mask == 0),
    ensures
        MagicTables::entry_fits(moves, e, rook, sq),
{
    let mask = e.mask;
    assert forall|occ: BitMask|
        0 <= #[trigger] e.spec_index(occ) < moves.len() && forall|t: int|
            is_sq(t) ==> #[trigger] has_sq(moves[e.spec_index(occ)], t) == slider_attacks(
                rook,
                !rook,
                sq,
                occ,
                t,
            ) by {
        let part = occ & mask;
        bv_mask_part(occ, mask);
        assert(subsets.contains(part));
        let j = choose|j: int| 0 <= j < subsets.len() && subsets[j] == part;
        assert(e.spec_index(occ) == e.spec_index(subsets[j]));
        assert forall|t: int| is_sq(t) implies #[trigger] has_sq(moves[e.spec_index(occ)], t)
            == slider_attacks(rook, !rook, sq, occ, t) by {
            lemma_relevant(rook, sq, mask, occ, t);
            assert(has_sq(moves[e.spec_index(subsets[j])], t) == slider_attacks(
                rook,
                !rook,
                sq,
                subsets[j],
                t,
            ));
        }
    }
}

/// The entry for the squares `mask` that can matter, with the multiplier
/// `factor`, whose attacks start at `offset` in the shared vector. Its shift
/// leaves as many bits as the mask has squares.
pub open spec fn candidate(mask: BitMask, factor: u64, offset: usize) -> MagicEntry {
    MagicEntry {
        mask,
        magic_factor: factor,
        shift: (64 - popcount(mask)) as u8,
        table_offset: offset,
    }
}

/// The attacks of the slider on `sq` for each of the sets `subsets` of
/// blockers stand in `moves` where `entry` looks for them.
pub open spec fn holds_attacks(
    moves: Seq<BitMask>,
    entry: MagicEntry,
    subsets: Seq<BitMask>,
    rook: bool,
    sq: int,
) -> bool {
    forall|j: int|
        #![trigger subsets[j]]
        0 <= j < subsets.len() ==> 0 <= entry.spec_index(subsets[j]) < moves.len() && forall|t: int|
            is_sq(t) ==> #[trigger] has_sq(moves[entry.spec_index(subsets[j])], t)
                == slider_attacks(rook, !rook, sq, subsets[j], t)
}

/// Tries the multiplier `factor` for a rook (`rook`) or else a bishop on
/// `pos_idx`, whose squares that can matter are `mask`. Where it gives each
/// of the sets `subsets` of blockers a slot of its own, the entry with this
/// multiplier is returned, and `all_moves` has grown by this square's slots,
/// with the attacks for each set in the slot of the set. Where two sets
/// share a slot, nothing is returned and `all_moves` stays as it is.
///
/// `stamps` has one place for each slot. A slot that a set takes gets the
/// stamp `stamp`, which no slot has yet; the others keep theirs.
pub fn try_factor(
    all_moves: &mut Vec<BitMask>,
    subsets: &Vec<BitMask>,
    stamps: &mut Vec<usize>,
    stamp: usize,
    rook: bool,
    pos_idx: usize,
    mask: BitMask,
    factor: u64,
) -> (found: Option<MagicEntry>)
    requires
        pos_idx < 64,
        1 <= popcount(mask) <= 16,
        old(stamps)@.len() == (1u64 << (popcount(mask) as u64)),
        forall|i: int| 0 <= i < old(stamps)@.len() ==> #[trigger] old(stamps)@[i] < stamp,
        old(all_moves)@.len() + old(stamps)@.len() <= usize::MAX,
    ensures
        found == (if candidate(mask, factor, old(all_moves)@.len() as usize).parts(subsets@) {
            Some(candidate(mask, factor, old(all_moves)@.len() as usize))
        } else {
            None::<MagicEntry>
        }),
        final(stamps)@.len() == old(stamps)@.len(),
        forall|i: int|
            0 <= i < final(stamps)@.len() ==> #[trigger] final(stamps)@[i] == stamp
                || final(stamps)@[i] == old(stamps)@[i],
        found is None ==> final(all_moves)@ == old(all_moves)@,
        found matches Some(entry) ==> {
            &&& final(all_moves)@.len() == old(all_moves)@.len() + old(stamps)@.len()
            &&& forall|i: int|
                0 <= i < old(all_moves)@.len() ==> final(all_moves)@[i] == old(all_moves)@[i]
            &&& holds_attacks(final(all_moves)@, entry, subsets@, rook, pos_idx as int)
        },
{
    let num_bits = bm_count(mask);
    let size = stamps.len();
    let entry = MagicEntry {
        mask,
        magic_factor: factor,
        shift: (64 - num_bits) as u8,
        table_offset: all_moves.len(),
    };
    if parts_all(&entry, subsets, stamps, stamp, num_bits) {
        fill_attacks(all_moves, &entry, subsets, rook, pos_idx, size, num_bits);
        Some(entry)
    } else {
        None
    }
}

/// The squares that can matter to a rook (`rook`) or else a bishop on
/// `pos_idx`.
pub fn relevant_squares(lookup: &LookupTables, rook: bool, pos_idx: usize) -> (mask: BitMask)
    requires
        lookup.wf(),
        pos_idx < 64,
    ensures
        mask == relevant_mask(rook, pos_idx as int),
        is_relevant_mask(rook, pos_idx as int, mask),
        covers_lines(rook, pos_idx as int, mask),
        1 <= popcount(mask) <= 16,
{
    let mask = if rook {
        rook_mask(pos_idx)
    } else {
        bishop_mask(lookup, pos_idx)
    };
    proof {
        lemma_relevant_mask(rook, pos_idx as int, mask);
    }
    mask
}

/// The magic entry of a rook (`rook`) or else a bishop on `pos_idx` with
/// the multiplier `factor`, where this multiplier gives every set of
/// blockers on the squares that can matter a slot of its own and
/// `all_moves` has room for the slots. Then `all_moves` has grown by this
/// square's slots, and the entry finds in them the attacks for every set of
/// blockers. Else nothing is returned and `all_moves` stays as it is.
pub fn entry_with(
    all_moves: &mut Vec<BitMask>,
    lookup: &LookupTables,
    rook: bool,
    pos_idx: usize,
    factor: u64,
) -> (found: Option<MagicEntry>)
    requires
        lookup.wf(),
        pos_idx < 64,
    ensures
        found == (if candidate(
            relevant_mask(rook, pos_idx as int),
            factor,
            old(all_moves)@.len() as usize,
        ).perfect() && old(all_moves)@.len() + (1u64 << (popcount(
            relevant_mask(rook, pos_idx as int),
        ) as u64)) <= usize::MAX {
            Some(
                candidate(relevant_mask(rook, pos_idx as int), factor, old(all_moves)@.len() as usize),
            )
        } else {
            None::<MagicEntry>
        }),
        found is None ==> final(all_moves)@ == old(all_moves)@,
        found matches Some(entry) ==> {
            &&& final(all_moves)@.len() == old(all_moves)@.len() + (1u64 << (popcount(
                entry.mask,
            ) as u64))
            &&& forall|i: int|
                0 <= i < old(all_moves)@.len() ==> final(all_moves)@[i] == old(all_moves)@[i]
            &&& MagicTables::entry_fits(final(all_moves)@, entry, rook, pos_idx as int)
        },
{
    let mask = relevant_squares(lookup, rook, pos_idx);
    let num_bits = bm_count(mask);
    proof {
        bv_slot_bound(0, num_bits as u64);
    }
    let size: usize = (1u64 << (num_bits as u64)) as usize;
    if all_moves.len() > usize::MAX - size {
        return None;
    }
    let subsets = enumerate_subsets(mask);
    let mut stamps: Vec<usize> = Vec::new();
    let mut n: usize = 0;
    while n < size
        invariant
            n <= size,
            stamps@.len() == n,
            forall|i: int| 0 <= i < n ==> #[trigger] stamps@[i] == 0,
        decreases size - n,
    {
        stamps.push(0);
        n += 1;
    }
    proof {
        candidate(mask, factor, all_moves@.len() as usize).lemma_parts_all(subsets@);
    }
    let found = try_factor(all_moves, &subsets, &mut stamps, 1, rook, pos_idx, mask, factor);
    proof {
        if found is Some {
            lemma_entry_fits(all_moves@, found->Some_0, subsets@, rook, pos_idx as int);
        }
    }
    found
}

/// Finds the magic entry of one kind of slider on one square and appends its
/// attacks to `all_moves`. At most `max_tries` multipliers are drawn; the
/// first that parts the sets of blockers is taken. None is returned, and
/// `all_moves` stays as it is, where none of them does.
fn make_entry(
    all_moves: &mut Vec<BitMask>,
    lookup: &LookupTables,
    rook: bool,
    pos_idx: usize,
    max_tries: usize,
) -> (found: Option<MagicEntry>)
    requires
        lookup.wf(),
        pos_idx < 64,
        old(all_moves)@.len() + 65536 <= usize::MAX,
    ensures
        match found {
            Some(entry) => {
                &&& forall|c: int|
                    #[trigger] has_sq(entry.mask, c) == (is_sq(c) && relevant(
                        rook,
                        pos_idx as int,
                        c,
                    ))
                &&& 1 <= popcount(entry.mask) <= 16
                &&& entry.shift == 64 - popcount(entry.mask)
                &&& entry.perfect()
                &&& entry.table_offset == old(all_moves)@.len()
                &&& final(all_moves)@.len() == old(all_moves)@.len() + (1u64 << (popcount(
                    entry.mask,
                ) as u64))
                &&& forall|i: int|
                    0 <= i < old(all_moves)@.len() ==> final(all_moves)@[i] == old(all_moves)@[i]
                &&& MagicTables::entry_fits(final(all_moves)@, entry, rook, pos_idx as int)
            },
            None => final(all_moves)@ == old(all_moves)@,
        },
        max_tries == 0 ==> found is None,
{
    let mask = relevant_squares(lookup, rook, pos_idx);
    let num_bits = bm_count(mask);
    proof {
        bv_slot_bound(0, num_bits as u64);
    }
    let cur_table_size: usize = (1u64 << (num_bits as u64)) as usize;
    let occ_subsets = enumerate_subsets(mask);
    // For each slot, the number of the last try that put a set there.
    let mut stamps: Vec<usize> = Vec::new();
    let mut n: usize = 0;
    while n < cur_table_size
        invariant
            n <= cur_table_size,
            stamps@.len() == n,
            forall|i: int| 0 <= i < n ==> #[trigger] stamps@[i] == 0,
        decreases cur_table_size - n,
    {
        stamps.push(0);
        n += 1;
    }
    let mut tries: usize = 0;
    while tries < max_tries
        invariant
            stamps@.len() == cur_table_size,
            forall|i: int| 0 <= i < stamps@.len() ==> #[trigger] stamps@[i] <= tries,
            num_bits == popcount(mask),
            1 <= num_bits <= 16,
            cur_table_size == (1u64 << (num_bits as u64)),
            all_moves@ == old(all_moves)@,
            all_moves@.len() + cur_table_size <= usize::MAX,
            lookup.wf(),
            pos_idx < 64,
            forall|c: int|
                #[trigger] has_sq(mask, c) == (is_sq(c) && relevant(rook, pos_idx as int, c)),
            forall|t: BitMask|
                #![trigger occ_subsets@.contains(t)]
                occ_subsets@.contains(t) == (t & !mask == 0),
            forall|i: int, j: int|
                0 <= i < j < occ_subsets@.len() ==> #[trigger] occ_subsets@[i]
                    < #[trigger] occ_subsets@[j],
            forall|t2: int, c: int|
                is_sq(t2) && is_sq(c) && (if rook {
                    rook_line(pos_idx as int, t2)
                } else {
                    bishop_line(pos_idx as int, t2)
                }) && #[trigger] between(pos_idx as int, t2, c) ==> has_sq(mask, c),
        decreases max_tries - tries,
    {
        // A multiplier with few bits set.
        let factor = next_u64() & next_u64() & next_u64();
        match try_factor(
            all_moves,
            &occ_subsets,
            &mut stamps,
            tries + 1,
            rook,
            pos_idx,
            mask,
            factor,
        ) {
            Some(magic_entry) => {
                proof {
                    magic_entry.lemma_parts_all(occ_subsets@);
                    lemma_entry_fits(
                        all_moves@,
                        magic_entry,
                        occ_subsets@,
                        rook,
                        pos_idx as int,
                    );
                }
                return Some(magic_entry);
            },
            None => {},
        }
        tries += 1;
    }
    None
}

/// Builds the magic tables: for every square and for rook and bishop a
/// multiplier drawn at random that gives each set of blockers that can
/// matter a slot of its own, and in that slot the attacks for these blockers.
/// At most `max_tries` multipliers are drawn for each; where none of them
/// will do, no tables are returned.
pub fn init(lookup: &LookupTables, max_tries: usize) -> (tables: Option<MagicTables>)
    requires
        lookup.wf(),
    ensures
        tables matches Some(magic) ==> magic.wf() && magic.shaped(),
        max_tries == 0 ==> tables is None,
{
    // Sixty-four squares with at most 65536 slots each for rook and bishop.
    assert(64 * 131072 <= usize::MAX);
    let mut magic = MagicTables {
        bishop: [MagicEntry::new();64],
        rook: [MagicEntry::new();64],
        all_moves: Vec::new(),
    };
    let mut pos_idx: usize = 0;
    while pos_idx < 64
        invariant
            pos_idx <= 64,
            max_tries == 0 ==> pos_idx == 0,
            lookup.wf(),
            magic.all_moves@.len() <= pos_idx * 131072,
            64 * 131072 <= usize::MAX,
            forall|sq: int|
                0 <= sq < pos_idx ==> MagicTables::entry_shaped(
                    #[trigger] magic.bishop[sq],
                    false,
                    sq,
                ),
            forall|sq: int|
                0 <= sq < pos_idx ==> MagicTables::entry_shaped(#[trigger] magic.rook[sq], true, sq),
            forall|sq: int|
                0 <= sq < pos_idx ==> MagicTables::entry_fits(
                    magic.all_moves@,
                    #[trigger] magic.bishop[sq],
                    false,
                    sq,
                ),
            forall|sq: int|
                0 <= sq < pos_idx ==> MagicTables::entry_fits(
                    magic.all_moves@,
                    #[trigger] magic.rook[sq],
                    true,
                    sq,
                ),
        decreases 64 - pos_idx,
    {
        let ghost before = magic;
        let mut all_moves = magic.all_moves;
        let bishop = match make_entry(&mut all_moves, lookup, false, pos_idx, max_tries) {
            Some(entry) => entry,
            None => {
                return None;
            },
        };
        let ghost middle = all_moves@;
        proof {
            bv_slot_bound(0, popcount(bishop.mask) as u64);
        }
        let rook = match make_entry(&mut all_moves, lookup, true, pos_idx, max_tries) {
            Some(entry) => entry,
            None => {
                return None;
            },
        };
        proof {
            bv_slot_bound(0, popcount(rook.mask) as u64);
        }
        let mut bishops = magic.bishop;
        bishops[pos_idx] = bishop;
        let mut rooks = magic.rook;
        rooks[pos_idx] = rook;
        magic = MagicTables { bishop: bishops, rook: rooks, all_moves };
        proof {
            assert forall|sq: int| 0 <= sq < pos_idx + 1 implies MagicTables::entry_shaped(
                #[trigger] magic.bishop[sq],
                false,
                sq,
            ) by {
                if sq < pos_idx {
                    assert(magic.bishop[sq] == before.bishop[sq]);
                }
            }
            assert forall|sq: int| 0 <= sq < pos_idx + 1 implies MagicTables::entry_shaped(
                #[trigger] magic.rook[sq],
                true,
                sq,
            ) by {
                if sq < pos_idx {
                    assert(magic.rook[sq] == before.rook[sq]);
                }
            }
            lemma_fits_longer(middle, magic.all_moves@, bishop, false, pos_idx as int);
            assert forall|sq: int| 0 <= sq < pos_idx + 1 implies MagicTables::entry_fits(
                magic.all_moves@,
                #[trigger] magic.bishop[sq],
                false,
                sq,
            ) by {
                if sq < pos_idx {
                    assert(magic.bishop[sq] == before.bishop[sq]);
                    lemma_fits_longer(before.all_moves@, middle, before.bishop[sq], false, sq);
                    lemma_fits_longer(middle, magic.all_moves@, before.bishop[sq], false, sq);
                }
            }
            assert forall|sq: int| 0 <= sq < pos_idx + 1 implies MagicTables::entry_fits(
                magic.all_moves@,
                #[trigger] magic.rook[sq],
                true,
                sq,
            ) by {
                if sq < pos_idx {
                    assert(magic.rook[sq] == before.rook[sq]);
                    lemma_fits_longer(before.all_moves@, middle, before.rook[sq], true, sq);
                    lemma_fits_longer(middle, magic.all_moves@, before.rook[sq], true, sq);
                }
            }
        }
        pos_idx += 1;
    }
    proof {
        assert forall|sq: int| is_sq(sq) implies magic.entry_ok(
            #[trigger] magic.bishop[sq],
            false,
            sq,
        ) by {
            assert(MagicTables::entry_fits(magic.all_moves@, magic.bishop[sq], false, sq));
        }
        assert forall|sq: int| is_sq(sq) implies magic.entry_ok(#[trigger] magic.rook[sq], true, sq) by {
            assert(MagicTables::entry_fits(magic.all_moves@, magic.rook[sq], true, sq));
        }
    }
    Some(magic)
}


} // verus!
