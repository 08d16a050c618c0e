//! Sets of board squares held in one 64-bit word.
//!
//! Square `sq` (0..64) stands on file `sq % 8` and rank `sq / 8`; rank 0 is
//! White's back rank. A mask holds a square when the bit of that index is set.

use vstd::prelude::*;
use vstd::std_specs::bits::u64_trailing_zeros;
use vstd::std_specs::bits::axiom_u64_trailing_zeros;

verus! {

pub type BitMask = u64;

/// The mask that holds the single square `sq`.
pub open spec fn sq_mask(sq: int) -> BitMask {
    1u64 << (sq as u64)
}

/// Whether `mask` holds the square `sq`.
pub open spec fn has_sq(mask: BitMask, sq: int) -> bool {
    0 <= sq < 64 && (mask >> (sq as u64)) & 1 == 1
}

/// The lowest square of a non-empty mask (64 for the empty mask).
pub open spec fn lowest_sq(mask: BitMask) -> int {
    u64_trailing_zeros(mask) as int
}

/// Whether `mask` holds exactly one square.
pub open spec fn is_square(mask: BitMask) -> bool {
    0 <= lowest_sq(mask) < 64 && mask == sq_mask(lowest_sq(mask))
}

/// File of a square.
pub open spec fn file_of(sq: int) -> int {
    sq % 8
}

/// Rank of a square.
pub open spec fn rank_of(sq: int) -> int {
    sq / 8
}

/// Whether `(x, y)` names a square of the board.
pub open spec fn on_board(x: int, y: int) -> bool {
    0 <= x < 8 && 0 <= y < 8
}

/// The square at file `x` and rank `y`.
pub open spec fn sq_at(x: int, y: int) -> int {
    x + 8 * y
}

/// Number of squares below `n` that `mask` holds.
pub open spec fn count_below(mask: BitMask, n: int) -> int
    decreases n,
{
    if n <= 0 {
        0
    } else {
        count_below(mask, n - 1) + if has_sq(mask, n - 1) { 1int } else { 0int }
    }
}

/// Number of squares in `mask`.
pub open spec fn popcount(mask: BitMask) -> int {
    count_below(mask, 64)
}

/// The mask moved by `x` files and `y` ranks as one shift of the word, so that
/// squares pushed over the side of the board come back on the neighbouring rank.
pub open spec fn spec_shift(mask: BitMask, x: int, y: int) -> BitMask {
    if x + 8 * y >= 0 {
        mask << ((x + 8 * y) as u64)
    } else {
        mask >> ((-(x + 8 * y)) as u64)
    }
}

/// The square that the vertical flip of the board sends `sq` to.
pub open spec fn flip_sq(sq: int) -> int {
    sq_at(file_of(sq), 7 - rank_of(sq))
}

// ---------------------------------------------------------------------------
// Bit-level facts

proof fn bv_connectives(a: u64, b: u64, k: u64)
    by (bit_vector)
    requires
        k < 64,
    ensures
        (((a | b) >> k) & 1 == 1) == (((a >> k) & 1 == 1) || ((b >> k) & 1 == 1)),
        (((a & b) >> k) & 1 == 1) == (((a >> k) & 1 == 1) && ((b >> k) & 1 == 1)),
        (((a ^ b) >> k) & 1 == 1) == (((a >> k) & 1 == 1) != ((b >> k) & 1 == 1)),
        (((!a) >> k) & 1 == 1) == !((a >> k) & 1 == 1),
        ((0u64 >> k) & 1 == 1) == false,
        ((0xffff_ffff_ffff_ffffu64 >> k) & 1 == 1) == true,
        ((a >> k) & 1 == 1) == (a & (1u64 << k) != 0),
        ((a >> k) & 1 == 1) ==> a != 0,
{
}

proof fn bv_shifts(a: u64, s: u64, k: u64)
    by (bit_vector)
    requires
        k < 64,
        s < 64,
    ensures
        (((a << s) >> k) & 1 == 1) == (k >= s && ((a >> ((k - s) as u64)) & 1 == 1)),
        (((a >> s) >> k) & 1 == 1) == (k + s < 64 && ((a >> ((k + s) as u64)) & 1 == 1)),
        (((1u64 << s) >> k) & 1 == 1) == (k == s),
{
}

proof fn bv_ext_step(a: u64, b: u64, n: u64)
    by (bit_vector)
    requires
        n < 64,
        n < 63 ==> (a >> ((n + 1) as u64)) == (b >> ((n + 1) as u64)),
        ((a >> n) & 1 == 1) == ((b >> n) & 1 == 1),
    ensures
        a >> n == b >> n,
        n == 0 ==> a == b,
{
}

proof fn bv_lowest(m: u64, t: u64)
    by (bit_vector)
    requires
        m != 0,
        t < 64,
        (m >> t) & 1 == 1,
        m << ((64 - t) as u64) == 0 || t == 0,
    ensures
        m & !((m - 1) as u64) == 1u64 << t,
        m & ((m - 1) as u64) == m & !(1u64 << t),
        m & !(1u64 << t) < m,
{
}

proof fn bv_flip(m: u64, k: u64)
    by (bit_vector)
    requires
        k < 64,
    ensures
        ((((m & 0xff) << 56) | ((m & 0xff00) << 40) | ((m & 0xff_0000) << 24) | ((m & 0xff00_0000)
            << 8) | ((m >> 8) & 0xff00_0000) | ((m >> 24) & 0xff_0000) | ((m >> 40) & 0xff00) | ((m
            >> 56) & 0xff)) >> k) & 1 == 1 <==> (m >> (((k % 8) + 8 * (7 - k / 8)) as u64)) & 1
            == 1,
{
}

proof fn bv_row_column(x: u64, k: u64)
    by (bit_vector)
    requires
        k < 64,
        x < 8,
    ensures
        (((0xffu64 << ((8 * x) as u64)) >> k) & 1 == 1) == (k / 8 == x),
        (((0x0101_0101_0101_0101u64 << x) >> k) & 1 == 1) == (k % 8 == x),
{
}

pub broadcast proof fn lemma_has_or(a: BitMask, b: BitMask, sq: int)
    ensures
        #[trigger] has_sq(a | b, sq) == (has_sq(a, sq) || has_sq(b, sq)),
{
    if 0 <= sq < 64 {
        bv_connectives(a, b, sq as u64);
    }
}

pub broadcast proof fn lemma_has_and(a: BitMask, b: BitMask, sq: int)
    ensures
        #[trigger] has_sq(a & b, sq) == (has_sq(a, sq) && has_sq(b, sq)),
{
    if 0 <= sq < 64 {
        bv_connectives(a, b, sq as u64);
    }
}

pub broadcast proof fn lemma_has_xor(a: BitMask, b: BitMask, sq: int)
    ensures
        #[trigger] has_sq(a ^ b, sq) == (has_sq(a, sq) != has_sq(b, sq)),
{
    if 0 <= sq < 64 {
        bv_connectives(a, b, sq as u64);
    }
}

pub broadcast proof fn lemma_has_not(a: BitMask, sq: int)
    ensures
        #[trigger] has_sq(!a, sq) == (0 <= sq < 64 && !has_sq(a, sq)),
{
    if 0 <= sq < 64 {
        bv_connectives(a, a, sq as u64);
    }
}

pub broadcast proof fn lemma_has_zero(sq: int)
    ensures
        !#[trigger] has_sq(0, sq),
{
    if 0 <= sq < 64 {
        bv_connectives(0, 0, sq as u64);
    }
}

pub broadcast proof fn lemma_has_full(sq: int)
    ensures
        #[trigger] has_sq(0xffff_ffff_ffff_ffff, sq) == (0 <= sq < 64),
{
    if 0 <= sq < 64 {
        bv_connectives(0, 0, sq as u64);
    }
}

pub broadcast proof fn lemma_has_sq_mask(a: int, sq: int)
    requires
        0 <= a < 64,
    ensures
        #[trigger] has_sq(sq_mask(a), sq) == (sq == a),
{
    if 0 <= sq < 64 {
        bv_shifts(0, a as u64, sq as u64);
    }
}

pub broadcast proof fn lemma_has_shl(a: BitMask, s: u64, sq: int)
    requires
        s < 64,
    ensures
        #[trigger] has_sq(a << s, sq) == (sq < 64 && has_sq(a, sq - s)),
{
    if 0 <= sq < 64 {
        bv_shifts(a, s, sq as u64);
    }
}

pub broadcast proof fn lemma_has_shr(a: BitMask, s: u64, sq: int)
    requires
        s < 64,
    ensures
        #[trigger] has_sq(a >> s, sq) == (0 <= sq && has_sq(a, sq + s)),
{
    if 0 <= sq < 64 {
        bv_shifts(a, s, sq as u64);
    }
}

/// Membership tested with a single-square mask, as the executable code does.
pub proof fn lemma_has_test(a: BitMask, sq: int)
    requires
        0 <= sq < 64,
    ensures
        has_sq(a, sq) == (a & sq_mask(sq) != 0),
{
    bv_connectives(a, a, sq as u64);
}

pub broadcast group group_has_sq {
    lemma_has_or,
    lemma_has_and,
    lemma_has_xor,
    lemma_has_not,
    lemma_has_zero,
    lemma_has_full,
    lemma_has_sq_mask,
    lemma_has_shl,
    lemma_has_shr,
}

proof fn lemma_ext_from(a: BitMask, b: BitMask, n: int)
    requires
        0 <= n < 64,
        forall|sq: int| n <= sq < 64 ==> has_sq(a, sq) == has_sq(b, sq),
    ensures
        a >> (n as u64) == b >> (n as u64),
        n == 0 ==> a == b,
    decreases 64 - n,
{
    if n < 63 {
        lemma_ext_from(a, b, n + 1);
    }
    assert(has_sq(a, n) == has_sq(b, n));
    bv_ext_step(a, b, n as u64);
}

/// Two masks that hold the same squares are the same word.
pub proof fn lemma_ext(a: BitMask, b: BitMask)
    requires
        forall|sq: int| 0 <= sq < 64 ==> has_sq(a, sq) == has_sq(b, sq),
    ensures
        a == b,
{
    lemma_ext_from(a, b, 0);
}

/// A mask without squares is zero.
pub proof fn lemma_empty(a: BitMask)
    requires
        forall|sq: int| 0 <= sq < 64 ==> !has_sq(a, sq),
    ensures
        a == 0,
{
    broadcast use lemma_has_zero;

    lemma_ext(a, 0);
}

/// A non-zero mask holds a square.
pub proof fn lemma_nonempty(a: BitMask)
    requires
        a != 0,
    ensures
        0 <= lowest_sq(a) < 64,
        has_sq(a, lowest_sq(a)),
        forall|sq: int| 0 <= sq < lowest_sq(a) ==> !has_sq(a, sq),
{
    axiom_u64_trailing_zeros(a);
    let t = u64_trailing_zeros(a);
    assert forall|sq: int| 0 <= sq < lowest_sq(a) implies !has_sq(a, sq) by {
        let j = sq as u64;
        assert((a >> j) & 1u64 == 0u64);
    }
}

/// A mask without its lowest square is a smaller number.
pub proof fn lemma_remove_lowest(a: BitMask)
    requires
        a != 0,
    ensures
        a & !sq_mask(lowest_sq(a)) < a,
{
    axiom_u64_trailing_zeros(a);
    bv_lowest(a, u64_trailing_zeros(a) as u64);
}

/// A mask that holds a square is not zero.
pub proof fn lemma_has_nonzero(a: BitMask, sq: int)
    requires
        has_sq(a, sq),
    ensures
        a != 0,
{
    bv_connectives(a, a, sq as u64);
}

/// What a single-square mask holds, and that its square is found again.
pub proof fn lemma_square(sq: int)
    requires
        0 <= sq < 64,
    ensures
        is_square(sq_mask(sq)),
        lowest_sq(sq_mask(sq)) == sq,
        sq_mask(sq) != 0,
{
    broadcast use lemma_has_sq_mask;

    let m = sq_mask(sq);
    assert(has_sq(m, sq));
    lemma_has_nonzero(m, sq);
    lemma_nonempty(m);
    assert(has_sq(m, lowest_sq(m)));
}

/// A mask of exactly one square holds that square and no other.
pub proof fn lemma_is_square(m: BitMask)
    requires
        is_square(m),
    ensures
        m != 0,
        forall|sq: int| has_sq(m, sq) == (sq == lowest_sq(m)),
{
    broadcast use lemma_has_sq_mask;

    lemma_square(lowest_sq(m));
}

/// A mask with one square and no other is that square's mask.
pub proof fn lemma_only_square(m: BitMask, sq: int)
    requires
        0 <= sq < 64,
        forall|k: int| 0 <= k < 64 ==> has_sq(m, k) == (k == sq),
    ensures
        m == sq_mask(sq),
        is_square(m),
{
    broadcast use lemma_has_sq_mask;

    lemma_ext(m, sq_mask(sq));
    lemma_square(sq);
}

/// The squares that a shifted mask holds.
pub proof fn lemma_has_shift(mask: BitMask, x: int, y: int, sq: int)
    requires
        -64 < x + 8 * y < 64,
    ensures
        has_sq(spec_shift(mask, x, y), sq) == (0 <= sq < 64 && has_sq(mask, sq - (x + 8 * y))),
{
    broadcast use group_has_sq;

}

pub proof fn lemma_count_below_bounds(mask: BitMask, n: int)
    requires
        0 <= n,
    ensures
        0 <= count_below(mask, n) <= n,
    decreases n,
{
    if n > 0 {
        lemma_count_below_bounds(mask, n - 1);
    }
}

/// Masks that agree below `n` have the same count there.
pub proof fn lemma_count_below_agree(a: BitMask, b: BitMask, n: int)
    requires
        forall|sq: int| 0 <= sq < n ==> has_sq(a, sq) == has_sq(b, sq),
    ensures
        count_below(a, n) == count_below(b, n),
    decreases n,
{
    if n > 0 {
        lemma_count_below_agree(a, b, n - 1);
    }
}

/// Taking one square out of a mask lowers the count by one.
pub proof fn lemma_count_below_remove(a: BitMask, b: BitMask, sq: int, n: int)
    requires
        has_sq(a, sq),
        forall|k: int| 0 <= k < 64 ==> has_sq(b, k) == (has_sq(a, k) && k != sq),
        0 <= n <= 64,
    ensures
        count_below(b, n) == count_below(a, n) - if sq < n { 1int } else { 0int },
    decreases n,
{
    if n > 0 {
        lemma_count_below_remove(a, b, sq, n - 1);
    }
}

/// A mask inside another holds no more squares.
pub proof fn lemma_count_below_subset(a: BitMask, b: BitMask, n: int)
    requires
        forall|k: int| 0 <= k < n ==> (has_sq(a, k) ==> has_sq(b, k)),
    ensures
        count_below(a, n) <= count_below(b, n),
    decreases n,
{
    if n > 0 {
        lemma_count_below_subset(a, b, n - 1);
    }
}

/// One rank adds to the count what it holds: at most eight squares, and at
/// most two where only the files `a` and `b` of the rank are held, one
/// where these are the same file.
pub proof fn lemma_count_rank(mask: BitMask, r: int, a: int, b: int)
    requires
        0 <= r < 8,
    ensures
        count_below(mask, 8 * r + 8) <= count_below(mask, 8 * r) + 8,
        (forall|i: int| 0 <= i < 8 && #[trigger] has_sq(mask, 8 * r + i) ==> i == a || i == b)
            ==> count_below(mask, 8 * r + 8) <= count_below(mask, 8 * r) + (if a == b {
            1int
        } else {
            2int
        }),
{
    reveal_with_fuel(count_below, 9);
    let n = 8 * r;
    assert(count_below(mask, n + 8) == count_below(mask, n) + (if has_sq(mask, n + 0) {
        1int
    } else {
        0int
    }) + (if has_sq(mask, n + 1) {
        1int
    } else {
        0int
    }) + (if has_sq(mask, n + 2) {
        1int
    } else {
        0int
    }) + (if has_sq(mask, n + 3) {
        1int
    } else {
        0int
    }) + (if has_sq(mask, n + 4) {
        1int
    } else {
        0int
    }) + (if has_sq(mask, n + 5) {
        1int
    } else {
        0int
    }) + (if has_sq(mask, n + 6) {
        1int
    } else {
        0int
    }) + (if has_sq(mask, n + 7) {
        1int
    } else {
        0int
    }));
}

/// How many of the numbers below `n` have the property `f`.
pub open spec fn count_where(f: spec_fn(int) -> bool, n: int) -> int
    decreases n,
{
    if n <= 0 {
        0
    } else {
        count_where(f, n - 1) + if f(n - 1) {
            1int
        } else {
            0int
        }
    }
}

/// A mask that holds below `n` the squares with the property `f` holds as
/// many squares there as have the property.
pub proof fn lemma_count_where(mask: BitMask, f: spec_fn(int) -> bool, n: int)
    requires
        forall|sq: int| 0 <= sq < n ==> #[trigger] has_sq(mask, sq) == f(sq),
    ensures
        count_below(mask, n) == count_where(f, n),
    decreases n,
{
    if n > 0 {
        lemma_count_where(mask, f, n - 1);
    }
}

/// Properties that agree below `n` are had by as many numbers there.
pub proof fn lemma_count_where_agree(f: spec_fn(int) -> bool, g: spec_fn(int) -> bool, n: int)
    requires
        forall|sq: int| 0 <= sq < n ==> #[trigger] f(sq) == g(sq),
    ensures
        count_where(f, n) == count_where(g, n),
    decreases n,
{
    if n > 0 {
        lemma_count_where_agree(f, g, n - 1);
    }
}

/// The count is zero for the empty mask alone, and one for single squares alone.
pub proof fn lemma_popcount_small(m: BitMask)
    ensures
        popcount(m) == 0 <==> m == 0,
        popcount(m) == 1 <==> is_square(m),
        popcount(m) >= 0,
{
    broadcast use group_has_sq;

    lemma_count_below_bounds(m, 64);
    if m == 0 {
        lemma_count_below_zero(m, 64);
    } else {
        lemma_nonempty(m);
        let t = lowest_sq(m);
        let rest = m & !sq_mask(t);
        lemma_count_below_remove(m, rest, t, 64);
        lemma_count_below_bounds(rest, 64);
        if rest == 0 {
            lemma_count_below_zero(rest, 64);
            assert forall|k: int| 0 <= k < 64 implies has_sq(m, k) == (k == t) by {
                assert(has_sq(rest, k) == (has_sq(m, k) && k != t));
            }
            lemma_only_square(m, t);
        } else {
            lemma_nonempty(rest);
            let u = lowest_sq(rest);
            let rest2 = rest & !sq_mask(u);
            lemma_count_below_remove(rest, rest2, u, 64);
            lemma_count_below_bounds(rest2, 64);
            if is_square(m) {
                lemma_is_square(m);
                assert(has_sq(m, u));
                assert(has_sq(m, t));
            }
        }
    }
}

proof fn lemma_count_below_zero(m: BitMask, n: int)
    requires
        m == 0,
    ensures
        count_below(m, n) == 0,
    decreases n,
{
    broadcast use lemma_has_zero;

    if n > 0 {
        lemma_count_below_zero(m, n - 1);
    }
}

// ---------------------------------------------------------------------------
// Executable operations

/// The index of the one square that `mask` holds.
pub fn bm_to_idx(mask: BitMask) -> (idx: usize)
    requires
        is_square(mask),
    ensures
        idx == lowest_sq(mask),
        idx < 64,
        mask == sq_mask(idx as int),
{
    mask.trailing_zeros() as usize
}

/// The mask that holds the square of index `idx` alone.
pub fn bm_from_idx(idx: usize) -> (mask: BitMask)
    requires
        idx < 64,
    ensures
        mask == sq_mask(idx as int),
        is_square(mask),
{
    proof {
        lemma_square(idx as int);
    }
    1u64 << idx
}

/// The mask that holds the square at file `x`, rank `y` alone.
pub fn bm_from_xy(x: i64, y: i64) -> (mask: BitMask)
    requires
        on_board(x as int, y as int),
    ensures
        mask == sq_mask(sq_at(x as int, y as int)),
        is_square(mask),
{
    proof {
        lemma_square(sq_at(x as int, y as int));
    }
    1u64 << ((x + y * 8) as u64)
}

/// File and rank of the one square that `mask` holds.
pub fn bm_to_xy(mask: BitMask) -> (xy: (i64, i64))
    requires
        is_square(mask),
    ensures
        xy.0 == file_of(lowest_sq(mask)),
        xy.1 == rank_of(lowest_sq(mask)),
        on_board(xy.0 as int, xy.1 as int),
{
    let idx = bm_to_idx(mask);
    ((idx % 8) as i64, (idx / 8) as i64)
}

/// Whether `c` is a file letter, `a` to `h` in either case.
pub open spec fn is_file_char(c: char) -> bool {
    ('a' <= c && c <= 'h') || ('A' <= c && c <= 'H')
}

/// Whether `c` is a rank digit, `1` to `8`.
pub open spec fn is_rank_char(c: char) -> bool {
    '1' <= c && c <= '8'
}

/// The file that a file letter names.
pub open spec fn file_of_char(c: char) -> int {
    if c <= 'Z' {
        c as int - 'A' as int
    } else {
        c as int - 'a' as int
    }
}

/// The rank that a rank digit names.
pub open spec fn rank_of_char(c: char) -> int {
    c as int - '1' as int
}

/// The lower-case letter of a file.
pub open spec fn file_char(x: int) -> char {
    (x + 'a' as int) as u8 as char
}

/// The digit of a rank.
pub open spec fn rank_char(y: int) -> char {
    (y + '1' as int) as u8 as char
}

/// The two characters that name a square, such as `e4`.
pub open spec fn coord_text(sq: int) -> Seq<char> {
    seq![file_char(file_of(sq)), rank_char(rank_of(sq))]
}

/// The square that a coordinate names, from its first two characters.
pub fn bm_from_coord(coord_name: &str) -> (mask: BitMask)
    requires
        coord_name@.len() >= 2,
        is_file_char(coord_name@[0]),
        is_rank_char(coord_name@[1]),
    ensures
        mask == sq_mask(sq_at(file_of_char(coord_name@[0]), rank_of_char(coord_name@[1]))),
        is_square(mask),
{
    let first_char = coord_name.get_char(0);
    let second_char = coord_name.get_char(1);
    let x: u8 = if first_char <= 'Z' {
        (first_char as u8) - ('A' as u8)
    } else {
        (first_char as u8) - ('a' as u8)
    };
    let y: u8 = (second_char as u8) - ('1' as u8);
    bm_from_xy(x as i64, y as i64)
}

/// The name of the one square that `mask` holds, such as `e4`.
pub fn bm_to_coord(mask: BitMask) -> (name: String)
    requires
        is_square(mask),
    ensures
        name@ == coord_text(lowest_sq(mask)),
{
    let (x, y) = bm_to_xy(mask);
    let mut name = String::new();
    name.push(((x as u8) + ('a' as u8)) as char);
    name.push(((y as u8) + ('1' as u8)) as char);
    proof {
        assert(name@ =~= coord_text(lowest_sq(mask)));
    }
    name
}

/// Whether `mask` holds the square at file `x`, rank `y`.
pub fn bm_get(mask: BitMask, x: i64, y: i64) -> (held: bool)
    requires
        on_board(x as int, y as int),
    ensures
        held == has_sq(mask, sq_at(x as int, y as int)),
{
    let pos_mask: BitMask = 1u64 << ((x + y * 8) as u64);
    proof {
        lemma_has_test(mask, sq_at(x as int, y as int));
    }
    (mask & pos_mask) != 0
}

/// Puts the square at file `x`, rank `y` into `mask`, or takes it out.
pub fn bm_set(mask: &mut BitMask, x: i64, y: i64, val: bool)
    requires
        on_board(x as int, y as int),
    ensures
        *final(mask) == if val {
            *old(mask) | sq_mask(sq_at(x as int, y as int))
        } else {
            *old(mask) & !sq_mask(sq_at(x as int, y as int))
        },
        forall|sq: int|
            has_sq(*final(mask), sq) == if sq == sq_at(x as int, y as int) {
                val
            } else {
                has_sq(*old(mask), sq)
            },
{
    broadcast use group_has_sq;

    let pos_mask: BitMask = 1u64 << ((x + y * 8) as u64);
    assert(pos_mask == sq_mask(sq_at(x as int, y as int)));
    if val {
        *mask |= pos_mask;
    } else {
        *mask &= !pos_mask;
    }
}

/// Moves every square of `mask` by `x` files and `y` ranks, as one shift of the word.
pub fn bm_shift(mask: BitMask, x: i64, y: i64) -> (shifted: BitMask)
    requires
        -64 < x + 8 * y < 64,
    ensures
        shifted == spec_shift(mask, x as int, y as int),
        forall|sq: int|
            has_sq(shifted, sq) == (0 <= sq < 64 && has_sq(mask, sq - (x + 8 * y))),
{
    // In 128 bits the sum cannot overflow, however large `x` and `y` are.
    let shift_amount: i128 = (x as i128) + (y as i128) * 8;
    proof {
        assert forall|sq: int|
            has_sq(spec_shift(mask, x as int, y as int), sq) == (0 <= sq < 64 && has_sq(
                mask,
                sq - (x + 8 * y),
            )) by {
            lemma_has_shift(mask, x as int, y as int, sq);
        }
    }
    if shift_amount >= 0 {
        mask << (shift_amount as u64)
    } else {
        mask >> ((-shift_amount) as u64)
    }
}

/// The eight squares of rank `y`.
pub fn bm_make_row(y: i64) -> (row: BitMask)
    requires
        0 <= y < 8,
    ensures
        row == spec_shift(0xff, 0, y as int),
        forall|sq: int| has_sq(row, sq) == (0 <= sq < 64 && rank_of(sq) == y),
{
    proof {
        assert forall|sq: int|
            has_sq(spec_shift(0xff, 0, y as int), sq) == (0 <= sq < 64 && rank_of(sq) == y) by {
            if 0 <= sq < 64 {
                bv_row_column(y as u64, sq as u64);
            }
        }
    }
    bm_shift(0xFF, 0, y)
}

/// The eight squares of file `x`.
pub fn bm_make_column(x: i64) -> (column: BitMask)
    requires
        0 <= x < 8,
    ensures
        column == spec_shift(0x0101_0101_0101_0101, x as int, 0),
        forall|sq: int| has_sq(column, sq) == (0 <= sq < 64 && file_of(sq) == x),
{
    proof {
        assert forall|sq: int|
            has_sq(spec_shift(0x0101_0101_0101_0101, x as int, 0), sq) == (0 <= sq < 64 && file_of(
                sq,
            ) == x) by {
            if 0 <= sq < 64 {
                bv_row_column(x as u64, sq as u64);
            }
        }
    }
    bm_shift(0x101010101010101, x, 0)
}

/// The mask with its ranks in reverse order: rank 0 becomes rank 7, and so on.
pub fn bm_flip_vertical(mask: BitMask) -> (flipped: BitMask)
    ensures
        forall|sq: int| has_sq(flipped, sq) == (0 <= sq < 64 && has_sq(mask, flip_sq(sq))),
{
    let flipped = ((mask & 0xff) << 56) | ((mask & 0xff00) << 40) | ((mask & 0xff_0000) << 24) | ((
    mask & 0xff00_0000) << 8) | ((mask >> 8) & 0xff00_0000) | ((mask >> 24) & 0xff_0000) | ((mask
        >> 40) & 0xff00) | ((mask >> 56) & 0xff);
    proof {
        assert forall|sq: int|
            has_sq(flipped, sq) == (0 <= sq < 64 && has_sq(mask, flip_sq(sq))) by {
            if 0 <= sq < 64 {
                bv_flip(mask, sq as u64);
            }
        }
    }
    flipped
}

/// The number of squares in `mask`.
pub fn bm_count(mask: BitMask) -> (count: u32)
    ensures
        count == popcount(mask),
        count <= 64,
{
    let mut count: u32 = 0;
    let mut sq: u32 = 0;
    while sq < 64
        invariant
            sq <= 64,
            count == count_below(mask, sq as int),
            count <= sq,
        decreases 64 - sq,
    {
        if (mask >> (sq as u64)) & 1 == 1 {
            count += 1;
        }
        sq += 1;
    }
    count
}

/// Walks the squares of a mask from the lowest up.
pub struct ItrBits {
    pub remaining_mask: BitMask,
}

/// A walk over the squares of `mask`.
pub fn bm_iter_bits(mask: BitMask) -> (itr: ItrBits)
    ensures
        itr.remaining_mask == mask,
{
    ItrBits { remaining_mask: mask }
}

impl ItrBits {
    /// Takes the lowest square that is left, as a single-square mask.
    pub fn next(&mut self) -> (bit: Option<BitMask>)
        ensures
            old(self).remaining_mask == 0 ==> bit is None && final(self).remaining_mask == 0,
            old(self).remaining_mask != 0 ==> final(self).remaining_mask < old(
                self,
            ).remaining_mask,
            old(self).remaining_mask != 0 ==> bit == Some(
                sq_mask(lowest_sq(old(self).remaining_mask)),
            ) && final(self).remaining_mask == old(self).remaining_mask & !sq_mask(
                lowest_sq(old(self).remaining_mask),
            ) && is_square(bit.unwrap()),
            forall|sq: int|
                has_sq(final(self).remaining_mask, sq) == (has_sq(old(self).remaining_mask, sq)
                    && sq != lowest_sq(old(self).remaining_mask)),
    {
        broadcast use group_has_sq;

        let m = self.remaining_mask;
        if m == 0 {
            None
        } else {
            let next_bit = m & !(m - 1);
            proof {
                axiom_u64_trailing_zeros(m);
                let t = u64_trailing_zeros(m);
                bv_lowest(m, t as u64);
                lemma_square(t as int);
            }
            self.remaining_mask = m & !next_bit;
            Some(next_bit)
        }
    }
}

} // verus!
