//! Attack masks of the pieces: computed by walking the board, and tabulated
//! per square.

use vstd::prelude::*;
use crate::bitmask::{
    BitMask, has_sq, sq_mask, is_square, lowest_sq, file_of, rank_of, on_board, sq_at,
    group_has_sq, lemma_is_square, lemma_square, bm_from_idx, bm_from_xy, bm_get, bm_set,
    bm_make_column, bm_make_row,
};
use crate::geometry::{
    is_sq, is_step, step_of, step_dx, step_dy, queen_line, rook_line, bishop_line, between, dist,
    clear_between, slider_attacks, knight_step, king_step, on_ray, scaled, lemma_between_extend,
    lemma_between_last, lemma_line_coords, lemma_walk_coords, lemma_sq_at,
};
use crate::lookup_gen_magic::{MagicTables, get_bishop_moves, get_rook_moves};
use crate::Tables;
use crate::board::{PIECE_KNIGHT, PIECE_BISHOP, PIECE_ROOK, PIECE_QUEEN, PIECE_KING};

verus! {

/// Every square strictly between `a` and `b` is in `free`.
pub open spec fn open_between(free: BitMask, a: int, b: int) -> bool {
    forall|c: int| is_sq(c) && #[trigger] between(a, b, c) ==> has_sq(free, c)
}

/// A walk from `s` in direction `step` over the squares of `free` comes to `t`
/// within `n` steps. The walk enters a square outside `free` and stops there.
pub open spec fn walk_reaches_within(s: int, step: int, free: BitMask, t: int, n: int) -> bool {
    t == s || (queen_line(s, t) && step_of(s, t) == step && dist(s, t) <= n && open_between(
        free,
        s,
        t,
    ))
}

/// A walk from `s` in direction `step` over the squares of `free` comes to `t`.
pub open spec fn walk_reaches(s: int, step: int, free: BitMask, t: int) -> bool {
    t == s || (queen_line(s, t) && step_of(s, t) == step && open_between(free, s, t))
}

pub proof fn lemma_open_is_clear(occ: BitMask, a: int, b: int)
    ensures
        open_between(!occ, a, b) == clear_between(occ, a, b),
{
    broadcast use group_has_sq;

    if clear_between(occ, a, b) {
        assert forall|c: int| is_sq(c) && #[trigger] between(a, b, c) implies has_sq(!occ, c) by {}
    }
    if open_between(!occ, a, b) {
        assert forall|c: int| is_sq(c) && #[trigger] between(a, b, c) implies !has_sq(occ, c) by {
            assert(has_sq(!occ, c));
        }
    }
}

/// A walk from one of the squares of `start` in direction `step` comes to
/// `t` within `n` steps. It goes over the squares of `free` and of `start`.
pub open spec fn walk_from_within(
    start: BitMask,
    s: int,
    step: int,
    free: BitMask,
    t: int,
    n: int,
) -> bool {
    is_sq(s) && has_sq(start, s) && walk_reaches_within(s, step, free | start, t, n)
}

/// A walk from one of the squares of `start` in direction `step` comes to
/// `t`. It goes over the squares of `free` and of `start`, enters a square
/// outside them, and stops there.
pub open spec fn walk_reaches_any(start: BitMask, step: int, free: BitMask, t: int) -> bool {
    exists|s: int| is_sq(s) && has_sq(start, s) && #[trigger] walk_reaches(s, step, free | start, t)
}

/// One step more of a walk: it comes to a square within `n + 1` steps when
/// it comes to it within `n`, or comes within `n` to the square before it,
/// which is free and not on the edge that the walk runs into.
proof fn lemma_walk_step(s: int, step: int, free: BitMask, t: int, n: int)
    requires
        is_sq(s),
        is_sq(t),
        is_step(step),
        0 <= n,
        has_sq(free, s),
    ensures
        walk_reaches_within(s, step, free, t, n + 1) <==> (walk_reaches_within(s, step, free, t, n)
            || (is_sq(t - step) && walk_reaches_within(s, step, free, t - step, n) && has_sq(
            free,
            t - step,
        ) && 0 <= file_of(t - step) + step_dx(step) < 8)),
{
    let u = t - step;
    if walk_reaches_within(s, step, free, t, n) {
    } else if is_sq(u) && walk_reaches_within(s, step, free, u, n) && has_sq(free, u) && 0
        <= file_of(u) + step_dx(step) < 8 {
        lemma_between_extend(s, u, step);
        assert(open_between(free, s, t)) by {
            assert forall|c: int| is_sq(c) && #[trigger] between(s, t, c) implies has_sq(free, c) by {
                if c != u {
                    assert(between(s, u, c));
                }
            }
        }
    } else if walk_reaches_within(s, step, free, t, n + 1) {
        lemma_between_last(s, t);
        lemma_line_coords(s, t);
        if dist(s, t) > 1 {
            lemma_between_extend(s, u, step);
            assert(between(s, t, u));
            assert(open_between(free, s, u)) by {
                assert forall|c: int| is_sq(c) && #[trigger] between(s, u, c) implies has_sq(
                    free,
                    c,
                ) by {
                    assert(between(s, t, c));
                }
            }
        }
        assert(walk_reaches_within(s, step, free, u, n));
    }
}

/// The squares that walks from the squares of `start` in direction `shift`
/// come to: the start, then square after square while the square left is in
/// `inv_occ` or `start` and the board goes on.
pub fn walk_in_dir(shift: i64, start: BitMask, inv_occ: BitMask) -> (result: BitMask)
    requires
        is_step(shift as int),
    ensures
        forall|t: int|
            is_sq(t) ==> #[trigger] has_sq(result, t) == walk_reaches_any(
                start,
                shift as int,
                inv_occ,
                t,
            ),
        is_square(start) ==> forall|t: int|
            is_sq(t) ==> (#[trigger] has_sq(result, t) <==> walk_reaches(
                lowest_sq(start),
                shift as int,
                inv_occ,
                t,
            )),
{
    broadcast use group_has_sq;

    let ghost step = shift as int;
    let ghost free = inv_occ | start;
    let mut result = start;
    let mask: BitMask;
    if shift != 8 && shift != -8 {
        // The walk moves sideways: it must not step over the side of the board.
        let clamp_area: BitMask = if shift == 1 || shift == 9 || shift == -7 {
            bm_make_column(7)
        } else {
            bm_make_column(0)
        };
        mask = (inv_occ | start) & !clamp_area;
    } else {
        mask = inv_occ | start;
    }
    let mut n: usize = 0;
    proof {
        assert forall|t: int| is_sq(t) implies #[trigger] has_sq(result, t) == exists|s: int| #[trigger]
            walk_from_within(start, s, step, inv_occ, t, 0) by {
            if has_sq(start, t) {
                assert(walk_from_within(start, t, step, inv_occ, t, 0));
            }
            if exists|s: int| #[trigger] walk_from_within(start, s, step, inv_occ, t, 0) {
                let s = choose|s: int| #[trigger] walk_from_within(start, s, step, inv_occ, t, 0);
                if t != s {
                    lemma_line_coords(s, t);
                }
            }
        }
    }
    while n < 7
        invariant
            n <= 7,
            is_step(step),
            step == shift,
            free == inv_occ | start,
            forall|u: int|
                is_sq(u) ==> (#[trigger] has_sq(mask, u) <==> (has_sq(free, u) && 0 <= file_of(u)
                    + step_dx(step) < 8)),
            forall|t: int|
                is_sq(t) ==> #[trigger] has_sq(result, t) == exists|s: int| #[trigger]
                    walk_from_within(start, s, step, inv_occ, t, n as int),
        decreases 7 - n,
    {
        broadcast use group_has_sq;

        let ghost prev = result;
        let stepping = result & mask;
        if shift > 0 {
            let moved = stepping << (shift as u64);
            assert forall|t: int| is_sq(t) implies (#[trigger] has_sq(moved, t) <==> (is_sq(
                t - shift,
            ) && has_sq(stepping, t - shift))) by {
                crate::bitmask::lemma_has_shl(stepping, shift as u64, t);
            }
            result |= moved;
            assert forall|t: int| is_sq(t) implies (#[trigger] has_sq(result, t) <==> (has_sq(
                prev,
                t,
            ) || (is_sq(t - shift) && has_sq(prev, t - shift) && has_sq(mask, t - shift)))) by {
                assert(has_sq(result, t) == (has_sq(prev, t) || has_sq(moved, t)));
                if is_sq(t - shift) {
                    assert(has_sq(stepping, t - shift) == (has_sq(prev, t - shift) && has_sq(
                        mask,
                        t - shift,
                    )));
                }
            }
        } else {
            let moved = stepping >> ((-shift) as u64);
            assert forall|t: int| is_sq(t) implies (#[trigger] has_sq(moved, t) <==> (is_sq(
                t - shift,
            ) && has_sq(stepping, t - shift))) by {
                crate::bitmask::lemma_has_shr(stepping, (-shift) as u64, t);
            }
            result |= moved;
            assert forall|t: int| is_sq(t) implies (#[trigger] has_sq(result, t) <==> (has_sq(
                prev,
                t,
            ) || (is_sq(t - shift) && has_sq(prev, t - shift) && has_sq(mask, t - shift)))) by {
                assert(has_sq(result, t) == (has_sq(prev, t) || has_sq(moved, t)));
                if is_sq(t - shift) {
                    assert(has_sq(stepping, t - shift) == (has_sq(prev, t - shift) && has_sq(
                        mask,
                        t - shift,
                    )));
                }
            }
        }
        proof {
            lemma_walk_all_step(start, step, inv_occ, mask, prev, result, n as int);
        }
        n += 1;
    }
    proof {
        assert forall|t: int| is_sq(t) implies #[trigger] has_sq(result, t) == walk_reaches_any(
            start,
            step,
            inv_occ,
            t,
        ) by {
            if exists|s: int| #[trigger] walk_from_within(start, s, step, inv_occ, t, 7) {
                let s = choose|s: int| #[trigger] walk_from_within(start, s, step, inv_occ, t, 7);
                assert(walk_reaches(s, step, free, t));
            }
            if walk_reaches_any(start, step, inv_occ, t) {
                let s = choose|s: int|
                    is_sq(s) && has_sq(start, s) && #[trigger] walk_reaches(s, step, free, t);
                if queen_line(s, t) {
                    lemma_line_coords(s, t);
                }
                assert(walk_from_within(start, s, step, inv_occ, t, 7));
            }
        }
        if is_square(start) {
            lemma_is_square(start);
            let s0 = lowest_sq(start);
            assert forall|t: int| is_sq(t) implies (#[trigger] has_sq(result, t) <==> walk_reaches(
                s0,
                step,
                inv_occ,
                t,
            )) by {
                assert(open_between(free, s0, t) == open_between(inv_occ, s0, t)) by {
                    if open_between(free, s0, t) {
                        assert forall|c: int| is_sq(c) && #[trigger] between(s0, t, c)
                            implies has_sq(inv_occ, c) by {
                            assert(has_sq(free, c));
                            lemma_line_coords(s0, c);
                        }
                    }
                    if open_between(inv_occ, s0, t) {
                        assert forall|c: int| is_sq(c) && #[trigger] between(s0, t, c)
                            implies has_sq(free, c) by {
                            assert(has_sq(inv_occ, c));
                        }
                    }
                }
                if walk_reaches_any(start, step, inv_occ, t) {
                    let s = choose|s: int|
                        is_sq(s) && has_sq(start, s) && #[trigger] walk_reaches(s, step, free, t);
                    assert(s == s0);
                }
                if walk_reaches(s0, step, inv_occ, t) {
                    assert(walk_reaches(s0, step, free, t));
                }
            }
        }
    }
    result
}

/// One step more of the walks from all squares of `start`.
proof fn lemma_walk_all_step(
    start: BitMask,
    step: int,
    inv_occ: BitMask,
    mask: BitMask,
    result: BitMask,
    next: BitMask,
    n: int,
)
    requires
        is_step(step),
        0 <= n,
        forall|u: int|
            is_sq(u) ==> (#[trigger] has_sq(mask, u) <==> (has_sq(inv_occ | start, u) && 0
                <= file_of(u) + step_dx(step) < 8)),
        forall|t: int|
            is_sq(t) ==> #[trigger] has_sq(result, t) == exists|s: int| #[trigger]
                walk_from_within(start, s, step, inv_occ, t, n),
        forall|t: int|
            is_sq(t) ==> (#[trigger] has_sq(next, t) <==> (has_sq(result, t) || (is_sq(t - step)
                && has_sq(result, t - step) && has_sq(mask, t - step)))),
    ensures
        forall|t: int|
            is_sq(t) ==> #[trigger] has_sq(next, t) == exists|s: int| #[trigger]
                walk_from_within(start, s, step, inv_occ, t, n + 1),
{
    let free = inv_occ | start;
    assert forall|t: int| is_sq(t) implies #[trigger] has_sq(next, t) == exists|s: int| #[trigger]
        walk_from_within(start, s, step, inv_occ, t, n + 1) by {
        let u = t - step;
        if has_sq(result, t) {
            let s = choose|s: int| #[trigger] walk_from_within(start, s, step, inv_occ, t, n);
            assert(walk_from_within(start, s, step, inv_occ, t, n + 1));
        } else if is_sq(u) && has_sq(result, u) && has_sq(mask, u) {
            let s = choose|s: int| #[trigger] walk_from_within(start, s, step, inv_occ, u, n);
            crate::bitmask::lemma_has_or(inv_occ, start, s);
            lemma_walk_step(s, step, free, t, n);
            assert(walk_from_within(start, s, step, inv_occ, t, n + 1));
        }
        if exists|s: int| #[trigger] walk_from_within(start, s, step, inv_occ, t, n + 1) {
            let s = choose|s: int| #[trigger] walk_from_within(start, s, step, inv_occ, t, n + 1);
            crate::bitmask::lemma_has_or(inv_occ, start, s);
            lemma_walk_step(s, step, free, t, n);
            if walk_reaches_within(s, step, free, t, n) {
                assert(walk_from_within(start, s, step, inv_occ, t, n));
            } else {
                assert(walk_from_within(start, s, step, inv_occ, u, n));
            }
        }
    }
}

/// The squares that a rook (`rook`), a bishop (`bishop`) or a queen (both) on
/// the square of `piece_pos` attacks when the squares of `occupy` hold pieces.
fn generate_slider_tos_slow(rook: bool, bishop: bool, piece_pos: BitMask, occupy: BitMask) -> (attack:
    BitMask)
    requires
        is_square(piece_pos),
    ensures
        forall|t: int|
            is_sq(t) ==> (#[trigger] has_sq(attack, t) <==> slider_attacks(
                rook,
                bishop,
                lowest_sq(piece_pos),
                occupy,
                t,
            )),
{
    broadcast use group_has_sq;

    let inv_occ = !occupy;
    let ghost s = lowest_sq(piece_pos);
    proof {
        lemma_is_square(piece_pos);
    }
    let mut attack: BitMask = 0;
    if rook {
        attack |= walk_in_dir(-1, piece_pos, inv_occ);
        attack |= walk_in_dir(1, piece_pos, inv_occ);
        attack |= walk_in_dir(-8, piece_pos, inv_occ);
        attack |= walk_in_dir(8, piece_pos, inv_occ);
    }
    let ghost rook_attack = attack;
    assert forall|t: int| is_sq(t) implies (#[trigger] has_sq(rook_attack, t) <==> (rook && (t == s
        || (rook_line(s, t) && open_between(inv_occ, s, t))))) by {
        if queen_line(s, t) {
            lemma_line_coords(s, t);
        }
    }
    if bishop {
        attack |= walk_in_dir(-7, piece_pos, inv_occ);
        attack |= walk_in_dir(7, piece_pos, inv_occ);
        attack |= walk_in_dir(-9, piece_pos, inv_occ);
        attack |= walk_in_dir(9, piece_pos, inv_occ);
    }
    assert forall|t: int| is_sq(t) implies (#[trigger] has_sq(attack, t) <==> (has_sq(
        rook_attack,
        t,
    ) || (bishop && (t == s || (bishop_line(s, t) && open_between(inv_occ, s, t)))))) by {
        if queen_line(s, t) {
            lemma_line_coords(s, t);
        }
    }
    let result = attack & !piece_pos;
    assert forall|t: int| is_sq(t) implies (#[trigger] has_sq(result, t) <==> slider_attacks(
        rook,
        bishop,
        s,
        occupy,
        t,
    )) by {
        lemma_open_is_clear(occupy, s, t);
    }
    result
}

/// Whether `piece_idx` names a bishop, a rook or a queen.
pub open spec fn is_slider(piece_idx: int) -> bool {
    piece_idx == PIECE_BISHOP || piece_idx == PIECE_ROOK || piece_idx == PIECE_QUEEN
}

/// A slider of kind `piece_idx` on `a` attacks `b` over the pieces in `occ`.
pub open spec fn slider_kind_attacks(piece_idx: int, a: int, occ: BitMask, b: int) -> bool {
    slider_attacks(
        piece_idx == PIECE_ROOK || piece_idx == PIECE_QUEEN,
        piece_idx == PIECE_BISHOP || piece_idx == PIECE_QUEEN,
        a,
        occ,
        b,
    )
}

/// The squares that a bishop, rook or queen on square `piece_pos_idx` attacks
/// over the pieces in `occupy`, found by walking the board.
pub fn get_slider_tos_slow(piece_idx: usize, piece_pos_idx: usize, occupy: BitMask) -> (tos:
    BitMask)
    requires
        is_slider(piece_idx as int),
        piece_pos_idx < 64,
    ensures
        forall|t: int|
            is_sq(t) ==> (#[trigger] has_sq(tos, t) <==> slider_kind_attacks(
                piece_idx as int,
                piece_pos_idx as int,
                occupy,
                t,
            )),
{
    proof {
        lemma_square(piece_pos_idx as int);
    }
    if piece_idx == PIECE_BISHOP {
        generate_slider_tos_slow(false, true, bm_from_idx(piece_pos_idx), occupy)
    } else if piece_idx == PIECE_ROOK {
        generate_slider_tos_slow(true, false, bm_from_idx(piece_pos_idx), occupy)
    } else {
        generate_slider_tos_slow(true, true, bm_from_idx(piece_pos_idx), occupy)
    }
}

/// Whether `(x, y)` is a square of the board.
fn is_inside_board(x: i64, y: i64) -> (inside: bool)
    ensures
        inside == on_board(x as int, y as int),
{
    (x >= 0) && (y >= 0) && (x < 8) && (y < 8)
}

/// `t` is `a` or lies beyond it in direction `step`.
pub open spec fn on_ray_from(a: int, step: int, t: int) -> bool {
    t == a || (queen_line(a, t) && step_of(a, t) == step)
}

/// `t` is seen from `a` in direction `step`: it lies on that ray, and neither
/// it nor `a` nor a square between them is in `occlusion`.
pub open spec fn ray_sees(a: int, step: int, occlusion: BitMask, t: int) -> bool {
    on_ray_from(a, step, t) && !has_sq(occlusion, a) && !has_sq(occlusion, t) && clear_between(
        occlusion,
        a,
        t,
    )
}

/// Steps from `a` to `t` along a ray that starts at `a`.
pub open spec fn ray_steps(a: int, t: int) -> int {
    if t == a {
        0
    } else {
        dist(a, t)
    }
}

/// The squares from `(start_x, start_y)` on in direction `(dx, dy)`, up to the
/// edge of the board or the first square of `occlusion`, that one left out.
fn make_ray(start_x: i64, start_y: i64, dx: i64, dy: i64, occlusion_mask: BitMask) -> (mask:
    BitMask)
    requires
        on_board(start_x as int, start_y as int),
        -1 <= dx <= 1,
        -1 <= dy <= 1,
        dx != 0 || dy != 0,
    ensures
        forall|t: int|
            is_sq(t) ==> (#[trigger] has_sq(mask, t) <==> ray_sees(
                sq_at(start_x as int, start_y as int),
                dx + 8 * dy,
                occlusion_mask,
                t,
            )),
{
    let ghost a = sq_at(start_x as int, start_y as int);
    let ghost step = dx + 8 * dy;
    let mut mask: BitMask = 0;
    let mut x = start_x;
    let mut y = start_y;
    let mut k: usize = 0;
    proof {
        lemma_sq_at(start_x as int, start_y as int);
        assert(step_dx(step) == dx && step_dy(step) == dy);
        assert forall|t: int| is_sq(t) implies !has_sq(0, t) by {
            crate::bitmask::lemma_has_zero(t);
        }
    }
    while is_inside_board(x, y) && !bm_get(occlusion_mask, x, y)
        invariant
            is_sq(a),
            a == sq_at(start_x as int, start_y as int),
            on_board(start_x as int, start_y as int),
            is_step(step),
            step == dx + 8 * dy,
            step_dx(step) == dx,
            step_dy(step) == dy,
            k <= 8,
            x == start_x + scaled(k as int, dx as int),
            y == start_y + scaled(k as int, dy as int),
            forall|t: int|
                is_sq(t) ==> (#[trigger] has_sq(mask, t) <==> (on_ray_from(a, step, t) && ray_steps(
                    a,
                    t,
                ) < k)),
            forall|t: int|
                is_sq(t) && on_ray_from(a, step, t) && ray_steps(a, t) < k ==> !#[trigger] has_sq(
                    occlusion_mask,
                    t,
                ),
        decreases 8 - k,
    {
        let ghost u = sq_at(x as int, y as int);
        let ghost prev = mask;
        bm_set(&mut mask, x, y, true);
        proof {
            lemma_sq_at(x as int, y as int);
            if k > 0 {
                lemma_walk_coords(a, step, k as int, u);
            }
            assert(on_ray_from(a, step, u) && ray_steps(a, u) == k);
            assert forall|t: int| is_sq(t) implies (#[trigger] has_sq(mask, t) <==> (on_ray_from(
                a,
                step,
                t,
            ) && ray_steps(a, t) < k + 1)) by {
                if t != u && on_ray_from(a, step, t) && ray_steps(a, t) == k {
                    if t != a {
                        lemma_line_coords(a, t);
                    }
                    assert(file_of(t) == file_of(u) && rank_of(t) == rank_of(u));
                }
            }
        }
        x += dx;
        y += dy;
        k += 1;
    }
    proof {
        assert forall|t: int| is_sq(t) implies (#[trigger] has_sq(mask, t) <==> ray_sees(
            a,
            step,
            occlusion_mask,
            t,
        )) by {
            if on_ray_from(a, step, t) {
                if t != a {
                    lemma_line_coords(a, t);
                }
                if ray_steps(a, t) < k {
                    assert(!has_sq(occlusion_mask, a)) by {
                        assert(on_ray_from(a, step, a) && ray_steps(a, a) == 0);
                    }
                    assert forall|c: int| is_sq(c) && #[trigger] between(a, t, c) implies !has_sq(
                        occlusion_mask,
                        c,
                    ) by {
                        assert(on_ray_from(a, step, c) && ray_steps(a, c) < k);
                    }
                } else {
                    // The walk stopped at or before `t`: on an occluded square.
                    assert(on_board(x as int, y as int));
                    let u = sq_at(x as int, y as int);
                    lemma_sq_at(x as int, y as int);
                    assert(has_sq(occlusion_mask, u));
                    if k > 0 {
                        lemma_walk_coords(a, step, k as int, u);
                    }
                    if ray_steps(a, t) == k {
                        assert(file_of(t) == file_of(u) && rank_of(t) == rank_of(u));
                        assert(t == u);
                    } else if k > 0 {
                        assert(between(a, t, u));
                    }
                }
            }
        }
    }
    mask
}


/// The attack and line masks of every square, filled once by `init`.
pub struct LookupTables {
    pub knight_moves: [BitMask; 64],
    pub rook_moves: [BitMask; 64],
    pub bishop_moves: [BitMask; 64],
    pub queen_moves: [BitMask; 64],
    pub king_moves: [BitMask; 64],
    /// For two squares on a line: both, and the squares between them.
    pub between_inclusive: [[BitMask; 64]; 64],
    /// For two squares on a line: the squares strictly between them.
    pub between_exclusive: [[BitMask; 64]; 64],
    /// For two squares on a line: the first, and all squares from it through
    /// the second to the edge of the board.
    pub ray: [[BitMask; 64]; 64],
}

impl LookupTables {
    /// The masks of square `a` on an empty board are right.
    pub open spec fn base_ok(&self, a: int) -> bool {
        forall|t: int|
            #![trigger has_sq(self.knight_moves[a], t)]
            #![trigger has_sq(self.rook_moves[a], t)]
            #![trigger has_sq(self.bishop_moves[a], t)]
            #![trigger has_sq(self.queen_moves[a], t)]
            #![trigger has_sq(self.king_moves[a], t)]
            is_sq(t) ==> {
                &&& has_sq(self.knight_moves[a], t) == knight_step(a, t)
                &&& has_sq(self.rook_moves[a], t) == rook_line(a, t)
                &&& has_sq(self.bishop_moves[a], t) == bishop_line(a, t)
                &&& has_sq(self.queen_moves[a], t) == queen_line(a, t)
                &&& has_sq(self.king_moves[a], t) == king_step(a, t)
            }
    }

    /// The line masks of the pair `(a, b)` are right.
    pub open spec fn pair_ok(&self, a: int, b: int) -> bool {
        row_pair_ok(self.between_inclusive[a], self.between_exclusive[a], self.ray[a], a, b)
    }

    /// All masks of square `a` are right.
    pub open spec fn row_ok(&self, a: int) -> bool {
        self.base_ok(a) && forall|b: int| is_sq(b) ==> #[trigger] self.pair_ok(a, b)
    }

    /// Every mask of the tables is right.
    pub open spec fn wf(&self) -> bool {
        forall|a: int| is_sq(a) ==> #[trigger] self.row_ok(a)
    }

    /// The masks of square `a` are the same in both tables.
    pub open spec fn same_row(&self, other: &LookupTables, a: int) -> bool {
        &&& self.knight_moves[a] == other.knight_moves[a]
        &&& self.rook_moves[a] == other.rook_moves[a]
        &&& self.bishop_moves[a] == other.bishop_moves[a]
        &&& self.queen_moves[a] == other.queen_moves[a]
        &&& self.king_moves[a] == other.king_moves[a]
        &&& self.between_inclusive[a] == other.between_inclusive[a]
        &&& self.between_exclusive[a] == other.between_exclusive[a]
        &&& self.ray[a] == other.ray[a]
    }
}

proof fn lemma_same_row_ok(t1: &LookupTables, t2: &LookupTables, a: int)
    requires
        t1.same_row(t2, a),
        t2.row_ok(a),
    ensures
        t1.row_ok(a),
{
    assert forall|b: int| is_sq(b) implies #[trigger] t1.pair_ok(a, b) by {
        assert(t2.pair_ok(a, b));
    }
}

/// Fills the knight mask of the square at `(x, y)`.
fn make_knight_moves(x: i64, y: i64) -> (mask: BitMask)
    requires
        on_board(x as int, y as int),
    ensures
        forall|t: int|
            is_sq(t) ==> (#[trigger] has_sq(mask, t) <==> knight_step(sq_at(x as int, y as int), t)),
{
    let ghost a = sq_at(x as int, y as int);
    let mut mask: BitMask = 0;
    let mut cx = x - 2;
    proof {
        assert forall|t: int| is_sq(t) implies !has_sq(0, t) by {
            crate::bitmask::lemma_has_zero(t);
        }
    }
    while cx < x + 3
        invariant
            on_board(x as int, y as int),
            a == sq_at(x as int, y as int),
            x - 2 <= cx <= x + 3,
            forall|t: int|
                is_sq(t) ==> (#[trigger] has_sq(mask, t) <==> (knight_step(a, t) && file_of(t)
                    < cx)),
        decreases x + 3 - cx,
    {
        let mut cy = y - 2;
        while cy < y + 3
            invariant
                on_board(x as int, y as int),
                a == sq_at(x as int, y as int),
                x - 2 <= cx < x + 3,
                y - 2 <= cy <= y + 3,
                forall|t: int|
                    is_sq(t) ==> (#[trigger] has_sq(mask, t) <==> (knight_step(a, t) && (file_of(t)
                        < cx || (file_of(t) == cx && rank_of(t) < cy)))),
            decreases y + 3 - cy,
        {
            // A knight moves on both axes, and by different amounts.
            if is_inside_board(cx, cy) && cx != x && cy != y && !(cx - x == cy - y || cx - x == y
                - cy) {
                bm_set(&mut mask, cx, cy, true);
            }
            proof {
                assert forall|t: int| is_sq(t) implies (#[trigger] has_sq(mask, t) <==> (
                knight_step(a, t) && (file_of(t) < cx || (file_of(t) == cx && rank_of(t) < cy
                    + 1)))) by {
                    if file_of(t) == cx && rank_of(t) == cy {
                        assert(t == sq_at(cx as int, cy as int));
                    }
                }
            }
            cy += 1;
        }
        cx += 1;
    }
    mask
}

/// Fills the king mask of the square at `(x, y)`.
fn make_king_moves(x: i64, y: i64) -> (mask: BitMask)
    requires
        on_board(x as int, y as int),
    ensures
        forall|t: int|
            is_sq(t) ==> (#[trigger] has_sq(mask, t) <==> king_step(sq_at(x as int, y as int), t)),
{
    let ghost a = sq_at(x as int, y as int);
    let mut mask: BitMask = 0;
    let mut cx = x - 1;
    proof {
        assert forall|t: int| is_sq(t) implies !has_sq(0, t) by {
            crate::bitmask::lemma_has_zero(t);
        }
    }
    while cx < x + 2
        invariant
            on_board(x as int, y as int),
            a == sq_at(x as int, y as int),
            x - 1 <= cx <= x + 2,
            forall|t: int|
                is_sq(t) ==> (#[trigger] has_sq(mask, t) <==> (king_step(a, t) && file_of(t) < cx)),
        decreases x + 2 - cx,
    {
        let mut cy = y - 1;
        while cy < y + 2
            invariant
                on_board(x as int, y as int),
                a == sq_at(x as int, y as int),
                x - 1 <= cx < x + 2,
                y - 1 <= cy <= y + 2,
                forall|t: int|
                    is_sq(t) ==> (#[trigger] has_sq(mask, t) <==> (king_step(a, t) && (file_of(t)
                        < cx || (file_of(t) == cx && rank_of(t) < cy)))),
            decreases y + 2 - cy,
        {
            // A king must move.
            if is_inside_board(cx, cy) && !(cx == x && cy == y) {
                bm_set(&mut mask, cx, cy, true);
            }
            proof {
                assert forall|t: int| is_sq(t) implies (#[trigger] has_sq(mask, t) <==> (king_step(
                    a,
                    t,
                ) && (file_of(t) < cx || (file_of(t) == cx && rank_of(t) < cy + 1)))) by {
                    if file_of(t) == cx && rank_of(t) == cy {
                        assert(t == sq_at(cx as int, cy as int));
                    }
                }
            }
            cy += 1;
        }
        cx += 1;
    }
    mask
}

/// Fills the bishop mask of the square at `(x, y)`: four rays over an empty board.
fn make_bishop_moves(x: i64, y: i64) -> (mask: BitMask)
    requires
        on_board(x as int, y as int),
    ensures
        forall|t: int|
            is_sq(t) ==> (#[trigger] has_sq(mask, t) <==> bishop_line(sq_at(x as int, y as int), t)),
{
    broadcast use group_has_sq;

    let ghost a = sq_at(x as int, y as int);
    let mut bishop_moves: BitMask = 0;
    bishop_moves |= make_ray(x, y, -1, -1, 0);
    bishop_moves |= make_ray(x, y, -1, 1, 0);
    bishop_moves |= make_ray(x, y, 1, -1, 0);
    bishop_moves |= make_ray(x, y, 1, 1, 0);
    let mask = bishop_moves & !bm_from_xy(x, y);
    proof {
        lemma_sq_at(x as int, y as int);
        assert forall|t: int| is_sq(t) implies (#[trigger] has_sq(mask, t) <==> bishop_line(a, t)) by {
            if queen_line(a, t) {
                lemma_line_coords(a, t);
            }
            assert(clear_between(0, a, t));
        }
    }
    mask
}

/// The three line masks of the pair of squares `(x, y)` and `(ex, ey)`: both
/// with what lies between, what lies strictly between, and the ray from the
/// first through the second.
fn make_pair_masks(x: i64, y: i64, ex: i64, ey: i64) -> (masks: (BitMask, BitMask, BitMask))
    requires
        on_board(x as int, y as int),
        on_board(ex as int, ey as int),
    ensures
        forall|c: int|
            #![trigger has_sq(masks.0, c)]
            #![trigger has_sq(masks.1, c)]
            #![trigger has_sq(masks.2, c)]
            is_sq(c) ==> {
                let a = sq_at(x as int, y as int);
                let b = sq_at(ex as int, ey as int);
                &&& has_sq(masks.0, c) == (c == a || c == b || between(a, b, c))
                &&& has_sq(masks.1, c) == between(a, b, c)
                &&& has_sq(masks.2, c) == (c == a || on_ray(a, b, c))
            },
{
    broadcast use group_has_sq;

    let ghost a = sq_at(x as int, y as int);
    let ghost b = sq_at(ex as int, ey as int);
    proof {
        lemma_sq_at(x as int, y as int);
        lemma_sq_at(ex as int, ey as int);
    }
    let here = bm_from_xy(x, y);
    let there = bm_from_xy(ex, ey);

    // Both ends are in the masks whatever lies between.
    let mut inclusive: BitMask = here | there;
    let mut exclusive: BitMask = 0;
    let mut ray: BitMask = here;

    let dx = ex - x;
    let dy = ey - y;
    let abs_dx = if dx < 0 {
        -dx
    } else {
        dx
    };
    let abs_dy = if dy < 0 {
        -dy
    } else {
        dy
    };
    if (dx == 0 && dy == 0) || (abs_dx != abs_dy && dx != 0 && dy != 0) {
        // The same square, or no line between the two.
        proof {
            assert(!queen_line(a, b));
        }
    } else {
        let dir_x: i64 = if dx > 0 {
            1
        } else if dx < 0 {
            -1
        } else {
            0
        };
        let dir_y: i64 = if dy > 0 {
            1
        } else if dy < 0 {
            -1
        } else {
            0
        };
        let from_here = make_ray(x, y, dir_x, dir_y, 0);
        let from_there = make_ray(ex, ey, dir_x, dir_y, 0);
        // The squares from here up to the other end, that end left out.
        let mask = from_here & !from_there;
        inclusive |= mask;
        exclusive = mask & !here & !there;
        ray = from_here;
        proof {
            assert(queen_line(a, b));
            lemma_line_coords(a, b);
            let step = step_of(a, b);
            assert(step == dir_x + 8 * dir_y);
            assert forall|c: int| is_sq(c) implies (#[trigger] has_sq(from_here, c) <==> (c == a
                || on_ray(a, b, c))) by {
                assert(clear_between(0, a, c));
            }
            assert forall|c: int| is_sq(c) implies (#[trigger] has_sq(from_there, c) <==> (on_ray(
                a,
                b,
                c,
            ) && dist(a, c) >= dist(a, b))) by {
                lemma_ray_from_far_end(a, b, c);
                assert(clear_between(0, b, c));
            }
        }
    }
    (inclusive, exclusive, ray)
}

/// The squares of the ray from `a` through `b` that lie at `b` or beyond are
/// those of the ray that starts at `b` in the same direction.
proof fn lemma_ray_from_far_end(a: int, b: int, c: int)
    requires
        is_sq(a),
        is_sq(b),
        is_sq(c),
        queen_line(a, b),
    ensures
        on_ray_from(b, step_of(a, b), c) <==> (on_ray(a, b, c) && dist(a, c) >= dist(a, b)),
{
    let step = step_of(a, b);
    lemma_line_coords(a, b);
    if queen_line(a, c) && step_of(a, c) == step {
        lemma_line_coords(a, c);
    }
    if queen_line(b, c) && step_of(b, c) == step {
        lemma_line_coords(b, c);
    }
    if on_ray(a, b, c) && dist(a, c) > dist(a, b) {
        lemma_walk_coords(b, step, dist(a, c) - dist(a, b), c);
    }
    if on_ray(a, b, c) && dist(a, c) == dist(a, b) {
        assert(file_of(c) == file_of(b) && rank_of(c) == rank_of(b));
    }
    if on_ray_from(b, step, c) && c != b {
        lemma_walk_coords(a, step, dist(a, b) + dist(b, c), c);
    }
}

/// The masks of square `a` on an empty board.
fn make_base_masks(x: i64, y: i64) -> (masks: (BitMask, BitMask, BitMask, BitMask, BitMask))
    requires
        on_board(x as int, y as int),
    ensures
        forall|t: int|
            #![trigger has_sq(masks.0, t)]
            #![trigger has_sq(masks.1, t)]
            #![trigger has_sq(masks.2, t)]
            #![trigger has_sq(masks.3, t)]
            #![trigger has_sq(masks.4, t)]
            is_sq(t) ==> {
                let a = sq_at(x as int, y as int);
                &&& has_sq(masks.0, t) == knight_step(a, t)
                &&& has_sq(masks.1, t) == rook_line(a, t)
                &&& has_sq(masks.2, t) == bishop_line(a, t)
                &&& has_sq(masks.3, t) == queen_line(a, t)
                &&& has_sq(masks.4, t) == king_step(a, t)
            },
{
    broadcast use group_has_sq;

    proof {
        lemma_sq_at(x as int, y as int);
    }
    let here = bm_from_xy(x, y);
    let knight = make_knight_moves(x, y);
    let rook = (bm_make_column(x) | bm_make_row(y)) & !here;
    let bishop = make_bishop_moves(x, y);
    let queen = rook | bishop;
    let king = make_king_moves(x, y);
    (knight, rook, bishop, queen, king)
}

/// Fills every mask of the square at `(x, y)`.
fn init_at_pos(tables: &mut LookupTables, x: i64, y: i64)
    requires
        on_board(x as int, y as int),
    ensures
        final(tables).row_ok(sq_at(x as int, y as int)),
        forall|a: int|
            is_sq(a) && a != sq_at(x as int, y as int) ==> #[trigger] final(tables).same_row(
                old(tables),
                a,
            ),
{
    let idx = (x + y * 8) as usize;
    let ghost a = idx as int;
    let ghost before = *tables;
    proof {
        lemma_sq_at(x as int, y as int);
    }
    let (knight, rook, bishop, queen, king) = make_base_masks(x, y);
    tables.knight_moves[idx] = knight;
    tables.rook_moves[idx] = rook;
    tables.bishop_moves[idx] = bishop;
    tables.queen_moves[idx] = queen;
    tables.king_moves[idx] = king;

    // The masks between this square and every other.
    let mut inclusive_row = tables.between_inclusive[idx];
    let mut exclusive_row = tables.between_exclusive[idx];
    let mut ray_row = tables.ray[idx];
    let mut ex: i64 = 0;
    while ex < 8
        invariant
            0 <= ex <= 8,
            on_board(x as int, y as int),
            a == sq_at(x as int, y as int),
            forall|b: int|
                is_sq(b) && file_of(b) < ex ==> #[trigger] row_pair_ok(
                    inclusive_row,
                    exclusive_row,
                    ray_row,
                    a,
                    b,
                ),
        decreases 8 - ex,
    {
        let mut ey: i64 = 0;
        while ey < 8
            invariant
                0 <= ex < 8,
                0 <= ey <= 8,
                on_board(x as int, y as int),
                a == sq_at(x as int, y as int),
                forall|b: int|
                    is_sq(b) && (file_of(b) < ex || (file_of(b) == ex && rank_of(b) < ey))
                        ==> #[trigger] row_pair_ok(inclusive_row, exclusive_row, ray_row, a, b),
            decreases 8 - ey,
        {
            let eidx = (ex + ey * 8) as usize;
            let ghost b = eidx as int;
            let ghost rows = (inclusive_row, exclusive_row, ray_row);
            proof {
                lemma_sq_at(ex as int, ey as int);
            }
            let (inclusive, exclusive, ray) = make_pair_masks(x, y, ex, ey);
            inclusive_row[eidx] = inclusive;
            exclusive_row[eidx] = exclusive;
            ray_row[eidx] = ray;
            proof {
                assert(row_pair_ok(inclusive_row, exclusive_row, ray_row, a, b));
                assert forall|b2: int|
                    is_sq(b2) && (file_of(b2) < ex || (file_of(b2) == ex && rank_of(b2) < ey + 1))
                    implies #[trigger] row_pair_ok(inclusive_row, exclusive_row, ray_row, a, b2) by {
                    if b2 != b {
                        assert(row_pair_ok(rows.0, rows.1, rows.2, a, b2));
                    }
                }
            }
            ey += 1;
        }
        ex += 1;
    }
    tables.between_inclusive[idx] = inclusive_row;
    tables.between_exclusive[idx] = exclusive_row;
    tables.ray[idx] = ray_row;
    proof {
        assert(tables.base_ok(a));
        assert forall|b: int| is_sq(b) implies #[trigger] tables.pair_ok(a, b) by {
            assert(row_pair_ok(inclusive_row, exclusive_row, ray_row, a, b));
        }
    }
}

/// The line masks of the pair `(a, b)`, in the three rows of square `a`, are right.
pub open spec fn row_pair_ok(
    inclusive_row: [BitMask; 64],
    exclusive_row: [BitMask; 64],
    ray_row: [BitMask; 64],
    a: int,
    b: int,
) -> bool {
    forall|c: int|
        #![trigger has_sq(exclusive_row[b], c)]
        #![trigger has_sq(inclusive_row[b], c)]
        #![trigger has_sq(ray_row[b], c)]
        is_sq(c) ==> {
            &&& has_sq(exclusive_row[b], c) == between(a, b, c)
            &&& has_sq(inclusive_row[b], c) == (c == a || c == b || between(a, b, c))
            &&& has_sq(ray_row[b], c) == (c == a || on_ray(a, b, c))
        }
}

/// Tables in which no mask holds anything.
fn blank_tables() -> (tables: LookupTables)
    ensures
        forall|a: int|
            0 <= a < 64 ==> {
                &&& #[trigger] tables.knight_moves[a] == 0
                &&& tables.rook_moves[a] == 0
                &&& tables.bishop_moves[a] == 0
                &&& tables.queen_moves[a] == 0
                &&& tables.king_moves[a] == 0
            },
        forall|a: int, b: int|
            0 <= a < 64 && 0 <= b < 64 ==> {
                &&& #[trigger] tables.between_inclusive[a][b] == 0
                &&& tables.between_exclusive[a][b] == 0
                &&& tables.ray[a][b] == 0
            },
{
    LookupTables {
        knight_moves: [0;64],
        rook_moves: [0;64],
        bishop_moves: [0;64],
        queen_moves: [0;64],
        king_moves: [0;64],
        between_inclusive: [[0;64];64],
        between_exclusive: [[0;64];64],
        ray: [[0;64];64],
    }
}

/// Computes the tables for all sixty-four squares.
pub fn init() -> (tables: LookupTables)
    ensures
        tables.wf(),
{
    let mut tables = blank_tables();
    let mut x: i64 = 0;
    while x < 8
        invariant
            0 <= x <= 8,
            forall|a: int| is_sq(a) && file_of(a) < x ==> #[trigger] tables.row_ok(a),
        decreases 8 - x,
    {
        let mut y: i64 = 0;
        while y < 8
            invariant
                0 <= x < 8,
                0 <= y <= 8,
                forall|a: int|
                    is_sq(a) && (file_of(a) < x || (file_of(a) == x && rank_of(a) < y))
                        ==> #[trigger] tables.row_ok(a),
            decreases 8 - y,
        {
            let ghost before = tables;
            let ghost here = sq_at(x as int, y as int);
            proof {
                lemma_sq_at(x as int, y as int);
            }
            init_at_pos(&mut tables, x, y);
            proof {
                assert forall|a: int|
                    is_sq(a) && (file_of(a) < x || (file_of(a) == x && rank_of(a) < y + 1))
                    implies #[trigger] tables.row_ok(a) by {
                    if a != here {
                        assert(tables.same_row(&before, a));
                        assert(before.row_ok(a));
                        lemma_same_row_ok(&tables, &before, a);
                    }
                }
            }
            y += 1;
        }
        x += 1;
    }
    tables
}

/// A piece of kind `piece_idx` on `a` reaches `b` on an empty board. Pawns,
/// which move by their side, reach nothing here.
pub open spec fn base_attacks(piece_idx: int, a: int, b: int) -> bool {
    if piece_idx == PIECE_KNIGHT {
        knight_step(a, b)
    } else if piece_idx == PIECE_BISHOP {
        bishop_line(a, b)
    } else if piece_idx == PIECE_ROOK {
        rook_line(a, b)
    } else if piece_idx == PIECE_QUEEN {
        queen_line(a, b)
    } else if piece_idx == PIECE_KING {
        king_step(a, b)
    } else {
        false
    }
}

/// A piece of kind `piece_idx` on `a` attacks `b` over the pieces in `occ`.
/// Pawns, which attack by their side, attack nothing here.
pub open spec fn piece_attacks(piece_idx: int, a: int, occ: BitMask, b: int) -> bool {
    if is_slider(piece_idx) {
        slider_kind_attacks(piece_idx, a, occ, b)
    } else {
        base_attacks(piece_idx, a, b)
    }
}

/// The squares that a piece of kind `piece_idx` on `pos_idx` reaches on an
/// empty board; none for a pawn or for a number that names no piece.
pub fn get_piece_base_tos(tables: &Tables, piece_idx: usize, pos_idx: usize) -> (tos: BitMask)
    requires
        tables.wf(),
        pos_idx < 64,
    ensures
        forall|t: int|
            is_sq(t) ==> #[trigger] has_sq(tos, t) == base_attacks(
                piece_idx as int,
                pos_idx as int,
                t,
            ),
{
    assert(tables.lookup.row_ok(pos_idx as int));
    if piece_idx == PIECE_KNIGHT {
        tables.lookup.knight_moves[pos_idx]
    } else if piece_idx == PIECE_BISHOP {
        tables.lookup.bishop_moves[pos_idx]
    } else if piece_idx == PIECE_ROOK {
        tables.lookup.rook_moves[pos_idx]
    } else if piece_idx == PIECE_QUEEN {
        tables.lookup.queen_moves[pos_idx]
    } else if piece_idx == PIECE_KING {
        tables.lookup.king_moves[pos_idx]
    } else {
        proof {
            assert forall|t: int| is_sq(t) implies !has_sq(0, t) by {
                crate::bitmask::lemma_has_zero(t);
            }
        }
        0
    }
}

/// The squares that a bishop, rook or queen on square `piece_pos_idx` attacks
/// over the pieces in `occupy`, looked up in the magic tables.
pub fn get_slider_tos_fast(
    magic: &MagicTables,
    piece_idx: usize,
    piece_pos_idx: usize,
    occupy: BitMask,
) -> (tos: BitMask)
    requires
        magic.wf(),
        is_slider(piece_idx as int),
        piece_pos_idx < 64,
    ensures
        forall|t: int|
            is_sq(t) ==> (#[trigger] has_sq(tos, t) <==> slider_kind_attacks(
                piece_idx as int,
                piece_pos_idx as int,
                occupy,
                t,
            )),
{
    broadcast use group_has_sq;

    if piece_idx == PIECE_BISHOP {
        get_bishop_moves(magic, piece_pos_idx, occupy)
    } else if piece_idx == PIECE_ROOK {
        get_rook_moves(magic, piece_pos_idx, occupy)
    } else {
        get_bishop_moves(magic, piece_pos_idx, occupy) | get_rook_moves(
            magic,
            piece_pos_idx,
            occupy,
        )
    }
}

/// The squares that a piece of kind `piece_idx` on square `piece_pos_idx`
/// attacks over the pieces in `occupy`. What stands on `piece_pos` is not
/// counted as a piece in the way. Sliders are looked up in the magic tables
/// where these were made, and found by walking the board where not.
pub fn get_piece_tos(
    tables: &Tables,
    piece_idx: usize,
    piece_pos: BitMask,
    piece_pos_idx: usize,
    occupy: BitMask,
) -> (tos: BitMask)
    requires
        tables.wf(),
        piece_pos_idx < 64,
    ensures
        forall|t: int|
            is_sq(t) ==> #[trigger] has_sq(tos, t) == piece_attacks(
                piece_idx as int,
                piece_pos_idx as int,
                occupy & !piece_pos,
                t,
            ),
{
    let occupy = occupy & !piece_pos;
    if piece_idx == PIECE_BISHOP || piece_idx == PIECE_ROOK || piece_idx == PIECE_QUEEN {
        match &tables.magic {
            Some(magic) => get_slider_tos_fast(magic, piece_idx, piece_pos_idx, occupy),
            None => get_slider_tos_slow(piece_idx, piece_pos_idx, occupy),
        }
    } else {
        get_piece_base_tos(tables, piece_idx, piece_pos_idx)
    }
}

/// What stands on the attacker's own square does not change what it attacks.
pub proof fn lemma_piece_attacks_own_square(piece_idx: int, a: int, occ: BitMask, b: int)
    requires
        is_sq(a),
    ensures
        piece_attacks(piece_idx, a, occ & !sq_mask(a), b) == piece_attacks(piece_idx, a, occ, b),
{
    broadcast use group_has_sq;

    if is_slider(piece_idx) {
        if clear_between(occ, a, b) {
            assert forall|c: int| is_sq(c) && #[trigger] between(a, b, c) implies !has_sq(
                occ & !sq_mask(a),
                c,
            ) by {}
        }
        if clear_between(occ & !sq_mask(a), a, b) {
            assert forall|c: int| is_sq(c) && #[trigger] between(a, b, c) implies !has_sq(occ, c) by {
                assert(!has_sq(occ & !sq_mask(a), c));
                assert(c != a);
            }
        }
    }
}

/// The squares strictly between two squares on a line; none for other pairs.
pub fn get_between_mask_exclusive(tables: &Tables, idx_a: usize, idx_b: usize) -> (mask: BitMask)
    requires
        tables.wf(),
        idx_a < 64,
        idx_b < 64,
    ensures
        forall|c: int|
            is_sq(c) ==> #[trigger] has_sq(mask, c) == between(idx_a as int, idx_b as int, c),
{
    assert(tables.lookup.row_ok(idx_a as int));
    assert(tables.lookup.pair_ok(idx_a as int, idx_b as int));
    tables.lookup.between_exclusive[idx_a][idx_b]
}

/// Two squares, and where they are on a line, the squares between them.
pub fn get_between_mask_inclusive(tables: &Tables, idx_a: usize, idx_b: usize) -> (mask: BitMask)
    requires
        tables.wf(),
        idx_a < 64,
        idx_b < 64,
    ensures
        forall|c: int|
            is_sq(c) ==> #[trigger] has_sq(mask, c) == (c == idx_a || c == idx_b || between(
                idx_a as int,
                idx_b as int,
                c,
            )),
{
    assert(tables.lookup.row_ok(idx_a as int));
    assert(tables.lookup.pair_ok(idx_a as int, idx_b as int));
    tables.lookup.between_inclusive[idx_a][idx_b]
}

/// The square `idx_from`, and where `idx_towards` is on a line with it, all
/// squares from it through `idx_towards` to the edge of the board.
pub fn get_ray_mask(tables: &Tables, idx_from: usize, idx_towards: usize) -> (mask: BitMask)
    requires
        tables.wf(),
        idx_from < 64,
        idx_towards < 64,
    ensures
        forall|c: int|
            is_sq(c) ==> #[trigger] has_sq(mask, c) == (c == idx_from || on_ray(
                idx_from as int,
                idx_towards as int,
                c,
            )),
{
    assert(tables.lookup.row_ok(idx_from as int));
    assert(tables.lookup.pair_ok(idx_from as int, idx_towards as int));
    tables.lookup.ray[idx_from][idx_towards]
}


} // verus!
