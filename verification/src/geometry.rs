//! The geometry of the board: steps, lines and what lies between two squares.
//!
//! Everything here is specification. Squares are indices 0..64.

use vstd::prelude::*;
use crate::bitmask::{BitMask, has_sq, file_of, rank_of, on_board, sq_at};

verus! {

pub open spec fn abs(v: int) -> int {
    if v < 0 {
        -v
    } else {
        v
    }
}

pub open spec fn sgn(v: int) -> int {
    if v > 0 {
        1
    } else if v < 0 {
        -1
    } else {
        0
    }
}

/// Files from `a` to `b`.
pub open spec fn dx(a: int, b: int) -> int {
    file_of(b) - file_of(a)
}

/// Ranks from `a` to `b`.
pub open spec fn dy(a: int, b: int) -> int {
    rank_of(b) - rank_of(a)
}

/// How many king steps lie between `a` and `b`.
pub open spec fn dist(a: int, b: int) -> int {
    if abs(dx(a, b)) >= abs(dy(a, b)) {
        abs(dx(a, b))
    } else {
        abs(dy(a, b))
    }
}

pub open spec fn is_sq(a: int) -> bool {
    0 <= a < 64
}

/// A knight on `a` reaches `b`.
pub open spec fn knight_step(a: int, b: int) -> bool {
    (abs(dx(a, b)) == 1 && abs(dy(a, b)) == 2) || (abs(dx(a, b)) == 2 && abs(dy(a, b)) == 1)
}

/// A king on `a` reaches `b`.
pub open spec fn king_step(a: int, b: int) -> bool {
    dist(a, b) == 1
}

/// `a` and `b` are different squares of one rank or one file.
pub open spec fn rook_line(a: int, b: int) -> bool {
    a != b && (dx(a, b) == 0 || dy(a, b) == 0)
}

/// `a` and `b` are different squares of one diagonal.
pub open spec fn bishop_line(a: int, b: int) -> bool {
    a != b && abs(dx(a, b)) == abs(dy(a, b))
}

/// `a` and `b` are different squares of one rank, file or diagonal.
pub open spec fn queen_line(a: int, b: int) -> bool {
    rook_line(a, b) || bishop_line(a, b)
}

/// The direction from `a` to `b`, as the difference of the indices of two
/// neighbouring squares: one of 1, -1, 8, -8, 9, -9, 7, -7 for squares on a line.
pub open spec fn step_of(a: int, b: int) -> int {
    sgn(dx(a, b)) + 8 * sgn(dy(a, b))
}

/// `c` lies on the line from `a` towards `b` and beyond, `a` itself left out.
pub open spec fn on_ray(a: int, b: int, c: int) -> bool {
    queen_line(a, b) && queen_line(a, c) && step_of(a, b) == step_of(a, c)
}

/// `c` lies strictly between `a` and `b` on their common line.
pub open spec fn between(a: int, b: int, c: int) -> bool {
    on_ray(a, b, c) && dist(a, c) < dist(a, b)
}

/// No square strictly between `a` and `b` is in `occ`.
pub open spec fn clear_between(occ: BitMask, a: int, b: int) -> bool {
    forall|c: int| is_sq(c) && #[trigger] between(a, b, c) ==> !has_sq(occ, c)
}

/// `k` steps of size `unit`, where `unit` is -1, 0 or 1.
pub open spec fn scaled(k: int, unit: int) -> int {
    if unit == 1 {
        k
    } else if unit == -1 {
        -k
    } else {
        0
    }
}

/// Files that one step in direction `step` adds.
pub open spec fn step_dx(step: int) -> int {
    if step == 1 || step == 9 || step == -7 {
        1
    } else if step == -1 || step == -9 || step == 7 {
        -1
    } else {
        0
    }
}

/// Ranks that one step in direction `step` adds.
pub open spec fn step_dy(step: int) -> int {
    if step == 8 || step == 9 || step == 7 {
        1
    } else if step == -8 || step == -9 || step == -7 {
        -1
    } else {
        0
    }
}

/// Whether `step` is one of the eight directions.
pub open spec fn is_step(step: int) -> bool {
    step == 1 || step == -1 || step == 8 || step == -8 || step == 9 || step == -9 || step == 7
        || step == -7
}

/// A rook, bishop or queen (by `rook` and `bishop`) on `a` attacks `b` when
/// the squares in `occ` stand on the board.
pub open spec fn slider_attacks(rook: bool, bishop: bool, a: int, occ: BitMask, b: int) -> bool {
    ((rook && rook_line(a, b)) || (bishop && bishop_line(a, b))) && clear_between(occ, a, b)
}

/// Coordinates and index name the same square.
pub proof fn lemma_sq_coords(a: int)
    requires
        is_sq(a),
    ensures
        on_board(file_of(a), rank_of(a)),
        sq_at(file_of(a), rank_of(a)) == a,
{
}

pub proof fn lemma_sq_at(x: int, y: int)
    requires
        on_board(x, y),
    ensures
        is_sq(sq_at(x, y)),
        file_of(sq_at(x, y)) == x,
        rank_of(sq_at(x, y)) == y,
{
}

/// On a line, the target lies `dist` steps from the origin.
pub proof fn lemma_line_coords(a: int, b: int)
    requires
        is_sq(a),
        is_sq(b),
        queen_line(a, b),
    ensures
        is_step(step_of(a, b)),
        dist(a, b) >= 1,
        file_of(b) == file_of(a) + scaled(dist(a, b), step_dx(step_of(a, b))),
        rank_of(b) == rank_of(a) + scaled(dist(a, b), step_dy(step_of(a, b))),
        step_dx(step_of(a, b)) == sgn(dx(a, b)),
        step_dy(step_of(a, b)) == sgn(dy(a, b)),
{
}

/// The square `k` steps from `a` on the line towards `step` is on that ray.
pub proof fn lemma_walk_coords(a: int, step: int, k: int, c: int)
    requires
        is_sq(a),
        is_sq(c),
        is_step(step),
        k >= 1,
        file_of(c) == file_of(a) + scaled(k, step_dx(step)),
        rank_of(c) == rank_of(a) + scaled(k, step_dy(step)),
    ensures
        queen_line(a, c),
        step_of(a, c) == step,
        dist(a, c) == k,
{
}

/// The neighbour of `u` in direction `step`, where it is on the board.
pub proof fn lemma_neighbour(u: int, step: int)
    requires
        is_sq(u),
        is_step(step),
        on_board(file_of(u) + step_dx(step), rank_of(u) + step_dy(step)),
    ensures
        is_sq(u + step),
        file_of(u + step) == file_of(u) + step_dx(step),
        rank_of(u + step) == rank_of(u) + step_dy(step),
{
}

/// One step further along a ray: what lies between grows by the square left behind.
pub proof fn lemma_between_extend(a: int, u: int, step: int)
    requires
        is_sq(a),
        is_sq(u),
        is_step(step),
        on_board(file_of(u) + step_dx(step), rank_of(u) + step_dy(step)),
        u == a || (queen_line(a, u) && step_of(a, u) == step),
    ensures
        queen_line(a, u + step),
        step_of(a, u + step) == step,
        dist(a, u + step) == (if u == a {
            0
        } else {
            dist(a, u)
        }) + 1,
        forall|c: int|
            is_sq(c) ==> (#[trigger] between(a, u + step, c) <==> (u != a && (c == u || between(
                a,
                u,
                c,
            )))),
{
    lemma_neighbour(u, step);
    let t = u + step;
    if u != a {
        lemma_line_coords(a, u);
    }
    let k = if u == a {
        0
    } else {
        dist(a, u)
    };
    lemma_walk_coords(a, step, k + 1, t);
    assert forall|c: int| is_sq(c) implies (#[trigger] between(a, t, c) <==> (u != a && (c == u
        || between(a, u, c)))) by {
        if queen_line(a, c) && step_of(a, c) == step {
            lemma_line_coords(a, c);
            if u != a && dist(a, c) == dist(a, u) {
                assert(file_of(c) == file_of(u));
                assert(rank_of(c) == rank_of(u));
                assert(c == u);
            }
        }
    }
}

/// The square before `t` on the line from `a`.
pub proof fn lemma_between_last(a: int, t: int)
    requires
        is_sq(a),
        is_sq(t),
        queen_line(a, t),
    ensures
        is_sq(t - step_of(a, t)),
        on_board(
            file_of(t - step_of(a, t)) + step_dx(step_of(a, t)),
            rank_of(t - step_of(a, t)) + step_dy(step_of(a, t)),
        ),
        dist(a, t) == 1 ==> t - step_of(a, t) == a,
        dist(a, t) > 1 ==> queen_line(a, t - step_of(a, t)) && step_of(a, t - step_of(a, t))
            == step_of(a, t) && dist(a, t - step_of(a, t)) == dist(a, t) - 1,
{
    lemma_line_coords(a, t);
    let step = step_of(a, t);
    let ux = file_of(t) - step_dx(step);
    let uy = rank_of(t) - step_dy(step);
    lemma_sq_at(ux, uy);
    assert(sq_at(ux, uy) == t - step);
    if dist(a, t) > 1 {
        lemma_walk_coords(a, step, dist(a, t) - 1, t - step);
    }
}

/// What lies between two squares lies between them from either end.
pub proof fn lemma_between_sym(a: int, b: int, c: int)
    requires
        is_sq(a),
        is_sq(b),
        is_sq(c),
    ensures
        between(a, b, c) == between(b, a, c),
{
    if between(a, b, c) {
        lemma_line_coords(a, b);
        lemma_line_coords(a, c);
        let step = step_of(a, b);
        lemma_walk_coords(b, -step, dist(a, b), a);
        lemma_walk_coords(b, -step, dist(a, b) - dist(a, c), c);
    }
    if between(b, a, c) {
        lemma_line_coords(b, a);
        lemma_line_coords(b, c);
        let step = step_of(b, a);
        lemma_walk_coords(a, -step, dist(b, a), b);
        lemma_walk_coords(a, -step, dist(b, a) - dist(b, c), c);
    }
}

/// A square on the ray from `k` through a square `f` between `a` and `k`
/// lies between `a` and `k`, or is `a`, or lies beyond `a` as seen from `f`.
pub proof fn lemma_ray_cases(a: int, k: int, f: int, to: int)
    requires
        is_sq(a),
        is_sq(k),
        is_sq(f),
        is_sq(to),
        between(a, k, f),
        on_ray(k, f, to),
    ensures
        between(a, k, to) || to == a || between(f, to, a),
{
    lemma_line_coords(a, k);
    lemma_line_coords(a, f);
    let step = step_of(a, k);
    let n = dist(a, k);
    let j = dist(a, f);
    lemma_walk_coords(k, -step, n - j, f);
    lemma_line_coords(k, to);
    let i = dist(k, to);
    if i < n {
        lemma_walk_coords(a, step, n - i, to);
    } else if i == n {
        assert(file_of(to) == file_of(a) && rank_of(to) == rank_of(a));
    } else {
        lemma_walk_coords(f, -step, j, a);
        lemma_walk_coords(f, -step, j + (i - n), to);
    }
}

/// No corner of the board lies between two squares.
pub proof fn lemma_corner_not_between(a: int, b: int, c: int)
    requires
        is_sq(a),
        is_sq(b),
        is_sq(c),
        between(a, b, c),
    ensures
        c != 0 && c != 7 && c != 56 && c != 63,
{
    lemma_line_coords(a, b);
    lemma_line_coords(a, c);
}

/// Nothing lies between two squares that are neighbours, or the same.
pub proof fn lemma_neighbours_none_between(a: int, b: int, c: int)
    requires
        is_sq(a),
        is_sq(b),
        is_sq(c),
        dist(a, b) <= 1,
    ensures
        !between(a, b, c),
{
    if queen_line(a, c) {
        lemma_line_coords(a, c);
    }
}

/// A knight's step follows no line.
pub proof fn lemma_knight_no_line(a: int, b: int)
    requires
        knight_step(a, b),
    ensures
        !queen_line(a, b),
{
}

/// Two squares between `a` and `k` have between them only squares that lie
/// between `a` and `k`.
pub proof fn lemma_between_inner(a: int, k: int, x: int, y: int, c: int)
    requires
        is_sq(a),
        is_sq(k),
        is_sq(x),
        is_sq(y),
        is_sq(c),
        between(a, k, x) || x == a || x == k,
        between(a, k, y) || y == a || y == k,
        queen_line(a, k),
        between(x, y, c),
    ensures
        between(a, k, c),
{
    lemma_line_coords(a, k);
    let step = step_of(a, k);
    let n = dist(a, k);
    if x != a {
        lemma_line_coords(a, x);
    }
    if y != a {
        lemma_line_coords(a, y);
    }
    let i: int = if x == a {
        0
    } else {
        dist(a, x)
    };
    let j: int = if y == a {
        0
    } else {
        dist(a, y)
    };
    lemma_line_coords(x, y);
    lemma_line_coords(x, c);
    let m = dist(x, c);
    if i < j {
        assert(step_of(x, y) == step);
        lemma_walk_coords(a, step, i + m, c);
    } else {
        assert(step_of(x, y) == -step);
        lemma_walk_coords(a, step, i - m, c);
    }
}

/// On a line from `a` to `k`, the neighbour of a square between them in a
/// direction of the line lies between them too, or is one of the two.
pub proof fn lemma_neighbour_on_line(a: int, k: int, v: int, n: int)
    requires
        is_sq(a),
        is_sq(k),
        is_sq(v),
        is_sq(n),
        between(a, k, v),
        n == v + step_of(a, k) || n == v - step_of(a, k),
        file_of(n) - file_of(v) == step_dx(n - v),
        rank_of(n) - rank_of(v) == step_dy(n - v),
    ensures
        between(a, k, n) || n == a || n == k,
{
    lemma_line_coords(a, k);
    lemma_line_coords(a, v);
    let step = step_of(a, k);
    let j = dist(a, v);
    if n == v + step {
        if j + 1 < dist(a, k) {
            lemma_walk_coords(a, step, j + 1, n);
        } else {
            assert(file_of(n) == file_of(k) && rank_of(n) == rank_of(k));
        }
    } else {
        if j - 1 > 0 {
            lemma_walk_coords(a, step, j - 1, n);
        } else {
            assert(file_of(n) == file_of(a) && rank_of(n) == rank_of(a));
        }
    }
}


/// Two squares between which and `k` the same square lies stand on one ray
/// from `k`: the nearer of them lies between `k` and the farther.
pub proof fn lemma_same_ray(k: int, a1: int, a2: int, t: int)
    requires
        is_sq(k),
        is_sq(a1),
        is_sq(a2),
        is_sq(t),
        a1 != a2,
        between(k, a1, t),
        between(k, a2, t),
    ensures
        between(k, a1, a2) || between(k, a2, a1),
{
    lemma_line_coords(k, a1);
    lemma_line_coords(k, a2);
    lemma_line_coords(k, t);
    if dist(k, a1) == dist(k, a2) {
        assert(file_of(a1) == file_of(a2) && rank_of(a1) == rank_of(a2));
    }
}

/// Two squares between `a` and `k`: each lies on the ray from `k` through
/// the other.
pub proof fn lemma_between_on_ray(a: int, k: int, f: int, c: int)
    requires
        is_sq(a),
        is_sq(k),
        is_sq(f),
        is_sq(c),
        between(a, k, f),
        between(a, k, c) || c == a,
    ensures
        on_ray(k, f, c),
{
    lemma_between_sym(a, k, f);
    lemma_line_coords(k, a);
    lemma_line_coords(k, f);
    if c != a {
        lemma_between_sym(a, k, c);
        lemma_line_coords(k, c);
    }
}

/// A square attacked by a step of a knight, a king or a pawn is another
/// square, and nothing lies between the two.
pub proof fn lemma_step_apart(a: int, b: int, c: int)
    requires
        is_sq(a),
        is_sq(b),
        is_sq(c),
        knight_step(a, b) || dist(a, b) == 1,
    ensures
        a != b,
        !between(a, b, c),
        !between(b, a, c),
{
    if dist(a, b) == 1 {
        lemma_neighbours_none_between(a, b, c);
        lemma_neighbours_none_between(b, a, c);
    }
}


} // verus!
