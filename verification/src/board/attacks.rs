//! Keeping the derived fields of a position up to date: what each side
//! attacks, what is pinned, and what gives check.

use vstd::prelude::*;
use crate::bitmask::{
    BitMask, has_sq, is_square, lowest_sq, popcount, group_has_sq, lemma_is_square, lemma_square,
    lemma_has_test, lemma_nonempty, lemma_has_nonzero, lemma_popcount_small, bm_to_idx,
    bm_iter_bits, bm_count,
};
use crate::geometry::{is_sq, between};
use crate::lookup_gen::{base_attacks, is_slider, get_piece_base_tos, get_between_mask_exclusive};
use crate::board::{Board, PIECE_BISHOP, PIECE_ROOK, PIECE_QUEEN, PIECE_KING};
use crate::move_gen::generate_attacks;
use crate::Tables;

verus! {

/// The piece `(p, a)` has been dealt with when the walk over the pieces has
/// come to kind `piece_idx` with the squares in `remaining` still to do.
pub open spec fn walked(piece_idx: int, remaining: BitMask, p: int, a: int) -> bool {
    p < piece_idx || (p == piece_idx && !has_sq(remaining, a))
}

impl Board {
    pub open spec fn att_done(
        &self,
        t: int,
        piece_idx: int,
        remaining: BitMask,
        p: int,
        a: int,
        b: int,
    ) -> bool {
        walked(piece_idx, remaining, p, a) && self.attack_from(t, p, a, b)
    }

    pub open spec fn pin_done(
        &self,
        t: int,
        piece_idx: int,
        remaining: BitMask,
        p: int,
        a: int,
        c: int,
    ) -> bool {
        walked(piece_idx, remaining, p, a) && self.pins(t, p, a, c)
    }

    /// `attacks` holds what the pieces of side `t` dealt with so far attack.
    pub open spec fn attacks_upto(
        &self,
        attacks: BitMask,
        t: int,
        piece_idx: int,
        remaining: BitMask,
    ) -> bool {
        forall|b: int|
            is_sq(b) ==> #[trigger] has_sq(attacks, b) == exists|p: int, a: int| #[trigger]
                self.att_done(t, piece_idx, remaining, p, a, b)
    }

    /// `checkers` holds the pieces of side `t` dealt with so far that give check.
    pub open spec fn checkers_upto(
        &self,
        checkers: BitMask,
        t: int,
        piece_idx: int,
        remaining: BitMask,
    ) -> bool {
        let k = self.king_sq(1 - t);
        forall|a: int|
            is_sq(a) ==> #[trigger] has_sq(checkers, a) == exists|p: int| #[trigger]
                self.att_done(t, piece_idx, remaining, p, a, k)
    }

    /// `pinned` holds the pieces of side `t` that the sliders dealt with so far pin.
    pub open spec fn pinned_upto(
        &self,
        pinned: BitMask,
        t: int,
        piece_idx: int,
        remaining: BitMask,
    ) -> bool {
        forall|c: int|
            is_sq(c) ==> #[trigger] has_sq(pinned, c) == (has_sq(self.occ(t), c) && exists|
                p: int,
                a: int,
            | #[trigger] self.pin_done(t, piece_idx, remaining, p, a, c))
    }

    proof fn lemma_upto_start(&self, t: int)
        requires
            0 <= t < 2,
        ensures
            self.attacks_upto(0, t, 0, self.pieces[t][0]),
            self.checkers_upto(0, t, 0, self.pieces[t][0]),
            self.pinned_upto(0, 1 - t, 0, self.pieces[t][0]),
    {
        broadcast use group_has_sq;

        let o = 1 - t;
        let rem = self.pieces[t][0];
        let k = self.king_sq(1 - t);
        assert forall|b: int| is_sq(b) implies #[trigger] has_sq(0, b) == exists|p: int, a: int| #[trigger]
            self.att_done(t, 0, rem, p, a, b) by {
            assert forall|p: int, a: int| !self.att_done(t, 0, rem, p, a, b) by {}
        }
        assert forall|a: int| is_sq(a) implies #[trigger] has_sq(0, a) == exists|p: int| #[trigger]
            self.att_done(t, 0, rem, p, a, k) by {
            assert forall|p: int| !self.att_done(t, 0, rem, p, a, k) by {}
        }
        assert forall|c: int| is_sq(c) implies #[trigger] has_sq(0, c) == (has_sq(
            self.occ(o),
            c,
        ) && exists|p: int, a: int| #[trigger] self.pin_done(o, 0, rem, p, a, c)) by {
            assert forall|p: int, a: int| !self.pin_done(o, 0, rem, p, a, c) by {}
        }
    }

    proof fn lemma_upto_next(
        &self,
        attacks: BitMask,
        checkers: BitMask,
        pinned: BitMask,
        t: int,
        piece_idx: int,
    )
        requires
            0 <= t < 2,
            0 <= piece_idx < 5,
            self.attacks_upto(attacks, t, piece_idx, 0),
            self.checkers_upto(checkers, t, piece_idx, 0),
            self.pinned_upto(pinned, 1 - t, piece_idx, 0),
        ensures
            self.attacks_upto(attacks, t, piece_idx + 1, self.pieces[t][piece_idx + 1]),
            self.checkers_upto(checkers, t, piece_idx + 1, self.pieces[t][piece_idx + 1]),
            self.pinned_upto(pinned, 1 - t, piece_idx + 1, self.pieces[t][piece_idx + 1]),
    {
        broadcast use group_has_sq;

        let o = 1 - t;
        let rem = self.pieces[t][piece_idx + 1];
        let k = self.king_sq(1 - t);
        assert forall|p: int, a: int, b: int|
            self.att_done(t, piece_idx, 0, p, a, b) == self.att_done(
                t,
                piece_idx + 1,
                rem,
                p,
                a,
                b,
            ) by {}
        assert forall|p: int, a: int, c: int|
            self.pin_done(o, piece_idx, 0, p, a, c) == self.pin_done(o,
                piece_idx + 1,
                rem,
                p,
                a,
                c,
            ) by {}
        assert forall|b: int| is_sq(b) implies #[trigger] has_sq(attacks, b) == exists|
            p: int,
            a: int,
        | #[trigger] self.att_done(t, piece_idx + 1, rem, p, a, b) by {
            if exists|p: int, a: int| #[trigger] self.att_done(t, piece_idx + 1, rem, p, a, b) {
                let (p, a) = choose|p: int, a: int| #[trigger]
                    self.att_done(t, piece_idx + 1, rem, p, a, b);
                assert(self.att_done(t, piece_idx, 0, p, a, b));
            }
            if exists|p: int, a: int| #[trigger] self.att_done(t, piece_idx, 0, p, a, b) {
                let (p, a) = choose|p: int, a: int| #[trigger]
                    self.att_done(t, piece_idx, 0, p, a, b);
                assert(self.att_done(t, piece_idx + 1, rem, p, a, b));
            }
        }
        assert forall|a: int| is_sq(a) implies #[trigger] has_sq(checkers, a) == exists|p: int| #[trigger]
            self.att_done(t, piece_idx + 1, rem, p, a, k) by {
            if exists|p: int| #[trigger] self.att_done(t, piece_idx + 1, rem, p, a, k) {
                let p = choose|p: int| #[trigger] self.att_done(t, piece_idx + 1, rem, p, a, k);
                assert(self.att_done(t, piece_idx, 0, p, a, k));
            }
            if exists|p: int| #[trigger] self.att_done(t, piece_idx, 0, p, a, k) {
                let p = choose|p: int| #[trigger] self.att_done(t, piece_idx, 0, p, a, k);
                assert(self.att_done(t, piece_idx + 1, rem, p, a, k));
            }
        }
        assert forall|c: int| is_sq(c) implies #[trigger] has_sq(pinned, c) == (has_sq(
            self.occ(o),
            c,
        ) && exists|p: int, a: int| #[trigger] self.pin_done(o, piece_idx + 1, rem, p, a, c)) by {
            if exists|p: int, a: int| #[trigger] self.pin_done(o, piece_idx + 1, rem, p, a, c) {
                let (p, a) = choose|p: int, a: int| #[trigger]
                    self.pin_done(o, piece_idx + 1, rem, p, a, c);
                assert(self.pin_done(o, piece_idx, 0, p, a, c));
            }
            if exists|p: int, a: int| #[trigger] self.pin_done(o, piece_idx, 0, p, a, c) {
                let (p, a) = choose|p: int, a: int| #[trigger]
                    self.pin_done(o, piece_idx, 0, p, a, c);
                assert(self.pin_done(o, piece_idx + 1, rem, p, a, c));
            }
        }
    }

    proof fn lemma_upto_end(&self, attacks: BitMask, checkers: BitMask, pinned: BitMask, t: int)
        requires
            0 <= t < 2,
            self.attacks_upto(attacks, t, 5, 0),
            self.checkers_upto(checkers, t, 5, 0),
            self.pinned_upto(pinned, 1 - t, 5, 0),
        ensures
            forall|b: int| is_sq(b) ==> #[trigger] has_sq(attacks, b) == self.attacked_by(t, b),
            forall|a: int| is_sq(a) ==> #[trigger] has_sq(checkers, a) == self.gives_check(t, a),
            forall|c: int| is_sq(c) ==> #[trigger] has_sq(pinned, c) == self.is_pinned(1 - t, c),
    {
        broadcast use group_has_sq;

        let o = 1 - t;
        let k = self.king_sq(1 - t);
        assert forall|b: int| is_sq(b) implies #[trigger] has_sq(attacks, b) == self.attacked_by(
            t,
            b,
        ) by {
            if self.attacked_by(t, b) {
                let (p, a) = choose|p: int, a: int| #[trigger] self.attack_from(t, p, a, b);
                assert(self.att_done(t, 5, 0, p, a, b));
            }
            if exists|p: int, a: int| #[trigger] self.att_done(t, 5, 0, p, a, b) {
                let (p, a) = choose|p: int, a: int| #[trigger] self.att_done(t, 5, 0, p, a, b);
                assert(self.attack_from(t, p, a, b));
            }
        }
        assert forall|a: int| is_sq(a) implies #[trigger] has_sq(checkers, a) == self.gives_check(
            t,
            a,
        ) by {
            if self.gives_check(t, a) {
                let p = choose|p: int| #[trigger] self.attack_from(t, p, a, k);
                assert(self.att_done(t, 5, 0, p, a, k));
            }
            if exists|p: int| #[trigger] self.att_done(t, 5, 0, p, a, k) {
                let p = choose|p: int| #[trigger] self.att_done(t, 5, 0, p, a, k);
                assert(self.attack_from(t, p, a, k));
            }
        }
        assert forall|c: int| is_sq(c) implies #[trigger] has_sq(pinned, c) == self.is_pinned(
            1 - t,
            c,
        ) by {
            if exists|p: int, a: int| #[trigger] self.pins(o, p, a, c) {
                let (p, a) = choose|p: int, a: int| #[trigger] self.pins(o, p, a, c);
                assert(self.pin_done(o, 5, 0, p, a, c));
            }
            if exists|p: int, a: int| #[trigger] self.pin_done(o, 5, 0, p, a, c) {
                let (p, a) = choose|p: int, a: int| #[trigger] self.pin_done(o, 5, 0, p, a, c);
                assert(self.pins(o, p, a, c));
            }
        }
    }

    /// One more piece of side `t`, the one of kind `piece_idx` on `a0`, is dealt with.
    proof fn lemma_upto_step(
        &self,
        attacks: BitMask,
        checkers: BitMask,
        pinned: BitMask,
        piece_attacks: BitMask,
        new_checker: BitMask,
        new_pinned: BitMask,
        t: int,
        piece_idx: int,
        remaining: BitMask,
        rest: BitMask,
        a0: int,
    )
        requires
            0 <= t < 2,
            0 <= piece_idx < 6,
            is_sq(a0),
            has_sq(remaining, a0),
            self.piece_on(t, piece_idx, a0),
            forall|a: int| is_sq(a) ==> has_sq(rest, a) == (has_sq(remaining, a) && a != a0),
            self.attacks_upto(attacks, t, piece_idx, remaining),
            self.checkers_upto(checkers, t, piece_idx, remaining),
            self.pinned_upto(pinned, 1 - t, piece_idx, remaining),
            forall|b: int|
                is_sq(b) ==> #[trigger] has_sq(piece_attacks, b) == self.attack_from(
                    t,
                    piece_idx,
                    a0,
                    b,
                ),
            forall|a: int|
                is_sq(a) ==> #[trigger] has_sq(new_checker, a) == (a == a0 && self.attack_from(
                    t,
                    piece_idx,
                    a0,
                    self.king_sq(1 - t),
                )),
            forall|c: int|
                is_sq(c) ==> #[trigger] has_sq(new_pinned, c) == (has_sq(self.occ(1 - t), c)
                    && self.pins(1 - t, piece_idx, a0, c)),
        ensures
            self.attacks_upto(attacks | piece_attacks, t, piece_idx, rest),
            self.checkers_upto(checkers | new_checker, t, piece_idx, rest),
            self.pinned_upto(pinned | new_pinned, 1 - t, piece_idx, rest),
    {
        broadcast use group_has_sq;

        let o = 1 - t;
        let k = self.king_sq(1 - t);
        assert forall|b: int| is_sq(b) implies #[trigger] has_sq(attacks | piece_attacks, b)
            == exists|p: int, a: int| #[trigger] self.att_done(t, piece_idx, rest, p, a, b) by {
            if has_sq(attacks, b) {
                let (p, a) = choose|p: int, a: int| #[trigger]
                    self.att_done(t, piece_idx, remaining, p, a, b);
                assert(self.att_done(t, piece_idx, rest, p, a, b));
            } else if has_sq(piece_attacks, b) {
                assert(self.att_done(t, piece_idx, rest, piece_idx, a0, b));
            } else {
                assert forall|p: int, a: int| !self.att_done(t, piece_idx, rest, p, a, b) by {
                    if self.att_done(t, piece_idx, rest, p, a, b) {
                        if p == piece_idx && a == a0 {
                        } else {
                            assert(self.att_done(t, piece_idx, remaining, p, a, b));
                        }
                    }
                }
            }
        }
        assert forall|a: int| is_sq(a) implies #[trigger] has_sq(checkers | new_checker, a)
            == exists|p: int| #[trigger] self.att_done(t, piece_idx, rest, p, a, k) by {
            if has_sq(checkers, a) {
                let p = choose|p: int| #[trigger] self.att_done(t, piece_idx, remaining, p, a, k);
                assert(self.att_done(t, piece_idx, rest, p, a, k));
            } else if has_sq(new_checker, a) {
                assert(self.att_done(t, piece_idx, rest, piece_idx, a0, k));
            } else {
                assert forall|p: int| !self.att_done(t, piece_idx, rest, p, a, k) by {
                    if self.att_done(t, piece_idx, rest, p, a, k) {
                        if p == piece_idx && a == a0 {
                        } else {
                            assert(self.att_done(t, piece_idx, remaining, p, a, k));
                        }
                    }
                }
            }
        }
        assert forall|c: int| is_sq(c) implies #[trigger] has_sq(pinned | new_pinned, c) == (
        has_sq(self.occ(o), c) && exists|p: int, a: int| #[trigger]
            self.pin_done(o, piece_idx, rest, p, a, c)) by {
            if has_sq(pinned, c) {
                let (p, a) = choose|p: int, a: int| #[trigger]
                    self.pin_done(o, piece_idx, remaining, p, a, c);
                assert(self.pin_done(o, piece_idx, rest, p, a, c));
            } else if has_sq(new_pinned, c) {
                assert(self.pin_done(o, piece_idx, rest, piece_idx, a0, c));
            } else {
                assert forall|p: int, a: int| has_sq(self.occ(o), c) implies !self.pin_done(
                    o,
                    piece_idx,
                    rest,
                    p,
                    a,
                    c,
                ) by {
                    if self.pin_done(o, piece_idx, rest, p, a, c) {
                        if p == piece_idx && a == a0 {
                        } else {
                            assert(self.pin_done(o, piece_idx, remaining, p, a, c));
                        }
                    }
                }
            }
        }
    }
}


impl Board {
    /// The pieces, the side to move, the rights, the en-passant square, the
    /// counter, the occupancy and the hash are those of `other`.
    pub open spec fn same_but_attacks(&self, other: &Board) -> bool {
        &&& self.turn_idx == other.turn_idx
        &&& self.occupancy == other.occupancy
        &&& self.pieces == other.pieces
        &&& self.en_passant_mask == other.en_passant_mask
        &&& self.castle_rights == other.castle_rights
        &&& self.half_move_counter == other.half_move_counter
        &&& self.hash == other.hash
    }

    /// What the piece of side `team_idx` and kind `piece_idx` on the square of
    /// `from` adds: the squares it attacks, itself where it gives check, and
    /// the piece that it pins.
    fn piece_effects(&self, tables: &Tables, team_idx: usize, piece_idx: usize, from: BitMask) -> (effects:
        (BitMask, BitMask, BitMask))
        requires
            tables.wf(),
            team_idx < 2,
            piece_idx < 6,
            is_square(from),
            self.piece_on(team_idx as int, piece_idx as int, lowest_sq(from)),
            is_square(self.pieces[1 - team_idx][PIECE_KING as int]),
            self.occupancy_ok(),
        ensures
            forall|b: int|
                is_sq(b) ==> #[trigger] has_sq(effects.0, b) == self.attack_from(
                    team_idx as int,
                    piece_idx as int,
                    lowest_sq(from),
                    b,
                ),
            forall|a: int|
                is_sq(a) ==> #[trigger] has_sq(effects.1, a) == (a == lowest_sq(from)
                    && self.attack_from(
                    team_idx as int,
                    piece_idx as int,
                    lowest_sq(from),
                    self.king_sq(1 - team_idx),
                )),
            forall|c: int|
                is_sq(c) ==> #[trigger] has_sq(effects.2, c) == (has_sq(self.occ(1 - team_idx), c)
                    && self.pins(1 - team_idx, piece_idx as int, lowest_sq(from), c)),
    {
        let ghost t = team_idx as int;
        let ghost o = 1 - t;
        let ghost a0 = lowest_sq(from);
        let ghost k = self.king_sq(o);
        let occ_opp = self.occupancy[1 - team_idx];
        let occ_combined = self.combined_occupancy();
        let opp_king = self.pieces[1 - team_idx][PIECE_KING];
        proof {
            lemma_is_square(opp_king);
            lemma_is_square(from);
        }
        let piece_attacks = generate_attacks(tables, self, team_idx, piece_idx, from);
        let mut new_pinned: BitMask = 0;
        if piece_idx == PIECE_BISHOP || piece_idx == PIECE_ROOK || piece_idx == PIECE_QUEEN {
            // A slider: it may pin a piece to the king.
            let from_idx = bm_to_idx(from);
            let piece_base_attacks = get_piece_base_tos(tables, piece_idx, from_idx);
            if piece_base_attacks & opp_king != 0 {
                let between_mask = get_between_mask_exclusive(
                    tables,
                    from_idx,
                    bm_to_idx(opp_king),
                );
                let pinned_by_us = between_mask & occ_combined;
                if bm_count(pinned_by_us) == 1 && (pinned_by_us & occ_opp) != 0 {
                    new_pinned = pinned_by_us;
                }
                proof {
                    lemma_has_test(piece_base_attacks, k);
                    assert(occ_combined == self.occ_all());
                    self.lemma_pin_mask(t, piece_idx as int, a0, between_mask, new_pinned);
                }
            } else {
                proof {
                    lemma_has_test(piece_base_attacks, k);
                    self.lemma_no_pin(t, piece_idx as int, a0);
                }
            }
        } else {
            proof {
                self.lemma_no_pin(t, piece_idx as int, a0);
            }
        }
        let mut new_checker: BitMask = 0;
        if piece_attacks & opp_king != 0 {
            new_checker = from;
        }
        proof {
            broadcast use group_has_sq;

            lemma_has_test(piece_attacks, k);
            assert(self.occ_for_attack(t) == (self.occupancy[0] | self.occupancy[1])
                & !self.pieces[o][PIECE_KING as int]);
            assert forall|b: int| is_sq(b) implies #[trigger] has_sq(piece_attacks, b)
                == self.attack_from(t, piece_idx as int, a0, b) by {}
        }
        (piece_attacks, new_checker, new_pinned)
    }

    /// What side `team_idx` attacks, which pieces of the other side it pins, and
    /// which of its pieces give check.
    fn compute_attacks(&self, tables: &Tables, team_idx: usize) -> (derived: (
        BitMask,
        BitMask,
        BitMask,
    ))
        requires
            tables.wf(),
            team_idx < 2,
            is_square(self.pieces[1 - team_idx][PIECE_KING as int]),
            self.occupancy_ok(),
        ensures
            forall|b: int|
                is_sq(b) ==> #[trigger] has_sq(derived.0, b) == self.attacked_by(
                    team_idx as int,
                    b,
                ),
            forall|c: int|
                is_sq(c) ==> #[trigger] has_sq(derived.1, c) == self.is_pinned(1 - team_idx, c),
            forall|a: int|
                is_sq(a) ==> #[trigger] has_sq(derived.2, a) == self.gives_check(
                    team_idx as int,
                    a,
                ),
    {
        let ghost t = team_idx as int;
        let ghost o = 1 - t;
        let mut attacks: BitMask = 0;
        let mut pinned: BitMask = 0;
        let mut checkers: BitMask = 0;
        proof {
            self.lemma_upto_start(t);
        }
        let mut piece_idx: usize = 0;
        let mut itr = bm_iter_bits(self.pieces[team_idx][0]);
        loop
            invariant
                tables.wf(),
                team_idx < 2,
                t == team_idx,
                o == 1 - t,
                is_square(self.pieces[o][PIECE_KING as int]),
                self.occupancy_ok(),
                piece_idx < 6,
                forall|a: int|
                    has_sq(itr.remaining_mask, a) ==> self.piece_on(t, piece_idx as int, a),
                self.attacks_upto(attacks, t, piece_idx as int, itr.remaining_mask),
                self.checkers_upto(checkers, t, piece_idx as int, itr.remaining_mask),
                self.pinned_upto(pinned, o, piece_idx as int, itr.remaining_mask),
            ensures
                self.attacks_upto(attacks, t, 5, 0),
                self.checkers_upto(checkers, t, 5, 0),
                self.pinned_upto(pinned, o, 5, 0),
            decreases 5 - piece_idx, itr.remaining_mask,
        {
            let ghost remaining = itr.remaining_mask;
            match itr.next() {
                Some(from) => {
                    let ghost a0 = lowest_sq(remaining);
                    proof {
                        lemma_nonempty(remaining);
                        lemma_square(a0);
                    }
                    let (piece_attacks, new_checker, new_pinned) = self.piece_effects(
                        tables,
                        team_idx,
                        piece_idx,
                        from,
                    );
                    proof {
                        self.lemma_upto_step(
                            attacks,
                            checkers,
                            pinned,
                            piece_attacks,
                            new_checker,
                            new_pinned,
                            t,
                            piece_idx as int,
                            remaining,
                            itr.remaining_mask,
                            a0,
                        );
                    }
                    pinned |= new_pinned;
                    attacks |= piece_attacks;
                    checkers |= new_checker;
                },
                None => {
                    if piece_idx == 5 {
                        break ;
                    }
                    proof {
                        self.lemma_upto_next(attacks, checkers, pinned, t, piece_idx as int);
                    }
                    piece_idx += 1;
                    itr = bm_iter_bits(self.pieces[team_idx][piece_idx]);
                },
            }
        }
        proof {
            self.lemma_upto_end(attacks, checkers, pinned, t);
        }
        (attacks, pinned, checkers)
    }

    /// Computes anew what side `team_idx` attacks, which pieces of the other
    /// side it pins, and which of its pieces give check. Returns the attacks.
    pub fn update_attacks(&mut self, tables: &Tables, team_idx: usize) -> (attacks: BitMask)
        requires
            tables.wf(),
            team_idx < 2,
            is_square(old(self).pieces[1 - team_idx][PIECE_KING as int]),
            old(self).occupancy_ok(),
        ensures
            final(self).same_but_attacks(old(self)),
            final(self).attacks[1 - team_idx] == old(self).attacks[1 - team_idx],
            final(self).pinned[team_idx as int] == old(self).pinned[team_idx as int],
            final(self).attacks_ok(team_idx as int),
            final(self).pinned_ok(1 - team_idx),
            final(self).checkers_ok(team_idx as int),
            attacks == final(self).attacks[team_idx as int],
    {
        let (attacks, pinned, checkers) = self.compute_attacks(tables, team_idx);
        let ghost before = *self;
        self.attacks[team_idx] = attacks;
        self.pinned[1 - team_idx] = pinned;
        self.checkers = checkers;
        proof {
            self.lemma_same_pieces(&before);
        }
        attacks
    }

    /// What is attacked, pinned and checking follows from the pieces alone.
    pub proof fn lemma_same_pieces(&self, other: &Board)
        requires
            self.pieces == other.pieces,
        ensures
            self.occ(0) == other.occ(0),
            self.occ(1) == other.occ(1),
            self.occ_all() == other.occ_all(),
            forall|t: int| self.king_sq(t) == other.king_sq(t),
            forall|t: int, p: int, a: int, b: int|
                #[trigger] self.attack_from(t, p, a, b) == other.attack_from(t, p, a, b),
            forall|t: int, b: int| #[trigger] self.attacked_by(t, b) == other.attacked_by(t, b),
            forall|t: int, a: int| #[trigger] self.gives_check(t, a) == other.gives_check(t, a),
            forall|t: int, p: int, a: int, c: int|
                #[trigger] self.pins(t, p, a, c) == other.pins(t, p, a, c),
            forall|t: int, c: int| #[trigger] self.is_pinned(t, c) == other.is_pinned(t, c),
            self.turn_idx == other.turn_idx ==> self.wf_pieces() == other.wf_pieces(),
    {
        assert forall|t: int, p: int, a: int, b: int|
            #[trigger] self.attack_from(t, p, a, b) == other.attack_from(t, p, a, b) by {}
        assert forall|t: int, b: int| #[trigger]
            self.attacked_by(t, b) == other.attacked_by(t, b) by {
            if self.attacked_by(t, b) {
                let (p, a) = choose|p: int, a: int| #[trigger] self.attack_from(t, p, a, b);
                assert(other.attack_from(t, p, a, b));
            }
            if other.attacked_by(t, b) {
                let (p, a) = choose|p: int, a: int| #[trigger] other.attack_from(t, p, a, b);
                assert(self.attack_from(t, p, a, b));
            }
        }
        assert forall|t: int, a: int| #[trigger]
            self.gives_check(t, a) == other.gives_check(t, a) by {
            let k = self.king_sq(1 - t);
            assert(k == other.king_sq(1 - t));
            if self.gives_check(t, a) {
                let p = choose|p: int| #[trigger] self.attack_from(t, p, a, k);
                assert(other.attack_from(t, p, a, k));
            }
            if other.gives_check(t, a) {
                let p = choose|p: int| #[trigger] other.attack_from(t, p, a, k);
                assert(self.attack_from(t, p, a, k));
            }
        }
        assert forall|t: int, p: int, a: int, c: int| #[trigger]
            self.pins(t, p, a, c) == other.pins(t, p, a, c) by {}
        assert forall|t: int, c: int| #[trigger] self.is_pinned(t, c) == other.is_pinned(t, c) by {
            if exists|p: int, a: int| #[trigger] self.pins(t, p, a, c) {
                let (p, a) = choose|p: int, a: int| #[trigger] self.pins(t, p, a, c);
                assert(other.pins(t, p, a, c));
            }
            if exists|p: int, a: int| #[trigger] other.pins(t, p, a, c) {
                let (p, a) = choose|p: int, a: int| #[trigger] other.pins(t, p, a, c);
                assert(self.pins(t, p, a, c));
            }
        }
        if self.turn_idx == other.turn_idx {
            other.lemma_wf_pieces_same(self);
            self.lemma_wf_pieces_same(other);
        }
    }

    proof fn lemma_wf_pieces_same(&self, other: &Board)
        requires
            self.pieces == other.pieces,
            self.turn_idx == other.turn_idx,
        ensures
            other.wf_pieces() ==> self.wf_pieces(),
    {
        reveal(Board::pieces_disjoint);
        if other.wf_pieces() {
            assert forall|t1: int, p1: int, t2: int, p2: int, sq: int|
                #![trigger self.piece_on(t1, p1, sq), self.piece_on(t2, p2, sq)]
                0 <= t1 < 2 && 0 <= p1 < 6 && 0 <= t2 < 2 && 0 <= p2 < 6 && (t1 != t2 || p1 != p2)
                implies !(self.piece_on(t1, p1, sq) && self.piece_on(t2, p2, sq)) by {
                assert(other.piece_on(t1, p1, sq) == self.piece_on(t1, p1, sq));
                assert(other.piece_on(t2, p2, sq) == self.piece_on(t2, p2, sq));
            }
        }
    }

    /// A piece that is no slider, or does not stand on a line with the king, pins nothing.
    proof fn lemma_no_pin(&self, t: int, p: int, a0: int)
        requires
            !is_slider(p) || !base_attacks(p, a0, self.king_sq(1 - t)),
        ensures
            forall|c: int|
                is_sq(c) ==> #[trigger] has_sq(0, c) == (has_sq(self.occ(1 - t), c) && self.pins(
                    1 - t,
                    p,
                    a0,
                    c,
                )),
    {
        broadcast use group_has_sq;

    }

    /// The one piece between a slider and the king is pinned where it is the king's own.
    proof fn lemma_pin_mask(&self, t: int, p: int, a0: int, between_mask: BitMask, new_pinned: BitMask)
        requires
            0 <= t < 2,
            is_slider(p),
            is_sq(a0),
            self.piece_on(t, p, a0),
            base_attacks(p, a0, self.king_sq(1 - t)),
            forall|c: int|
                is_sq(c) ==> #[trigger] has_sq(between_mask, c) == between(
                    a0,
                    self.king_sq(1 - t),
                    c,
                ),
            new_pinned == (if popcount(between_mask & self.occ_all()) == 1 && (between_mask
                & self.occ_all()) & self.occ(1 - t) != 0 {
                between_mask & self.occ_all()
            } else {
                0
            }),
        ensures
            forall|c: int|
                is_sq(c) ==> #[trigger] has_sq(new_pinned, c) == (has_sq(self.occ(1 - t), c)
                    && self.pins(1 - t, p, a0, c)),
    {
        broadcast use group_has_sq;

        let o = 1 - t;
        let k = self.king_sq(o);
        let m = between_mask & self.occ_all();
        lemma_popcount_small(m);
        assert(self.occ_all() == self.occ(0) | self.occ(1));
        assert forall|c: int| is_sq(c) implies #[trigger] has_sq(new_pinned, c) == (has_sq(
            self.occ(o),
            c,
        ) && self.pins(o, p, a0, c)) by {
            if has_sq(self.occ(o), c) && self.pins(o, p, a0, c) {
                // `c` is the only piece between: the mask is its square alone.
                assert forall|c2: int| 0 <= c2 < 64 implies has_sq(m, c2) == (c2 == c) by {
                    if c2 != c && between(a0, k, c2) {
                        assert(!has_sq(self.occ_all(), c2));
                    }
                }
                crate::bitmask::lemma_only_square(m, c);
                assert(has_sq(m & self.occ(o), c));
                lemma_has_nonzero(m & self.occ(o), c);
            }
            if has_sq(new_pinned, c) {
                assert(is_square(m));
                lemma_is_square(m);
                assert(c == lowest_sq(m));
                lemma_nonempty(m & self.occ(o));
                assert(has_sq(m, lowest_sq(m & self.occ(o))));
                assert(has_sq(self.occ(o), c));
                assert forall|c2: int|
                    is_sq(c2) && #[trigger] between(a0, k, c2) && c2 != c implies !has_sq(
                    self.occ_all(),
                    c2,
                ) by {
                    assert(!has_sq(m, c2));
                }
            }
        }
    }
}


} // verus!
