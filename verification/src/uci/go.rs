//! The command that starts a search: `go` with its words and numbers.

use vstd::prelude::*;
use crate::text::{parse_i64, read_i64, same_text, texts_view};

verus! {

/// What a `go` command asks for. Times are in milliseconds.
#[derive(Debug, Copy, Clone, PartialEq, Eq, Structural)]
pub struct GoRequest {
    /// The depth to search to, after `depth`.
    pub max_depth: Option<u8>,
    /// The time for this move, after `movetime`.
    pub move_time: Option<i64>,
    /// The moves until the next time control, after `movestogo`.
    pub moves_to_go: Option<u64>,
    /// The time left on the clock of the side to move, after `wtime` or
    /// `btime`.
    pub remaining_time: Option<i64>,
    /// The time that the side to move gains with each move, after `winc`
    /// or `binc`.
    pub time_inc: Option<i64>,
    /// The depth to count moves to instead of searching, after `perft`.
    pub perft: Option<u8>,
}

/// A request that asks for nothing.
pub open spec fn no_request() -> GoRequest {
    GoRequest {
        max_depth: None,
        move_time: None,
        moves_to_go: None,
        remaining_time: None,
        time_inc: None,
        perft: None,
    }
}

/// The word before the time left of side `turn`.
pub open spec fn time_word(turn: int) -> Seq<char> {
    if turn == 0 {
        "wtime"@
    } else {
        "btime"@
    }
}

/// The word before the time gained with each move of side `turn`.
pub open spec fn inc_word(turn: int) -> Seq<char> {
    if turn == 0 {
        "winc"@
    } else {
        "binc"@
    }
}

/// The request after the word `word` with the number `n` is taken in. A
/// number too large for its field is cut to the field's low bits. Once a
/// count of moves is asked for nothing more is taken in.
pub open spec fn go_step(req: GoRequest, word: Seq<char>, n: i64, turn: int) -> GoRequest {
    if req.perft is Some {
        req
    } else if word == "depth"@ {
        GoRequest { max_depth: Some(n as u8), ..req }
    } else if word == "movetime"@ {
        GoRequest { move_time: Some(n), ..req }
    } else if word == "movestogo"@ {
        GoRequest { moves_to_go: Some(n as u64), ..req }
    } else if word == "perft"@ {
        GoRequest { perft: Some(n as u8), ..req }
    } else if word == time_word(turn) {
        GoRequest { remaining_time: Some(n), ..req }
    } else if word == inc_word(turn) {
        GoRequest { time_inc: Some(n), ..req }
    } else {
        req
    }
}

/// The place of the word whose number is tried for the word at `at`: the
/// next, or the last word itself.
pub open spec fn number_place(parts: Seq<Seq<char>>, at: int) -> int {
    if at + 1 < parts.len() {
        at + 1
    } else {
        parts.len() - 1
    }
}

/// The request after the words from place `from` on are taken in: a word
/// that a number follows is taken in with it, and reading goes on after the
/// number; any other word is passed over.
pub open spec fn go_from(parts: Seq<Seq<char>>, from: int, turn: int, req: GoRequest) -> GoRequest
    decreases parts.len() + 1 - from,
{
    if from < 0 || from >= parts.len() {
        req
    } else {
        match parse_i64(parts[number_place(parts, from)]) {
            Some(n) => go_from(parts, from + 2, turn, go_step(req, parts[from], n, turn)),
            None => go_from(parts, from + 1, turn, req),
        }
    }
}

/// What the command `go`, given as its words, asks of the side `turn_idx`.
pub open spec fn spec_go(parts: Seq<Seq<char>>, turn: int) -> GoRequest {
    go_from(parts, 1, turn, no_request())
}

/// Takes the word `word` with the number `n` into the request.
fn take_in(req: GoRequest, word: &str, n: i64, turn_idx: usize) -> (after: GoRequest)
    ensures
        after == go_step(req, word@, n, turn_idx as int),
{
    let mut after = req;
    if req.perft.is_some() {
    } else if same_text(word, "depth") {
        after.max_depth = Some(#[verifier::truncate] (n as u8));
    } else if same_text(word, "movetime") {
        after.move_time = Some(n);
    } else if same_text(word, "movestogo") {
        after.moves_to_go = Some(#[verifier::truncate] (n as u64));
    } else if same_text(word, "perft") {
        after.perft = Some(#[verifier::truncate] (n as u8));
    } else if same_text(
        word,
        if turn_idx == 0 {
            "wtime"
        } else {
            "btime"
        },
    ) {
        after.remaining_time = Some(n);
    } else if same_text(
        word,
        if turn_idx == 0 {
            "winc"
        } else {
            "binc"
        },
    ) {
        after.time_inc = Some(n);
    }
    after
}

/// Reads the command `go`, given as its words, for the side `turn_idx` to
/// move.
pub fn read_go(parts: &Vec<String>, turn_idx: usize) -> (req: GoRequest)
    ensures
        req == spec_go(texts_view(parts), turn_idx as int),
{
    let ghost all = texts_view(parts);
    let mut req = GoRequest {
        max_depth: None,
        move_time: None,
        moves_to_go: None,
        remaining_time: None,
        time_inc: None,
        perft: None,
    };
    let mut i: usize = 1;
    while i < parts.len()
        invariant
            1 <= i,
            all == texts_view(parts),
            go_from(all, i as int, turn_idx as int, req) == spec_go(all, turn_idx as int),
        decreases parts@.len() - i,
    {
        let place: usize = if i + 1 < parts.len() {
            i + 1
        } else {
            parts.len() - 1
        };
        let ghost before = req;
        proof {
            assert(place == number_place(all, i as int));
            assert(all[place as int] == parts@[place as int]@);
            assert(all[i as int] == parts@[i as int]@);
        }
        match read_i64(parts[place].as_str()) {
            Some(n) => {
                req = take_in(req, parts[i].as_str(), n, turn_idx);
                proof {
                    assert(go_from(all, i as int, turn_idx as int, before) == go_from(
                        all,
                        i + 2,
                        turn_idx as int,
                        req,
                    ));
                    if parts@.len() - i < 2 {
                        assert(go_from(all, i + 2, turn_idx as int, req) == req);
                        assert(go_from(all, parts@.len() as int, turn_idx as int, req) == req);
                    }
                }
                if parts.len() - i < 2 {
                    i = parts.len();
                } else {
                    i += 2;
                }
            },
            None => {
                i += 1;
            },
        }
    }
    req
}

} // verus!
