//! The lines that the engine answers with: what a finished depth of the
//! search found, the move it settles on, and the options it offers.

use vstd::prelude::*;
use crate::bitmask::is_square;
use crate::board::Move;
use crate::text::{number_text, push_text, push_u64};
use crate::uci::options::{OptionKind, UciOption};

verus! {

/// The value of a position as the interface reports it.
#[derive(Debug, Copy, Clone, PartialEq, Eq, Structural)]
pub enum Score {
    /// In hundredths of a pawn.
    Centipawns(i64),
    /// Mate in this many moves; negative where the side to move is mated.
    Mate(i64),
}

/// The moves until mate for `ply` half-moves until mate: half of them,
/// rounded up, with a minus sign where the side to move is mated. So a side
/// that mates with its next move mates in 1, and a side that is mated by
/// the answer to its move is mated in -1.
pub open spec fn spec_mate_in(ply: i32) -> i64 {
    if ply >= 0 {
        ((ply + 1) / 2) as i64
    } else {
        (-((-ply + 1) / 2)) as i64
    }
}

/// The moves until mate for `ply` half-moves until mate.
pub fn mate_in(ply: i32) -> (moves: i64)
    ensures
        moves == spec_mate_in(ply),
{
    let ply: i64 = ply as i64;
    if ply >= 0 {
        (ply + 1) / 2
    } else {
        -((-ply + 1) / 2)
    }
}

/// The decimal digits of `n`, after a minus sign where it is negative.
pub open spec fn signed_text(n: i64) -> Seq<char> {
    if n < 0 {
        seq!['-'] + number_text((-n) as nat)
    } else {
        number_text(n as nat)
    }
}

/// Appends the decimal digits of `n`, after a minus sign where it is
/// negative.
pub fn push_signed(s: &mut String, n: i64)
    ensures
        final(s)@ == old(s)@ + signed_text(n),
{
    let ghost before = s@;
    if n < 0 {
        s.push('-');
        let size: u64 = if n == i64::MIN {
            0x8000_0000_0000_0000
        } else {
            (-n) as u64
        };
        push_u64(s, size);
        proof {
            assert(s@ =~= before + signed_text(n));
        }
    } else {
        push_u64(s, n as u64);
    }
}

/// The moves in coordinates with one space between each two.
pub open spec fn pv_text(moves: Seq<Move>) -> Seq<char>
    decreases moves.len(),
{
    if moves.len() == 0 {
        Seq::empty()
    } else if moves.len() == 1 {
        moves.last().uci_text()
    } else {
        pv_text(moves.drop_last()).push(' ') + moves.last().uci_text()
    }
}

/// The score as the interface writes it: `cp` and hundredths of a pawn, or
/// `mate` and the moves until mate.
pub open spec fn score_text(score: Score) -> Seq<char> {
    match score {
        Score::Centipawns(n) => "cp "@ + signed_text(n),
        Score::Mate(n) => "mate "@ + signed_text(n),
    }
}

/// What is known after a depth of the search is finished, before the line
/// of best moves.
pub open spec fn info_head(depth: u8, score: Score, nodes: u64, nps: i64, time_ms: i64) -> Seq<
    char,
> {
    "info depth "@ + number_text(depth as nat) + " multipv 1 score "@ + score_text(score)
        + " nodes "@ + number_text(nodes as nat) + " nps "@ + signed_text(nps) + " time "@
        + signed_text(time_ms)
}

/// The line that reports a finished depth of the search: the depth, the
/// score, the positions looked at and how many of them in a second, the
/// time in milliseconds, and the line of best moves.
pub open spec fn info_text(
    depth: u8,
    score: Score,
    nodes: u64,
    nps: i64,
    time_ms: i64,
    pv: Seq<Move>,
) -> Seq<char> {
    info_head(depth, score, nodes, nps, time_ms) + " pv "@ + pv_text(pv)
}

/// A move that can be written in coordinates.
pub open spec fn writable(mv: &Move) -> bool {
    is_square(mv.from) && is_square(mv.to) && mv.to_piece_idx < 6
}

/// Appends the moves in coordinates with one space between each two.
pub fn push_pv(s: &mut String, moves: &Vec<Move>)
    requires
        forall|i: int| 0 <= i < moves@.len() ==> writable(#[trigger] &moves@[i]),
    ensures
        final(s)@ == old(s)@ + pv_text(moves@),
{
    let ghost before = s@;
    let mut i: usize = 0;
    proof {
        assert(moves@.take(0) =~= Seq::<Move>::empty());
        assert(s@ =~= before + pv_text(moves@.take(0)));
    }
    while i < moves.len()
        invariant
            i <= moves@.len(),
            forall|j: int| 0 <= j < moves@.len() ==> writable(#[trigger] &moves@[j]),
            s@ == before + pv_text(moves@.take(i as int)),
        decreases moves@.len() - i,
    {
        if i > 0 {
            s.push(' ');
        }
        assert(writable(&moves@[i as int]));
        let written = moves[i].to_string();
        push_text(s, written.as_str());
        proof {
            assert(moves@.take(i + 1).drop_last() =~= moves@.take(i as int));
            assert(moves@.take(i + 1).last() == moves@[i as int]);
            assert(s@ =~= before + pv_text(moves@.take(i + 1)));
        }
        i += 1;
    }
    proof {
        assert(moves@.take(i as int) =~= moves@);
    }
}

/// Appends the score as the interface writes it.
fn push_score(s: &mut String, score: Score)
    ensures
        final(s)@ == old(s)@ + score_text(score),
{
    let ghost before = s@;
    match score {
        Score::Centipawns(n) => {
            push_text(s, "cp ");
            push_signed(s, n);
        },
        Score::Mate(n) => {
            push_text(s, "mate ");
            push_signed(s, n);
        },
    }
    proof {
        assert(s@ =~= before + score_text(score));
    }
}

/// Writes what is known after a depth of the search, before the line of
/// best moves.
fn push_info_head(s: &mut String, depth: u8, score: Score, nodes: u64, nps: i64, time_ms: i64)
    ensures
        final(s)@ == old(s)@ + info_head(depth, score, nodes, nps, time_ms),
{
    let ghost before = s@;
    push_text(s, "info depth ");
    push_u64(s, depth as u64);
    push_text(s, " multipv 1 score ");
    push_score(s, score);
    let ghost half = s@;
    proof {
        assert(half =~= before + ("info depth "@ + number_text(depth as nat)
            + " multipv 1 score "@ + score_text(score)));
    }
    push_text(s, " nodes ");
    push_u64(s, nodes);
    push_text(s, " nps ");
    push_signed(s, nps);
    push_text(s, " time ");
    push_signed(s, time_ms);
    proof {
        assert(s@ =~= half + (" nodes "@ + number_text(nodes as nat) + " nps "@ + signed_text(nps)
            + " time "@ + signed_text(time_ms)));
        assert(s@ =~= before + info_head(depth, score, nodes, nps, time_ms));
    }
}

/// The line that reports a finished depth of the search.
pub fn info_line(depth: u8, score: Score, nodes: u64, nps: i64, time_ms: i64, pv: &Vec<Move>) -> (line:
    String)
    requires
        forall|i: int| 0 <= i < pv@.len() ==> writable(#[trigger] &pv@[i]),
    ensures
        line@ == info_text(depth, score, nodes, nps, time_ms, pv@),
{
    let mut line = String::new();
    push_info_head(&mut line, depth, score, nodes, nps, time_ms);
    push_text(&mut line, " pv ");
    push_pv(&mut line, pv);
    proof {
        assert(line@ =~= info_text(depth, score, nodes, nps, time_ms, pv@));
    }
    line
}

/// The line that names the move the engine settles on.
pub fn best_move_line(mv: &Move) -> (line: String)
    requires
        writable(mv),
    ensures
        line@ == "bestmove "@ + mv.uci_text(),
{
    let mut line = String::new();
    push_text(&mut line, "bestmove ");
    let written = mv.to_string();
    push_text(&mut line, written.as_str());
    line
}

/// How the interface names the kind of an option.
pub open spec fn kind_text(kind: OptionKind) -> Seq<char> {
    match kind {
        OptionKind::Int => "spin"@,
        OptionKind::Bool => "check"@,
        OptionKind::Button => "button"@,
    }
}

/// What follows the kind on the line of an option: for a number its
/// value and its limits, for a yes-or-no option whether it is on.
pub open spec fn option_tail(option: &UciOption) -> Seq<char> {
    match option.kind {
        OptionKind::Int => " default "@ + signed_text(option.value) + " min "@ + signed_text(
            option.value_min,
        ) + " max "@ + signed_text(option.value_max),
        OptionKind::Bool => " default "@ + if option.value > 0 {
            "true"@
        } else {
            "false"@
        },
        OptionKind::Button => Seq::empty(),
    }
}

/// The line that offers an option.
pub open spec fn option_text(option: &UciOption) -> Seq<char> {
    "option name "@ + option.name@ + " type "@ + kind_text(option.kind) + option_tail(option)
}

/// Appends what follows the kind on the line of an option.
fn push_option_tail(s: &mut String, option: &UciOption)
    ensures
        final(s)@ == old(s)@ + option_tail(option),
{
    let ghost before = s@;
    match option.kind {
        OptionKind::Int => {
            push_text(s, " default ");
            push_signed(s, option.value);
            push_text(s, " min ");
            push_signed(s, option.value_min);
            push_text(s, " max ");
            push_signed(s, option.value_max);
        },
        OptionKind::Bool => {
            push_text(s, " default ");
            push_text(
                s,
                if option.value > 0 {
                    "true"
                } else {
                    "false"
                },
            );
        },
        OptionKind::Button => {},
    }
    proof {
        assert(s@ =~= before + option_tail(option));
    }
}

/// The line that offers an option.
pub fn option_line(option: &UciOption) -> (line: String)
    ensures
        line@ == option_text(option),
{
    let mut line = String::new();
    push_text(&mut line, "option name ");
    push_text(&mut line, option.name.as_str());
    push_text(&mut line, " type ");
    push_text(
        &mut line,
        match option.kind {
            OptionKind::Int => "spin",
            OptionKind::Bool => "check",
            OptionKind::Button => "button",
        },
    );
    push_option_tail(&mut line, option);
    proof {
        assert(line@ =~= option_text(option));
    }
    line
}

} // verus!
