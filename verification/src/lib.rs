//! A chess position library: bitboards, precomputed attack tables, Zobrist
//! hashing, move application, legal move generation, FEN and PGN text, a
//! transposition table, the rules that a search over the tree of moves goes
//! by, what an evaluation counts on the board, and the commands and answers
//! of the Universal Chess Interface.

use vstd::prelude::*;

pub mod bitmask;
pub mod board;
pub mod eval;
pub mod fen;
pub mod geometry;
pub mod lookup_gen;
pub mod lookup_gen_magic;
pub mod move_gen;
pub mod pgn;
pub mod referee;
pub mod search;
pub mod text;
pub mod thread_flag;
pub mod transpos;
pub mod uci;
pub mod zobrist;

verus! {

/// What is computed once and then only read: the attack tables and the
/// Zobrist keys.
pub struct Tables {
    pub lookup: lookup_gen::LookupTables,
    /// The magic tables, where they were asked for and found.
    pub magic: Option<lookup_gen_magic::MagicTables>,
    pub zobrist: zobrist::ZobristKeys,
}

impl Tables {
    /// The tables hold what they are meant to hold.
    pub open spec fn wf(&self) -> bool {
        &&& self.lookup.wf()
        &&& self.magic matches Some(magic) ==> magic.wf()
    }
}

fn _init() -> (tables: Tables)
    ensures
        tables.wf(),
        tables.magic is None,
{
    Tables { lookup: lookup_gen::init(), magic: None, zobrist: zobrist::init() }
}

/// Computes the attack tables and draws the Zobrist keys. Sliding attacks are
/// found by walking the board.
pub fn init() -> (tables: Tables)
    ensures
        tables.wf(),
        tables.magic is None,
{
    _init()
}

/// As `init`, and builds the magic tables for sliding attacks, drawing at
/// most `max_tries` multipliers for each square and kind of slider. Where no
/// multiplier is found within that, the tables are left out and sliding
/// attacks are found by walking the board.
pub fn init_with_magic(max_tries: usize) -> (tables: Tables)
    ensures
        tables.wf(),
        tables.magic matches Some(magic) ==> magic.shaped(),
        max_tries == 0 ==> tables.magic is None,
{
    let lookup = lookup_gen::init();
    let magic = lookup_gen_magic::init(&lookup, max_tries);
    Tables { lookup, magic, zobrist: zobrist::init() }
}

} // verus!
