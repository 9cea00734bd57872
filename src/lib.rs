use vstd::prelude::*;

pub mod bitboard;
pub mod board;
pub mod color;
pub mod dense_integer_map;
pub mod engine;
pub mod fen;
pub mod hash;
pub mod movegen;
pub mod mv;
pub mod perft;
pub mod piece;
pub mod piece_storage;
pub mod sliding;
pub mod square;
pub mod uci_state;
mod text;

verus! {

/// The version of this library.
pub fn version() -> (r: &'static str)
    ensures
        r@ == seq!['0', '.', '1', '.', '0'],
{
    let r = "0.1.0";
    proof {
        reveal_strlit("0.1.0");
    }
    assert(r@ =~= seq!['0', '.', '1', '.', '0']);
    r
}

} // verus!
