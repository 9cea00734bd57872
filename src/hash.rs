use vstd::prelude::*;
use crate::piece::{Piece, piece_index};
use crate::square::{Square, BoardFile, sq_index};

verus! {

/// The number of the key for a piece standing on a square.
pub open spec fn piece_key_number(p: Piece, s: Square) -> u64 {
    (piece_index(p) * 64 + sq_index(s)) as u64
}

/// The number of the key for a set of castling rights, given as a code in `0..16`.
pub open spec fn castling_key_number(code: nat) -> u64 {
    (768 + code) as u64
}

/// The number of the key for an en-passant file.
pub open spec fn en_passant_key_number(file: nat) -> u64 {
    (784 + file) as u64
}

/// The number of the key for black to move.
pub open spec fn black_to_move_key_number() -> u64 {
    792
}

/// The key with the given number: a fixed pseudo-random word, the `n`-th output of a
/// splitmix64 sequence.
#[verifier::opaque]
pub open spec fn zobrist_key(n: u64) -> u64 {
    let z0 = n.wrapping_add(1).wrapping_mul(0x9E37_79B9_7F4A_7C15u64);
    let z1 = (z0 ^ (z0 >> 30u64)).wrapping_mul(0xBF58_476D_1CE4_E5B9u64);
    let z2 = (z1 ^ (z1 >> 27u64)).wrapping_mul(0x94D0_49BB_1331_11EBu64);
    z2 ^ (z2 >> 31u64)
}

/// Computes the key with the given number.
pub fn key(n: u64) -> (r: u64)
    ensures
        r == zobrist_key(n),
{
    reveal(zobrist_key);
    let z0 = n.wrapping_add(1).wrapping_mul(0x9E37_79B9_7F4A_7C15u64);
    let z1 = (z0 ^ (z0 >> 30u64)).wrapping_mul(0xBF58_476D_1CE4_E5B9u64);
    let z2 = (z1 ^ (z1 >> 27u64)).wrapping_mul(0x94D0_49BB_1331_11EBu64);
    z2 ^ (z2 >> 31u64)
}

/// What XOR does: it is associative and commutative, zero is neutral, and each word is its
/// own inverse.
pub proof fn lemma_xor_facts(a: u64, b: u64, c: u64)
    ensures
        (a ^ b) ^ c == a ^ (b ^ c),
        a ^ b == b ^ a,
        a ^ 0 == a,
        a ^ a == 0,
{
    assert((a ^ b) ^ c == a ^ (b ^ c) && a ^ b == b ^ a && a ^ 0 == a && a ^ a == 0) by (bit_vector);
}

/// A Zobrist position key, built up by XOR as pieces and rights come and go.
#[derive(Clone, Copy, Debug, PartialEq, Eq, Hash, Structural)]
pub struct BoardHash(pub u64);

impl BoardHash {
    pub fn zero() -> (r: BoardHash)
        ensures
            r.0 == 0,
    {
        BoardHash(0)
    }

    /// Adds or removes `piece` on `square`.
    pub fn toggle_piece(self, piece: Piece, square: Square) -> (r: BoardHash)
        ensures
            r.0 == self.0 ^ zobrist_key(piece_key_number(piece, square)),
    {
        BoardHash(self.0 ^ key(piece.as_u8() as u64 * 64 + square.as_u8() as u64))
    }

    /// Replaces the castling rights `prev_rights` by `rights`, both codes in `0..16`.
    pub fn update_castling_rights(self, prev_rights: u8, rights: u8) -> (r: BoardHash)
        requires
            prev_rights < 16,
            rights < 16,
        ensures
            r.0 == (self.0 ^ zobrist_key(castling_key_number(prev_rights as nat))) ^ zobrist_key(
                castling_key_number(rights as nat),
            ),
    {
        let without_prev = self.0 ^ key(768 + prev_rights as u64);
        BoardHash(without_prev ^ key(768 + rights as u64))
    }

    /// Switches the side to move.
    pub fn toggle_move(self) -> (r: BoardHash)
        ensures
            r.0 == self.0 ^ zobrist_key(black_to_move_key_number()),
    {
        BoardHash(self.0 ^ key(792))
    }

    /// Replaces the en-passant file `prev_file` by `file`, either of them possibly absent.
    pub fn set_en_passant_file(self, prev_file: Option<BoardFile>, file: Option<BoardFile>) -> (r:
        BoardHash)
        ensures
            r.0 == (self.0 ^ en_passant_term(prev_file)) ^ en_passant_term(file),
    {
        let h = match prev_file {
            Some(f) => self.0 ^ key(784 + f.as_u8() as u64),
            None => self.0 ^ 0,
        };
        match file {
            Some(f) => BoardHash(h ^ key(784 + f.as_u8() as u64)),
            None => BoardHash(h ^ 0),
        }
    }
}

/// The part of a hash that an en-passant file contributes.
pub open spec fn en_passant_term(file: Option<BoardFile>) -> u64 {
    match file {
        Some(f) => zobrist_key(en_passant_key_number(f as nat)),
        None => 0,
    }
}

} // verus!
