//! Zobrist keys: one random 64-bit key for every piece on every square, for
//! every castling right, for every en-passant file and for the side to move.

use vstd::prelude::*;
use rand::Rng;
use crate::piece::{Color, Piece};
use crate::position::Castling;
use crate::square::Square;

verus! {

/// A table of Zobrist keys. The keys of the pieces come first, twelve for
/// each square; then the four castling keys, the eight en-passant keys and
/// the key of Black to move.
#[derive(Clone, Copy, PartialEq, Eq, Debug)]
pub struct Zobrist {
    keys: [u64; 781],
}

/// A 64-bit number drawn by `rand::thread_rng().gen::<u64>()`, the generator
/// of the calling thread, which the operating system seeds. Nothing is claimed
/// of its value. The call panics where the operating system cannot give the
/// seed.
#[verifier::external_body]
fn random_key() -> u64 {
    rand::thread_rng().gen::<u64>()
}

impl Zobrist {
    /// The keys in table order.
    pub closed spec fn view(&self) -> Seq<u64> {
        self.keys@
    }

    /// The key of piece number `p` on square `s`.
    pub open spec fn piece_key(&self, s: int, p: int) -> u64 {
        self@[s * 12 + p]
    }

    /// The key of the castling right of color number `c` on wing number
    /// `side`.
    pub open spec fn castle_key(&self, c: int, side: int) -> u64 {
        self@[768 + c * 2 + side]
    }

    /// The key of an en-passant target on file `f`.
    pub open spec fn en_passant_key(&self, f: int) -> u64 {
        self@[772 + f]
    }

    /// The key of Black to move.
    pub open spec fn black_to_move_key(&self) -> u64 {
        self@[780]
    }

    /// The table that holds the given keys.
    pub fn from_keys(keys: [u64; 781]) -> (z: Zobrist)
        ensures
            z@ == keys@,
    {
        Zobrist { keys }
    }

    /// A table of fresh random keys.
    pub fn new() -> (z: Zobrist)
        ensures
            z@.len() == 781,
    {
        let mut keys: [u64; 781] = [0u64; 781];
        let mut i: usize = 0;
        while i < 781
            invariant
                i <= 781,
            decreases 781 - i,
        {
            keys[i] = random_key();
            i += 1;
        }
        Zobrist::from_keys(keys)
    }

    /// The key of piece `p` on square `s`.
    pub fn piece(&self, s: Square, p: Piece) -> (k: u64)
        ensures
            k == self.piece_key(s@, p.ordinal()),
    {
        self.keys[s.index() * 12 + p.index()]
    }

    /// The key of the right of `c` to castle on wing `side`.
    pub fn castle(&self, c: Color, side: Castling) -> (k: u64)
        ensures
            k == self.castle_key(c.ordinal(), side.ordinal()),
    {
        self.keys[768 + c.index() * 2 + side.index()]
    }

    /// The key of an en-passant target on file `file`.
    pub fn en_passant(&self, file: usize) -> (k: u64)
        requires
            file < 8,
        ensures
            k == self.en_passant_key(file as int),
    {
        self.keys[772 + file]
    }

    /// The key of Black to move.
    pub fn black_to_move(&self) -> (k: u64)
        ensures
            k == self.black_to_move_key(),
    {
        self.keys[780]
    }

    /// Whether no key occurs twice in the table.
    pub fn all_distinct(&self) -> (r: bool)
        ensures
            r == (forall|i: int, j: int| 0 <= i < j < 781 ==> self@[i] != self@[j]),
    {
        let mut j: usize = 0;
        while j < 781
            invariant
                j <= 781,
                forall|a: int, b: int| 0 <= a < b < j ==> self@[a] != self@[b],
            decreases 781 - j,
        {
            let mut i: usize = 0;
            while i < j
                invariant
                    i <= j,
                    j < 781,
                    forall|a: int| 0 <= a < i ==> self@[a] != self@[j as int],
                decreases j - i,
            {
                if self.keys[i] == self.keys[j] {
                    assert(0 <= i < j < 781 && self@[i as int] == self@[j as int]);
                    return false;
                }
                i += 1;
            }
            j += 1;
        }
        true
    }
}

} // verus!
