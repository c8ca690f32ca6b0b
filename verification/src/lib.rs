//! Core of a chess position engine: bitboards, attack sets, a board with
//! incrementally maintained attack counters, and a position with pseudo-legal
//! move generation and reversible make/unmake.

pub mod bitboard;
pub mod square;
pub mod piece;
pub mod gmove;
pub mod attacks;
pub mod count;
pub mod zobrist;
pub mod board;
pub mod position;
pub mod movegen;
pub mod perft;
pub mod fen;
pub mod fen_laws;
