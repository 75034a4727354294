//! A small chess engine: board state kept as piece sets and bitboards,
//! pseudo-legal and legal move generation, playing and undoing moves,
//! and reading a position from FEN.
pub mod bitboard;
pub mod piece;
pub mod pieces;
pub mod board;
pub mod movegen;
pub mod fen;
pub mod laws;
