//! A bitboard chess engine: board representation, move generation,
//! make/unmake with incremental Zobrist hashing, evaluation and search.

pub mod types;
pub mod bits;
pub mod board;
pub mod zobrist;
pub mod game;
pub mod attacks;
pub mod threats;
pub mod movegen;
pub mod legality;
pub mod eval;
pub mod engine;
pub mod search;
pub mod perft;
pub mod notation;
pub mod fen;
pub mod validity;
pub mod pieces;
pub mod pawns;
pub mod bot;
pub mod ui;
pub mod cache;
