pub mod bitboard;
pub mod collections;
pub mod colour;
pub mod eval;
pub mod movegen;
pub mod piece;
pub mod position;
pub mod rng;
pub mod search;
pub mod square;
pub mod text;
pub mod uci;
