pub mod bits;
pub mod text;
pub mod bitboard;
pub mod board;
pub mod generation;
pub mod hashtable;
pub mod lookup;
pub mod perft;
pub mod uci;
pub mod search;
