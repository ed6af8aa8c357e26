//! Game-tree search for two-player placement games on a grid.
//!
//! Two games share the engine design: a domino game on an 8x8 board packed
//! into one `u64` (`bitboard` and the `domino_*` modules), and a misere game
//! on a 10x10 board whose moves cover any run of two or more cells
//! (`occupancy` and the `misere_*` modules).
pub mod bitboard;
pub mod domino_eval;
pub mod domino_tt;
pub mod domino_zobrist;
pub mod splitmix;
pub mod ordering;
pub mod domino_search;
pub mod domino_engine;
pub mod occupancy;
pub mod misere_eval;
pub mod misere_tt;
pub mod misere_zobrist;
pub mod misere_search;
pub mod misere_engine;
