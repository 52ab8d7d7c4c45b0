pub mod bits;
pub mod piece;
pub mod attacks;
pub mod zobrist;
pub mod moves;
pub mod eval;
pub mod castling;
pub mod board;
pub mod make_move;
pub mod mv_gen;
pub mod fen;
pub mod perft;
pub mod tables;
pub mod pext;
pub mod game;
pub mod game_move;
pub mod mirror;
pub mod notation;
pub mod evaluation;
pub mod display;
