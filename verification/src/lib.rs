//! A chess position engine: bitboards, attack generation, legal move
//! generation, incremental move application and move-tree counting.
//!
//! Squares are numbered 0 (A1) to 63 (H8). A [`bitboard::Bitboard`] is a set
//! of squares, a [`board::ChessBoard`] eight such sets, and a [`game::Game`]
//! a board with castling rights, en passant square, side to move and
//! clocks. `Game::wf` says which positions play can reach; `Game::moves`
//! lists the legal moves of a position and `Game::after` is the position
//! that a move leads to. The executable functions compute exactly these:
//! `get_all_moves`, `make_move`, and on top of them `perft::perft`.
//!
//! What holds of moves, boards and hashes across a move is proved in
//! [`laws`], [`hashing`] and [`undo`].

pub mod bits;
pub mod bitboard;
pub mod position;
pub mod piece;
pub mod geometry;
pub mod precalc;
pub mod magic_bitboard;
pub mod movement;
pub mod board;
pub mod game;
pub mod movegen;
pub mod making;
pub mod undo;
pub mod laws;
pub mod zobrist;
pub mod hashing;
pub mod fen;
pub mod perft;
