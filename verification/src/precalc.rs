//! Attack sets and blocker masks computed from the geometry of the board.

pub mod masks;
