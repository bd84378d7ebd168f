//! A pseudo-legal move generator and mutable board model for standard chess.
//!
//! The board is an 8x8 grid of optional (side, piece kind) occupants. The
//! engine answers two queries (occupant and side at a square) and offers two
//! operations: enumerating the destinations a piece may move to under its
//! movement pattern, and moving a piece to one of those destinations.
//! King safety, castling, en passant, promotion and turn order are out of
//! scope.

pub mod board;
pub mod display;
