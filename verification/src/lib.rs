//! Rules and decision engine for a draughts variant played on an even-sized
//! board with forced multi-jump captures, king promotion, and a multi-clause
//! draw protocol.
//!
//! The engine is organised around a packed board representation: only the
//! playable (dark) squares are stored, indexed 0.., and for every playable
//! square the four diagonal rays are precomputed once per board size.

pub mod color;
pub mod piece;
pub mod vector;
pub mod position_environment;
pub mod moves;
pub mod moves_list;
pub mod position;
pub mod game;
