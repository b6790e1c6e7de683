//! Chess positions as bitboards, read from Forsyth–Edwards Notation records.
//!
//! `position::Position::from_fen` reads a record field by field and returns either a position
//! that holds exactly what the record describes or the error of the first malformed field.

pub mod board;
pub mod fen;
pub mod laws;
pub mod position;
pub mod text;
