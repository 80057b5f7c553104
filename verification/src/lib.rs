//! Chess positions as bitboards, with a Forsyth–Edwards Notation codec.
//!
//! * [`board`] holds the position model: squares, pieces, the twelve
//!   bitboards of a position, piece lookup and a diagram for reading.
//! * [`fen`] reads a position from a text in Forsyth–Edwards Notation and
//!   writes one out.
//! * [`laws`] proves what the two directions have to do with each other:
//!   reading what was written gives the position back, and writing what was
//!   read gives the text in its usual form.
//! * [`text`] and [`bits`] hold what the others need to know about fields,
//!   decimal numbers and single bits.
//! * [`error`] names the ways in which a text can be at fault.

pub mod bits;
pub mod board;
pub mod error;
pub mod fen;
pub mod laws;
pub mod text;
