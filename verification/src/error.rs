//! The ways in which a piece of notation can be malformed.

use vstd::prelude::*;

verus! {

/// Why a text was refused. Parsing stops at the first fault it meets, so a
/// text with several faults reports the leftmost one.
#[derive(Clone, Copy, Debug, PartialEq, Eq, Structural)]
pub enum FenError {
    /// The text does not consist of exactly six fields separated by single
    /// spaces.
    WrongFieldCount,
    /// A rank of the piece placement does not describe exactly eight files,
    /// or the placement does not consist of exactly eight ranks.
    MalformedRank,
    /// A character of the piece placement is neither a digit from 1 to 8 nor
    /// one of the piece letters.
    UnknownPieceChar,
    /// The side to move is neither `w` nor `b`.
    UnknownSide,
    /// A square is not written as a file letter from a to h followed by a
    /// rank digit from 1 to 8.
    InvalidNotation,
    /// A move counter is not a decimal number that fits in 64 bits.
    InvalidNumber,
}

} // verus!
