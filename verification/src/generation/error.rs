use vstd::prelude::*;

use crate::bitboard::error::SquareError;
use crate::board::error::ColoredPieceError;

verus! {

/// A move text that is too short or otherwise malformed.
#[derive(Debug, Clone)]
pub struct InvalidMoveFormat {
    pub mov: String,
}

impl InvalidMoveFormat {
    pub fn new(mov: &str) -> (r: Self)
        ensures
            r.mov@ == mov@,
    {
        Self { mov: mov.to_string() }
    }
}

/// A move whose from-square is empty.
#[derive(Debug, Clone)]
pub struct PieceNotFound {
    pub square: String,
}

impl PieceNotFound {
    pub fn new(square: &str) -> (r: Self)
        ensures
            r.square@ == square@,
    {
        Self { square: square.to_string() }
    }
}

/// Why a move text could not be read.
#[derive(Debug)]
pub enum MoveError {
    InvalidMoveFormat(InvalidMoveFormat),
    PieceNotFound(PieceNotFound),
    SquareError(SquareError),
    ColoredPieceError(ColoredPieceError),
}

} // verus!
