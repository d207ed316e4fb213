use vstd::prelude::*;

use std::num::ParseIntError;

use crate::generation::error::MoveError;

verus! {

/// A character that is not a FEN piece letter.
#[derive(Debug, Clone, Copy, PartialEq, Eq, Structural)]
pub struct InvalidFenPiece {
    pub piece: char,
}

impl InvalidFenPiece {
    pub fn new(piece: char) -> (r: Self)
        ensures
            r.piece == piece,
    {
        Self { piece }
    }
}

#[derive(Debug, Clone, Copy, PartialEq, Eq, Structural)]
pub enum ColoredPieceError {
    InvalidFenPiece(InvalidFenPiece),
}

/// A FEN text that does not have six space-separated fields.
#[derive(Debug, Clone, Copy, PartialEq, Eq, Structural)]
pub struct NotEnoughParts;

/// A side-to-move field other than `w` or `b`.
#[derive(Debug, Clone)]
pub struct WrongActiveColor {
    pub given: String,
}

impl WrongActiveColor {
    pub fn new(given: &str) -> (r: Self)
        ensures
            r.given@ == given@,
    {
        Self { given: given.to_string() }
    }
}

/// A castling letter that is a piece letter but not a king or a queen.
#[derive(Debug, Clone, Copy, PartialEq, Eq, Structural)]
pub struct WrongCastlingAvailibility {
    pub given: char,
}

impl WrongCastlingAvailibility {
    pub fn new(given: char) -> (r: Self)
        ensures
            r.given == given,
    {
        Self { given }
    }
}

/// An en passant field that does not name a square.
#[derive(Debug, Clone)]
pub struct InvalidEnPassant {
    pub square: String,
}

impl InvalidEnPassant {
    pub fn new(square: &str) -> (r: Self)
        ensures
            r.square@ == square@,
    {
        Self { square: square.to_string() }
    }
}

/// No piece was found for a move.
#[derive(Debug, Clone, Copy, PartialEq, Eq, Structural)]
pub struct PieceNotFound;

/// Why a FEN text or a list of moves could not be read.
#[derive(Debug)]
pub enum BoardError {
    NotEnoughParts(NotEnoughParts),
    WrongActiveColor(WrongActiveColor),
    WrongCastlingAvailibility(WrongCastlingAvailibility),
    InvalidEnPassant(InvalidEnPassant),
    PieceNotFound(PieceNotFound),
    ParseInt(ParseIntError),
    ColoredPieceError(ColoredPieceError),
    MoveError(MoveError),
}

} // verus!
