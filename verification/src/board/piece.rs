use vstd::prelude::*;

use super::color::Color;
use super::error::{ColoredPieceError, InvalidFenPiece};

verus! {

/// The kinds of pieces; `NoPiece` stands for "no piece" where a move records none (nothing
/// captured, nothing promoted to).
#[derive(Debug, Clone, Copy, PartialEq, Eq, PartialOrd, Ord, Structural)]
pub enum Piece {
    Pawn,
    Knight,
    Bishop,
    Rook,
    Queen,
    King,
    NoPiece,
}

/// Number of real piece kinds.
pub const PIECE_COUNT: usize = 6;

impl Piece {
    pub open spec fn spec_index(self) -> nat {
        match self {
            Piece::Pawn => 0,
            Piece::Knight => 1,
            Piece::Bishop => 2,
            Piece::Rook => 3,
            Piece::Queen => 4,
            Piece::King => 5,
            Piece::NoPiece => 6,
        }
    }

    pub open spec fn is_real(self) -> bool {
        self != Piece::NoPiece
    }

    /// Position of a real piece kind in per-piece tables (pawn 0 through king 5).
    pub fn index(&self) -> (r: usize)
        ensures
            r == self.spec_index(),
            self.is_real() ==> r < PIECE_COUNT,
    {
        match self {
            Piece::Pawn => 0,
            Piece::Knight => 1,
            Piece::Bishop => 2,
            Piece::Rook => 3,
            Piece::Queen => 4,
            Piece::King => 5,
            Piece::NoPiece => 6,
        }
    }

    /// The real piece kind at a table position.
    pub fn from_index(index: usize) -> (r: Piece)
        requires
            index < PIECE_COUNT,
        ensures
            r.spec_index() == index,
            r.is_real(),
    {
        match index {
            0 => Piece::Pawn,
            1 => Piece::Knight,
            2 => Piece::Bishop,
            3 => Piece::Rook,
            4 => Piece::Queen,
            _ => Piece::King,
        }
    }
}

/// A piece kind together with the side it belongs to.
#[derive(Debug, Clone, Copy, PartialEq, Eq, Structural)]
pub struct ColoredPiece {
    pub piece: Piece,
    pub color: Color,
}

/// The FEN letter of a piece: upper case for White, lower case for Black.
pub open spec fn fen_char(piece: Piece, color: Color) -> char {
    let upper = match piece {
        Piece::Pawn => 'P',
        Piece::Knight => 'N',
        Piece::Bishop => 'B',
        Piece::Rook => 'R',
        Piece::Queen => 'Q',
        _ => 'K',
    };
    let lower = match piece {
        Piece::Pawn => 'p',
        Piece::Knight => 'n',
        Piece::Bishop => 'b',
        Piece::Rook => 'r',
        Piece::Queen => 'q',
        _ => 'k',
    };
    if color == Color::White {
        upper
    } else {
        lower
    }
}

/// Whether `c` is the FEN letter of some piece.
pub open spec fn is_fen_char(c: char) -> bool {
    exists|p: Piece, col: Color| p.is_real() && fen_char(p, col) == c
}

impl ColoredPiece {
    pub open spec fn wf(self) -> bool {
        self.piece.is_real()
    }

    pub fn new(piece: Piece, color: Color) -> (r: Self)
        ensures
            r.piece == piece,
            r.color == color,
    {
        Self { piece, color }
    }

    /// Reads a FEN piece letter.
    pub fn from_fen(piece: char) -> (r: Result<Self, ColoredPieceError>)
        ensures
            r matches Ok(cp) ==> cp.wf() && fen_char(cp.piece, cp.color) == piece,
            r is Ok <==> is_fen_char(piece),
            r matches Err(e) ==> e == ColoredPieceError::InvalidFenPiece(InvalidFenPiece { piece }),
    {
        let r = match piece {
            'P' => Ok(Self::new(Piece::Pawn, Color::White)),
            'p' => Ok(Self::new(Piece::Pawn, Color::Black)),
            'N' => Ok(Self::new(Piece::Knight, Color::White)),
            'n' => Ok(Self::new(Piece::Knight, Color::Black)),
            'B' => Ok(Self::new(Piece::Bishop, Color::White)),
            'b' => Ok(Self::new(Piece::Bishop, Color::Black)),
            'R' => Ok(Self::new(Piece::Rook, Color::White)),
            'r' => Ok(Self::new(Piece::Rook, Color::Black)),
            'Q' => Ok(Self::new(Piece::Queen, Color::White)),
            'q' => Ok(Self::new(Piece::Queen, Color::Black)),
            'K' => Ok(Self::new(Piece::King, Color::White)),
            'k' => Ok(Self::new(Piece::King, Color::Black)),
            _ => Err(ColoredPieceError::InvalidFenPiece(InvalidFenPiece::new(piece))),
        };
        proof {
            if r is Ok {
                let cp = r->Ok_0;
                assert(fen_char(cp.piece, cp.color) == piece);
            } else {
                assert forall|p: Piece, col: Color| p.is_real() implies fen_char(p, col) != piece by {
                }
            }
        }
        r
    }

    /// The FEN letter of this piece.
    pub fn to_fen(&self) -> (r: char)
        requires
            self.wf(),
        ensures
            r == fen_char(self.piece, self.color),
    {
        match (self.color, self.piece) {
            (Color::White, Piece::Pawn) => 'P',
            (Color::White, Piece::Knight) => 'N',
            (Color::White, Piece::Bishop) => 'B',
            (Color::White, Piece::Rook) => 'R',
            (Color::White, Piece::Queen) => 'Q',
            (Color::White, _) => 'K',
            (Color::Black, Piece::Pawn) => 'p',
            (Color::Black, Piece::Knight) => 'n',
            (Color::Black, Piece::Bishop) => 'b',
            (Color::Black, Piece::Rook) => 'r',
            (Color::Black, Piece::Queen) => 'q',
            (Color::Black, _) => 'k',
        }
    }
}

/// Reading back the FEN letter of a piece gives the piece.
pub proof fn lemma_fen_char_injective(p: Piece, c: Color, q: Piece, d: Color)
    requires
        p.is_real(),
        q.is_real(),
        fen_char(p, c) == fen_char(q, d),
    ensures
        p == q && c == d,
{
}

} // verus!
