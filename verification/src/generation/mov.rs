use vstd::prelude::*;

use crate::bitboard::square::Square;
use crate::board::piece::Piece;

verus! {

/// A move packed into one word.
///
/// Bits 0-5 hold the from square, 6-11 the to square, 12-14 the moving piece, 16 the castling
/// flag, 17-19 the captured piece, 20 the en passant flag, 21-23 the piece promoted to and
/// 24-29 the square of the captured piece. Pieces are stored by their code (see `piece_code`),
/// in which `NoPiece` is 0.
#[derive(Debug, Clone, Copy, PartialEq, Eq, Structural)]
pub struct Move(pub u64);

pub const SQUARE_MASK: u64 = 0x3F;
pub const TO_SHIFT: u64 = 0x06;
pub const PIECE_SHIFT: u64 = 0x0C;
pub const PIECE_MASK: u64 = 0x07;
pub const IS_CASTLING_SHIFT: u64 = 0x10;
pub const IS_CASTLING_MASK: u64 = 0x10000;
pub const CAPTURED_SHIFT: u64 = 0x11;
pub const IS_EN_PASSANT_SHIFT: u64 = 0x14;
pub const IS_EN_PASSANT_MASK: u64 = 0x100000;
pub const IS_PROMOTED_SHIFT: u64 = 0x15;
pub const IS_PROMOTED_MASK: u64 = 0xE00000;
pub const CAPTURE_SQUARE_SHIFT: u64 = 0x18;
pub const IS_QUIET_MASK: u64 = 0xFE0000;
pub const IS_CAPTURE_MASK: u64 = 0x1E0000;

/// The all-zero move (a pawn from a1 to a1 with no flags), used to fill empty slots.
pub const NULL_MOVE: u64 = 0;

/// Code of a piece inside a packed move: `NoPiece` is 0, pawn through king are 1 to 6.
pub open spec fn spec_piece_code(p: Piece) -> u64 {
    match p {
        Piece::NoPiece => 0,
        Piece::Pawn => 1,
        Piece::Knight => 2,
        Piece::Bishop => 3,
        Piece::Rook => 4,
        Piece::Queen => 5,
        Piece::King => 6,
    }
}

/// The piece a code stands for (codes 0 and 7 read as `NoPiece`).
pub open spec fn spec_code_piece(c: u64) -> Piece {
    if c == 1 {
        Piece::Pawn
    } else if c == 2 {
        Piece::Knight
    } else if c == 3 {
        Piece::Bishop
    } else if c == 4 {
        Piece::Rook
    } else if c == 5 {
        Piece::Queen
    } else if c == 6 {
        Piece::King
    } else {
        Piece::NoPiece
    }
}

pub fn piece_code(p: Piece) -> (r: u64)
    ensures
        r == spec_piece_code(p),
        r < 8,
        spec_code_piece(r) == p,
{
    match p {
        Piece::NoPiece => 0,
        Piece::Pawn => 1,
        Piece::Knight => 2,
        Piece::Bishop => 3,
        Piece::Rook => 4,
        Piece::Queen => 5,
        Piece::King => 6,
    }
}

pub fn code_piece(c: u64) -> (r: Piece)
    ensures
        r == spec_code_piece(c),
{
    if c == 1 {
        Piece::Pawn
    } else if c == 2 {
        Piece::Knight
    } else if c == 3 {
        Piece::Bishop
    } else if c == 4 {
        Piece::Rook
    } else if c == 5 {
        Piece::Queen
    } else if c == 6 {
        Piece::King
    } else {
        Piece::NoPiece
    }
}

/// Packing the fields of a move and reading them back gives the fields.
proof fn lemma_pack(f: u64, t: u64, p: u64, a: u64, c: u64, b: u64, pr: u64, cs: u64)
    requires
        f < 64,
        t < 64,
        p < 8,
        a < 2,
        c < 8,
        b < 2,
        pr < 8,
        cs < 64,
    ensures
        ({
            let x = f | (t << 6u64) | (p << 12u64) | (a << 16u64) | (c << 17u64) | (b << 20u64) | (
            pr << 21u64) | (cs << 24u64);
            &&& x & 0x3F == f
            &&& (x >> 6u64) & 0x3F == t
            &&& (x >> 12u64) & 7 == p
            &&& (x & 0x10000 != 0) == (a == 1)
            &&& (x >> 17u64) & 7 == c
            &&& (x & 0x100000 != 0) == (b == 1)
            &&& (x >> 21u64) & 7 == pr
            &&& (x >> 24u64) & 0x3F == cs
        }),
{
    assert({
        let x = f | (t << 6u64) | (p << 12u64) | (a << 16u64) | (c << 17u64) | (b << 20u64) | (pr
            << 21u64) | (cs << 24u64);
        &&& x & 0x3F == f
        &&& (x >> 6u64) & 0x3F == t
        &&& (x >> 12u64) & 7 == p
        &&& (x & 0x10000 != 0) == (a == 1)
        &&& (x >> 17u64) & 7 == c
        &&& (x & 0x100000 != 0) == (b == 1)
        &&& (x >> 21u64) & 7 == pr
        &&& (x >> 24u64) & 0x3F == cs
    }) by (bit_vector)
        requires
            f < 64,
            t < 64,
            p < 8,
            a < 2,
            c < 8,
            b < 2,
            pr < 8,
            cs < 64,
    ;
}

/// How the flag masks relate to the packed fields of any word.
pub proof fn lemma_masks(x: u64)
    ensures
        x & 0x3F < 64,
        (x >> 6u64) & 0x3F < 64,
        (x >> 12u64) & 7 < 8,
        (x >> 17u64) & 7 < 8,
        (x >> 21u64) & 7 < 8,
        (x >> 24u64) & 0x3F < 64,
        (x & 0xFE0000 == 0) == ((x >> 17u64) & 7 == 0 && x & 0x100000 == 0 && (x >> 21u64) & 7 == 0),
        (x & 0x1E0000 != 0) == ((x >> 17u64) & 7 != 0 || x & 0x100000 != 0),
        (x & 0xE00000 != 0) == ((x >> 21u64) & 7 != 0),
{
    assert(x & 0x3F < 64 && (x >> 6u64) & 0x3F < 64 && (x >> 12u64) & 7 < 8 && (x >> 17u64) & 7 < 8
        && (x >> 21u64) & 7 < 8 && (x >> 24u64) & 0x3F < 64 && (x & 0xFE0000 == 0) == ((x >> 17u64)
        & 7 == 0 && x & 0x100000 == 0 && (x >> 21u64) & 7 == 0) && (x & 0x1E0000 != 0) == ((x
        >> 17u64) & 7 != 0 || x & 0x100000 != 0) && (x & 0xE00000 != 0) == ((x >> 21u64) & 7 != 0))
        by (bit_vector);
}

impl Move {
    pub open spec fn spec_from(self) -> u64 {
        self.0 & 0x3F
    }

    pub open spec fn spec_to(self) -> u64 {
        (self.0 >> 6u64) & 0x3F
    }

    pub open spec fn spec_piece(self) -> Piece {
        spec_code_piece((self.0 >> 12u64) & 7)
    }

    pub open spec fn spec_is_castling(self) -> bool {
        self.0 & 0x10000 != 0
    }

    pub open spec fn spec_captured(self) -> Piece {
        spec_code_piece((self.0 >> 17u64) & 7)
    }

    pub open spec fn spec_is_en_passant(self) -> bool {
        self.0 & 0x100000 != 0
    }

    pub open spec fn spec_promoted(self) -> Piece {
        spec_code_piece((self.0 >> 21u64) & 7)
    }

    pub open spec fn spec_capture_square(self) -> u64 {
        (self.0 >> 24u64) & 0x3F
    }

    /// Takes a piece, en passant or not.
    pub open spec fn spec_is_capture(self) -> bool {
        self.spec_captured() != Piece::NoPiece || self.spec_is_en_passant()
    }

    pub open spec fn spec_is_promotion(self) -> bool {
        self.spec_promoted() != Piece::NoPiece
    }

    /// A pawn move of two ranks that takes nothing.
    pub open spec fn spec_is_double_pawn(self) -> bool {
        self.spec_captured() == Piece::NoPiece && self.spec_piece() == Piece::Pawn && (
        self.spec_to() - self.spec_from() == 16 || self.spec_from() - self.spec_to() == 16)
    }

    /// The piece codes stored in the move are all valid (none is 7).
    pub open spec fn wf(self) -> bool {
        &&& (self.0 >> 12u64) & 7 != 7
        &&& (self.0 >> 17u64) & 7 != 7
        &&& (self.0 >> 21u64) & 7 != 7
    }

    /// The move made of exactly these fields.
    pub open spec fn fields(
        self,
        piece: Piece,
        from: Square,
        to: Square,
        captured_piece: Piece,
        capture_square: Square,
        promoted_piece: Piece,
        is_castling: bool,
        is_en_passant: bool,
    ) -> bool {
        &&& self.wf()
        &&& self.spec_piece() == piece
        &&& self.spec_from() == from.index
        &&& self.spec_to() == to.index
        &&& self.spec_captured() == captured_piece
        &&& self.spec_capture_square() == capture_square.index
        &&& self.spec_promoted() == promoted_piece
        &&& self.spec_is_castling() == is_castling
        &&& self.spec_is_en_passant() == is_en_passant
    }

    pub fn new(
        piece: Piece,
        from: Square,
        to: Square,
        captured_piece: Piece,
        capture_square: Square,
        promoted_piece: Piece,
        is_castling: bool,
        is_en_passant: bool,
    ) -> (r: Self)
        requires
            from.wf(),
            to.wf(),
            capture_square.wf(),
        ensures
            r.fields(
                piece,
                from,
                to,
                captured_piece,
                capture_square,
                promoted_piece,
                is_castling,
                is_en_passant,
            ),
    {
        let f = from.index as u64;
        let t = to.index as u64;
        let p = piece_code(piece);
        let a: u64 = if is_castling { 1 } else { 0 };
        let c = piece_code(captured_piece);
        let b: u64 = if is_en_passant { 1 } else { 0 };
        let pr = piece_code(promoted_piece);
        let cs = capture_square.index as u64;
        let bits = f | (t << 6u64) | (p << 12u64) | (a << 16u64) | (c << 17u64) | (b << 20u64) | (pr
            << 21u64) | (cs << 24u64);
        proof {
            lemma_pack(f, t, p, a, c, b, pr, cs);
        }
        Self(bits)
    }

    /// A move that captures nothing and promotes to nothing, such as a pawn push.
    pub fn quiet(piece: Piece, from: Square, to: Square) -> (r: Self)
        requires
            from.wf(),
            to.wf(),
        ensures
            r.fields(piece, from, to, Piece::NoPiece, Square { index: 0 }, Piece::NoPiece, false, false),
    {
        Self::new(
            piece,
            from,
            to,
            Piece::NoPiece,
            Square::by_index(0),
            Piece::NoPiece,
            false,
            false,
        )
    }

    /// A move to `to` taking `captured_piece` there (`NoPiece` for a plain move).
    pub fn capture(piece: Piece, from: Square, to: Square, captured_piece: Piece) -> (r: Self)
        requires
            from.wf(),
            to.wf(),
        ensures
            r.fields(piece, from, to, captured_piece, to, Piece::NoPiece, false, false),
    {
        Self::new(piece, from, to, captured_piece, to, Piece::NoPiece, false, false)
    }

    /// A pawn taking en passant: it moves to `to` and takes the pawn on `capture_square`.
    pub fn en_passant(from: Square, to: Square, capture_square: Square) -> (r: Self)
        requires
            from.wf(),
            to.wf(),
            capture_square.wf(),
        ensures
            r.fields(Piece::Pawn, from, to, Piece::Pawn, capture_square, Piece::NoPiece, false, true),
    {
        Self::new(Piece::Pawn, from, to, Piece::Pawn, capture_square, Piece::NoPiece, false, true)
    }

    /// A pawn promoting to `promoted_piece`, taking `captured_piece` on `to` (or nothing).
    pub fn promotion(from: Square, to: Square, promoted_piece: Piece, captured_piece: Piece) -> (r:
        Self)
        requires
            from.wf(),
            to.wf(),
        ensures
            r.fields(
                Piece::Pawn,
                from,
                to,
                captured_piece,
                if captured_piece == Piece::NoPiece { Square { index: 0 } } else { to },
                promoted_piece,
                false,
                false,
            ),
    {
        let capture_square = match captured_piece {
            Piece::NoPiece => Square::by_index(0),
            _ => to,
        };
        Self::new(
            Piece::Pawn,
            from,
            to,
            captured_piece,
            capture_square,
            promoted_piece,
            false,
            false,
        )
    }

    /// The king's move when castling.
    pub fn castling(from: Square, to: Square) -> (r: Self)
        requires
            from.wf(),
            to.wf(),
        ensures
            r.fields(Piece::King, from, to, Piece::NoPiece, Square { index: 0 }, Piece::NoPiece, true, false),
    {
        Self::new(
            Piece::King,
            from,
            to,
            Piece::NoPiece,
            Square::by_index(0),
            Piece::NoPiece,
            true,
            false,
        )
    }

    pub fn from(&self) -> (r: Square)
        ensures
            r.wf(),
            r.index == self.spec_from(),
    {
        proof {
            lemma_masks(self.0);
        }
        Square::by_index((self.0 & SQUARE_MASK) as u8)
    }

    pub fn to(&self) -> (r: Square)
        ensures
            r.wf(),
            r.index == self.spec_to(),
    {
        proof {
            lemma_masks(self.0);
        }
        Square::by_index(((self.0 >> TO_SHIFT) & SQUARE_MASK) as u8)
    }

    pub fn piece(&self) -> (r: Piece)
        ensures
            r == self.spec_piece(),
    {
        code_piece((self.0 >> PIECE_SHIFT) & PIECE_MASK)
    }

    /// A pawn move of two ranks (which captures nothing).
    pub fn is_double_pawn(&self) -> (r: bool)
        ensures
            r == (self.spec_captured() == Piece::NoPiece && self.spec_piece() == Piece::Pawn && (
            self.spec_to() - self.spec_from() == 16 || self.spec_from() - self.spec_to() == 16)),
    {
        if self.captured_piece() != Piece::NoPiece {
            return false;
        }
        if self.piece() != Piece::Pawn {
            return false;
        }
        let from = self.from().index as i16;
        let to = self.to().index as i16;
        let difference = to - from;
        difference == 16 || difference == -16
    }

    pub fn is_castling(&self) -> (r: bool)
        ensures
            r == self.spec_is_castling(),
    {
        (self.0 & IS_CASTLING_MASK) != 0
    }

    pub fn captured_piece(&self) -> (r: Piece)
        ensures
            r == self.spec_captured(),
    {
        code_piece((self.0 >> CAPTURED_SHIFT) & PIECE_MASK)
    }

    pub fn capture_square(&self) -> (r: Square)
        ensures
            r.wf(),
            r.index == self.spec_capture_square(),
    {
        proof {
            lemma_masks(self.0);
        }
        Square::by_index(((self.0 >> CAPTURE_SQUARE_SHIFT) & SQUARE_MASK) as u8)
    }

    pub fn is_en_passant(&self) -> (r: bool)
        ensures
            r == self.spec_is_en_passant(),
    {
        (self.0 & IS_EN_PASSANT_MASK) != 0
    }

    pub fn promoted_piece(&self) -> (r: Piece)
        ensures
            r == self.spec_promoted(),
    {
        code_piece((self.0 >> IS_PROMOTED_SHIFT) & PIECE_MASK)
    }

    /// Captures nothing, is no en passant and promotes to nothing.
    pub fn is_quiet(&self) -> (r: bool)
        ensures
            self.wf() ==> r == (self.spec_captured() == Piece::NoPiece && !self.spec_is_en_passant()
                && self.spec_promoted() == Piece::NoPiece),
            r == (self.0 & IS_QUIET_MASK == 0),
    {
        proof {
            lemma_masks(self.0);
        }
        (self.0 & IS_QUIET_MASK) == 0
    }

    /// Captures a piece, en passant or not.
    pub fn is_capture(&self) -> (r: bool)
        ensures
            self.wf() ==> r == (self.spec_captured() != Piece::NoPiece || self.spec_is_en_passant()),
            r == (self.0 & IS_CAPTURE_MASK != 0),
    {
        proof {
            lemma_masks(self.0);
        }
        (self.0 & IS_CAPTURE_MASK) != 0
    }

    pub fn is_promotion(&self) -> (r: bool)
        ensures
            self.wf() ==> r == (self.spec_promoted() != Piece::NoPiece),
            r == (self.0 & IS_PROMOTED_MASK != 0),
    {
        proof {
            lemma_masks(self.0);
        }
        (self.0 & IS_PROMOTED_MASK) != 0
    }

    /// Captures or promotes.
    pub fn is_tactical(&self) -> (r: bool)
        ensures
            r == (self.0 & IS_CAPTURE_MASK != 0 || self.0 & IS_PROMOTED_MASK != 0),
    {
        self.is_capture() || self.is_promotion()
    }
}

} // verus!
