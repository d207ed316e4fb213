use vstd::prelude::*;

verus! {

/// The two sides. `Black` has index 0 and `White` index 1.
#[derive(Debug, Clone, Copy, PartialEq, Eq, Structural)]
pub enum Color {
    Black,
    White,
}

pub const COLOR_COUNT: usize = 2;

impl Color {
    pub open spec fn spec_index(self) -> nat {
        match self {
            Color::Black => 0,
            Color::White => 1,
        }
    }

    pub open spec fn opposite(self) -> Color {
        match self {
            Color::Black => Color::White,
            Color::White => Color::Black,
        }
    }

    pub fn index(&self) -> (r: usize)
        ensures
            r == self.spec_index(),
    {
        match self {
            Color::Black => 0,
            Color::White => 1,
        }
    }

    /// Offset from the square a pawn double-pushed to, back to the square it passed over.
    pub fn en_passant_offset(&self) -> (r: i8)
        ensures
            r == (if *self == Color::White { -8int } else { 8int }),
    {
        match self {
            Color::White => -8,
            Color::Black => 8,
        }
    }
}

impl core::ops::Not for Color {
    type Output = Color;

    fn not(self) -> (r: Color) {
        match self {
            Color::White => Color::Black,
            Color::Black => Color::White,
        }
    }
}

impl vstd::std_specs::ops::NotSpecImpl for Color {
    open spec fn obeys_not_spec() -> bool {
        true
    }

    open spec fn not_req(self) -> bool {
        true
    }

    open spec fn not_spec(self) -> Color {
        self.opposite()
    }
}

/// Negating a colour twice gives it back.
pub proof fn lemma_opposite_involutive(c: Color)
    ensures
        c.opposite().opposite() == c,
        c.opposite() != c,
{
}

} // verus!
