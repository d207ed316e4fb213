use vstd::prelude::*;

use crate::board::color::Color;
use crate::text::{chars_to_string, is_digit, is_digit_spec, is_lowercase, is_lowercase_spec, str_to_chars};

use crate::bits::{bit_set, popcount};
use crate::lookup;
use crate::lookup::utils::Direction;
use crate::lookup::{
    between_target, bishop_mask_target, bishop_target, direction_of, king_target, knight_target,
    on_board, on_ray, pawn_attack_target, pawn_push_target, rook_mask_target, rook_target,
};

use super::error::{InvalidSquareFormat, SquareError};
use super::Bitboard;

verus! {

/// One of the 64 squares, numbered rank by rank from a1 (0) to h8 (63).
#[derive(Debug, Default, Hash, Clone, Copy, PartialEq, Eq, PartialOrd, Ord, Structural)]
pub struct Square {
    pub index: u8,
}

/// Rank (0-based) of a square index.
pub open spec fn rank_of(i: int) -> int {
    i / 8
}

/// File (0-based, a = 0) of a square index.
pub open spec fn file_of(i: int) -> int {
    i % 8
}

/// Whether the text `s` starts with a lowercase letter and the digit `0`, for which there is
/// no rank to count from.
pub open spec fn square_text_rank_zero(s: Seq<char>) -> bool {
    &&& s.len() >= 2
    &&& is_lowercase_spec(s[0])
    &&& s[1] == '0'
}

impl Square {
    pub open spec fn wf(self) -> bool {
        self.index < 64
    }

    pub open spec fn spec_rank(self) -> int {
        rank_of(self.index as int)
    }

    pub open spec fn spec_file(self) -> int {
        file_of(self.index as int)
    }

    pub fn new(rank: u8, file: u8) -> (r: Self)
        requires
            rank <= 7,
            file <= 7,
        ensures
            r.index == rank * 8 + file,
            r.wf(),
            r.spec_rank() == rank,
            r.spec_file() == file,
    {
        let index = (rank * 8) + file;
        Self { index }
    }

    pub fn by_index(index: u8) -> (r: Self)
        requires
            index <= 63,
        ensures
            r.index == index,
            r.wf(),
    {
        Self { index }
    }

    pub fn rank(&self) -> (r: u8)
        ensures
            r == self.spec_rank(),
    {
        self.index / 8
    }

    pub fn file(&self) -> (r: u8)
        ensures
            r == self.spec_file(),
    {
        self.index % 8
    }

    /// Whether rank and file both lie on the board.
    pub fn in_board(&self) -> (r: bool)
        ensures
            r == (0 <= self.spec_rank() <= 7 && 0 <= self.spec_file() <= 7),
            r == self.wf(),
    {
        let rank = self.rank() as usize;
        let file = self.file() as usize;

        let between_rank = rank <= 7;
        let between_file = file <= 7;

        between_rank && between_file
    }

    /// Index of the square as seen from `color`'s side: White's squares are mirrored
    /// vertically (rank r becomes rank 7 - r), Black's are unchanged.
    pub fn get_relative_index(&self, color: Color) -> (r: usize)
        requires
            self.wf(),
        ensures
            color == Color::Black ==> r == self.index,
            color == Color::White ==> r == (7 - self.spec_rank()) * 8 + self.spec_file(),
            r < 64,
    {
        match color {
            Color::White => {
                let r = (7 - self.index / 8) * 8 + self.index % 8;
                r as usize
            },
            Color::Black => self.index as usize,
        }
    }

    /// The square's name, file letter then rank digit, such as `e4`.
    pub fn to_string(&self) -> (r: String)
        requires
            self.wf(),
        ensures
            r@ == square_text(*self),
    {
        let file = (97u8 + self.file()) as char;
        let rank = (49u8 + self.rank()) as char;
        let mut v: Vec<char> = Vec::new();
        v.push(file);
        v.push(rank);
        chars_to_string(&v)
    }

    /// Parses a square name such as `e4`: a lowercase file letter followed by a rank digit;
    /// anything after the first two characters is ignored. The square is numbered from the
    /// letter and the digit as if the board went on past `h` and `8` (`i1` comes out as the
    /// index after `h1`).
    pub fn from_str(input: &str) -> (r: Result<Self, SquareError>)
        requires
            !square_text_rank_zero(input@),
        ensures
            r is Ok <==> (input@.len() >= 2 && is_lowercase_spec(input@[0]) && is_digit_spec(
                input@[1],
            )),
            r matches Ok(sq) ==> sq.index == (input@[1] as int - '1' as int) * 8 + (input@[0] as int - 'a' as int),
            r matches Err(e) ==> e.input() == input@,
    {
        let chars = str_to_chars(input);
        if chars.len() < 1 || !is_lowercase(chars[0]) {
            return Err(SquareError::InvalidSquareFormat(InvalidSquareFormat::new(input)));
        }
        let file = (chars[0] as u8) - 97u8;
        if chars.len() < 2 || !is_digit(chars[1]) {
            return Err(SquareError::InvalidSquareFormat(InvalidSquareFormat::new(input)));
        }
        let rank = ((chars[1] as u8) - 48u8) - 1;
        Ok(Self { index: (rank * 8) + file })
    }
}

impl Square {
    /// The square a pawn of `color` standing here pushes to.
    pub fn get_pawn_pushes(&self, color: Color) -> (r: Bitboard)
        requires
            self.wf(),
        ensures
            forall|j: int| #[trigger] r.has(j) <==> pawn_push_target(color, self.index as int, j),
    {
        Bitboard(lookup::pawn_pushes(color, self.index))
    }

    /// The squares a pawn of `color` standing here attacks.
    pub fn get_pawn_attacks(&self, color: Color) -> (r: Bitboard)
        requires
            self.wf(),
        ensures
            forall|j: int| #[trigger] r.has(j) <==> pawn_attack_target(color, self.index as int, j),
    {
        Bitboard(lookup::pawn_attacks(color, self.index))
    }

    pub fn get_king_moves(&self) -> (r: Bitboard)
        requires
            self.wf(),
        ensures
            forall|j: int| #[trigger] r.has(j) <==> king_target(self.index as int, j),
    {
        Bitboard(lookup::king_moves(self.index))
    }

    pub fn get_knight_moves(&self) -> (r: Bitboard)
        requires
            self.wf(),
        ensures
            forall|j: int| #[trigger] r.has(j) <==> knight_target(self.index as int, j),
    {
        Bitboard(lookup::knight_moves(self.index))
    }

    /// Every square from here to the edge of the board in `direction`.
    pub fn get_ray(&self, direction: Direction) -> (r: Bitboard)
        requires
            self.wf(),
        ensures
            forall|j: int| #[trigger] r.has(j) <==> on_ray(self.index as int, direction, j),
    {
        Bitboard(lookup::ray(self.index, direction))
    }

    /// The direction from here to `other`, if the two squares share a line.
    pub fn get_direction(&self, other: Square) -> (r: Option<Direction>)
        requires
            self.wf(),
            other.wf(),
        ensures
            r == (if direction_of(self.index as int, other.index as int) == Direction::Nowhere {
                None
            } else {
                Some(direction_of(self.index as int, other.index as int))
            }),
    {
        let direction = lookup::get_direction(self.index, other.index);
        if direction == Direction::Nowhere {
            return None;
        }
        Some(direction)
    }

    /// The squares strictly between here and `other` on their common line (none if there is
    /// no such line).
    pub fn get_between(&self, other: Square) -> (r: Bitboard)
        requires
            self.wf(),
            other.wf(),
        ensures
            forall|k: int| #[trigger] r.has(k) <==> between_target(self.index as int, other.index as int, k),
    {
        Bitboard(lookup::squares_between(self.index, other.index))
    }

    /// The ray from here through `other`: every square beyond this one in the direction of
    /// `other` (none if they share no line).
    pub fn get_line(&self, other: Square) -> (r: Bitboard)
        requires
            self.wf(),
            other.wf(),
        ensures
            forall|j: int| #[trigger] r.has(j) <==> on_ray(self.index as int, direction_of(self.index as int, other.index as int), j),
    {
        let direction = lookup::get_direction(self.index, other.index);
        Bitboard(lookup::ray(self.index, direction))
    }

    pub fn get_bishop_mask(&self) -> (r: Bitboard)
        requires
            self.wf(),
        ensures
            forall|j: int| #[trigger] r.has(j) <==> bishop_mask_target(self.index as int, j),
    {
        Bitboard(lookup::bishop_mask(self.index))
    }

    pub fn get_bishop_mask_ones(&self) -> (r: usize)
        requires
            self.wf(),
        ensures
            exists|m: u64|
                (forall|j: int| on_board(j) ==> (#[trigger] bit_set(m, j as u64) == bishop_mask_target(self.index as int, j)))
                && r == popcount(m),
    {
        let m = lookup::bishop_mask(self.index);
        Bitboard(m).count_ones()
    }

    pub fn get_rook_mask(&self) -> (r: Bitboard)
        requires
            self.wf(),
        ensures
            forall|j: int| #[trigger] r.has(j) <==> rook_mask_target(self.index as int, j),
    {
        Bitboard(lookup::rook_mask(self.index))
    }

    pub fn get_rook_mask_ones(&self) -> (r: usize)
        requires
            self.wf(),
        ensures
            exists|m: u64|
                (forall|j: int| on_board(j) ==> (#[trigger] bit_set(m, j as u64) == rook_mask_target(self.index as int, j)))
                && r == popcount(m),
    {
        let m = lookup::rook_mask(self.index);
        Bitboard(m).count_ones()
    }

    /// Squares a rook standing here attacks, given the occupied squares.
    pub fn get_rook_attacks(&self, occupancy: Bitboard) -> (r: Bitboard)
        requires
            self.wf(),
        ensures
            forall|j: int| #[trigger] r.has(j) <==> rook_target(self.index as int, occupancy.0, j),
    {
        Bitboard(lookup::rook_attacks(self.index, occupancy.0))
    }

    /// Squares a bishop standing here attacks, given the occupied squares.
    pub fn get_bishop_attacks(&self, occupancy: Bitboard) -> (r: Bitboard)
        requires
            self.wf(),
        ensures
            forall|j: int| #[trigger] r.has(j) <==> bishop_target(self.index as int, occupancy.0, j),
    {
        Bitboard(lookup::bishop_attacks(self.index, occupancy.0))
    }
}

/// The name of a square, file letter then rank digit: what `to_string` gives.
pub open spec fn square_text(sq: Square) -> Seq<char> {
    seq![('a' as u8 + sq.spec_file()) as char, ('1' as u8 + sq.spec_rank()) as char]
}

/// Reading the name of a square gives the square back: the name is a lowercase letter and a
/// digit other than `0`, and `from_str` numbers it as the square.
pub proof fn lemma_square_text_round_trip(sq: Square)
    requires
        sq.wf(),
    ensures
        square_text(sq).len() == 2,
        is_lowercase_spec(square_text(sq)[0]),
        is_digit_spec(square_text(sq)[1]),
        !square_text_rank_zero(square_text(sq)),
        (square_text(sq)[1] as int - '1' as int) * 8 + (square_text(sq)[0] as int - 'a' as int) == sq.index,
{
    let t = square_text(sq);
    assert(t[0] as int == 97 + sq.spec_file());
    assert(t[1] as int == 49 + sq.spec_rank());
}

} // verus!
