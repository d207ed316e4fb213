use vstd::prelude::*;

verus! {

/// The eight compass directions on the board, seen from White (north is towards rank 8),
/// and `Nowhere` for two squares that share no line.
#[derive(Debug, Clone, Copy, PartialEq, Eq, Structural)]
pub enum Direction {
    NorthWest,
    North,
    NorthEast,
    West,
    East,
    SouthWest,
    South,
    SouthEast,
    Nowhere,
}

pub const DIRECTION_COUNT: usize = 8;

impl Direction {
    pub open spec fn spec_index(self) -> nat {
        match self {
            Direction::NorthWest => 0,
            Direction::North => 1,
            Direction::NorthEast => 2,
            Direction::West => 3,
            Direction::East => 4,
            Direction::SouthWest => 5,
            Direction::South => 6,
            Direction::SouthEast => 7,
            Direction::Nowhere => 8,
        }
    }

    /// Rank change of one step in this direction.
    pub open spec fn rank_step(self) -> int {
        match self {
            Direction::NorthWest | Direction::North | Direction::NorthEast => 1,
            Direction::West | Direction::East | Direction::Nowhere => 0,
            _ => -1,
        }
    }

    /// File change of one step in this direction.
    pub open spec fn file_step(self) -> int {
        match self {
            Direction::NorthWest | Direction::West | Direction::SouthWest => -1,
            Direction::North | Direction::South | Direction::Nowhere => 0,
            _ => 1,
        }
    }

    pub open spec fn spec_opposite(self) -> Direction {
        match self {
            Direction::NorthWest => Direction::SouthEast,
            Direction::North => Direction::South,
            Direction::NorthEast => Direction::SouthWest,
            Direction::West => Direction::East,
            Direction::East => Direction::West,
            Direction::SouthWest => Direction::NorthEast,
            Direction::South => Direction::North,
            Direction::SouthEast => Direction::NorthWest,
            Direction::Nowhere => Direction::Nowhere,
        }
    }

    pub open spec fn spec_is_diagonal(self) -> bool {
        self.rank_step() != 0 && self.file_step() != 0
    }

    pub open spec fn spec_is_straight(self) -> bool {
        self != Direction::Nowhere && (self.rank_step() == 0 || self.file_step() == 0)
    }

    pub fn index(&self) -> (r: usize)
        ensures
            r == self.spec_index(),
    {
        match self {
            Direction::NorthWest => 0,
            Direction::North => 1,
            Direction::NorthEast => 2,
            Direction::West => 3,
            Direction::East => 4,
            Direction::SouthWest => 5,
            Direction::South => 6,
            Direction::SouthEast => 7,
            Direction::Nowhere => 8,
        }
    }

    pub fn opposite(&self) -> (r: Self)
        ensures
            r == self.spec_opposite(),
            r.rank_step() == -self.rank_step(),
            r.file_step() == -self.file_step(),
    {
        match self {
            Self::NorthWest => Self::SouthEast,
            Self::North => Self::South,
            Self::NorthEast => Self::SouthWest,
            Self::West => Self::East,
            Self::East => Self::West,
            Self::SouthWest => Self::NorthEast,
            Self::South => Self::North,
            Self::SouthEast => Self::NorthWest,
            Self::Nowhere => Self::Nowhere,
        }
    }

    pub fn is_diagonal(&self) -> (r: bool)
        ensures
            r == self.spec_is_diagonal(),
    {
        match self {
            Self::NorthWest | Self::NorthEast | Self::SouthWest | Self::SouthEast => true,
            _ => false,
        }
    }

    pub fn is_straight(&self) -> (r: bool)
        ensures
            r == self.spec_is_straight(),
    {
        match self {
            Self::North | Self::West | Self::East | Self::South => true,
            _ => false,
        }
    }

    pub fn is_horizontal(&self) -> (r: bool)
        ensures
            r == (*self == Direction::West || *self == Direction::East),
    {
        match self {
            Self::West | Self::East => true,
            _ => false,
        }
    }
}

/// Turning around twice faces the same way again; only `Nowhere` is its own opposite.
pub proof fn lemma_opposite_involutive(d: Direction)
    ensures
        d.spec_opposite().spec_opposite() == d,
        d.spec_opposite() == d <==> d == Direction::Nowhere,
        d.spec_opposite().spec_is_diagonal() == d.spec_is_diagonal(),
        d.spec_opposite().spec_is_straight() == d.spec_is_straight(),
{
}

} // verus!
