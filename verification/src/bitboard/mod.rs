pub mod constants;
pub mod error;
pub mod picture;
pub mod square;

use vstd::prelude::*;
use vstd::std_specs::bits::u64_trailing_zeros;

use crate::bits::{
    bit_set, lemma_bit_and, lemma_bit_not, lemma_bit_or, lemma_bit_single, lemma_bit_xor, lemma_bit_zero, lemma_highest_bit,
    lemma_lowest_bit, lemma_popcount_bound, lemma_popcount_clear_lowest, lemma_shift_step, popcount,
    single,
};

use self::square::{file_of, rank_of, Square};

verus! {

/// A set of squares: bit `i` of the word stands for the square with index `i`.
#[derive(Debug, Default, Clone, Copy, PartialEq, Eq, PartialOrd, Ord, Structural)]
pub struct Bitboard(pub u64);

/// Every square.
pub const ALL_BITS: u64 = 0xFFFF_FFFF_FFFF_FFFFu64;

/// No square.
pub const EMPTY: u64 = 0u64;

/// Whether `v` lists squares in strictly increasing order.
pub open spec fn strictly_increasing(v: Seq<Square>) -> bool {
    forall|a: int, b: int| 0 <= a < b < v.len() ==> v[a].index < v[b].index
}

impl Bitboard {
    /// Whether the square with index `i` is in the set.
    pub open spec fn has(self, i: int) -> bool {
        0 <= i < 64 && bit_set(self.0, i as u64)
    }

    pub fn from_bits(bits: u64) -> (r: Self)
        ensures
            r.0 == bits,
    {
        Self(bits)
    }

    /// The set holding only the square with the given index.
    pub fn from_index(index: u8) -> (r: Self)
        requires
            index < 64,
        ensures
            r.0 == single(index as u64),
            forall|j: int| r.has(j) <==> j == index,
    {
        proof {
            assert forall|j: int| #[trigger] Self(single(index as u64)).has(j) <==> j == index by {
                if 0 <= j < 64 {
                    lemma_bit_single(index as u64, j as u64);
                }
            }
        }
        Self(1u64 << index)
    }

    /// The set holding only `square`.
    pub fn from_square(square: Square) -> (r: Self)
        requires
            square.wf(),
        ensures
            r.0 == single(square.index as u64),
            forall|j: int| r.has(j) <==> j == square.index,
    {
        Self::from_index(square.index)
    }

    pub fn bits(&self) -> (r: u64)
        ensures
            r == self.0,
    {
        self.0
    }

    /// Index of the lowest square in the set; 64 for the empty set.
    pub fn get_trailing_index(&self) -> (r: u8)
        ensures
            r == u64_trailing_zeros(self.0),
            self.0 == 0 ==> r == 64,
            self.0 != 0 ==> r < 64 && self.has(r as int) && forall|j: int|
                0 <= j < r ==> !self.has(j),
    {
        proof {
            if self.0 != 0 {
                lemma_lowest_bit(self.0);
                assert forall|j: int| 0 <= j < u64_trailing_zeros(self.0) implies !self.has(j) by {
                    assert(!bit_set(self.0, j as u64));
                }
            } else {
                vstd::std_specs::bits::axiom_u64_trailing_zeros(self.0);
            }
        }
        self.0.trailing_zeros() as u8
    }

    /// Index of the highest square in a non-empty set.
    pub fn get_leading_index(&self) -> (r: u8)
        requires
            self.0 != 0,
        ensures
            r < 64,
            self.has(r as int),
            forall|j: int| r < j < 64 ==> !self.has(j),
    {
        proof {
            lemma_highest_bit(self.0);
            assert forall|j: int| (63 - vstd::std_specs::bits::u64_leading_zeros(self.0)) < j
                < 64 implies !self.has(j) by {
                assert(!bit_set(self.0, j as u64));
            }
        }
        let lz = self.0.leading_zeros();
        63 - lz as u8
    }

    /// Whether the two sets share a square.
    pub fn is_set(&self, other: Bitboard) -> (r: bool)
        ensures
            r == (self.0 & other.0 != 0),
            r <==> exists|j: int| self.has(j) && other.has(j),
    {
        let combined = self.0 & other.0;
        proof {
            if combined != 0 {
                lemma_lowest_bit(combined);
                let t = u64_trailing_zeros(combined) as u64;
                lemma_bit_and(self.0, other.0, t);
                assert(self.has(t as int) && other.has(t as int));
            } else {
                assert forall|j: int| !(self.has(j) && other.has(j)) by {
                    if 0 <= j < 64 {
                        lemma_bit_and(self.0, other.0, j as u64);
                        lemma_bit_zero(j as u64);
                    }
                }
            }
        }
        combined != 0
    }

    pub fn is_empty(&self) -> (r: bool)
        ensures
            r == (self.0 == 0),
    {
        self.0 == 0
    }

    /// Number of squares in the set.
    pub fn count_ones(&self) -> (r: usize)
        ensures
            r == popcount(self.0),
            r <= 64,
    {
        let x = self.0;
        let mut count: usize = 0;
        let mut i: u64 = 0;
        proof {
            assert(x >> 0u64 == x) by (bit_vector);
            lemma_popcount_bound(x);
        }
        while i < 64
            invariant
                i <= 64,
                count + popcount(x >> i) == popcount(x),
                count <= i,
                popcount(x) <= 64,
            decreases 64 - i,
        {
            proof {
                lemma_shift_step(x, i);
                let y = x >> i;
                if y != 0 {
                    assert(popcount(y) == (y % 2) as nat + popcount(y / 2));
                }
            }
            count = count + ((x >> i) & 1) as usize;
            i = i + 1;
        }
        proof {
            assert(x >> 64u64 == 0) by (bit_vector);
        }
        count
    }

    /// Removes the lowest square of a non-empty set and returns it.
    pub fn pop_trailing(&mut self) -> (r: Square)
        requires
            old(self).0 != 0,
        ensures
            r.wf(),
            old(self).has(r.index as int),
            forall|j: int| 0 <= j < r.index ==> !old(self).has(j),
            final(self).0 == old(self).0 & ((old(self).0 - 1) as u64),
            forall|j: int| final(self).has(j) <==> (old(self).has(j) && j != r.index),
    {
        let index = self.get_trailing_index();
        let square = Square::by_index(index);
        proof {
            lemma_lowest_bit(self.0);
            assert forall|j: int| #[trigger] Self(self.0 ^ single(index as u64)).has(j) <==> (self.has(j)
                && j != index) by {
                if 0 <= j < 64 {
                    lemma_bit_xor(self.0, single(index as u64), j as u64);
                    lemma_bit_single(index as u64, j as u64);
                }
            }
        }
        self.0 = self.0 ^ Bitboard::from_index(index).0;
        square
    }

    /// Removes the highest square of a non-empty set and returns it.
    pub fn pop_leading(&mut self) -> (r: Square)
        requires
            old(self).0 != 0,
        ensures
            r.wf(),
            old(self).has(r.index as int),
            forall|j: int| r.index < j < 64 ==> !old(self).has(j),
            final(self).0 == old(self).0 ^ single(r.index as u64),
            forall|j: int| final(self).has(j) <==> (old(self).has(j) && j != r.index),
    {
        let index = self.get_leading_index();
        let square = Square::by_index(index);
        proof {
            assert forall|j: int| #[trigger] Self(self.0 ^ single(index as u64)).has(j) <==> (self.has(j)
                && j != index) by {
                if 0 <= j < 64 {
                    lemma_bit_xor(self.0, single(index as u64), j as u64);
                    lemma_bit_single(index as u64, j as u64);
                }
            }
        }
        self.0 = self.0 ^ Bitboard::from_index(index).0;
        square
    }

    /// The index a magic multiplier hashes this set of blockers to: the top `ones` bits of
    /// the wrapped product.
    pub fn get_magic_index(&self, magic: u64, ones: usize) -> (r: usize)
        requires
            1 <= ones <= 64,
        ensures
            r == (vstd::wrapping::u64_specs::wrapping_mul(self.0, magic) >> ((64 - ones) as u64)) as usize,
    {
        (self.0.wrapping_mul(magic) >> (64 - ones as u64)) as usize
    }

    /// Whether a multiplier spreads this mask over the top byte enough to be worth trying:
    /// at least six of the top eight bits of the wrapped product are set.
    pub fn is_magic_canidate(&self, magic: u64) -> (r: bool)
        ensures
            r == (popcount(vstd::wrapping::u64_specs::wrapping_mul(self.0, magic)
                & 0xFF00000000000000u64) >= 6),
    {
        let candidate = self.0.wrapping_mul(magic) & 0xFF00000000000000u64;
        Bitboard(candidate).count_ones() >= 6
    }

    /// The squares of the set, lowest first.
    pub fn get_squares(&self) -> (r: Vec<Square>)
        ensures
            r.len() == popcount(self.0),
            strictly_increasing(r@),
            forall|k: int| 0 <= k < r.len() ==> r[k].wf() && self.has(r[k].index as int),
            forall|j: int| self.has(j) ==> exists|k: int| 0 <= k < r.len() && r[k].index == j,
    {
        let mut squares: Vec<Square> = Vec::new();
        let mut rest = *self;
        proof {
            lemma_popcount_bound(self.0);
        }
        while !rest.is_empty()
            invariant
                squares.len() + popcount(rest.0) == popcount(self.0),
                popcount(self.0) <= 64,
                strictly_increasing(squares@),
                forall|k: int| 0 <= k < squares.len() ==> squares[k].wf() && self.has(squares[k].index as int),
                forall|j: int| rest.has(j) ==> self.has(j),
                forall|j: int| rest.has(j) ==> forall|k: int| 0 <= k < squares.len() ==> squares[k].index < j,
                forall|j: int| self.has(j) && !rest.has(j) ==> exists|k: int| 0 <= k < squares.len() && squares[k].index == j,
            decreases popcount(rest.0),
        {
            proof {
                lemma_popcount_clear_lowest(rest.0);
            }
            let ghost old_rest = rest;
            let ghost old_squares = squares@;
            let square = rest.pop_trailing();
            squares.push(square);
            proof {
                assert forall|j: int| self.has(j) && !rest.has(j) implies exists|k: int| 0 <= k < squares.len() && squares[k].index == j by {
                    if j == square.index {
                        assert(squares[squares.len() - 1].index == j);
                    } else {
                        assert(!old_rest.has(j));
                        let k = choose|k: int| 0 <= k < old_squares.len() && old_squares[k].index == j;
                        assert(squares@[k] == old_squares[k]);
                    }
                }
            }
        }
        proof {
            assert forall|j: int| !rest.has(j) by {
                if 0 <= j < 64 {
                    lemma_bit_zero(j as u64);
                }
            }
        }
        squares
    }

    /// The set holding only the square on `rank` and `file`.
    pub fn square(rank: u8, file: u8) -> (r: Self)
        requires
            rank <= 7,
            file <= 7,
        ensures
            r.0 == single((rank * 8 + file) as u64),
    {
        let index = (rank * 8) + file;
        Bitboard::index(index as usize)
    }

    /// The set holding only the square with the given index.
    pub fn index(index: usize) -> (r: Self)
        requires
            index < 64,
        ensures
            r.0 == single(index as u64),
    {
        Self(1u64 << index as u64)
    }

    /// Index of the lowest square in the set; 64 for the empty set.
    pub fn get_index(&self) -> (r: u32)
        ensures
            r == u64_trailing_zeros(self.0),
    {
        self.0.trailing_zeros()
    }

    /// Rank (counted from 1) and file letter of the lowest square in the set, or `(0, '0')`
    /// for the empty set.
    pub fn get_rank_file(&self) -> (r: (u8, char))
        ensures
            self.0 == 0 ==> r == (0u8, '0'),
            self.0 != 0 ==> r.0 == rank_of(u64_trailing_zeros(self.0) as int) + 1 && r.1 == (
            'a' as int + file_of(u64_trailing_zeros(self.0) as int)) as char,
    {
        if self.0 == 0 {
            return (0, '0');
        }
        let index = self.get_trailing_index();
        let rank = (index / 8) + 1;
        let file = index % 8;
        let file = (97u8 + file) as char;
        (rank, file)
    }
}

impl core::ops::BitAnd for Bitboard {
    type Output = Bitboard;

    fn bitand(self, rhs: Bitboard) -> (r: Bitboard) {
        Bitboard(self.0 & rhs.0)
    }
}

impl vstd::std_specs::ops::BitAndSpecImpl for Bitboard {
    open spec fn obeys_bitand_spec() -> bool {
        true
    }

    open spec fn bitand_req(self, rhs: Bitboard) -> bool {
        true
    }

    open spec fn bitand_spec(self, rhs: Bitboard) -> Bitboard {
        Bitboard(self.0 & rhs.0)
    }
}

impl core::ops::BitOr for Bitboard {
    type Output = Bitboard;

    fn bitor(self, rhs: Bitboard) -> (r: Bitboard) {
        Bitboard(self.0 | rhs.0)
    }
}

impl vstd::std_specs::ops::BitOrSpecImpl for Bitboard {
    open spec fn obeys_bitor_spec() -> bool {
        true
    }

    open spec fn bitor_req(self, rhs: Bitboard) -> bool {
        true
    }

    open spec fn bitor_spec(self, rhs: Bitboard) -> Bitboard {
        Bitboard(self.0 | rhs.0)
    }
}

impl core::ops::BitXor for Bitboard {
    type Output = Bitboard;

    fn bitxor(self, rhs: Bitboard) -> (r: Bitboard) {
        Bitboard(self.0 ^ rhs.0)
    }
}

impl vstd::std_specs::ops::BitXorSpecImpl for Bitboard {
    open spec fn obeys_bitxor_spec() -> bool {
        true
    }

    open spec fn bitxor_req(self, rhs: Bitboard) -> bool {
        true
    }

    open spec fn bitxor_spec(self, rhs: Bitboard) -> Bitboard {
        Bitboard(self.0 ^ rhs.0)
    }
}

impl core::ops::Not for Bitboard {
    type Output = Bitboard;

    fn not(self) -> (r: Bitboard) {
        Bitboard(!self.0)
    }
}

impl vstd::std_specs::ops::NotSpecImpl for Bitboard {
    open spec fn obeys_not_spec() -> bool {
        true
    }

    open spec fn not_req(self) -> bool {
        true
    }

    open spec fn not_spec(self) -> Bitboard {
        Bitboard(!self.0)
    }
}

/// Membership in the results of the set operations.
pub proof fn lemma_set_ops(a: Bitboard, b: Bitboard, j: int)
    ensures
        Bitboard(a.0 & b.0).has(j) == (a.has(j) && b.has(j)),
        Bitboard(a.0 | b.0).has(j) == (a.has(j) || b.has(j)),
        Bitboard(a.0 ^ b.0).has(j) == (a.has(j) != b.has(j)),
        Bitboard(!a.0).has(j) == (0 <= j < 64 && !a.has(j)),
{
    if 0 <= j < 64 {
        lemma_bit_and(a.0, b.0, j as u64);
        lemma_bit_or(a.0, b.0, j as u64);
        lemma_bit_xor(a.0, b.0, j as u64);
        lemma_bit_not(a.0, j as u64);
    }
}

} // verus!
