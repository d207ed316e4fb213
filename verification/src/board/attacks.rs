use vstd::prelude::*;
use vstd::std_specs::bits::u64_trailing_zeros;

use core::ops::Not;

use crate::bitboard::square::Square;
use crate::bitboard::Bitboard;
use crate::bits::{bit_set, bits_where, lemma_bits_where, lemma_xor_facts, popcount, single};
use crate::lookup::{between_target, bishop_target, king_target, knight_target, pawn_attack_target, rook_target};

use super::color::Color;
use super::piece::Piece;
use super::{Board, PinCheckState};

verus! {

/// The squares strictly between `p` and `k` on their common line.
pub open spec fn between_bits(p: int, k: int) -> u64 {
    bits_where(|m: int| between_target(p, k, m))
}

/// The occupied squares between a slider on `p` and the king on `k`.
pub open spec fn pin_term(p: int, k: int, occ: u64) -> u64 {
    between_bits(p, k) & occ
}

/// The sliders (among `sliders`, squares below `n`) with nothing between them and the king.
pub open spec fn check_fold(sliders: u64, k: int, occ: u64, n: nat) -> u64
    decreases n,
{
    if n == 0 {
        0
    } else {
        let p = n - 1;
        check_fold(sliders, k, occ, (n - 1) as nat) ^ (if bit_set(sliders, p as u64) && pin_term(p, k, occ) == 0 {
            single(p as u64)
        } else {
            0
        })
    }
}

/// The squares standing alone between a slider (among `sliders`, squares below `n`) and the
/// king, accumulated by exclusive or.
pub open spec fn pin_fold(sliders: u64, k: int, occ: u64, n: nat) -> u64
    decreases n,
{
    if n == 0 {
        0
    } else {
        let p = n - 1;
        pin_fold(sliders, k, occ, (n - 1) as nat) ^ (if bit_set(sliders, p as u64) && popcount(pin_term(p, k, occ)) == 1 {
            pin_term(p, k, occ)
        } else {
            0
        })
    }
}

/// Square of the lowest piece on `color`'s king board (the king, where there is one).
pub open spec fn king_square_of(b: Board, color: Color) -> int {
    u64_trailing_zeros(b.piece_board(color, Piece::King).0) as int
}

/// The squares of the pieces of the side other than `color`.
pub open spec fn their_squares(b: Board, color: Color) -> u64 {
    if color == Color::White {
        b.black.0
    } else {
        b.white.0
    }
}

/// The bishops, rooks and queens of the side other than `color` that the king of `color`
/// on `k` sees along a line on which only pieces of its own side may stand between.
pub open spec fn slider_hits(b: Board, color: Color, k: int) -> u64 {
    let occ = their_squares(b, color);
    let other = color.opposite();
    let queens = b.piece_board(other, Piece::Queen).0;
    (bits_where(|j: int| bishop_target(k, occ, j)) & (b.piece_board(other, Piece::Bishop).0 | queens))
        ^ (bits_where(|j: int| rook_target(k, occ, j)) & (b.piece_board(other, Piece::Rook).0 | queens))
}

/// The pins and checks computed for the king of `color`: the squares standing alone between
/// a slider it sees through its own pieces and itself, and the sliders with nothing between, the knights a knight's
/// jump away and the pawns that attack it.
pub open spec fn pin_check_for(b: Board, color: Color) -> PinCheckState {
    let k = king_square_of(b, color);
    let occ = b.occupied.0;
    let other = color.opposite();
    let sliders = slider_hits(b, color, k);
    PinCheckState {
        pinned: Bitboard(pin_fold(sliders, k, occ, 64)),
        checkers: Bitboard(check_fold(sliders, k, occ, 64) ^ (bits_where(|j: int| knight_target(k, j))
            & b.piece_board(other, Piece::Knight).0) ^ (bits_where(|j: int| pawn_attack_target(color, k, j))
            & b.piece_board(other, Piece::Pawn).0)),
    }
}

/// Squares below `n` holding no slider leave both folds as they were at `a`.
proof fn lemma_fold_skip(sliders: u64, k: int, occ: u64, a: nat, n: nat)
    requires
        a <= n <= 64,
        forall|j: int| a <= j < n ==> !#[trigger] bit_set(sliders, j as u64),
    ensures
        check_fold(sliders, k, occ, n) == check_fold(sliders, k, occ, a),
        pin_fold(sliders, k, occ, n) == pin_fold(sliders, k, occ, a),
    decreases n,
{
    if n > a {
        lemma_fold_skip(sliders, k, occ, a, (n - 1) as nat);
        assert(!bit_set(sliders, (n - 1) as u64));
        lemma_xor_facts(check_fold(sliders, k, occ, (n - 1) as nat), 0, 0);
        lemma_xor_facts(pin_fold(sliders, k, occ, (n - 1) as nat), 0, 0);
    }
}

proof fn lemma_between_bits(x: u64, p: int, k: int)
    requires
        forall|m: int| #[trigger] Bitboard(x).has(m) <==> between_target(p, k, m),
    ensures
        between_bits(p, k) == x,
{
    assert forall|i: u64| i < 64 implies (#[trigger] bit_set(x, i) == between_target(p, k, i as int)) by {
        assert(Bitboard(x).has(i as int) <==> between_target(p, k, i as int));
    }
    lemma_bits_where(x, |m: int| between_target(p, k, m));
}

proof fn lemma_bishop_bits(x: u64, k: int, occ: u64)
    requires
        forall|j: int| #[trigger] Bitboard(x).has(j) <==> bishop_target(k, occ, j),
    ensures
        bits_where(|j: int| bishop_target(k, occ, j)) == x,
{
    assert forall|i: u64| i < 64 implies (#[trigger] bit_set(x, i) == bishop_target(k, occ, i as int)) by {
        assert(Bitboard(x).has(i as int) <==> bishop_target(k, occ, i as int));
    }
    lemma_bits_where(x, |j: int| bishop_target(k, occ, j));
}

proof fn lemma_rook_bits(x: u64, k: int, occ: u64)
    requires
        forall|j: int| #[trigger] Bitboard(x).has(j) <==> rook_target(k, occ, j),
    ensures
        bits_where(|j: int| rook_target(k, occ, j)) == x,
{
    assert forall|i: u64| i < 64 implies (#[trigger] bit_set(x, i) == rook_target(k, occ, i as int)) by {
        assert(Bitboard(x).has(i as int) <==> rook_target(k, occ, i as int));
    }
    lemma_bits_where(x, |j: int| rook_target(k, occ, j));
}

proof fn lemma_knight_bits(x: u64, k: int)
    requires
        forall|j: int| #[trigger] Bitboard(x).has(j) <==> knight_target(k, j),
    ensures
        bits_where(|j: int| knight_target(k, j)) == x,
{
    assert forall|i: u64| i < 64 implies (#[trigger] bit_set(x, i) == knight_target(k, i as int)) by {
        assert(Bitboard(x).has(i as int) <==> knight_target(k, i as int));
    }
    lemma_bits_where(x, |j: int| knight_target(k, j));
}

proof fn lemma_pawn_bits(x: u64, color: Color, k: int)
    requires
        forall|j: int| #[trigger] Bitboard(x).has(j) <==> pawn_attack_target(color, k, j),
    ensures
        bits_where(|j: int| pawn_attack_target(color, k, j)) == x,
{
    assert forall|i: u64| i < 64 implies (#[trigger] bit_set(x, i) == pawn_attack_target(color, k, i as int)) by {
        assert(Bitboard(x).has(i as int) <==> pawn_attack_target(color, k, i as int));
    }
    lemma_bits_where(x, |j: int| pawn_attack_target(color, k, j));
}

/// The squares a piece of kind `piece` and colour `color` on `q` attacks, with `occ`
/// occupied.
pub open spec fn attack_target(piece: Piece, color: Color, q: int, occ: u64, j: int) -> bool {
    match piece {
        Piece::Pawn => pawn_attack_target(color, q, j),
        Piece::Knight => knight_target(q, j),
        Piece::Bishop => bishop_target(q, occ, j),
        Piece::Rook => rook_target(q, occ, j),
        Piece::Queen => rook_target(q, occ, j) || bishop_target(q, occ, j),
        Piece::King => king_target(q, j),
        Piece::NoPiece => false,
    }
}

/// A piece of `color` on square `p` attacks square `j`, with `occ` occupied.
pub open spec fn attacks_from_square(b: Board, color: Color, occ: u64, p: int, j: int) -> bool {
    b.pieces@[p] matches Some(cp) && cp.color == color && attack_target(cp.piece, color, p, occ, j)
}

/// Some piece of `color` attacks square `j`, with `occ` occupied.
pub open spec fn attacked_by(b: Board, color: Color, occ: u64, j: int) -> bool {
    exists|p: int| 0 <= p < 64 && attacks_from_square(b, color, occ, p, j)
}

/// The squares a piece of kind `piece` and colour `color` on `square` attacks, with
/// `occupancy` occupied.
pub fn piece_attacks(piece: Piece, color: Color, square: Square, occupancy: Bitboard) -> (r: Bitboard)
    requires
        square.wf(),
        piece.is_real(),
    ensures
        forall|j: int| 0 <= j < 64 ==> (#[trigger] r.has(j) <==> attack_target(piece, color, square.index as int, occupancy.0, j)),
{
    match piece {
        Piece::Pawn => square.get_pawn_attacks(color),
        Piece::Knight => square.get_knight_moves(),
        Piece::Bishop => square.get_bishop_attacks(occupancy),
        Piece::Rook => square.get_rook_attacks(occupancy),
        Piece::Queen => {
            let rooks = square.get_rook_attacks(occupancy);
            let bishops = square.get_bishop_attacks(occupancy);
            let both = rooks | bishops;
            proof {
                assert forall|j: int| 0 <= j < 64 implies (#[trigger] both.has(j) <==> attack_target(piece, color, square.index as int, occupancy.0, j)) by {
                    crate::bitboard::lemma_set_ops(rooks, bishops, j);
                }
            }
            both
        },
        _ => square.get_king_moves(),
    }
}

impl<'a> Board<'a> {
    /// The bitboard of `color`'s pieces of kind `piece`.
    pub fn get_piece_board(&self, color: Color, piece: Piece) -> (r: &Bitboard)
        requires
            self.shaped(),
            piece.is_real(),
        ensures
            *r == self.piece_board(color, piece),
    {
        &self.bitboards[color.index() * 6 + piece.index()]
    }

    /// The squares of `color`'s pieces.
    pub fn get_occupied(&self, color: Color) -> (r: &Bitboard)
        ensures
            *r == (if color == Color::White { self.white } else { self.black }),
    {
        match color {
            Color::White => &self.white,
            Color::Black => &self.black,
        }
    }

    /// The squares of all pieces.
    pub fn get_all_occupied(&self) -> (r: &Bitboard)
        ensures
            *r == self.occupied,
    {
        &self.occupied
    }

    /// Number of `color`'s pieces of kind `piece`.
    pub fn get_piece_count(&self, color: Color, piece: Piece) -> (r: usize)
        requires
            self.shaped(),
            piece.is_real(),
        ensures
            r == popcount(self.piece_board(color, piece).0),
    {
        let bitboard = self.get_piece_board(color, piece);
        bitboard.count_ones()
    }

    /// The square of `color`'s king; there must be exactly one.
    pub fn get_king_square(&self, color: Color) -> (r: Square)
        requires
            self.shaped(),
            popcount(self.piece_board(color, Piece::King).0) == 1,
        ensures
            r.wf(),
            r.index == king_square_of(*self, color),
            self.piece_board(color, Piece::King).has(r.index as int),
    {
        let king_bb = *self.get_piece_board(color, Piece::King);
        let index = king_bb.get_trailing_index();
        let square = Square::by_index(index);
        square
    }

    /// The squares of `color`'s pieces of kind `piece`, lowest first.
    pub fn get_squares_by_piece(&self, color: Color, piece: Piece) -> (r: Vec<Square>)
        requires
            self.shaped(),
            piece.is_real(),
        ensures
            r.len() == popcount(self.piece_board(color, piece).0),
            crate::bitboard::strictly_increasing(r@),
            forall|k: int| 0 <= k < r.len() ==> r[k].wf() && self.piece_board(color, piece).has(r[k].index as int),
            forall|j: int| self.piece_board(color, piece).has(j) ==> exists|k: int| 0 <= k < r.len() && r[k].index == j,
    {
        let pieces = *self.get_piece_board(color, piece);
        pieces.get_squares()
    }

    /// Pins and checks against the king of the side to move, as `pin_check_for` defines them.
    pub fn get_pin_check_state(&self) -> (r: PinCheckState)
        requires
            self.shaped(),
            popcount(self.piece_board(self.gamestate.active, Piece::King).0) == 1,
        ensures
            r == pin_check_for(*self, self.gamestate.active),
    {
        let color = self.gamestate.active;
        let other = color.not();

        let king_square = self.get_king_square(color);
        let all_occupied = *self.get_all_occupied();
        let their_occupied = *self.get_occupied(other);
        let ghost k = king_square.index as int;
        let ghost occ = all_occupied.0;
        let ghost theirs = their_occupied.0;

        let mut pinners = Bitboard(0);

        let queens = *self.get_piece_board(other, Piece::Queen);

        // The sliders look through the pieces of the side to move, so that a piece standing
        // alone between one of them and the king is found as pinned.
        let bishops = *self.get_piece_board(other, Piece::Bishop);
        let bishop_attacks = king_square.get_bishop_attacks(their_occupied);
        pinners = pinners ^ (bishop_attacks & (bishops | queens));

        let rooks = *self.get_piece_board(other, Piece::Rook);
        let rook_attacks = king_square.get_rook_attacks(their_occupied);
        pinners = pinners ^ (rook_attacks & (rooks | queens));

        proof {
            lemma_bishop_bits(bishop_attacks.0, k, theirs);
            lemma_rook_bits(rook_attacks.0, k, theirs);
            lemma_xor_facts(0, bishop_attacks.0 & (bishops.0 | queens.0), 0);
            lemma_xor_facts(bishop_attacks.0 & (bishops.0 | queens.0), 0, 0);
            assert(pinners.0 == slider_hits(*self, color, k));
        }

        let mut checkers = Bitboard(0);
        let mut pinned = Bitboard(0);

        let mut rest = pinners;
        let ghost mut n: nat = 0;
        while !rest.is_empty()
            invariant
                n <= 64,
                king_square.wf(),
                king_square.index == k,
                all_occupied.0 == occ,
                forall|j: int| #[trigger] rest.has(j) <==> (pinners.has(j) && j >= n),
                checkers.0 == check_fold(pinners.0, k, occ, n),
                pinned.0 == pin_fold(pinners.0, k, occ, n),
            decreases 64 - n,
        {
            let ghost before = rest;
            let pinner = rest.pop_trailing();
            let ghost p = pinner.index as int;
            proof {
                assert forall|j: int| n <= j < p implies !#[trigger] bit_set(pinners.0, j as u64) by {
                    assert(!before.has(j));
                }
                lemma_fold_skip(pinners.0, k, occ, n, p as nat);
            }
            let between_line = pinner.get_between(king_square);
            let between = between_line & all_occupied;
            proof {
                lemma_between_bits(between_line.0, p, k);
                assert(between.0 == pin_term(p, k, occ));
                assert(bit_set(pinners.0, p as u64)) by {
                    assert(pinners.has(p));
                }
            }
            if between.is_empty() {
                checkers = checkers ^ Bitboard::from_square(pinner);
            } else if between.count_ones() == 1 {
                pinned = pinned ^ between;
            }
            proof {
                if between.0 == 0 {
                    crate::bits::lemma_bit_zero(0);
                    assert(popcount(0) == 0);
                }
                lemma_xor_facts(checkers.0, 0, 0);
                lemma_xor_facts(pinned.0, 0, 0);
                lemma_xor_facts(check_fold(pinners.0, k, occ, p as nat), 0, 0);
                lemma_xor_facts(pin_fold(pinners.0, k, occ, p as nat), 0, 0);
                n = (p + 1) as nat;
            }
        }
        proof {
            assert forall|j: int| n <= j < 64 implies !#[trigger] bit_set(pinners.0, j as u64) by {
                assert(rest.0 == 0);
                crate::bits::lemma_bit_zero(j as u64);
                assert(!rest.has(j));
                assert(!pinners.has(j));
            }
            lemma_fold_skip(pinners.0, k, occ, n, 64);
        }

        let knights = *self.get_piece_board(other, Piece::Knight);
        let knight_moves = king_square.get_knight_moves();
        checkers = checkers ^ (knight_moves & knights);

        let pawns = *self.get_piece_board(other, Piece::Pawn);
        let pawn_attacks = king_square.get_pawn_attacks(color);
        checkers = checkers ^ (pawn_attacks & pawns);

        proof {
            lemma_knight_bits(knight_moves.0, k);
            lemma_pawn_bits(pawn_attacks.0, color, k);
        }

        PinCheckState::new(pinned, checkers)
    }

    /// The squares attacked by the side not to move, looking through the king of the side to
    /// move (whose square counts as empty for sliding pieces).
    pub fn attacked(&self) -> (r: Bitboard)
        requires
            self.consistent(),
        ensures
            forall|j: int| 0 <= j < 64 ==> (#[trigger] r.has(j) <==> attacked_by(
                *self,
                self.gamestate.active.opposite(),
                self.occupied.0 ^ self.piece_board(self.gamestate.active, Piece::King).0,
                j,
            )),
    {
        let active = self.gamestate.active;
        let other = active.not();
        let king = *self.get_piece_board(active, Piece::King);
        let occupancy = Bitboard(self.occupied.0 ^ king.0);
        let ghost occ = occupancy.0;
        proof {
            super::lemma_consistent_real(*self);
        }

        let mut attacked = Bitboard(0);
        let mut q: u8 = 0;
        proof {
            assert forall|j: int| 0 <= j < 64 implies !#[trigger] attacked.has(j) by {
                crate::bits::lemma_bit_zero(j as u64);
            }
        }
        while q < 64
            invariant
                q <= 64,
                self.consistent(),
                self.pieces_real(),
                other == active.opposite(),
                active == self.gamestate.active,
                occupancy.0 == occ,
                forall|j: int| 0 <= j < 64 ==> (#[trigger] attacked.has(j) <==> exists|p: int|
                    0 <= p < q && attacks_from_square(*self, other, occ, p, j)),
            decreases 64 - q,
        {
            let square = Square::by_index(q);
            let ghost before = attacked;
            match self.get_piece_type(square) {
                Some(colored_piece) => {
                    if colored_piece.color == other {
                        let targets = piece_attacks(colored_piece.piece, other, square, occupancy);
                        attacked = attacked | targets;
                        proof {
                            assert forall|j: int| 0 <= j < 64 implies (#[trigger] attacked.has(j) <==> exists|p: int|
                                0 <= p < q + 1 && attacks_from_square(*self, other, occ, p, j)) by {
                                crate::bitboard::lemma_set_ops(before, targets, j);
                                if targets.has(j) {
                                    assert(attacks_from_square(*self, other, occ, q as int, j));
                                }
                                if exists|p: int| 0 <= p < q + 1 && attacks_from_square(*self, other, occ, p, j) {
                                    let p = choose|p: int| 0 <= p < q + 1 && attacks_from_square(*self, other, occ, p, j);
                                    if p < q {
                                        assert(before.has(j));
                                    }
                                }
                            }
                        }
                    } else {
                        proof {
                            assert forall|j: int| 0 <= j < 64 implies (#[trigger] attacked.has(j) <==> exists|p: int|
                                0 <= p < q + 1 && attacks_from_square(*self, other, occ, p, j)) by {
                                if exists|p: int| 0 <= p < q + 1 && attacks_from_square(*self, other, occ, p, j) {
                                    let p = choose|p: int| 0 <= p < q + 1 && attacks_from_square(*self, other, occ, p, j);
                                    assert(p != q);
                                }
                            }
                        }
                    }
                },
                None => {
                    proof {
                        assert forall|j: int| 0 <= j < 64 implies (#[trigger] attacked.has(j) <==> exists|p: int|
                            0 <= p < q + 1 && attacks_from_square(*self, other, occ, p, j)) by {
                            if exists|p: int| 0 <= p < q + 1 && attacks_from_square(*self, other, occ, p, j) {
                                let p = choose|p: int| 0 <= p < q + 1 && attacks_from_square(*self, other, occ, p, j);
                                assert(p != q);
                            }
                        }
                    }
                },
            }
            q = q + 1;
        }
        attacked
    }
}

} // verus!
